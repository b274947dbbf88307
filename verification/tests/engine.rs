// Tests of the parser, the compiler, the evaluator and the value model.

use lisp_sheet::interpreter::builtins::{builtin_name, call_builtin};
use lisp_sheet::interpreter::evaluator::EmptyKeywordResolver;
use lisp_sheet::interpreter::{compile, Builtin, Env, Instruction, Value};
use lisp_sheet::parser::{parse, Expr};

fn bits(x: f32) -> u32 {
    x.to_bits()
}

#[test]
fn interpreter_test_value_from_expr() {
    assert_eq!(Value::from_expr(&Expr::Number(bits(2.0))), Value::Number(bits(2.0)));
}

#[test]
fn model_test_value_from_expr() {
    assert_eq!(Value::from_expr(&Expr::Number(bits(2.0))), Value::Number(bits(2.0)));
}

#[test]
fn interpreter_test_compile_simple() {
    let program = compile(&Expr::from_string("(+ 1 2)").unwrap()).unwrap();
    assert_eq!(
        program.instructions,
        vec![
            Instruction::LoadName("+".to_string()),
            Instruction::LoadConst(Box::new(Value::Number(bits(1.0)))),
            Instruction::LoadConst(Box::new(Value::Number(bits(2.0)))),
            Instruction::CallFunction { nargs: 2 },
        ]
    );
}

#[test]
fn compiler_test_compile_simple() {
    let program = compile(&Expr::from_string("(+ 1 2)").unwrap()).unwrap();
    assert_eq!(
        program.instructions,
        vec![
            Instruction::LoadName("+".to_string()),
            Instruction::LoadConst(Box::new(Value::Number(bits(1.0)))),
            Instruction::LoadConst(Box::new(Value::Number(bits(2.0)))),
            Instruction::CallFunction { nargs: 2 },
        ]
    );
}

#[test]
fn interpreter_test_plus_builtin() {
    assert_eq!(
        call_builtin(
            Builtin::Plus,
            vec![Value::Number(bits(3.0)), Value::Number(bits(4.0))]
        )
        .unwrap(),
        Value::Number(bits(7.0))
    );
    assert_eq!(builtin_name(Builtin::Plus), "+");
}

#[test]
fn builtins_test_plus_builtin() {
    assert_eq!(
        call_builtin(
            Builtin::Plus,
            vec![Value::Number(bits(3.0)), Value::Number(bits(4.0))]
        )
        .unwrap(),
        Value::Number(bits(7.0))
    );
    assert_eq!(builtin_name(Builtin::Plus), "+");
}

#[test]
fn interpreter_test_full_eval() {
    let env = Env::with_builtins();
    let program = compile(&Expr::from_string("(+ 1 2)").unwrap()).unwrap();
    let res = lisp_sheet::interpreter::evaluator::eval(&program, env, &EmptyKeywordResolver)
        .unwrap();
    assert_eq!(res, Value::Number(bits(3.0)));
}

#[test]
fn evaluator_test_full_eval() {
    let env = Env::with_builtins();
    let program = compile(&Expr::from_string("(+ 1 2)").unwrap()).unwrap();
    let res = lisp_sheet::interpreter::evaluator::eval(&program, env, &EmptyKeywordResolver)
        .unwrap();
    assert_eq!(res, Value::Number(bits(3.0)));
}

#[test]
fn test_parse_int_number() {
    assert_eq!(parse("42"), Ok(Expr::Number(bits(42.0))));
}

#[test]
fn test_parse_float_number() {
    assert_eq!(parse("1.234"), Ok(Expr::Number(bits(1.234))));
}

#[test]
fn test_parse_simple_string() {
    assert_eq!(parse(r#""hello""#), Ok(Expr::String("hello".into())));
}

#[test]
fn test_parse_string_with_newline_escape() {
    assert_eq!(
        parse(r#""hello\nworld""#),
        Ok(Expr::String("hello\nworld".into()))
    );
}

#[test]
fn test_parse_string_with_quote_escape() {
    assert_eq!(
        parse(r#""hello\"world""#),
        Ok(Expr::String("hello\"world".into()))
    );
}

#[test]
fn test_parse_symbol() {
    assert_eq!(parse("foobar"), Ok(Expr::Symbol("foobar".into())));
}

#[test]
fn test_parse_keyword() {
    assert_eq!(parse(":foo"), Ok(Expr::Keyword("foo".into())));
}

#[test]
fn test_parse_list() {
    assert_eq!(
        parse("(1 2)"),
        Ok(Expr::List(vec![
            Expr::Number(bits(1.0)),
            Expr::Number(bits(2.0))
        ]))
    );
    assert_eq!(
        parse("(hey (you :guy))"),
        Ok(Expr::List(vec![
            Expr::Symbol("hey".into()),
            Expr::List(vec![
                Expr::Symbol("you".into()),
                Expr::Keyword("guy".into()),
            ])
        ]))
    );
}

#[test]
fn test_expr_walk() {
    let expr = Expr::List(vec![
        Expr::List(vec![
            Expr::Number(bits(42.0)),
            Expr::String("hello".into()),
        ]),
        Expr::List(vec![
            Expr::String("world".into()),
            Expr::Symbol("baz".into()),
        ]),
        Expr::String("blah".into()),
    ]);

    let mut visitor = lisp_sheet::parser::AtomCollector::new();
    expr.walk(&mut visitor);
    assert_eq!(visitor.numbers, vec![bits(42.0)]);
    assert_eq!(
        visitor.strings,
        vec!["hello".to_string(), "world".to_string(), "blah".to_string()]
    );
    assert_eq!(visitor.symbols, vec!["baz".to_string()]);
}

#[test]
fn test_parse_ident() {
    // identifier texts read as symbols; an all-digit text reads as a
    // number, since the grammar tries numbers first
    assert_eq!(parse("foo"), Ok(Expr::Symbol("foo".into())));
    assert_eq!(parse("foo_bar"), Ok(Expr::Symbol("foo_bar".into())));
    assert_eq!(parse("foo_123"), Ok(Expr::Symbol("foo_123".into())));
    assert_eq!(parse("123"), Ok(Expr::Number(bits(123.0))));
    assert_eq!(parse("+-"), Ok(Expr::Symbol("+-".into())));
    assert_eq!(parse("nil?"), Ok(Expr::Symbol("nil?".into())));
}

#[test]
fn test_parse_error() {
    let res = parse("(asdf");
    assert!(res.is_err());
}
