// Tests of the embedded language: builtins, special forms, the prelude,
// and the debug rendering surface.

use lisp_sheet::debug::{debug_eval_expr, debug_parse_expr};
use lisp_sheet::parser::{interpret_cell, parse, Expr, InterpretCellResult};

fn bits(x: f32) -> u32 {
    x.to_bits()
}

#[test]
fn numeric_literal_round_trip() {
    // the parsed literal carries exactly the bits of the written number
    assert_eq!(parse("-2.5e2"), Ok(Expr::Number(bits(-2.5e2))));
    assert_eq!(parse("+3"), Ok(Expr::Number(bits(3.0))));
    assert_eq!(parse(".5"), Ok(Expr::Number(bits(0.5))));
    assert_eq!(parse("5."), Ok(Expr::Number(bits(5.0))));
}

#[test]
fn string_escape_round_trip() {
    // escaping and parsing invert each other
    assert_eq!(parse("\"a\\\"b\\nc\""), Ok(Expr::String("a\"b\nc".into())));
    assert_eq!(parse("\"\""), Ok(Expr::String("".into())));
}

#[test]
fn empty_sum_and_product() {
    assert_eq!(debug_eval_expr("(+)").unwrap(), "Number(0)");
    assert_eq!(debug_eval_expr("(*)").unwrap(), "Number(1)");
}

#[test]
fn multiplication_folds() {
    assert_eq!(debug_eval_expr("(* 2 3 4)").unwrap(), "Number(24)");
}

#[test]
fn list_builtins() {
    assert_eq!(debug_eval_expr("(car (cons 1 nil))").unwrap(), "Number(1)");
    assert_eq!(
        debug_eval_expr("(car (cdr (cons 1 (cons 2 nil))))").unwrap(),
        "Number(2)"
    );
    assert_eq!(debug_eval_expr("(nil? (cdr (cons 1 nil)))").unwrap(), "#t");
    assert_eq!(debug_eval_expr("(nil? 0)").unwrap(), "#f");
    assert!(debug_eval_expr("(car nil)").is_err());
    assert!(debug_eval_expr("(cdr nil)").is_err());
    assert!(debug_eval_expr("(cons 1 2)").is_err());
}

#[test]
fn type_builtin_tags() {
    assert_eq!(debug_eval_expr("(type 1)").unwrap(), "String(\"number\")");
    assert_eq!(debug_eval_expr("(type \"x\")").unwrap(), "String(\"string\")");
    assert_eq!(debug_eval_expr("(type nil)").unwrap(), "String(\"nil\")");
    assert_eq!(
        debug_eval_expr("(type (nil? nil))").unwrap(),
        "String(\"bool\")"
    );
}

#[test]
fn show_builtin_renders() {
    assert_eq!(
        debug_eval_expr("(show 42)").unwrap(),
        "String(\"Number(42)\")"
    );
}

#[test]
fn def_and_begin() {
    assert_eq!(
        debug_eval_expr("(begin (def x 7) (+ x 1))").unwrap(),
        "Number(8)"
    );
    // a def alone evaluates to nil
    assert_eq!(debug_eval_expr("(def y 1)").unwrap(), "Nil");
}

#[test]
fn defun_and_recursion() {
    assert_eq!(
        debug_eval_expr("(begin (defun twice (x) (* 2 x)) (twice 21))").unwrap(),
        "Number(42)"
    );
}

#[test]
fn quote_keeps_structure() {
    assert_eq!(
        debug_eval_expr("(quote (1 2))").unwrap(),
        "List([Number(1), Number(2)])"
    );
}

#[test]
fn fn_is_a_lambda_synonym() {
    assert_eq!(debug_eval_expr("((fn (x) (+ x 2)) 5)").unwrap(), "Number(7)");
}

#[test]
fn keywords_resolve_to_nil_in_debug_eval() {
    assert_eq!(debug_eval_expr("(nil? :a1)").unwrap(), "#t");
}

#[test]
fn undefined_name_is_an_error() {
    assert!(debug_eval_expr("nosuchthing").is_err());
    assert!(debug_eval_expr("()").is_err());
}

#[test]
fn debug_parse_renders_tree() {
    assert_eq!(debug_parse_expr("42"), "Number(42)");
    assert_eq!(debug_parse_expr("(a 1)"), "List([Symbol(a), Number(1)])");
    assert!(debug_parse_expr("(unclosed").starts_with("ERROR: "));
}

#[test]
fn rendering_escapes_string_contents() {
    // embedded quotes and newlines render escaped, as they were written
    assert_eq!(debug_parse_expr("\"a\\\"b\""), "String(\"a\\\"b\")");
    assert_eq!(debug_parse_expr("\"a\\nb\""), "String(\"a\\nb\")");
}

#[test]
fn interpret_cell_classifies() {
    match interpret_cell("42").unwrap() {
        InterpretCellResult::Number(n) => assert_eq!(n, bits(42.0)),
        _ => panic!("expected a number"),
    }
    match interpret_cell("hello").unwrap() {
        InterpretCellResult::Text(t) => assert_eq!(t, "hello"),
        _ => panic!("expected text"),
    }
    match interpret_cell("=(+ 1 2)").unwrap() {
        InterpretCellResult::Expr(_) => {}
        _ => panic!("expected a formula"),
    }
    assert!(interpret_cell("=(").is_err());
    match interpret_cell("").unwrap() {
        InterpretCellResult::Text(t) => assert_eq!(t, ""),
        _ => panic!("expected text"),
    }
}

#[test]
fn prelude_filter_works() {
    let mut sheet = lisp_sheet::sheet::Sheet::new();
    sheet
        .set_cell(
            lisp_sheet::sheet::SheetAddress { row: 0, col: 0 },
            "=(apply + (filter (lambda (x) (nil? nil)) (cons 1 (cons 2 nil))))".to_string(),
        )
        .unwrap();
    // the predicate keeps every element, so the sum covers both
    let info = sheet.get_cell(&lisp_sheet::sheet::SheetAddress { row: 0, col: 0 });
    assert_eq!(info.value.render(), "3");
}

#[test]
fn arity_mismatch_is_silent() {
    // extra arguments are ignored; missing ones fail on use
    assert_eq!(debug_eval_expr("((lambda (x) x) 1 2)").unwrap(), "Number(1)");
    assert!(debug_eval_expr("((lambda (x y) (+ x y)) 1)").is_err());
}
