//! The compiler: an expression tree becomes a flat instruction sequence.
//! The emission rules are stated by `compile_spec` and its helpers; the
//! executable compiler is proved to emit exactly that code.

use vstd::prelude::*;

use crate::error::{AppError, AppResult};
use crate::interpreter::builtins::{prelude_source, prelude_text};
use crate::interpreter::model::{
    instr_view, instrs_view, lemma_instrs_view, lemma_instrs_view_concat, lemma_values_view,
    value_of_expr, value_view, values_of_exprs, values_view, Instruction, InstrView, Value,
    ValueView,
};
use crate::parser::{
    expr_view, exprs_view, lemma_exprs_view, parse, parse_expr_spec, Expr, ExprView,
};

verus! {

/// A compiled program.
pub struct Program {
    pub instructions: Vec<Instruction>,
}

impl Program {
    pub open spec fn view_code(self) -> Seq<InstrView> {
        instrs_view(self.instructions@)
    }
}

pub open spec fn is_sym(e: ExprView, s: Seq<char>) -> bool {
    e matches ExprView::Symbol(n) && n == s
}

pub open spec fn all_symbols(ps: Seq<ExprView>) -> bool {
    forall|i: int| 0 <= i < ps.len() ==> (#[trigger] ps[i]) is Symbol
}

/// The code of an expression.
pub open spec fn compile_spec(e: ExprView) -> Result<Seq<InstrView>, ()>
    decreases e, 2int,
{
    match e {
        ExprView::Number(_) => Result::Ok(seq![InstrView::LoadConst(value_of_expr(e))]),
        ExprView::Str(_) => Result::Ok(seq![InstrView::LoadConst(value_of_expr(e))]),
        ExprView::Boolean(_) => Result::Ok(seq![InstrView::LoadConst(value_of_expr(e))]),
        ExprView::Keyword(k) => Result::Ok(seq![InstrView::LoadKeyword(k)]),
        ExprView::Symbol(s) => Result::Ok(seq![InstrView::LoadName(s)]),
        ExprView::List(es) => compile_form(es),
    }
}

/// The code of a list form: a special form when the head symbol and the
/// shape match one, otherwise a function application; the empty list does
/// not compile.
pub open spec fn compile_form(es: Seq<ExprView>) -> Result<Seq<InstrView>, ()>
    decreases es, 1int,
{
    if es.len() == 0 {
        Result::Err(())
    } else if is_sym(es[0], "defun"@) && es.len() == 4 && es[1] is Symbol && es[2] is List {
        // (defun name (params) body) reads as (def name (fn (params) body))
        match compile_lambda(es[2]->List_0, es[3]) {
            Result::Err(()) => Result::Err(()),
            Result::Ok(f) => Result::Ok(
                f + seq![
                    InstrView::StoreName(es[1]->Symbol_0),
                    InstrView::LoadConst(ValueView::Nil),
                ],
            ),
        }
    } else if is_sym(es[0], "def"@) && es.len() == 3 && es[1] is Symbol {
        match compile_spec(es[2]) {
            Result::Err(()) => Result::Err(()),
            Result::Ok(b) => Result::Ok(
                b + seq![
                    InstrView::StoreName(es[1]->Symbol_0),
                    InstrView::LoadConst(ValueView::Nil),
                ],
            ),
        }
    } else if is_sym(es[0], "begin"@) {
        compile_begin(es.drop_first())
    } else if is_sym(es[0], "quote"@) && es.len() == 2 {
        Result::Ok(seq![InstrView::LoadConst(value_of_expr(es[1]))])
    } else if (is_sym(es[0], "lambda"@) || is_sym(es[0], "fn"@)) && es.len() == 3 && es[1]
        is List {
        compile_lambda(es[1]->List_0, es[2])
    } else if is_sym(es[0], "if"@) && es.len() == 4 {
        match (compile_spec(es[1]), compile_spec(es[2]), compile_spec(es[3])) {
            (Result::Ok(c), Result::Ok(a), Result::Ok(b)) => {
                if b.len() + 1 <= i32::MAX && a.len() <= i32::MAX {
                    Result::Ok(
                        c + seq![InstrView::RelativeJumpIfTrue(b.len() as int + 1)] + b + seq![
                            InstrView::RelativeJump(a.len() as int),
                        ] + a,
                    )
                } else {
                    Result::Err(())
                }
            },
            _ => Result::Err(()),
        }
    } else if is_sym(es[0], "apply"@) && es.len() == 3 {
        match (compile_spec(es[1]), compile_spec(es[2])) {
            (Result::Ok(f), Result::Ok(a)) => Result::Ok(f + a + seq![InstrView::ApplyFunction]),
            _ => Result::Err(()),
        }
    } else {
        match compile_seq_all(es) {
            Result::Err(()) => Result::Err(()),
            Result::Ok(c) => {
                if es.len() - 1 <= i32::MAX {
                    Result::Ok(c + seq![InstrView::CallFunction(es.len() - 1)])
                } else {
                    Result::Err(())
                }
            },
        }
    }
}

/// The codes of all expressions, concatenated in order.
pub open spec fn compile_seq_all(es: Seq<ExprView>) -> Result<Seq<InstrView>, ()>
    decreases es, 0int,
{
    if es.len() == 0 {
        Result::Ok(Seq::empty())
    } else {
        match (compile_seq_all(es.drop_last()), compile_spec(es.last())) {
            (Result::Ok(a), Result::Ok(b)) => Result::Ok(a + b),
            _ => Result::Err(()),
        }
    }
}

/// The code of a `begin` body: each expression in turn, the value of every
/// one but the last discarded.
pub open spec fn compile_begin(rest: Seq<ExprView>) -> Result<Seq<InstrView>, ()>
    decreases rest, 0int,
{
    if rest.len() == 0 {
        Result::Ok(Seq::empty())
    } else if rest.len() == 1 {
        compile_spec(rest[0])
    } else {
        match (compile_spec(rest[0]), compile_begin(rest.drop_first())) {
            (Result::Ok(c), Result::Ok(r)) => Result::Ok(
                c + seq![InstrView::DiscardValue] + r,
            ),
            _ => Result::Err(()),
        }
    }
}

/// The code of a function literal: the parameter symbols as a constant
/// list, the compiled body as a constant code object, and `MakeFunction`.
/// Every parameter must be a symbol.
pub open spec fn compile_lambda(ps: Seq<ExprView>, body: ExprView) -> Result<Seq<InstrView>, ()>
    decreases body, 3int,
{
    if !all_symbols(ps) {
        Result::Err(())
    } else {
        match compile_spec(body) {
            Result::Err(()) => Result::Err(()),
            Result::Ok(bc) => Result::Ok(
                seq![
                    InstrView::LoadConst(ValueView::List(values_of_exprs(ps))),
                    InstrView::LoadConst(ValueView::CompiledCode(bc)),
                    InstrView::MakeFunction,
                ],
            ),
        }
    }
}

proof fn lemma_compile_seq_err_prefix(es: Seq<ExprView>, k: int)
    requires
        0 <= k <= es.len(),
        compile_seq_all(es.take(k)) is Err,
    ensures
        compile_seq_all(es) is Err,
    decreases es.len(),
{
    if k == es.len() {
        assert(es.take(k) =~= es);
    } else {
        assert(es.drop_last().take(k) =~= es.take(k));
        lemma_compile_seq_err_prefix(es.drop_last(), k);
    }
}

pub proof fn lemma_instrs_view_push(s: Seq<Instruction>, x: Instruction)
    ensures
        instrs_view(s.push(x)) == instrs_view(s).push(instr_view(x)),
{
    lemma_instrs_view_concat(s, seq![x]);
    assert(s + seq![x] =~= s.push(x));
    assert(seq![x].drop_first() =~= Seq::<Instruction>::empty());
    assert(instrs_view(seq![x]) == seq![instr_view(seq![x][0])] + instrs_view(
        seq![x].drop_first(),
    ));
    assert(instrs_view(seq![x]) =~= seq![instr_view(x)]);
    assert(instrs_view(s) + seq![instr_view(x)] =~= instrs_view(s).push(instr_view(x)));
}

fn sym_is(s: &String, lit: &str) -> (r: bool)
    ensures
        r == (s@ == lit@),
{
    let owned = String::from_str(lit);
    s.eq(&owned)
}

/// Emits the code of `expr` at the end of `out`.
#[verifier::loop_isolation(false)]
#[verifier::rlimit(100)]
fn compile_to_instructions(expr: &Expr, out: &mut Vec<Instruction>) -> (r: AppResult<()>)
    ensures
        match compile_spec(expr_view(*expr)) {
            Result::Ok(code) => r is Ok && instrs_view(final(out)@) == instrs_view(old(out)@)
                + code,
            Result::Err(()) => r is Err,
        },
    decreases *expr, 2int,
{
    match expr {
        Expr::Number(_) | Expr::String(_) | Expr::Boolean(_) => {
            out.push(Instruction::LoadConst(Box::new(Value::from_expr(expr))));
            proof {
                lemma_instrs_view_push(old(out)@, final(out)@.last());
                assert(instrs_view(final(out)@) =~= instrs_view(old(out)@) + seq![
                    InstrView::LoadConst(value_of_expr(expr_view(*expr))),
                ]);
            }
            Ok(())
        },
        Expr::Keyword(kw) => {
            out.push(Instruction::LoadKeyword(kw.clone()));
            proof {
                lemma_instrs_view_push(old(out)@, final(out)@.last());
                assert(instrs_view(final(out)@) =~= instrs_view(old(out)@) + seq![
                    InstrView::LoadKeyword(kw@),
                ]);
            }
            Ok(())
        },
        Expr::Symbol(sym) => {
            out.push(Instruction::LoadName(sym.clone()));
            proof {
                lemma_instrs_view_push(old(out)@, final(out)@.last());
                assert(instrs_view(final(out)@) =~= instrs_view(old(out)@) + seq![
                    InstrView::LoadName(sym@),
                ]);
            }
            Ok(())
        },
        Expr::List(elems) => {
            proof {
                lemma_exprs_view(elems@);
            }
            compile_list_form(expr, elems, out)
        },
    }
}

/// Emits the code of a list form.
#[verifier::loop_isolation(false)]
#[verifier::rlimit(100)]
fn compile_list_form(expr: &Expr, elems: &Vec<Expr>, out: &mut Vec<Instruction>) -> (r: AppResult<
    (),
>)
    requires
        *expr == Expr::List(*elems),
    ensures
        match compile_form(exprs_view(elems@)) {
            Result::Ok(code) => r is Ok && instrs_view(final(out)@) == instrs_view(old(out)@)
                + code,
            Result::Err(()) => r is Err,
        },
    decreases *expr, 1int,
{
    let ghost es = exprs_view(elems@);
    proof {
        lemma_exprs_view(elems@);
        assert(decreases_to!(*expr => expr->List_0));
        assert(expr->List_0 == *elems);
        assert(decreases_to!(*elems => elems@));
        assert forall|i: int| 0 <= i < elems@.len() implies decreases_to!(*expr => elems@[i]) by {
            assert(decreases_to!(elems@ => elems@[i]));
        }
    }
    if elems.len() == 0 {
        return Err(AppError::new("Cannot evaluate an empty list"));
    }
    let head_is_defun = match &elems[0] {
        Expr::Symbol(s) => sym_is(s, "defun"),
        _ => false,
    };
    let head_is_def = match &elems[0] {
        Expr::Symbol(s) => sym_is(s, "def"),
        _ => false,
    };
    let head_is_begin = match &elems[0] {
        Expr::Symbol(s) => sym_is(s, "begin"),
        _ => false,
    };
    let head_is_quote = match &elems[0] {
        Expr::Symbol(s) => sym_is(s, "quote"),
        _ => false,
    };
    let head_is_lambda = match &elems[0] {
        Expr::Symbol(s) => sym_is(s, "lambda") || sym_is(s, "fn"),
        _ => false,
    };
    let head_is_if = match &elems[0] {
        Expr::Symbol(s) => sym_is(s, "if"),
        _ => false,
    };
    let head_is_apply = match &elems[0] {
        Expr::Symbol(s) => sym_is(s, "apply"),
        _ => false,
    };
    proof {
        assert(head_is_defun == is_sym(es[0], "defun"@));
        assert(head_is_def == is_sym(es[0], "def"@));
        assert(head_is_begin == is_sym(es[0], "begin"@));
        assert(head_is_quote == is_sym(es[0], "quote"@));
        assert(head_is_lambda == (is_sym(es[0], "lambda"@) || is_sym(es[0], "fn"@)));
        assert(head_is_if == is_sym(es[0], "if"@));
        assert(head_is_apply == is_sym(es[0], "apply"@));
    }
    if head_is_defun && elems.len() == 4 && matches!(&elems[1], Expr::Symbol(_)) && matches!(
        &elems[2],
        Expr::List(_),
    ) {
        let params: &Vec<Expr> = match &elems[2] {
            Expr::List(ps) => ps,
            _ => {
                proof {
                    assert(false);
                }
                elems
            },
        };
        proof {
            assert(es[2]->List_0 == exprs_view(params@));
        }
        match compile_lambda_exec(params, &elems[3], out) {
            Ok(()) => {},
            Err(e) => {
                return Err(e);
            },
        }
        let name = match &elems[1] {
            Expr::Symbol(s) => s.clone(),
            _ => {
                proof {
                    assert(false);
                }
                String::new()
            },
        };
        let ghost mid = out@;
        out.push(Instruction::StoreName(name));
        out.push(Instruction::LoadConst(Box::new(Value::Nil)));
        proof {
            lemma_instrs_view_push(mid, Instruction::StoreName(name));
            lemma_instrs_view_push(
                mid.push(Instruction::StoreName(name)),
                Instruction::LoadConst(Box::new(Value::Nil)),
            );
            assert(instrs_view(final(out)@) =~= instrs_view(old(out)@) + (compile_lambda(
                es[2]->List_0,
                es[3],
            )->Ok_0 + seq![
                InstrView::StoreName(es[1]->Symbol_0),
                InstrView::LoadConst(ValueView::Nil),
            ]));
        }
        Ok(())
    } else if head_is_def && elems.len() == 3 && matches!(&elems[1], Expr::Symbol(_)) {
        match compile_to_instructions(&elems[2], out) {
            Ok(()) => {},
            Err(e) => {
                return Err(e);
            },
        }
        let name = match &elems[1] {
            Expr::Symbol(s) => s.clone(),
            _ => {
                proof {
                    assert(false);
                }
                String::new()
            },
        };
        let ghost mid = out@;
        out.push(Instruction::StoreName(name));
        out.push(Instruction::LoadConst(Box::new(Value::Nil)));
        proof {
            lemma_instrs_view_push(mid, Instruction::StoreName(name));
            lemma_instrs_view_push(
                mid.push(Instruction::StoreName(name)),
                Instruction::LoadConst(Box::new(Value::Nil)),
            );
            assert(instrs_view(final(out)@) =~= instrs_view(old(out)@) + (compile_spec(
                es[2],
            )->Ok_0 + seq![
                InstrView::StoreName(es[1]->Symbol_0),
                InstrView::LoadConst(ValueView::Nil),
            ]));
        }
        Ok(())
    } else if head_is_begin {
        compile_begin_exec(expr, elems, out)
    } else if head_is_quote && elems.len() == 2 {
        out.push(Instruction::LoadConst(Box::new(Value::from_expr(&elems[1]))));
        proof {
            lemma_instrs_view_push(old(out)@, final(out)@.last());
            assert(instrs_view(final(out)@) =~= instrs_view(old(out)@) + seq![
                InstrView::LoadConst(value_of_expr(es[1])),
            ]);
        }
        Ok(())
    } else if head_is_lambda && elems.len() == 3 && matches!(&elems[1], Expr::List(_)) {
        let params: &Vec<Expr> = match &elems[1] {
            Expr::List(ps) => ps,
            _ => {
                proof {
                    assert(false);
                }
                elems
            },
        };
        proof {
            assert(es[1]->List_0 == exprs_view(params@));
        }
        compile_lambda_exec(params, &elems[2], out)
    } else if head_is_if && elems.len() == 4 {
        compile_if_exec(expr, elems, out)
    } else if head_is_apply && elems.len() == 3 {
        match compile_to_instructions(&elems[1], out) {
            Ok(()) => {},
            Err(e) => {
                return Err(e);
            },
        }
        match compile_to_instructions(&elems[2], out) {
            Ok(()) => {},
            Err(e) => {
                return Err(e);
            },
        }
        let ghost mid = out@;
        out.push(Instruction::ApplyFunction);
        proof {
            lemma_instrs_view_push(mid, Instruction::ApplyFunction);
            let f = compile_spec(es[1])->Ok_0;
            let a = compile_spec(es[2])->Ok_0;
            assert(instrs_view(final(out)@) =~= instrs_view(old(out)@) + (f + a + seq![
                InstrView::ApplyFunction,
            ]));
        }
        Ok(())
    } else {
        compile_app_exec(expr, elems, out)
    }
}

/// Emits a `begin` body: each element of the form after the head, a
/// `DiscardValue` after every one but the last.
#[verifier::loop_isolation(false)]
#[verifier::rlimit(100)]
fn compile_begin_exec(expr: &Expr, elems: &Vec<Expr>, out: &mut Vec<Instruction>) -> (r: AppResult<
    (),
>)
    requires
        *expr == Expr::List(*elems),
        elems@.len() >= 1,
    ensures
        match compile_begin(exprs_view(elems@).drop_first()) {
            Result::Ok(code) => r is Ok && instrs_view(final(out)@) == instrs_view(old(out)@)
                + code,
            Result::Err(()) => r is Err,
        },
    decreases *expr, 0int,
{
    let ghost es = exprs_view(elems@);
    proof {
        lemma_exprs_view(elems@);
        assert(decreases_to!(*expr => expr->List_0));
        assert(expr->List_0 == *elems);
        assert(decreases_to!(*elems => elems@));
        assert forall|i: int| 0 <= i < elems@.len() implies decreases_to!(*expr => elems@[i]) by {
            assert(decreases_to!(elems@ => elems@[i]));
        }
    }
    let mut k: usize = 1;
    let ghost rest = es.drop_first();
    proof {
        assert(rest.len() == elems@.len() - 1);
        assert(rest.skip(0) =~= rest);
    }
    while k < elems.len()
        invariant
            1 <= k <= elems@.len(),
            (match compile_begin(rest.skip(k - 1)) {
                Result::Ok(rc) => compile_begin(rest) matches Result::Ok(whole) && instrs_view(
                    out@,
                ) + rc == instrs_view(old(out)@) + whole,
                Result::Err(()) => compile_begin(rest) is Err,
            }),
        decreases elems@.len() - k,
    {
        proof {
            assert(rest.skip(k - 1)[0] == es[k as int]);
            assert(rest.skip(k - 1).drop_first() =~= rest.skip(k as int));
        }
        match compile_to_instructions(&elems[k], out) {
            Ok(()) => {},
            Err(e) => {
                return Err(e);
            },
        }
        if k + 1 < elems.len() {
            let ghost mid = out@;
            out.push(Instruction::DiscardValue);
            proof {
                lemma_instrs_view_push(mid, Instruction::DiscardValue);
            }
        }
        proof {
            if k + 1 < elems@.len() {
                assert(rest.skip(k - 1).len() > 1);
            } else {
                assert(rest.skip(k - 1).len() == 1);
            }
        }
        k = k + 1;
    }
    proof {
        match compile_begin(rest.skip(k - 1)) {
            Result::Ok(rc) => {
                assert(rest.skip(k - 1).len() == 0);
                assert(rc =~= Seq::<InstrView>::empty());
                assert(instrs_view(out@) + rc =~= instrs_view(out@));
            },
            Result::Err(()) => {},
        }
    }
    Ok(())
}

/// Emits an `if` form: the condition, a conditional jump over the false
/// branch, the false branch, a jump over the true branch, the true branch.
#[verifier::loop_isolation(false)]
#[verifier::rlimit(100)]
fn compile_if_exec(expr: &Expr, elems: &Vec<Expr>, out: &mut Vec<Instruction>) -> (r: AppResult<
    (),
>)
    requires
        *expr == Expr::List(*elems),
        elems@.len() == 4,
    ensures
        ({
            let es = exprs_view(elems@);
            match (compile_spec(es[1]), compile_spec(es[2]), compile_spec(es[3])) {
                (Result::Ok(c), Result::Ok(a), Result::Ok(b)) => {
                    if b.len() + 1 <= i32::MAX && a.len() <= i32::MAX {
                        r is Ok && instrs_view(final(out)@) == instrs_view(old(out)@) + (c + seq![
                            InstrView::RelativeJumpIfTrue(b.len() as int + 1),
                        ] + b + seq![InstrView::RelativeJump(a.len() as int)] + a)
                    } else {
                        r is Err
                    }
                },
                _ => r is Err,
            }
        }),
    decreases *expr, 0int,
{
    let ghost es = exprs_view(elems@);
    proof {
        lemma_exprs_view(elems@);
        assert(decreases_to!(*expr => expr->List_0));
        assert(expr->List_0 == *elems);
        assert(decreases_to!(*elems => elems@));
        assert forall|i: int| 0 <= i < elems@.len() implies decreases_to!(*expr => elems@[i]) by {
            assert(decreases_to!(elems@ => elems@[i]));
        }
    }
    match compile_to_instructions(&elems[1], out) {
        Ok(()) => {},
        Err(e) => {
            return Err(e);
        },
    }
    let true_code = match compile_to_vec(&elems[2]) {
        Ok(v) => v,
        Err(e) => {
            return Err(e);
        },
    };
    let false_code = match compile_to_vec(&elems[3]) {
        Ok(v) => v,
        Err(e) => {
            return Err(e);
        },
    };
    proof {
        lemma_instrs_view(true_code@);
        lemma_instrs_view(false_code@);
    }
    if false_code.len() >= i32::MAX as usize || true_code.len() > i32::MAX as usize {
        return Err(AppError::new("Branch too long to compile"));
    }
    let ghost mid = out@;
    out.push(Instruction::RelativeJumpIfTrue { offset: (false_code.len() + 1) as i32 });
    proof {
        lemma_instrs_view_push(
            mid,
            Instruction::RelativeJumpIfTrue { offset: (false_code.len() + 1) as i32 },
        );
    }
    let ghost mid2 = out@;
    let mut fc = false_code;
    let ghost fcs = fc@;
    out.append(&mut fc);
    proof {
        lemma_instrs_view_concat(mid2, fcs);
        assert(out@ == mid2 + fcs);
    }
    let ghost mid3 = out@;
    out.push(Instruction::RelativeJump { offset: true_code.len() as i32 });
    proof {
        lemma_instrs_view_push(mid3, Instruction::RelativeJump { offset: true_code.len() as i32 });
    }
    let ghost mid4 = out@;
    let mut tc = true_code;
    let ghost tcs = tc@;
    out.append(&mut tc);
    proof {
        lemma_instrs_view_concat(mid4, tcs);
        assert(out@ == mid4 + tcs);
        let c = compile_spec(es[1])->Ok_0;
        let a = compile_spec(es[2])->Ok_0;
        let b = compile_spec(es[3])->Ok_0;
        assert(instrs_view(final(out)@) =~= instrs_view(old(out)@) + (c + seq![
            InstrView::RelativeJumpIfTrue(b.len() as int + 1),
        ] + b + seq![InstrView::RelativeJump(a.len() as int)] + a));
    }
    Ok(())
}

/// Emits a function application: the head, each argument left to right,
/// then the call with the argument count.
#[verifier::loop_isolation(false)]
#[verifier::rlimit(100)]
fn compile_app_exec(expr: &Expr, elems: &Vec<Expr>, out: &mut Vec<Instruction>) -> (r: AppResult<
    (),
>)
    requires
        *expr == Expr::List(*elems),
        elems@.len() >= 1,
    ensures
        ({
            let es = exprs_view(elems@);
            match compile_seq_all(es) {
                Result::Ok(c) => {
                    if es.len() - 1 <= i32::MAX {
                        r is Ok && instrs_view(final(out)@) == instrs_view(old(out)@) + (c + seq![
                            InstrView::CallFunction(es.len() - 1),
                        ])
                    } else {
                        r is Err
                    }
                },
                Result::Err(()) => r is Err,
            }
        }),
    decreases *expr, 0int,
{
    let ghost es = exprs_view(elems@);
    proof {
        lemma_exprs_view(elems@);
        assert(decreases_to!(*expr => expr->List_0));
        assert(expr->List_0 == *elems);
        assert(decreases_to!(*elems => elems@));
        assert forall|i: int| 0 <= i < elems@.len() implies decreases_to!(*expr => elems@[i]) by {
            assert(decreases_to!(elems@ => elems@[i]));
        }
    }
    let mut k: usize = 0;
    while k < elems.len()
        invariant
            0 <= k <= elems@.len(),
            (match compile_seq_all(es.take(k as int)) {
                Result::Ok(c) => instrs_view(out@) == instrs_view(old(out)@) + c,
                Result::Err(()) => false,
            }),
        decreases elems@.len() - k,
    {
        proof {
            assert(es.take(k + 1).drop_last() =~= es.take(k as int));
            assert(es.take(k + 1).last() == es[k as int]);
        }
        match compile_to_instructions(&elems[k], out) {
            Ok(()) => {},
            Err(e) => {
                proof {
                    lemma_compile_seq_err_prefix(es, k + 1);
                }
                return Err(e);
            },
        }
        k = k + 1;
    }
    proof {
        assert(es.take(es.len() as int) =~= es);
    }
    let nargs = elems.len() - 1;
    if nargs > i32::MAX as usize {
        return Err(AppError::new("Too many arguments to compile"));
    }
    let ghost mid = out@;
    out.push(Instruction::CallFunction { nargs: nargs as i32 });
    proof {
        lemma_instrs_view_push(mid, Instruction::CallFunction { nargs: nargs as i32 });
        assert(instrs_view(final(out)@) =~= instrs_view(old(out)@) + (compile_seq_all(es)->Ok_0
            + seq![InstrView::CallFunction(es.len() - 1)]));
    }
    Ok(())
}

/// Emits a function literal: the parameter symbols, the compiled body, and
/// `MakeFunction`.
#[verifier::loop_isolation(false)]
fn compile_lambda_exec(params: &Vec<Expr>, body: &Expr, out: &mut Vec<Instruction>) -> (r:
    AppResult<()>)
    ensures
        match compile_lambda(exprs_view(params@), expr_view(*body)) {
            Result::Ok(code) => r is Ok && instrs_view(final(out)@) == instrs_view(old(out)@)
                + code,
            Result::Err(()) => r is Err,
        },
    decreases *body, 4int,
{
    let ghost ps = exprs_view(params@);
    proof {
        lemma_exprs_view(params@);
    }
    let mut syms: Vec<Value> = Vec::new();
    let mut k: usize = 0;
    while k < params.len()
        invariant
            k <= params@.len(),
            syms@.len() == k,
            forall|i: int| 0 <= i < k ==> (#[trigger] ps[i]) is Symbol,
            forall|i: int| 0 <= i < k ==> value_view(#[trigger] syms@[i]) == value_of_expr(ps[i]),
        decreases params@.len() - k,
    {
        match &params[k] {
            Expr::Symbol(s) => {
                syms.push(Value::Symbol(s.clone()));
            },
            _ => {
                proof {
                    assert(!(ps[k as int] is Symbol));
                    assert(!all_symbols(ps));
                }
                return Err(AppError::new("Expected symbol in parameter list"));
            },
        }
        k = k + 1;
    }
    proof {
        assert(all_symbols(ps));
        lemma_values_view(syms@);
        lemma_values_of_exprs_index(ps);
        assert(values_view(syms@) =~= values_of_exprs(ps));
    }
    let body_code = match compile_to_vec(body) {
        Ok(v) => v,
        Err(e) => {
            return Err(e);
        },
    };
    let ghost mid0 = out@;
    out.push(Instruction::LoadConst(Box::new(Value::List(syms))));
    proof {
        lemma_instrs_view_push(mid0, out@.last());
    }
    let ghost mid1 = out@;
    out.push(Instruction::LoadConst(Box::new(Value::CompiledCode(body_code))));
    proof {
        lemma_instrs_view_push(mid1, out@.last());
    }
    let ghost mid2 = out@;
    out.push(Instruction::MakeFunction);
    proof {
        lemma_instrs_view_push(mid2, Instruction::MakeFunction);
        assert(instrs_view(final(out)@) =~= instrs_view(old(out)@) + (seq![
            InstrView::LoadConst(ValueView::List(values_of_exprs(ps))),
            InstrView::LoadConst(ValueView::CompiledCode(compile_spec(expr_view(*body))->Ok_0)),
            InstrView::MakeFunction,
        ]));
    }
    Ok(())
}

proof fn lemma_values_of_exprs_index(es: Seq<ExprView>)
    ensures
        values_of_exprs(es).len() == es.len(),
        forall|i: int|
            0 <= i < es.len() ==> #[trigger] values_of_exprs(es)[i] == value_of_expr(es[i]),
    decreases es,
{
    if es.len() > 0 {
        lemma_values_of_exprs_index(es.drop_first());
        assert forall|i: int|
            0 <= i < es.len() implies #[trigger] values_of_exprs(es)[i] == value_of_expr(
            es[i],
        ) by {
            if i > 0 {
                assert(es.drop_first()[i - 1] == es[i]);
            }
        }
    }
}

/// Compiles an expression into a fresh instruction vector.
fn compile_to_vec(expr: &Expr) -> (r: AppResult<Vec<Instruction>>)
    ensures
        match compile_spec(expr_view(*expr)) {
            Result::Ok(code) => r matches Ok(v) && instrs_view(v@) == code,
            Result::Err(()) => r is Err,
        },
    decreases *expr, 3int,
{
    let mut out: Vec<Instruction> = Vec::new();
    proof {
        assert(instrs_view(out@) =~= Seq::<InstrView>::empty());
    }
    match compile_to_instructions(expr, &mut out) {
        Ok(()) => {
            proof {
                match compile_spec(expr_view(*expr)) {
                    Result::Ok(code) => {
                        assert(instrs_view(out@) =~= code);
                    },
                    Result::Err(()) => {},
                }
            }
            Ok(out)
        },
        Err(e) => Err(e),
    }
}

/// Compiles one expression to a program.
pub fn compile(expr: &Expr) -> (r: AppResult<Program>)
    ensures
        match compile_spec(expr_view(*expr)) {
            Result::Ok(code) => r matches Ok(p) && p.view_code() == code,
            Result::Err(()) => r is Err,
        },
{
    match compile_to_vec(expr) {
        Ok(v) => Ok(Program { instructions: v }),
        Err(e) => Err(e),
    }
}

/// The forms of the prelude program: the elements of the list its source
/// parses to.
pub open spec fn prelude_forms() -> Option<Seq<ExprView>> {
    match parse_expr_spec(prelude_text(), 0) {
        Option::Some((v, _j)) => match v {
            ExprView::List(forms) => Option::Some(forms),
            _ => Option::None,
        },
        Option::None => Option::None,
    }
}

/// Compiles `(begin <prelude forms> <expr>)`: the prelude's helper
/// definitions run before the expression.
pub fn compile_with_prelude(expr: &Expr) -> (r: AppResult<Program>)
    ensures
        match r {
            Ok(p) => prelude_forms() matches Some(forms) && compile_spec(
                ExprView::List(seq![ExprView::Symbol("begin"@)] + forms + seq![
                    expr_view(*expr),
                ]),
            ) == Result::<Seq<InstrView>, ()>::Ok(p.view_code()),
            Err(_) => prelude_forms() is None || (prelude_forms() matches Some(forms)
                && compile_spec(
                ExprView::List(seq![ExprView::Symbol("begin"@)] + forms + seq![
                    expr_view(*expr),
                ]),
            ) is Err),
        },
{
    let src = prelude_source();
    let parsed = match parse(src) {
        Ok(e) => e,
        Err(e) => {
            return Err(e);
        },
    };
    let ghost pv = expr_view(parsed);
    let forms_vec = match parsed {
        Expr::List(f) => f,
        _ => {
            return Err(AppError::new("Prelude did not parse to a list of forms"));
        },
    };
    let ghost forms0 = forms_vec@;
    proof {
        assert(pv == ExprView::List(exprs_view(forms0)));
        assert(prelude_forms() == Some(exprs_view(forms0)));
    }
    let mut combined: Vec<Expr> = Vec::new();
    combined.push(Expr::Symbol(String::from_str("begin")));
    let ghost head_seq = combined@;
    proof {
        assert(head_seq.len() == 1);
        assert(head_seq.drop_first() =~= Seq::<Expr>::empty());
        assert(exprs_view(head_seq) == seq![expr_view(head_seq[0])] + exprs_view(
            head_seq.drop_first(),
        ));
        assert(expr_view(head_seq[0]) == ExprView::Symbol("begin"@));
        assert(exprs_view(head_seq) =~= seq![ExprView::Symbol("begin"@)]);
    }
    let mut forms_m = forms_vec;
    combined.append(&mut forms_m);
    proof {
        lemma_exprs_view_concat(head_seq, forms0);
        assert(combined@ == head_seq + forms0);
    }
    let ghost mid = combined@;
    combined.push(expr.duplicate());
    proof {
        crate::parser::lemma_exprs_view_push(mid, combined@.last());
        assert(exprs_view(combined@) =~= seq![ExprView::Symbol("begin"@)] + exprs_view(forms0)
            + seq![expr_view(*expr)]);
    }
    let wrapped = Expr::List(combined);
    compile(&wrapped)
}

proof fn lemma_exprs_view_concat(a: Seq<Expr>, b: Seq<Expr>)
    ensures
        exprs_view(a + b) == exprs_view(a) + exprs_view(b),
{
    lemma_exprs_view(a);
    lemma_exprs_view(b);
    lemma_exprs_view(a + b);
    assert forall|i: int|
        0 <= i < (a + b).len() implies exprs_view(a + b)[i] == (exprs_view(a) + exprs_view(
        b,
    ))[i] by {
        if i < a.len() {
            assert((a + b)[i] == a[i]);
        } else {
            assert((a + b)[i] == b[i - a.len()]);
        }
    }
    assert(exprs_view(a + b) =~= exprs_view(a) + exprs_view(b));
}

} // verus!
