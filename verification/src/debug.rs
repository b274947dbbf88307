//! The debug surface: a stable rendering of expression trees, evaluation of
//! one expression under the empty keyword resolver, and the DOT dump of the
//! dependency graph.

use vstd::prelude::*;

use crate::error::AppResult;
use crate::interpreter::builtins::show_value;
use crate::interpreter::compiler::{compile, compile_spec};
use crate::interpreter::env::{builtins_table_view, FrameView};
use crate::interpreter::evaluator::{
    eval, run_spec, EmptyKeywordResolver, RunOutcome, EVAL_FUEL,
};
use crate::interpreter::env::Env;
use crate::numeric::{number_to_text, text_of_number};
use crate::parser::{expr_view, parse, parse_expr_spec, Expr, ExprView};

verus! {

/// The rendering of an expression tree.
pub open spec fn expr_text(v: ExprView) -> Seq<char>
    decreases v, 0int,
{
    match v {
        ExprView::Number(b) => "Number("@ + text_of_number(b) + ")"@,
        ExprView::Str(s) => "String(\""@ + crate::parser::escape_chars(s) + "\")"@,
        ExprView::Boolean(b) => if b {
            "Boolean(#t)"@
        } else {
            "Boolean(#f)"@
        },
        ExprView::Symbol(s) => "Symbol("@ + s + ")"@,
        ExprView::Keyword(s) => "Keyword("@ + s + ")"@,
        ExprView::List(es) => "List(["@ + expr_items(es) + "])"@,
    }
}

pub open spec fn expr_items(es: Seq<ExprView>) -> Seq<char>
    decreases es, 1int,
{
    if es.len() == 0 {
        Seq::empty()
    } else if es.len() == 1 {
        expr_text(es[0])
    } else {
        expr_text(es[0]) + ", "@ + expr_items(es.drop_first())
    }
}

proof fn lemma_expr_items_snoc(es: Seq<ExprView>, x: ExprView)
    ensures
        expr_items(es.push(x)) == if es.len() == 0 {
            expr_text(x)
        } else {
            expr_items(es) + ", "@ + expr_text(x)
        },
    decreases es.len(),
{
    let p = es.push(x);
    if es.len() == 0 {
        assert(p.len() == 1);
        assert(p[0] == x);
    } else {
        assert(p[0] == es[0]);
        assert(p.drop_first() =~= es.drop_first().push(x));
        lemma_expr_items_snoc(es.drop_first(), x);
        if es.len() == 1 {
            assert(expr_items(p) == expr_text(es[0]) + ", "@ + expr_items(p.drop_first()));
        } else {
            assert((expr_text(es[0]) + ", "@ + (expr_items(es.drop_first()) + ", "@ + expr_text(
                x,
            ))) =~= ((expr_text(es[0]) + ", "@ + expr_items(es.drop_first())) + ", "@ + expr_text(
                x,
            )));
        }
    }
}

/// Renders an expression tree as text.
#[verifier::loop_isolation(false)]
pub fn render_expr(e: &Expr) -> (r: String)
    ensures
        r@ == expr_text(expr_view(*e)),
    decreases *e,
{
    match e {
        Expr::Number(b) => {
            let t = number_to_text(*b);
            let mut m = String::from_str("Number(");
            m.append(t.as_str());
            m.append(")");
            m
        },
        Expr::String(s) => {
            let escaped = crate::numeric::chars_to_string(&crate::parser::escape_text(s.as_str()));
            let mut m = String::from_str("String(\"");
            m.append(escaped.as_str());
            m.append("\")");
            m
        },
        Expr::Boolean(b) => if *b {
            String::from_str("Boolean(#t)")
        } else {
            String::from_str("Boolean(#f)")
        },
        Expr::Symbol(s) => {
            let mut m = String::from_str("Symbol(");
            m.append(s.as_str());
            m.append(")");
            m
        },
        Expr::Keyword(s) => {
            let mut m = String::from_str("Keyword(");
            m.append(s.as_str());
            m.append(")");
            m
        },
        Expr::List(es) => {
            let ghost esv = crate::parser::exprs_view(es@);
            proof {
                crate::parser::lemma_exprs_view(es@);
            }
            let mut m = String::from_str("List([");
            let mut idx: usize = 0;
            while idx < es.len()
                invariant
                    idx <= es@.len(),
                    m@ == "List(["@ + expr_items(esv.take(idx as int)),
                decreases es@.len() - idx,
            {
                proof {
                    assert(decreases_to!(*e => e->List_0));
                    assert(e->List_0 == *es);
                    assert(decreases_to!(*es => es@));
                    assert(decreases_to!(es@ => es@[idx as int]));
                }
                if idx > 0 {
                    m.append(", ");
                }
                let item = render_expr(&es[idx]);
                m.append(item.as_str());
                proof {
                    lemma_expr_items_snoc(esv.take(idx as int), expr_view(es@[idx as int]));
                    assert(esv.take(idx + 1) =~= esv.take(idx as int).push(
                        expr_view(es@[idx as int]),
                    ));
                }
                idx = idx + 1;
            }
            proof {
                assert(esv.take(es@.len() as int) =~= esv);
            }
            m.append("])");
            m
        },
    }
}

/// Parses the input and renders the tree, or flags the parse error.
pub fn debug_parse_expr(input: &str) -> (r: String)
    ensures
        match parse_expr_spec(input@, 0) {
            Option::Some((v, _j)) => r@ == expr_text(v),
            Option::None => r@ == "ERROR: "@ + "Failed to parse expression: "@ + input@,
        },
{
    match parse(input) {
        Ok(expr) => render_expr(&expr),
        Err(e) => {
            let mut m = String::from_str("ERROR: ");
            m.append(e.message().as_str());
            proof {
                assert(("ERROR: "@ + ("Failed to parse expression: "@ + input@)) =~= ("ERROR: "@
                    + "Failed to parse expression: "@ + input@));
            }
            m
        },
    }
}

/// The two frames of a fresh builtins-rooted environment: the builtins, and
/// an empty frame over them.
pub open spec fn builtins_frames() -> Seq<FrameView> {
    seq![
        FrameView { table: builtins_table_view(), parent: Option::None },
        FrameView { table: Map::empty(), parent: Option::Some(0int) },
    ]
}

/// Parses, compiles and evaluates one expression under a fresh
/// builtins-rooted environment and the empty keyword resolver (every
/// keyword reads as nil), and renders the resulting value.
pub fn debug_eval_expr(input: &str) -> (r: AppResult<String>)
    ensures
        match parse_expr_spec(input@, 0) {
            Option::None => r is Err,
            Option::Some((v, _j)) => match compile_spec(v) {
                Result::Err(()) => r is Err,
                Result::Ok(code) => match run_spec(
                    &EmptyKeywordResolver,
                    code,
                    0,
                    Seq::empty(),
                    builtins_frames(),
                    1,
                    EVAL_FUEL as nat,
                ) {
                    RunOutcome::Done { value, .. } => r matches Ok(text) && text@
                        == crate::interpreter::builtins::show_text(value),
                    RunOutcome::Fail => r is Err,
                },
            },
        },
{
    let expr = match parse(input) {
        Ok(e) => e,
        Err(e) => {
            return Err(e);
        },
    };
    let program = match compile(&expr) {
        Ok(p) => p,
        Err(e) => {
            return Err(e);
        },
    };
    let env = Env::with_builtins();
    proof {
        assert(env.frames_v() =~= builtins_frames());
    }
    let res = match eval(&program, env, &EmptyKeywordResolver) {
        Ok(v) => v,
        Err(e) => {
            return Err(e);
        },
    };
    Ok(show_value(&res))
}

} // verus!
