//! The runtime value and bytecode models. Numbers are IEEE-754
//! single-precision bit patterns; a user function's captured environment is
//! an index into the evaluation arena of frames.

use vstd::prelude::*;

use crate::parser::{expr_view, Expr, ExprView};

verus! {

/// The builtin functions, dispatched by tag.
#[derive(Debug, Clone, Copy, PartialEq, Eq, Structural)]
pub enum Builtin {
    Plus,
    Mult,
    Show,
    Type,
    Cons,
    Car,
    Cdr,
    NilQ,
}

/// One bytecode instruction.
#[derive(Debug, PartialEq)]
pub enum Instruction {
    /// Push a constant onto the stack.
    LoadConst(Box<Value>),
    /// Pop a value and bind it to a name in the current frame.
    StoreName(String),
    /// Push the value bound to a name.
    LoadName(String),
    /// Push the value the keyword resolver answers for a keyword.
    LoadKeyword(String),
    /// Call a function with `nargs` arguments from the stack.
    CallFunction { nargs: i32 },
    /// Call a function whose arguments are in a single `List` on the stack.
    ApplyFunction,
    /// Pop a condition; jump forward `offset` instructions past the next
    /// one when it is `Boolean(true)`.
    RelativeJumpIfTrue { offset: i32 },
    /// Jump forward `offset` instructions past the next one.
    RelativeJump { offset: i32 },
    /// Pop a code object and a parameter list; push a user function that
    /// captures the current frame.
    MakeFunction,
    /// Pop a value and drop it.
    DiscardValue,
}

/// A runtime value.
#[derive(Debug, PartialEq)]
pub enum Value {
    Number(u32),
    String(String),
    Boolean(bool),
    Symbol(String),
    Keyword(String),
    List(Vec<Value>),
    CompiledCode(Vec<Instruction>),
    UserFunction { params: Vec<String>, body: Vec<Instruction>, env: usize },
    BuiltinFunction(Builtin),
    Nil,
}

/// The mathematical shape of a value.
pub enum ValueView {
    Number(u32),
    Str(Seq<char>),
    Boolean(bool),
    Symbol(Seq<char>),
    Keyword(Seq<char>),
    List(Seq<ValueView>),
    CompiledCode(Seq<InstrView>),
    UserFunction { params: Seq<Seq<char>>, body: Seq<InstrView>, env: int },
    Builtin(Builtin),
    Nil,
}

/// The mathematical shape of an instruction.
pub enum InstrView {
    LoadConst(ValueView),
    StoreName(Seq<char>),
    LoadName(Seq<char>),
    LoadKeyword(Seq<char>),
    CallFunction(int),
    ApplyFunction,
    RelativeJumpIfTrue(int),
    RelativeJump(int),
    MakeFunction,
    DiscardValue,
}

pub open spec fn value_view(v: Value) -> ValueView
    decreases v, 0int,
{
    match v {
        Value::Number(b) => ValueView::Number(b),
        Value::String(s) => ValueView::Str(s@),
        Value::Boolean(b) => ValueView::Boolean(b),
        Value::Symbol(s) => ValueView::Symbol(s@),
        Value::Keyword(s) => ValueView::Keyword(s@),
        Value::List(vs) => ValueView::List(values_view(vs@)),
        Value::CompiledCode(is) => ValueView::CompiledCode(instrs_view(is@)),
        Value::UserFunction { params, body, env } => ValueView::UserFunction {
            params: names_view(params@),
            body: instrs_view(body@),
            env: env as int,
        },
        Value::BuiltinFunction(b) => ValueView::Builtin(b),
        Value::Nil => ValueView::Nil,
    }
}

pub open spec fn values_view(vs: Seq<Value>) -> Seq<ValueView>
    decreases vs, 1int,
{
    if vs.len() == 0 {
        Seq::empty()
    } else {
        seq![value_view(vs[0])] + values_view(vs.drop_first())
    }
}

pub open spec fn instr_view(i: Instruction) -> InstrView
    decreases i, 0int,
{
    match i {
        Instruction::LoadConst(v) => InstrView::LoadConst(value_view(*v)),
        Instruction::StoreName(n) => InstrView::StoreName(n@),
        Instruction::LoadName(n) => InstrView::LoadName(n@),
        Instruction::LoadKeyword(k) => InstrView::LoadKeyword(k@),
        Instruction::CallFunction { nargs } => InstrView::CallFunction(nargs as int),
        Instruction::ApplyFunction => InstrView::ApplyFunction,
        Instruction::RelativeJumpIfTrue { offset } => InstrView::RelativeJumpIfTrue(offset as int),
        Instruction::RelativeJump { offset } => InstrView::RelativeJump(offset as int),
        Instruction::MakeFunction => InstrView::MakeFunction,
        Instruction::DiscardValue => InstrView::DiscardValue,
    }
}

pub open spec fn instrs_view(is: Seq<Instruction>) -> Seq<InstrView>
    decreases is, 1int,
{
    if is.len() == 0 {
        Seq::empty()
    } else {
        seq![instr_view(is[0])] + instrs_view(is.drop_first())
    }
}

pub open spec fn names_view(ns: Seq<String>) -> Seq<Seq<char>>
    decreases ns.len(),
{
    if ns.len() == 0 {
        Seq::empty()
    } else {
        seq![ns[0]@] + names_view(ns.drop_first())
    }
}

pub proof fn lemma_values_view(vs: Seq<Value>)
    ensures
        values_view(vs).len() == vs.len(),
        forall|i: int| 0 <= i < vs.len() ==> #[trigger] values_view(vs)[i] == value_view(vs[i]),
    decreases vs,
{
    if vs.len() > 0 {
        lemma_values_view(vs.drop_first());
        assert forall|i: int|
            0 <= i < vs.len() implies #[trigger] values_view(vs)[i] == value_view(vs[i]) by {
            if i > 0 {
                assert(vs.drop_first()[i - 1] == vs[i]);
            }
        }
    }
}

pub proof fn lemma_instrs_view(is: Seq<Instruction>)
    ensures
        instrs_view(is).len() == is.len(),
        forall|i: int| 0 <= i < is.len() ==> #[trigger] instrs_view(is)[i] == instr_view(is[i]),
    decreases is,
{
    if is.len() > 0 {
        lemma_instrs_view(is.drop_first());
        assert forall|i: int|
            0 <= i < is.len() implies #[trigger] instrs_view(is)[i] == instr_view(is[i]) by {
            if i > 0 {
                assert(is.drop_first()[i - 1] == is[i]);
            }
        }
    }
}

pub proof fn lemma_names_view(ns: Seq<String>)
    ensures
        names_view(ns).len() == ns.len(),
        forall|i: int| 0 <= i < ns.len() ==> #[trigger] names_view(ns)[i] == ns[i]@,
    decreases ns,
{
    if ns.len() > 0 {
        lemma_names_view(ns.drop_first());
        assert forall|i: int| 0 <= i < ns.len() implies #[trigger] names_view(ns)[i] == ns[i]@ by {
            if i > 0 {
                assert(ns.drop_first()[i - 1] == ns[i]);
            }
        }
    }
}

pub proof fn lemma_instrs_view_concat(a: Seq<Instruction>, b: Seq<Instruction>)
    ensures
        instrs_view(a + b) == instrs_view(a) + instrs_view(b),
{
    lemma_instrs_view(a);
    lemma_instrs_view(b);
    lemma_instrs_view(a + b);
    assert forall|i: int|
        0 <= i < (a + b).len() implies instrs_view(a + b)[i] == (instrs_view(a) + instrs_view(
        b,
    ))[i] by {
        if i < a.len() {
            assert((a + b)[i] == a[i]);
        } else {
            assert((a + b)[i] == b[i - a.len()]);
        }
    }
    assert(instrs_view(a + b) =~= instrs_view(a) + instrs_view(b));
}

/// What a constant expression denotes as a value: numbers, strings and
/// booleans carry over; a keyword quotes to a symbol; a list quotes
/// elementwise.
pub open spec fn value_of_expr(e: ExprView) -> ValueView
    decreases e, 0int,
{
    match e {
        ExprView::Number(b) => ValueView::Number(b),
        ExprView::Str(s) => ValueView::Str(s),
        ExprView::Boolean(b) => ValueView::Boolean(b),
        ExprView::Symbol(s) => ValueView::Symbol(s),
        ExprView::Keyword(k) => ValueView::Symbol(k),
        ExprView::List(es) => ValueView::List(values_of_exprs(es)),
    }
}

pub open spec fn values_of_exprs(es: Seq<ExprView>) -> Seq<ValueView>
    decreases es, 1int,
{
    if es.len() == 0 {
        Seq::empty()
    } else {
        seq![value_of_expr(es[0])] + values_of_exprs(es.drop_first())
    }
}

impl Value {
    /// A structural copy with the same view.
    #[verifier::loop_isolation(false)]
    pub fn duplicate(&self) -> (r: Value)
        ensures
            value_view(r) == value_view(*self),
        decreases *self,
    {
        match self {
            Value::Number(b) => Value::Number(*b),
            Value::String(s) => Value::String(s.clone()),
            Value::Boolean(b) => Value::Boolean(*b),
            Value::Symbol(s) => Value::Symbol(s.clone()),
            Value::Keyword(s) => Value::Keyword(s.clone()),
            Value::List(vs) => {
                let mut v: Vec<Value> = Vec::new();
                let mut idx: usize = 0;
                while idx < vs.len()
                    invariant
                        idx <= vs.len(),
                        v@.len() == idx,
                        forall|k: int|
                            0 <= k < idx ==> value_view(#[trigger] v@[k]) == value_view(vs@[k]),
                    decreases vs.len() - idx,
                {
                    proof {
                        assert(decreases_to!(*self => self->List_0));
                        assert(self->List_0 == *vs);
                        assert(decreases_to!(*vs => vs@));
                        assert(decreases_to!(vs@ => vs@[idx as int]));
                    }
                    let c = vs[idx].duplicate();
                    v.push(c);
                    idx = idx + 1;
                }
                proof {
                    lemma_values_view(v@);
                    lemma_values_view(vs@);
                    assert(values_view(v@) =~= values_view(vs@));
                }
                Value::List(v)
            },
            Value::CompiledCode(is) => Value::CompiledCode(copy_instructions(is)),
            Value::UserFunction { params, body, env } => {
                let mut ps: Vec<String> = Vec::new();
                let mut idx: usize = 0;
                while idx < params.len()
                    invariant
                        idx <= params.len(),
                        ps@.len() == idx,
                        forall|k: int| 0 <= k < idx ==> (#[trigger] ps@[k])@ == params@[k]@,
                    decreases params.len() - idx,
                {
                    let c = params[idx].clone();
                    ps.push(c);
                    idx = idx + 1;
                }
                proof {
                    lemma_names_view(ps@);
                    lemma_names_view(params@);
                    assert(names_view(ps@) =~= names_view(params@));
                }
                Value::UserFunction { params: ps, body: copy_instructions(body), env: *env }
            },
            Value::BuiltinFunction(b) => Value::BuiltinFunction(*b),
            Value::Nil => Value::Nil,
        }
    }

    /// Builds the value a constant expression denotes.
    #[verifier::loop_isolation(false)]
    pub fn from_expr(expr: &Expr) -> (r: Value)
        ensures
            value_view(r) == value_of_expr(expr_view(*expr)),
        decreases *expr,
    {
        match expr {
            Expr::Number(n) => Value::Number(*n),
            Expr::String(s) => Value::String(s.clone()),
            Expr::Boolean(b) => Value::Boolean(*b),
            Expr::Symbol(s) => Value::Symbol(s.clone()),
            Expr::Keyword(k) => Value::Symbol(k.clone()),
            Expr::List(es) => {
                let mut v: Vec<Value> = Vec::new();
                let mut idx: usize = 0;
                proof {
                    crate::parser::lemma_exprs_view(es@);
                }
                while idx < es.len()
                    invariant
                        idx <= es.len(),
                        v@.len() == idx,
                        forall|k: int|
                            0 <= k < idx ==> value_view(#[trigger] v@[k]) == value_of_expr(
                                expr_view(es@[k]),
                            ),
                    decreases es.len() - idx,
                {
                    proof {
                        assert(decreases_to!(*expr => expr->List_0));
                        assert(expr->List_0 == *es);
                        assert(decreases_to!(*es => es@));
                        assert(decreases_to!(es@ => es@[idx as int]));
                    }
                    let c = Value::from_expr(&es[idx]);
                    v.push(c);
                    idx = idx + 1;
                }
                proof {
                    lemma_values_view(v@);
                    lemma_values_of_exprs(exprs_view_of(es@));
                    assert(values_view(v@) =~= values_of_exprs(crate::parser::exprs_view(es@)));
                }
                Value::List(v)
            },
        }
    }

    /// The type tag the `type` builtin answers.
    pub fn type_string(&self) -> (r: &'static str)
        ensures
            r@ == type_text(value_view(*self)),
    {
        match self {
            Value::Number(_) => "number",
            Value::String(_) => "string",
            Value::Boolean(_) => "bool",
            Value::Symbol(_) => "symbol",
            Value::Keyword(_) => "keyword",
            Value::List(_) => "list",
            Value::CompiledCode(_) => "code",
            Value::UserFunction { .. } => "function",
            Value::BuiltinFunction(_) => "builtin",
            Value::Nil => "nil",
        }
    }
}

spec fn exprs_view_of(es: Seq<Expr>) -> Seq<ExprView> {
    crate::parser::exprs_view(es)
}

proof fn lemma_values_of_exprs(es: Seq<ExprView>)
    ensures
        values_of_exprs(es).len() == es.len(),
        forall|i: int|
            0 <= i < es.len() ==> #[trigger] values_of_exprs(es)[i] == value_of_expr(es[i]),
    decreases es,
{
    if es.len() > 0 {
        lemma_values_of_exprs(es.drop_first());
        assert forall|i: int|
            0 <= i < es.len() implies #[trigger] values_of_exprs(es)[i] == value_of_expr(
            es[i],
        ) by {
            if i > 0 {
                assert(es.drop_first()[i - 1] == es[i]);
            }
        }
    }
}

/// The type tag text of a value.
pub open spec fn type_text(v: ValueView) -> Seq<char> {
    match v {
        ValueView::Number(_) => "number"@,
        ValueView::Str(_) => "string"@,
        ValueView::Boolean(_) => "bool"@,
        ValueView::Symbol(_) => "symbol"@,
        ValueView::Keyword(_) => "keyword"@,
        ValueView::List(_) => "list"@,
        ValueView::CompiledCode(_) => "code"@,
        ValueView::UserFunction { .. } => "function"@,
        ValueView::Builtin(_) => "builtin"@,
        ValueView::Nil => "nil"@,
    }
}

#[verifier::loop_isolation(false)]
pub(crate) fn copy_instructions(is: &Vec<Instruction>) -> (r: Vec<Instruction>)
    ensures
        instrs_view(r@) == instrs_view(is@),
    decreases is@,
{
    let mut v: Vec<Instruction> = Vec::new();
    let mut idx: usize = 0;
    while idx < is.len()
        invariant
            idx <= is.len(),
            v@.len() == idx,
            forall|k: int| 0 <= k < idx ==> instr_view(#[trigger] v@[k]) == instr_view(is@[k]),
        decreases is.len() - idx,
    {
        proof {
            assert(decreases_to!(is@ => is@[idx as int]));
        }
        let c = copy_instruction(&is[idx]);
        v.push(c);
        idx = idx + 1;
    }
    proof {
        lemma_instrs_view(v@);
        lemma_instrs_view(is@);
        assert(instrs_view(v@) =~= instrs_view(is@));
    }
    v
}

/// Reading a numeric literal preserves the number exactly: the parsed
/// expression carries the bits the literal denotes, and the value built
/// from that expression carries the same bits.
pub proof fn lemma_number_literal_round_trip(src: Seq<char>)
    requires
        crate::parser::ws_end(src, 0) == 0,
        crate::parser::scan_number_spec(src, 0) == Some(src.len() as int),
        src.len() > 0,
    ensures
        crate::parser::parse_expr_spec(src, 0) == Some(
            (ExprView::Number(crate::numeric::float_of_chars(src)), src.len() as int),
        ),
        value_of_expr(ExprView::Number(crate::numeric::float_of_chars(src)))
            == ValueView::Number(crate::numeric::float_of_chars(src)),
{
    assert(src.subrange(0, src.len() as int) =~= src);
}

fn copy_instruction(i: &Instruction) -> (r: Instruction)
    ensures
        instr_view(r) == instr_view(*i),
    decreases *i,
{
    match i {
        Instruction::LoadConst(v) => Instruction::LoadConst(Box::new(v.duplicate())),
        Instruction::StoreName(n) => Instruction::StoreName(n.clone()),
        Instruction::LoadName(n) => Instruction::LoadName(n.clone()),
        Instruction::LoadKeyword(k) => Instruction::LoadKeyword(k.clone()),
        Instruction::CallFunction { nargs } => Instruction::CallFunction { nargs: *nargs },
        Instruction::ApplyFunction => Instruction::ApplyFunction,
        Instruction::RelativeJumpIfTrue { offset } => Instruction::RelativeJumpIfTrue {
            offset: *offset,
        },
        Instruction::RelativeJump { offset } => Instruction::RelativeJump { offset: *offset },
        Instruction::MakeFunction => Instruction::MakeFunction,
        Instruction::DiscardValue => Instruction::DiscardValue,
    }
}

} // verus!
