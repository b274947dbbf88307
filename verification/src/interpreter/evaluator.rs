//! The stack-machine evaluator. `run_spec` is the machine's small-step
//! semantics over value views, frame views and a fuel bound; the executable
//! evaluator is proved to compute exactly its outcome. Fuel falls by one
//! for every instruction executed, across nested calls; a program that does
//! not finish within the budget fails with an error.

use vstd::prelude::*;

use crate::error::{AppError, AppResult};
use crate::interpreter::builtins::{builtin_call_spec, call_builtin, show_value};
use crate::interpreter::compiler::Program;
use crate::interpreter::env::{frame_view, lookup_view, table_view, Env, Frame, FrameView};
use crate::interpreter::model::{
    instr_view, instrs_view, lemma_instrs_view, lemma_names_view, lemma_values_view, value_view,
    values_view, Instruction, InstrView, Value, ValueView,
};

verus! {

/// The instruction budget of one top-level evaluation.
pub const EVAL_FUEL: u64 = 1_000_000;

/// Answers the value a `:keyword` stands for during evaluation.
pub trait KeywordResolver {
    /// What the resolver answers for a keyword, or that it fails.
    spec fn resolve_spec(&self, kw: Seq<char>) -> Result<ValueView, ()>;

    fn resolve_keyword(&self, kw: &str) -> (r: AppResult<Value>)
        ensures
            match self.resolve_spec(kw@) {
                Result::Ok(v) => r matches Ok(val) && value_view(val) == v,
                Result::Err(()) => r is Err,
            },
    ;
}

/// Resolves every keyword to `Nil`; used for host-side debug evaluation.
pub struct EmptyKeywordResolver;

impl KeywordResolver for EmptyKeywordResolver {
    open spec fn resolve_spec(&self, kw: Seq<char>) -> Result<ValueView, ()> {
        Result::Ok(ValueView::Nil)
    }

    fn resolve_keyword(&self, kw: &str) -> (r: AppResult<Value>) {
        Ok(Value::Nil)
    }
}

/// The outcome of a machine run: the returned value, the frames as the run
/// left them, and the fuel not consumed — or failure.
pub enum RunOutcome {
    Done { value: ValueView, frames: Seq<FrameView>, fuel: nat },
    Fail,
}

/// The parameter names of a function literal's symbol list.
pub open spec fn syms_names(ps: Seq<ValueView>) -> Option<Seq<Seq<char>>>
    decreases ps.len(),
{
    if ps.len() == 0 {
        Option::Some(Seq::empty())
    } else {
        match (syms_names(ps.drop_last()), ps.last()) {
            (Option::Some(ns), ValueView::Symbol(s)) => Option::Some(ns.push(s)),
            _ => Option::None,
        }
    }
}

/// The bindings of the first `n` parameter-argument pairs, later pairs
/// shadowing earlier ones.
pub open spec fn bind_prefix(params: Seq<Seq<char>>, args: Seq<ValueView>, n: int) -> Map<
    Seq<char>,
    ValueView,
>
    decreases n,
{
    if n <= 0 {
        Map::empty()
    } else {
        bind_prefix(params, args, n - 1).insert(params[n - 1], args[n - 1])
    }
}

/// Zips parameters with arguments: extra arguments are ignored, missing
/// parameters stay unbound.
pub open spec fn bind_params(params: Seq<Seq<char>>, args: Seq<ValueView>) -> Map<
    Seq<char>,
    ValueView,
> {
    bind_prefix(
        params,
        args,
        if params.len() <= args.len() {
            params.len() as int
        } else {
            args.len() as int
        },
    )
}

/// Applies a function value to arguments: a builtin computes directly; a
/// user function runs its body in a fresh frame over its captured one,
/// parameters bound to arguments; nothing else is callable.
pub open spec fn apply_value<R: KeywordResolver>(
    r: &R,
    frames: Seq<FrameView>,
    func: ValueView,
    args: Seq<ValueView>,
    fuel: nat,
) -> RunOutcome
    decreases fuel, 1int,
{
    match func {
        ValueView::Builtin(b) => match builtin_call_spec(b, args) {
            Result::Ok(v) => RunOutcome::Done { value: v, frames, fuel },
            Result::Err(()) => RunOutcome::Fail,
        },
        ValueView::UserFunction { params, body, env } => {
            if !(0 <= env < frames.len()) {
                RunOutcome::Fail
            } else {
                let child = FrameView {
                    table: bind_params(params, args),
                    parent: Option::Some(env),
                };
                run_spec(r, body, 0, Seq::empty(), frames.push(child), frames.len() as int, fuel)
            }
        },
        _ => RunOutcome::Fail,
    }
}

/// One run of the machine from `pc` until it falls off the end of the
/// program, returning the top of the stack. Every instruction costs one
/// unit of fuel; running out of fuel, a stack underflow, an undefined name,
/// a failing resolver or builtin, a call of a non-function, applying a
/// non-list, a malformed `MakeFunction` operand, or a backward jump past
/// the start all fail.
pub open spec fn run_spec<R: KeywordResolver>(
    r: &R,
    prog: Seq<InstrView>,
    pc: int,
    stack: Seq<ValueView>,
    frames: Seq<FrameView>,
    cur: int,
    fuel: nat,
) -> RunOutcome
    decreases fuel, 0int,
{
    if pc < 0 || pc >= prog.len() {
        if stack.len() == 0 {
            RunOutcome::Fail
        } else {
            RunOutcome::Done { value: stack.last(), frames, fuel }
        }
    } else if fuel == 0 {
        RunOutcome::Fail
    } else {
        let f2 = (fuel - 1) as nat;
        match prog[pc] {
            InstrView::LoadConst(v) => run_spec(r, prog, pc + 1, stack.push(v), frames, cur, f2),
            InstrView::StoreName(n) => {
                if stack.len() == 0 || !(0 <= cur < frames.len()) {
                    RunOutcome::Fail
                } else {
                    let fr = frames[cur];
                    let frames2 = frames.update(
                        cur,
                        FrameView { table: fr.table.insert(n, stack.last()), parent: fr.parent },
                    );
                    run_spec(r, prog, pc + 1, stack.drop_last(), frames2, cur, f2)
                }
            },
            InstrView::LoadName(n) => match lookup_view(frames, cur, n) {
                Option::Some(v) => run_spec(r, prog, pc + 1, stack.push(v), frames, cur, f2),
                Option::None => RunOutcome::Fail,
            },
            InstrView::LoadKeyword(k) => match r.resolve_spec(k) {
                Result::Ok(v) => run_spec(r, prog, pc + 1, stack.push(v), frames, cur, f2),
                Result::Err(()) => RunOutcome::Fail,
            },
            InstrView::CallFunction(nargs) => {
                if nargs < 0 || stack.len() < nargs + 1 {
                    RunOutcome::Fail
                } else {
                    let args = stack.subrange(stack.len() - nargs, stack.len() as int);
                    let func = stack[stack.len() - nargs - 1];
                    let rest = stack.subrange(0, stack.len() - nargs - 1);
                    match apply_value(r, frames, func, args, f2) {
                        RunOutcome::Fail => RunOutcome::Fail,
                        RunOutcome::Done { value, frames: fr2, fuel: fl } => run_spec(
                            r,
                            prog,
                            pc + 1,
                            rest.push(value),
                            fr2,
                            cur,
                            if fl < f2 {
                                fl
                            } else {
                                f2
                            },
                        ),
                    }
                }
            },
            InstrView::ApplyFunction => {
                if stack.len() < 2 {
                    RunOutcome::Fail
                } else {
                    match stack.last() {
                        ValueView::List(args) => {
                            let func = stack[stack.len() - 2];
                            let rest = stack.subrange(0, stack.len() - 2);
                            match apply_value(r, frames, func, args, f2) {
                                RunOutcome::Fail => RunOutcome::Fail,
                                RunOutcome::Done { value, frames: fr2, fuel: fl } => run_spec(
                                    r,
                                    prog,
                                    pc + 1,
                                    rest.push(value),
                                    fr2,
                                    cur,
                                    if fl < f2 {
                                        fl
                                    } else {
                                        f2
                                    },
                                ),
                            }
                        },
                        _ => RunOutcome::Fail,
                    }
                }
            },
            InstrView::MakeFunction => {
                if stack.len() < 2 {
                    RunOutcome::Fail
                } else {
                    match (stack.last(), stack[stack.len() - 2]) {
                        (ValueView::CompiledCode(body), ValueView::List(param_syms)) => {
                            match syms_names(param_syms) {
                                Option::Some(names) => {
                                    let f = ValueView::UserFunction {
                                        params: names,
                                        body,
                                        env: cur,
                                    };
                                    run_spec(
                                        r,
                                        prog,
                                        pc + 1,
                                        stack.subrange(0, stack.len() - 2).push(f),
                                        frames,
                                        cur,
                                        f2,
                                    )
                                },
                                Option::None => RunOutcome::Fail,
                            }
                        },
                        _ => RunOutcome::Fail,
                    }
                }
            },
            InstrView::RelativeJumpIfTrue(off) => {
                if stack.len() == 0 {
                    RunOutcome::Fail
                } else {
                    let target = if stack.last() == ValueView::Boolean(true) {
                        pc + 1 + off
                    } else {
                        pc + 1
                    };
                    if target < 0 {
                        RunOutcome::Fail
                    } else {
                        run_spec(r, prog, target, stack.drop_last(), frames, cur, f2)
                    }
                }
            },
            InstrView::RelativeJump(off) => {
                let target = pc + 1 + off;
                if target < 0 {
                    RunOutcome::Fail
                } else {
                    run_spec(r, prog, target, stack, frames, cur, f2)
                }
            },
            InstrView::DiscardValue => {
                if stack.len() == 0 {
                    RunOutcome::Fail
                } else {
                    run_spec(r, prog, pc + 1, stack.drop_last(), frames, cur, f2)
                }
            },
        }
    }
}

proof fn lemma_values_view_push(s: Seq<Value>, x: Value)
    ensures
        values_view(s.push(x)) == values_view(s).push(value_view(x)),
{
    lemma_values_view(s);
    lemma_values_view(s.push(x));
    assert forall|i: int|
        0 <= i < s.len() + 1 implies values_view(s.push(x))[i] == values_view(s).push(
        value_view(x),
    )[i] by {
        if i < s.len() {
            assert(s.push(x)[i] == s[i]);
        } else {
            assert(s.push(x)[i] == x);
        }
    }
    assert(values_view(s.push(x)) =~= values_view(s).push(value_view(x)));
}

proof fn lemma_values_view_subrange(s: Seq<Value>, a: int, b: int)
    requires
        0 <= a <= b <= s.len(),
    ensures
        values_view(s.subrange(a, b)) == values_view(s).subrange(a, b),
{
    lemma_values_view(s);
    lemma_values_view(s.subrange(a, b));
    assert forall|i: int|
        0 <= i < b - a implies values_view(s.subrange(a, b))[i] == values_view(s).subrange(
        a,
        b,
    )[i] by {
        assert(s.subrange(a, b)[i] == s[a + i]);
    }
    assert(values_view(s.subrange(a, b)) =~= values_view(s).subrange(a, b));
}

proof fn lemma_syms_names_err_prefix(ps: Seq<ValueView>, k: int)
    requires
        0 <= k <= ps.len(),
        syms_names(ps.take(k)) is None,
    ensures
        syms_names(ps) is None,
    decreases ps.len(),
{
    if k == ps.len() {
        assert(ps.take(k) =~= ps);
    } else {
        assert(ps.drop_last().take(k) =~= ps.take(k));
        lemma_syms_names_err_prefix(ps.drop_last(), k);
    }
}

/// Runs a program's instructions under an environment, the frame `cur`
/// current, with the given fuel; returns the result and the fuel left.
#[verifier::loop_isolation(false)]
#[verifier::rlimit(100)]
pub fn eval_instructions<R: KeywordResolver>(
    instructions: &Vec<Instruction>,
    env: &mut Env,
    cur: usize,
    resolver: &R,
    fuel: u64,
) -> (res: (AppResult<Value>, u64))
    requires
        old(env).wf(),
        cur < old(env).frames@.len(),
    ensures
        final(env).wf(),
        final(env).frames@.len() >= old(env).frames@.len(),
        final(env).cur == old(env).cur,
        ({
            let out = run_spec(
                resolver,
                instrs_view(instructions@),
                0,
                Seq::empty(),
                old(env).frames_v(),
                cur as int,
                fuel as nat,
            );
            match out {
                RunOutcome::Done { value, frames, fuel: fl } => res.0 matches Ok(v) && value_view(v)
                    == value && final(env).frames_v() == frames && res.1 == fl && res.1 <= fuel,
                RunOutcome::Fail => res.0 is Err,
            }
        }),
    decreases fuel, 0int,
{
    let ghost iview = instrs_view(instructions@);
    let ghost frames0 = old(env).frames_v();
    proof {
        lemma_instrs_view(instructions@);
    }
    let mut pc: usize = 0;
    let mut stack: Vec<Value> = Vec::new();
    let mut gas: u64 = fuel;
    proof {
        assert(values_view(stack@) =~= Seq::<ValueView>::empty());
    }
    loop
        invariant
            env.wf(),
            env.frames@.len() >= old(env).frames@.len(),
            env.cur == old(env).cur,
            cur < env.frames@.len(),
            gas <= fuel,
            iview == instrs_view(instructions@),
            iview.len() == instructions@.len(),
            run_spec(resolver, iview, 0, Seq::empty(), frames0, cur as int, fuel as nat)
                == run_spec(
                resolver,
                iview,
                pc as int,
                values_view(stack@),
                env.frames_v(),
                cur as int,
                gas as nat,
            ),
        decreases gas,
    {
        let ghost sseq = stack@;
        let ghost pre_stack = values_view(stack@);
        proof {
            lemma_values_view(sseq);
        }
        if pc >= instructions.len() {
            match stack.pop() {
                Some(v) => {
                    proof {
                        lemma_values_view(sseq);
                        assert(pre_stack.len() > 0);
                        assert(value_view(v) == pre_stack.last());
                    }
                    return (Ok(v), gas);
                },
                None => {
                    proof {
                        assert(pre_stack.len() == 0);
                    }
                    return (Err(AppError::new("Evaluation left no result on the stack")), gas);
                },
            }
        }
        if gas == 0 {
            return (Err(AppError::new("Evaluation ran out of fuel")), 0);
        }
        proof {
            assert(iview[pc as int] == instr_view(instructions@[pc as int]));
        }
        gas = gas - 1;
        let instr = &instructions[pc];
        match instr {
            Instruction::LoadConst(val) => {
                let v = val.duplicate();
                let ghost s0 = stack@;
                stack.push(v);
                proof {
                    lemma_values_view_push(s0, v);
                }
                pc = pc + 1;
            },
            Instruction::StoreName(n) => {
                match stack.pop() {
                    Some(v) => {
                        proof {
                            lemma_values_view(sseq);
                            lemma_values_view_subrange(sseq, 0, sseq.len() - 1);
                            assert(values_view(stack@) =~= pre_stack.drop_last());
                        }
                        env.define_in(cur, n.clone(), v);
                        pc = pc + 1;
                    },
                    None => {
                        return (Err(AppError::new("Stack underflow on StoreName")), gas);
                    },
                }
            },
            Instruction::LoadName(n) => {
                match env.lookup_from(cur, n.as_str()) {
                    Ok(v) => {
                        let ghost s0 = stack@;
                        stack.push(v);
                        proof {
                            lemma_values_view_push(s0, stack@.last());
                        }
                        pc = pc + 1;
                    },
                    Err(e) => {
                        return (Err(e), gas);
                    },
                }
            },
            Instruction::LoadKeyword(k) => {
                match resolver.resolve_keyword(k.as_str()) {
                    Ok(v) => {
                        let ghost s0 = stack@;
                        stack.push(v);
                        proof {
                            lemma_values_view_push(s0, stack@.last());
                        }
                        pc = pc + 1;
                    },
                    Err(e) => {
                        return (Err(e), gas);
                    },
                }
            },
            Instruction::CallFunction { nargs } => {
                if *nargs < 0 {
                    return (Err(AppError::new("Negative argument count")), gas);
                }
                let n = *nargs as usize;
                if stack.len() < n + 1 {
                    return (Err(AppError::new("Stack underflow on CallFunction")), gas);
                }
                let args = stack.split_off(stack.len() - n);
                let func = match stack.pop() {
                    Some(f) => f,
                    None => {
                        proof {
                            assert(false);
                        }
                        Value::Nil
                    },
                };
                proof {
                    lemma_values_view(sseq);
                    lemma_values_view_subrange(sseq, sseq.len() - n as int, sseq.len() as int);
                    lemma_values_view_subrange(sseq, 0, sseq.len() - n - 1);
                    lemma_values_view_subrange(sseq, 0, sseq.len() - n as int);
                    assert(sseq.subrange(0, sseq.len() - n as int).drop_last() =~= sseq.subrange(
                        0,
                        sseq.len() - n - 1,
                    ));
                    assert(values_view(args@) =~= pre_stack.subrange(pre_stack.len() - n,
                        pre_stack.len() as int));
                    assert(value_view(func) == pre_stack[pre_stack.len() - n - 1]);
                    assert(values_view(stack@) =~= pre_stack.subrange(0, pre_stack.len() - n
                        - 1));
                }
                let (rv, gleft) = apply_function(env, resolver, func, args, gas);
                match rv {
                    Ok(v) => {
                        let ghost s0 = stack@;
                        gas = gleft;
                        stack.push(v);
                        proof {
                            lemma_values_view_push(s0, stack@.last());
                        }
                        pc = pc + 1;
                    },
                    Err(e) => {
                        return (Err(e), gleft);
                    },
                }
            },
            Instruction::ApplyFunction => {
                if stack.len() < 2 {
                    return (Err(AppError::new("Stack underflow on ApplyFunction")), gas);
                }
                let arg_list = match stack.pop() {
                    Some(v) => v,
                    None => {
                        proof {
                            assert(false);
                        }
                        Value::Nil
                    },
                };
                let args = match arg_list {
                    Value::List(items) => items,
                    _ => {
                        return (
                            Err(AppError::new("apply expects its arguments in a list")),
                            gas,
                        );
                    },
                };
                let func = match stack.pop() {
                    Some(f) => f,
                    None => {
                        proof {
                            assert(false);
                        }
                        Value::Nil
                    },
                };
                proof {
                    lemma_values_view(sseq);
                    lemma_values_view_subrange(sseq, 0, sseq.len() - 1);
                    assert(sseq.subrange(0, sseq.len() - 1).drop_last() =~= sseq.subrange(
                        0,
                        sseq.len() - 2,
                    ));
                    lemma_values_view_subrange(sseq, 0, sseq.len() - 2);
                    assert(pre_stack.last() == ValueView::List(values_view(args@)));
                    assert(value_view(func) == pre_stack[pre_stack.len() - 2]);
                    assert(values_view(stack@) =~= pre_stack.subrange(0, pre_stack.len() - 2));
                }
                let (rv, gleft) = apply_function(env, resolver, func, args, gas);
                match rv {
                    Ok(v) => {
                        let ghost s0 = stack@;
                        gas = gleft;
                        stack.push(v);
                        proof {
                            lemma_values_view_push(s0, stack@.last());
                        }
                        pc = pc + 1;
                    },
                    Err(e) => {
                        return (Err(e), gleft);
                    },
                }
            },
            Instruction::MakeFunction => {
                if stack.len() < 2 {
                    return (Err(AppError::new("Stack underflow on MakeFunction")), gas);
                }
                let code = match stack.pop() {
                    Some(v) => v,
                    None => {
                        proof {
                            assert(false);
                        }
                        Value::Nil
                    },
                };
                let body = match code {
                    Value::CompiledCode(b) => b,
                    _ => {
                        return (
                            Err(AppError::new("MakeFunction expects a code object on top")),
                            gas,
                        );
                    },
                };
                let params_val = match stack.pop() {
                    Some(v) => v,
                    None => {
                        proof {
                            assert(false);
                        }
                        Value::Nil
                    },
                };
                let param_syms = match params_val {
                    Value::List(ps) => ps,
                    _ => {
                        return (
                            Err(AppError::new("MakeFunction expects a parameter list")),
                            gas,
                        );
                    },
                };
                proof {
                    lemma_values_view(sseq);
                    lemma_values_view_subrange(sseq, 0, sseq.len() - 1);
                    assert(sseq.subrange(0, sseq.len() - 1).drop_last() =~= sseq.subrange(
                        0,
                        sseq.len() - 2,
                    ));
                    lemma_values_view_subrange(sseq, 0, sseq.len() - 2);
                    assert(pre_stack.last() == ValueView::CompiledCode(instrs_view(body@)));
                    assert(pre_stack[pre_stack.len() - 2] == ValueView::List(
                        values_view(param_syms@),
                    ));
                    assert(values_view(stack@) =~= pre_stack.subrange(0, pre_stack.len() - 2));
                    lemma_values_view(param_syms@);
                }
                let ghost pvs = values_view(param_syms@);
                let mut names: Vec<String> = Vec::new();
                let mut k: usize = 0;
                while k < param_syms.len()
                    invariant
                        k <= param_syms@.len(),
                        names@.len() == k,
                        syms_names(pvs.take(k as int)) == Some(
                            crate::interpreter::model::names_view(names@),
                        ),
                    decreases param_syms@.len() - k,
                {
                    proof {
                        assert(pvs.take(k + 1).drop_last() =~= pvs.take(k as int));
                        assert(pvs.take(k + 1).last() == pvs[k as int]);
                    }
                    match &param_syms[k] {
                        Value::Symbol(s) => {
                            let ghost ns0 = names@;
                            names.push(s.clone());
                            proof {
                                lemma_names_push(ns0, names@.last());
                            }
                        },
                        _ => {
                            proof {
                                lemma_syms_names_err_prefix(pvs, k + 1);
                            }
                            return (
                                Err(
                                    AppError::new(
                                        "MakeFunction expects symbols in the parameter list",
                                    ),
                                ),
                                gas,
                            );
                        },
                    }
                    k = k + 1;
                }
                proof {
                    assert(pvs.take(param_syms@.len() as int) =~= pvs);
                }
                let f = Value::UserFunction { params: names, body, env: cur };
                let ghost s0 = stack@;
                stack.push(f);
                proof {
                    lemma_values_view_push(s0, stack@.last());
                }
                pc = pc + 1;
            },
            Instruction::RelativeJumpIfTrue { offset } => {
                let cond = match stack.pop() {
                    Some(v) => v,
                    None => {
                        return (
                            Err(AppError::new("Stack underflow on RelativeJumpIfTrue")),
                            gas,
                        );
                    },
                };
                proof {
                    lemma_values_view(sseq);
                    lemma_values_view_subrange(sseq, 0, sseq.len() - 1);
                    assert(values_view(stack@) =~= pre_stack.drop_last());
                }
                let taken = match &cond {
                    Value::Boolean(b) => *b,
                    _ => false,
                };
                proof {
                    assert(taken == (pre_stack.last() == ValueView::Boolean(true)));
                }
                if taken {
                    let target: i128 = pc as i128 + 1 + *offset as i128;
                    if target < 0 {
                        return (Err(AppError::new("Jump before the start of the program")), gas);
                    }
                    if target >= instructions.len() as i128 {
                        pc = instructions.len();
                        proof {
                            assert(run_spec(resolver, iview, target as int, values_view(stack@),
                                env.frames_v(), cur as int, gas as nat) == run_spec(resolver,
                                iview, pc as int, values_view(stack@), env.frames_v(),
                                cur as int, gas as nat));
                        }
                    } else {
                        pc = target as usize;
                    }
                } else {
                    pc = pc + 1;
                }
            },
            Instruction::RelativeJump { offset } => {
                let target: i128 = pc as i128 + 1 + *offset as i128;
                if target < 0 {
                    return (Err(AppError::new("Jump before the start of the program")), gas);
                }
                if target >= instructions.len() as i128 {
                    pc = instructions.len();
                    proof {
                        assert(run_spec(resolver, iview, target as int, values_view(stack@),
                            env.frames_v(), cur as int, gas as nat) == run_spec(resolver, iview,
                            pc as int, values_view(stack@), env.frames_v(), cur as int,
                            gas as nat));
                    }
                } else {
                    pc = target as usize;
                }
            },
            Instruction::DiscardValue => {
                match stack.pop() {
                    Some(_v) => {
                        proof {
                            lemma_values_view(sseq);
                            lemma_values_view_subrange(sseq, 0, sseq.len() - 1);
                            assert(values_view(stack@) =~= pre_stack.drop_last());
                        }
                        pc = pc + 1;
                    },
                    None => {
                        return (Err(AppError::new("Stack underflow on DiscardValue")), gas);
                    },
                }
            },
        }
    }
}

proof fn lemma_names_push(ns: Seq<String>, x: String)
    ensures
        crate::interpreter::model::names_view(ns.push(x))
            == crate::interpreter::model::names_view(ns).push(x@),
{
    lemma_names_view(ns);
    lemma_names_view(ns.push(x));
    assert forall|i: int|
        0 <= i < ns.len() + 1 implies crate::interpreter::model::names_view(ns.push(x))[i]
        == crate::interpreter::model::names_view(ns).push(x@)[i] by {
        if i < ns.len() {
            assert(ns.push(x)[i] == ns[i]);
        } else {
            assert(ns.push(x)[i] == x);
        }
    }
    assert(crate::interpreter::model::names_view(ns.push(x))
        =~= crate::interpreter::model::names_view(ns).push(x@));
}

/// Applies a function value to arguments, as `apply_value` says.
#[verifier::loop_isolation(false)]
#[verifier::rlimit(100)]
fn apply_function<R: KeywordResolver>(
    env: &mut Env,
    resolver: &R,
    func: Value,
    args: Vec<Value>,
    gas: u64,
) -> (res: (AppResult<Value>, u64))
    requires
        old(env).wf(),
    ensures
        final(env).wf(),
        final(env).frames@.len() >= old(env).frames@.len(),
        final(env).cur == old(env).cur,
        ({
            let out = apply_value(
                resolver,
                old(env).frames_v(),
                value_view(func),
                values_view(args@),
                gas as nat,
            );
            match out {
                RunOutcome::Done { value, frames, fuel: fl } => res.0 matches Ok(v) && value_view(v)
                    == value && final(env).frames_v() == frames && res.1 == fl && res.1 <= gas,
                RunOutcome::Fail => res.0 is Err,
            }
        }),
    decreases gas, 1int,
{
    match func {
        Value::BuiltinFunction(b) => {
            match call_builtin(b, args) {
                Ok(v) => (Ok(v), gas),
                Err(e) => (Err(e), gas),
            }
        },
        Value::UserFunction { params, body, env: fenv } => {
            if fenv >= env.frames.len() {
                return (Err(AppError::new("Function captured a dangling environment")), gas);
            }
            proof {
                lemma_names_view(params@);
                lemma_values_view(args@);
            }
            let ghost pnames = crate::interpreter::model::names_view(params@);
            let ghost avs = values_view(args@);
            let mut table: Vec<(String, Value)> = Vec::new();
            let count = if params.len() < args.len() {
                params.len()
            } else {
                args.len()
            };
            let mut k: usize = 0;
            while k < count
                invariant
                    k <= count,
                    count == if params@.len() < args@.len() {
                        params@.len()
                    } else {
                        args@.len()
                    },
                    table_view(table@) == bind_prefix(pnames, avs, k as int),
                decreases count - k,
            {
                let ghost t0 = table@;
                table.push((params[k].clone(), args[k].duplicate()));
                proof {
                    assert(table@.drop_last() =~= t0);
                }
                k = k + 1;
            }
            let child = Frame { table, parent: Some(fenv) };
            proof {
                assert(frame_view(child) == FrameView {
                    table: bind_params(pnames, avs),
                    parent: Option::Some(fenv as int),
                });
            }
            let newid = env.push_frame(child);
            let (r, gleft) = eval_instructions(&body, env, newid, resolver, gas);
            (r, gleft)
        },
        other => {
            let shown = show_value(&other);
            let mut m = String::from_str("Expression is not callable: ");
            m.append(shown.as_str());
            (Err(AppError::from_string(m)), gas)
        },
    }
}

/// Evaluates a program: a fresh run over its instructions under the given
/// environment and keyword resolver, with the standard fuel budget.
pub fn eval<R: KeywordResolver>(program: &Program, env: Env, kw_resolver: &R) -> (r: AppResult<
    Value,
>)
    requires
        env.wf(),
    ensures
        match run_spec(
            kw_resolver,
            program.view_code(),
            0,
            Seq::empty(),
            env.frames_v(),
            env.cur_v(),
            EVAL_FUEL as nat,
        ) {
            RunOutcome::Done { value, .. } => r matches Ok(v) && value_view(v) == value,
            RunOutcome::Fail => r is Err,
        },
{
    let mut env2 = env;
    let cur = env2.cur;
    let (r, _gas) = eval_instructions(&program.instructions, &mut env2, cur, kw_resolver,
        EVAL_FUEL);
    r
}

} // verus!
