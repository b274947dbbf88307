//! The builtin functions, dispatched by tag, and the prelude program that
//! defines the higher-order helpers `map` and `filter`.

use vstd::prelude::*;

use crate::error::{AppError, AppResult};
use crate::interpreter::model::{
    lemma_values_view, type_text, value_view, values_view, Builtin, Value, ValueView,
};
use crate::numeric::{
    add_bits, mul_bits, number_add, number_mul, number_to_text, text_of_number, ONE_BITS,
    ZERO_BITS,
};

verus! {

/// The sum of the arguments, all of which must be numbers; empty sums to
/// zero. Folds left, as `+` does on `f32`.
pub open spec fn sum_bits_spec(args: Seq<ValueView>) -> Result<u32, ()>
    decreases args.len(),
{
    if args.len() == 0 {
        Result::Ok(ZERO_BITS)
    } else {
        match sum_bits_spec(args.drop_last()) {
            Result::Err(()) => Result::Err(()),
            Result::Ok(acc) => match args.last() {
                ValueView::Number(n) => Result::Ok(add_bits(acc, n)),
                _ => Result::Err(()),
            },
        }
    }
}

/// The product of the arguments, all of which must be numbers; empty
/// multiplies to one. Folds left, as `*` does on `f32`.
pub open spec fn prod_bits_spec(args: Seq<ValueView>) -> Result<u32, ()>
    decreases args.len(),
{
    if args.len() == 0 {
        Result::Ok(ONE_BITS)
    } else {
        match prod_bits_spec(args.drop_last()) {
            Result::Err(()) => Result::Err(()),
            Result::Ok(acc) => match args.last() {
                ValueView::Number(n) => Result::Ok(mul_bits(acc, n)),
                _ => Result::Err(()),
            },
        }
    }
}

/// The debug rendering of a value, as the `show` builtin returns it.
pub open spec fn show_text(v: ValueView) -> Seq<char>
    decreases v, 0int,
{
    match v {
        ValueView::Number(b) => "Number("@ + text_of_number(b) + ")"@,
        ValueView::Str(s) => "String(\""@ + crate::parser::escape_chars(s) + "\")"@,
        ValueView::Boolean(b) => if b {
            "#t"@
        } else {
            "#f"@
        },
        ValueView::Symbol(s) => "Symbol("@ + s + ")"@,
        ValueView::Keyword(s) => "Keyword("@ + s + ")"@,
        ValueView::List(vs) => "List(["@ + show_items(vs) + "])"@,
        ValueView::CompiledCode(_) => "<compiled code>"@,
        ValueView::UserFunction { params, .. } => "<func: ["@ + join_names(params) + "]>"@,
        ValueView::Builtin(b) => "<builtin "@ + builtin_name_text(b) + ">"@,
        ValueView::Nil => "Nil"@,
    }
}

/// The renderings of list items, joined by a comma and a space.
pub open spec fn show_items(vs: Seq<ValueView>) -> Seq<char>
    decreases vs, 1int,
{
    if vs.len() == 0 {
        Seq::empty()
    } else if vs.len() == 1 {
        show_text(vs[0])
    } else {
        show_text(vs[0]) + ", "@ + show_items(vs.drop_first())
    }
}

/// Parameter names joined by a comma and a space.
pub open spec fn join_names(ns: Seq<Seq<char>>) -> Seq<char>
    decreases ns.len(),
{
    if ns.len() == 0 {
        Seq::empty()
    } else if ns.len() == 1 {
        ns[0]
    } else {
        ns[0] + ", "@ + join_names(ns.drop_first())
    }
}

pub open spec fn builtin_name_text(b: Builtin) -> Seq<char> {
    match b {
        Builtin::Plus => "+"@,
        Builtin::Mult => "*"@,
        Builtin::Show => "show"@,
        Builtin::Type => "type"@,
        Builtin::Cons => "cons"@,
        Builtin::Car => "car"@,
        Builtin::Cdr => "cdr"@,
        Builtin::NilQ => "nil?"@,
    }
}

/// What a builtin returns on given arguments, or that it fails.
pub open spec fn builtin_call_spec(b: Builtin, args: Seq<ValueView>) -> Result<ValueView, ()> {
    match b {
        Builtin::Plus => match sum_bits_spec(args) {
            Result::Ok(n) => Result::Ok(ValueView::Number(n)),
            Result::Err(()) => Result::Err(()),
        },
        Builtin::Mult => match prod_bits_spec(args) {
            Result::Ok(n) => Result::Ok(ValueView::Number(n)),
            Result::Err(()) => Result::Err(()),
        },
        Builtin::Show => if args.len() >= 1 {
            Result::Ok(ValueView::Str(show_text(args[0])))
        } else {
            Result::Err(())
        },
        Builtin::Type => if args.len() >= 1 {
            Result::Ok(ValueView::Str(type_text(args[0])))
        } else {
            Result::Err(())
        },
        Builtin::Cons => if args.len() == 2 {
            match args[1] {
                ValueView::List(l) => Result::Ok(ValueView::List(seq![args[0]] + l)),
                ValueView::Nil => Result::Ok(ValueView::List(seq![args[0]])),
                _ => Result::Err(()),
            }
        } else {
            Result::Err(())
        },
        Builtin::Car => if args.len() >= 1 {
            match args[0] {
                ValueView::List(l) => if l.len() > 0 {
                    Result::Ok(l[0])
                } else {
                    Result::Err(())
                },
                _ => Result::Err(()),
            }
        } else {
            Result::Err(())
        },
        Builtin::Cdr => if args.len() >= 1 {
            match args[0] {
                ValueView::List(l) => if l.len() > 0 {
                    Result::Ok(ValueView::List(l.drop_first()))
                } else {
                    Result::Err(())
                },
                _ => Result::Err(()),
            }
        } else {
            Result::Err(())
        },
        Builtin::NilQ => if args.len() >= 1 {
            Result::Ok(
                ValueView::Boolean(
                    args[0] is Nil || (args[0] matches ValueView::List(l) && l.len() == 0),
                ),
            )
        } else {
            Result::Err(())
        },
    }
}

/// An error prefix-propagation fact for sums.
proof fn lemma_sum_err_prefix(args: Seq<ValueView>, k: int)
    requires
        0 <= k <= args.len(),
        sum_bits_spec(args.take(k)) is Err,
    ensures
        sum_bits_spec(args) is Err,
    decreases args.len(),
{
    if k == args.len() {
        assert(args.take(k) =~= args);
    } else {
        assert(args.drop_last().take(k) =~= args.take(k));
        lemma_sum_err_prefix(args.drop_last(), k);
    }
}

proof fn lemma_prod_err_prefix(args: Seq<ValueView>, k: int)
    requires
        0 <= k <= args.len(),
        prod_bits_spec(args.take(k)) is Err,
    ensures
        prod_bits_spec(args) is Err,
    decreases args.len(),
{
    if k == args.len() {
        assert(args.take(k) =~= args);
    } else {
        assert(args.drop_last().take(k) =~= args.take(k));
        lemma_prod_err_prefix(args.drop_last(), k);
    }
}

/// Renders a value as the `show` builtin and the debug surface do.
#[verifier::loop_isolation(false)]
pub fn show_value(v: &Value) -> (r: String)
    ensures
        r@ == show_text(value_view(*v)),
    decreases *v,
{
    match v {
        Value::Number(b) => {
            let t = number_to_text(*b);
            let mut m = String::from_str("Number(");
            m.append(t.as_str());
            m.append(")");
            m
        },
        Value::String(s) => {
            let escaped = crate::numeric::chars_to_string(&crate::parser::escape_text(s.as_str()));
            let mut m = String::from_str("String(\"");
            m.append(escaped.as_str());
            m.append("\")");
            m
        },
        Value::Boolean(b) => if *b {
            String::from_str("#t")
        } else {
            String::from_str("#f")
        },
        Value::Symbol(s) => {
            let mut m = String::from_str("Symbol(");
            m.append(s.as_str());
            m.append(")");
            m
        },
        Value::Keyword(s) => {
            let mut m = String::from_str("Keyword(");
            m.append(s.as_str());
            m.append(")");
            m
        },
        Value::List(vs) => {
            let mut m = String::from_str("List([");
            let mut idx: usize = 0;
            proof {
                lemma_values_view(vs@);
            }
            while idx < vs.len()
                invariant
                    idx <= vs.len(),
                    m@ == "List(["@ + show_items(values_view(vs@).take(idx as int)),
                decreases vs.len() - idx,
            {
                proof {
                    assert(decreases_to!(*v => v->List_0));
                    assert(v->List_0 == *vs);
                    assert(decreases_to!(*vs => vs@));
                    assert(decreases_to!(vs@ => vs@[idx as int]));
                }
                if idx > 0 {
                    m.append(", ");
                }
                let item = show_value(&vs[idx]);
                m.append(item.as_str());
                proof {
                    lemma_show_items_snoc(values_view(vs@).take(idx as int), value_view(
                        vs@[idx as int],
                    ));
                    assert(values_view(vs@).take(idx + 1) =~= values_view(vs@).take(
                        idx as int,
                    ).push(value_view(vs@[idx as int])));
                }
                idx = idx + 1;
            }
            proof {
                assert(values_view(vs@).take(vs@.len() as int) =~= values_view(vs@));
            }
            m.append("])");
            m
        },
        Value::CompiledCode(_) => String::from_str("<compiled code>"),
        Value::UserFunction { params, .. } => {
            let mut m = String::from_str("<func: [");
            let mut idx: usize = 0;
            proof {
                crate::interpreter::model::lemma_names_view(params@);
            }
            while idx < params.len()
                invariant
                    idx <= params.len(),
                    m@ == "<func: ["@ + join_names(
                        crate::interpreter::model::names_view(params@).take(idx as int),
                    ),
                decreases params.len() - idx,
            {
                if idx > 0 {
                    m.append(", ");
                }
                m.append(params[idx].as_str());
                proof {
                    let ns = crate::interpreter::model::names_view(params@);
                    lemma_join_names_snoc(ns.take(idx as int), params@[idx as int]@);
                    assert(ns.take(idx + 1) =~= ns.take(idx as int).push(params@[idx as int]@));
                }
                idx = idx + 1;
            }
            proof {
                let ns = crate::interpreter::model::names_view(params@);
                assert(ns.take(params@.len() as int) =~= ns);
            }
            m.append("]>");
            m
        },
        Value::BuiltinFunction(b) => {
            let mut m = String::from_str("<builtin ");
            m.append(builtin_name(*b));
            m.append(">");
            m
        },
        Value::Nil => String::from_str("Nil"),
    }
}

proof fn lemma_show_items_snoc(vs: Seq<ValueView>, x: ValueView)
    ensures
        show_items(vs.push(x)) == if vs.len() == 0 {
            show_text(x)
        } else {
            show_items(vs) + ", "@ + show_text(x)
        },
    decreases vs.len(),
{
    let p = vs.push(x);
    if vs.len() == 0 {
        assert(p.len() == 1);
        assert(p[0] == x);
    } else {
        assert(p[0] == vs[0]);
        assert(p.drop_first() =~= vs.drop_first().push(x));
        lemma_show_items_snoc(vs.drop_first(), x);
        if vs.len() == 1 {
            assert(show_items(p) == show_text(vs[0]) + ", "@ + show_items(p.drop_first()));
            assert(show_items(p.drop_first()) == show_text(x));
        } else {
            assert(show_items(vs) == show_text(vs[0]) + ", "@ + show_items(vs.drop_first()));
            assert((show_text(vs[0]) + ", "@ + (show_items(vs.drop_first()) + ", "@ + show_text(
                x,
            ))) =~= ((show_text(vs[0]) + ", "@ + show_items(vs.drop_first())) + ", "@ + show_text(
                x,
            )));
        }
    }
}

proof fn lemma_join_names_snoc(ns: Seq<Seq<char>>, x: Seq<char>)
    ensures
        join_names(ns.push(x)) == if ns.len() == 0 {
            x
        } else {
            join_names(ns) + ", "@ + x
        },
    decreases ns.len(),
{
    let p = ns.push(x);
    if ns.len() == 0 {
        assert(p.len() == 1);
        assert(p[0] == x);
    } else {
        assert(p[0] == ns[0]);
        assert(p.drop_first() =~= ns.drop_first().push(x));
        lemma_join_names_snoc(ns.drop_first(), x);
        if ns.len() == 1 {
            assert(join_names(p) == ns[0] + ", "@ + join_names(p.drop_first()));
        } else {
            assert((ns[0] + ", "@ + (join_names(ns.drop_first()) + ", "@ + x)) =~= ((ns[0] + ", "@
                + join_names(ns.drop_first())) + ", "@ + x));
        }
    }
}

pub fn builtin_name(b: Builtin) -> (r: &'static str)
    ensures
        r@ == builtin_name_text(b),
{
    match b {
        Builtin::Plus => "+",
        Builtin::Mult => "*",
        Builtin::Show => "show",
        Builtin::Type => "type",
        Builtin::Cons => "cons",
        Builtin::Car => "car",
        Builtin::Cdr => "cdr",
        Builtin::NilQ => "nil?",
    }
}

/// Calls a builtin on the given arguments.
#[verifier::loop_isolation(false)]
pub fn call_builtin(b: Builtin, args: Vec<Value>) -> (r: AppResult<Value>)
    ensures
        match builtin_call_spec(b, values_view(args@)) {
            Result::Ok(v) => r matches Ok(val) && value_view(val) == v,
            Result::Err(()) => r is Err,
        },
{
    proof {
        lemma_values_view(args@);
    }
    let ghost avs = values_view(args@);
    match b {
        Builtin::Plus => {
            let mut acc: u32 = ZERO_BITS;
            let mut k: usize = 0;
            while k < args.len()
                invariant
                    k <= args.len(),
                    sum_bits_spec(avs.take(k as int)) == Result::<u32, ()>::Ok(acc),
                decreases args.len() - k,
            {
                proof {
                    assert(avs.take(k + 1).drop_last() =~= avs.take(k as int));
                    assert(avs.take(k + 1).last() == avs[k as int]);
                }
                match &args[k] {
                    Value::Number(n) => {
                        acc = number_add(acc, *n);
                    },
                    _ => {
                        proof {
                            lemma_sum_err_prefix(avs, k + 1);
                        }
                        return Err(AppError::new("Bad arguments for `+`"));
                    },
                }
                k = k + 1;
            }
            proof {
                assert(avs.take(args@.len() as int) =~= avs);
            }
            Ok(Value::Number(acc))
        },
        Builtin::Mult => {
            let mut acc: u32 = ONE_BITS;
            let mut k: usize = 0;
            while k < args.len()
                invariant
                    k <= args.len(),
                    prod_bits_spec(avs.take(k as int)) == Result::<u32, ()>::Ok(acc),
                decreases args.len() - k,
            {
                proof {
                    assert(avs.take(k + 1).drop_last() =~= avs.take(k as int));
                    assert(avs.take(k + 1).last() == avs[k as int]);
                }
                match &args[k] {
                    Value::Number(n) => {
                        acc = number_mul(acc, *n);
                    },
                    _ => {
                        proof {
                            lemma_prod_err_prefix(avs, k + 1);
                        }
                        return Err(AppError::new("Bad arguments for `*`"));
                    },
                }
                k = k + 1;
            }
            proof {
                assert(avs.take(args@.len() as int) =~= avs);
            }
            Ok(Value::Number(acc))
        },
        Builtin::Show => {
            if args.len() >= 1 {
                Ok(Value::String(show_value(&args[0])))
            } else {
                Err(AppError::new("Bad arguments for `show`"))
            }
        },
        Builtin::Type => {
            if args.len() >= 1 {
                Ok(Value::String(String::from_str(args[0].type_string())))
            } else {
                Err(AppError::new("Bad arguments for `type`"))
            }
        },
        Builtin::Cons => {
            if args.len() == 2 {
                match &args[1] {
                    Value::List(tail) => {
                        let mut items: Vec<Value> = Vec::new();
                        items.push(args[0].duplicate());
                        let mut k: usize = 0;
                        while k < tail.len()
                            invariant
                                k <= tail.len(),
                                items@.len() == k + 1,
                                value_view(items@[0]) == avs[0],
                                forall|m: int|
                                    0 <= m < k ==> value_view(#[trigger] items@[m + 1])
                                        == value_view(tail@[m]),
                            decreases tail.len() - k,
                        {
                            items.push(tail[k].duplicate());
                            k = k + 1;
                        }
                        proof {
                            lemma_values_view(items@);
                            lemma_values_view(tail@);
                            assert forall|i: int|
                                0 <= i < items@.len() implies values_view(items@)[i] == (
                            seq![avs[0]] + values_view(tail@))[i] by {
                                assert(values_view(items@)[i] == value_view(items@[i]));
                                if i > 0 {
                                    assert(value_view(items@[(i - 1) + 1]) == value_view(
                                        tail@[i - 1],
                                    ));
                                    assert(values_view(tail@)[i - 1] == value_view(tail@[i - 1]));
                                }
                            }
                            assert(values_view(items@) =~= seq![avs[0]] + values_view(tail@));
                            assert(value_view(args@[1]) == avs[1]);
                        }
                        Ok(Value::List(items))
                    },
                    Value::Nil => {
                        let mut items: Vec<Value> = Vec::new();
                        items.push(args[0].duplicate());
                        proof {
                            lemma_values_view(items@);
                            assert(values_view(items@) =~= seq![avs[0]]);
                        }
                        Ok(Value::List(items))
                    },
                    _ => Err(
                        AppError::new(
                            "Bad arguments for `cons`: expected nil or a list for second arg",
                        ),
                    ),
                }
            } else {
                Err(AppError::new("Bad arguments for `cons`: expected 2 arguments"))
            }
        },
        Builtin::Car => {
            if args.len() >= 1 {
                match &args[0] {
                    Value::List(items) => {
                        if items.len() > 0 {
                            proof {
                                lemma_values_view(items@);
                            }
                            Ok(items[0].duplicate())
                        } else {
                            Err(AppError::new("Cannot take the car of an empty list"))
                        }
                    },
                    Value::Nil => Err(AppError::new("Cannot take the car of an empty list")),
                    _ => Err(
                        AppError::new(
                            "Bad arguments for `car`: expected a list as the first argument",
                        ),
                    ),
                }
            } else {
                Err(AppError::new("Bad arguments for `car`: expected 1 argument"))
            }
        },
        Builtin::Cdr => {
            if args.len() >= 1 {
                match &args[0] {
                    Value::List(items) => {
                        if items.len() > 0 {
                            let mut rest: Vec<Value> = Vec::new();
                            let mut k: usize = 1;
                            while k < items.len()
                                invariant
                                    1 <= k <= items.len(),
                                    rest@.len() == k - 1,
                                    forall|m: int|
                                        0 <= m < k - 1 ==> value_view(#[trigger] rest@[m])
                                            == value_view(items@[m + 1]),
                                decreases items.len() - k,
                            {
                                rest.push(items[k].duplicate());
                                k = k + 1;
                            }
                            proof {
                                lemma_values_view(rest@);
                                lemma_values_view(items@);
                                assert(values_view(rest@) =~= values_view(items@).drop_first());
                            }
                            Ok(Value::List(rest))
                        } else {
                            Err(AppError::new("Cannot take the cdr of an empty list"))
                        }
                    },
                    Value::Nil => Err(AppError::new("Cannot take the cdr of an empty list")),
                    _ => Err(
                        AppError::new(
                            "Bad arguments for `cdr`: expected a list as the first argument",
                        ),
                    ),
                }
            } else {
                Err(AppError::new("Bad arguments for `cdr`: expected 1 argument"))
            }
        },
        Builtin::NilQ => {
            if args.len() >= 1 {
                let is_nil = match &args[0] {
                    Value::Nil => true,
                    Value::List(items) => items.len() == 0,
                    _ => false,
                };
                proof {
                    if args@[0] is List {
                        lemma_values_view(args@[0]->List_0@);
                    }
                }
                Ok(Value::Boolean(is_nil))
            } else {
                Err(AppError::new("Bad arguments for `nil?`: expected 1 argument"))
            }
        },
    }
}

/// The prelude program: higher-order helpers compiled ahead of every user
/// formula.
pub open spec fn prelude_text() -> Seq<char> {
    "
(
    (defun map (fun lst)
        (if (nil? lst)
            nil
            (cons (fun (car lst)) (map fun (cdr lst)))))
    (defun filter (fun lst)
        (if (nil? lst)
            nil
            (if (fun (car lst))
                (cons (car lst) (filter fun (cdr lst)))
                (filter fun (cdr lst)))))
)
"@
}

pub fn prelude_source() -> (r: &'static str)
    ensures
        r@ == prelude_text(),
{
    "
(
    (defun map (fun lst)
        (if (nil? lst)
            nil
            (cons (fun (car lst)) (map fun (cdr lst)))))
    (defun filter (fun lst)
        (if (nil? lst)
            nil
            (if (fun (car lst))
                (cons (car lst) (filter fun (cdr lst)))
                (filter fun (cdr lst)))))
)
"
}

/// The binding table of the builtins frame: every builtin plus `nil`.
pub(crate) fn builtins_table() -> (r: Vec<(String, Value)>)
    ensures
        crate::interpreter::env::table_view(r@)
            == crate::interpreter::env::builtins_table_view(),
{
    let mut v: Vec<(String, Value)> = Vec::new();
    v.push((String::from_str("+"), Value::BuiltinFunction(Builtin::Plus)));
    v.push((String::from_str("*"), Value::BuiltinFunction(Builtin::Mult)));
    v.push((String::from_str("show"), Value::BuiltinFunction(Builtin::Show)));
    v.push((String::from_str("type"), Value::BuiltinFunction(Builtin::Type)));
    v.push((String::from_str("cons"), Value::BuiltinFunction(Builtin::Cons)));
    v.push((String::from_str("car"), Value::BuiltinFunction(Builtin::Car)));
    v.push((String::from_str("cdr"), Value::BuiltinFunction(Builtin::Cdr)));
    v.push((String::from_str("nil?"), Value::BuiltinFunction(Builtin::NilQ)));
    v.push((String::from_str("nil"), Value::Nil));
    proof {
        reveal_with_fuel(crate::interpreter::env::table_view, 11);
        assert(crate::interpreter::env::table_view(v@) =~= crate::interpreter::env::builtins_table_view());
    }
    v
}

} // verus!
