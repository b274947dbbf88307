//! The surface parser of the expression language: s-expressions whose atoms
//! are decimal number literals, quoted strings with `\"` and `\n` escapes,
//! symbols, and `:`-prefixed keywords. The grammar is stated by the
//! `*_spec` functions below; the executable parser is proved to read
//! exactly that grammar.

use vstd::prelude::*;

use crate::chars::{
    digit_run_end, is_digit_char, is_number_text, is_sign_char, lemma_digit_run_end_bounds,
    lemma_digit_run_end_exact, number_shape,
};
use crate::error::{AppError, AppResult};
use crate::numeric::{chars_to_string, float_of_chars, number_from_text};

verus! {

/// The expression tree. Numbers carry the bit pattern of an IEEE-754
/// single-precision value. Booleans never come from the parser; they arise
/// only from evaluation.
#[derive(Debug, PartialEq)]
pub enum Expr {
    Number(u32),
    String(String),
    Boolean(bool),
    Symbol(String),
    Keyword(String),
    List(Vec<Expr>),
}

/// The mathematical shape of an expression: text as character sequences,
/// lists as sequences.
pub enum ExprView {
    Number(u32),
    Str(Seq<char>),
    Boolean(bool),
    Symbol(Seq<char>),
    Keyword(Seq<char>),
    List(Seq<ExprView>),
}

pub open spec fn expr_view(e: Expr) -> ExprView
    decreases e,
{
    match e {
        Expr::Number(b) => ExprView::Number(b),
        Expr::String(s) => ExprView::Str(s@),
        Expr::Boolean(b) => ExprView::Boolean(b),
        Expr::Symbol(s) => ExprView::Symbol(s@),
        Expr::Keyword(s) => ExprView::Keyword(s@),
        Expr::List(es) => ExprView::List(exprs_view(es@)),
    }
}

pub open spec fn exprs_view(es: Seq<Expr>) -> Seq<ExprView>
    decreases es,
{
    if es.len() == 0 {
        Seq::empty()
    } else {
        seq![expr_view(es[0])] + exprs_view(es.drop_first())
    }
}

pub proof fn lemma_exprs_view(es: Seq<Expr>)
    ensures
        exprs_view(es).len() == es.len(),
        forall|i: int| 0 <= i < es.len() ==> #[trigger] exprs_view(es)[i] == expr_view(es[i]),
    decreases es,
{
    if es.len() > 0 {
        lemma_exprs_view(es.drop_first());
        assert forall|i: int| 0 <= i < es.len() implies exprs_view(es)[i] == expr_view(es[i]) by {
            if i > 0 {
                assert(es.drop_first()[i - 1] == es[i]);
            }
        }
    }
}

/// Pushing one parsed expression on the right of a sequence.
pub proof fn lemma_exprs_view_push(es: Seq<Expr>, e: Expr)
    ensures
        exprs_view(es.push(e)) == exprs_view(es).push(expr_view(e)),
    decreases es,
{
    if es.len() == 0 {
        assert(es.push(e).drop_first() =~= Seq::<Expr>::empty());
        assert(es.push(e)[0] == e);
        assert(es.push(e).len() == 1);
        assert(exprs_view(es.push(e)) == seq![expr_view(e)] + exprs_view(Seq::<Expr>::empty()));
        assert(exprs_view(es) == Seq::<ExprView>::empty());
        assert(exprs_view(es.push(e)) =~= exprs_view(es).push(expr_view(e)));
    } else {
        lemma_exprs_view_push(es.drop_first(), e);
        assert(es.push(e).drop_first() =~= es.drop_first().push(e));
        assert(es.push(e)[0] == es[0]);
        assert(exprs_view(es.push(e)) =~= exprs_view(es).push(expr_view(e)));
    }
}

pub open spec fn is_ws_char(c: char) -> bool {
    c == ' ' || c == '\t' || c == '\n' || c == '\r'
}

/// The identifier character class: ASCII letters and digits plus
/// `+ - / _ * > < | & . = ?`. The question mark belongs to the class so
/// that predicate names such as `nil?` read as one symbol.
pub open spec fn is_ident_char(c: char) -> bool {
    ||| is_digit_char(c)
    ||| ('a' as int <= c as int && c as int <= 'z' as int)
    ||| ('A' as int <= c as int && c as int <= 'Z' as int)
    ||| c == '?'
    ||| c == '+'
    ||| c == '-'
    ||| c == '/'
    ||| c == '_'
    ||| c == '*'
    ||| c == '>'
    ||| c == '<'
    ||| c == '|'
    ||| c == '&'
    ||| c == '.'
    ||| c == '='
}

/// The first index at or after `i` past the whitespace run.
pub open spec fn ws_end(s: Seq<char>, i: int) -> int
    decreases s.len() - i,
{
    if i < 0 || i >= s.len() || !is_ws_char(s[i]) {
        i
    } else {
        ws_end(s, i + 1)
    }
}

/// The first index at or after `i` past the identifier-character run.
pub open spec fn ident_end(s: Seq<char>, i: int) -> int
    decreases s.len() - i,
{
    if i < 0 || i >= s.len() || !is_ident_char(s[i]) {
        i
    } else {
        ident_end(s, i + 1)
    }
}

pub proof fn lemma_ws_end_exact(s: Seq<char>, i0: int, j: int)
    requires
        0 <= i0 <= j <= s.len(),
        forall|k: int| i0 <= k < j ==> is_ws_char(#[trigger] s[k]),
        j < s.len() ==> !is_ws_char(s[j]),
    ensures
        ws_end(s, i0) == j,
    decreases j - i0,
{
    if i0 < j {
        lemma_ws_end_exact(s, i0 + 1, j);
    }
}

pub proof fn lemma_ident_end_bounds(s: Seq<char>, i: int)
    requires
        0 <= i <= s.len(),
    ensures
        i <= ident_end(s, i) <= s.len(),
    decreases s.len() - i,
{
    if i < s.len() && is_ident_char(s[i]) {
        lemma_ident_end_bounds(s, i + 1);
    }
}

pub proof fn lemma_ident_end_exact(s: Seq<char>, i0: int, j: int)
    requires
        0 <= i0 <= j <= s.len(),
        forall|k: int| i0 <= k < j ==> is_ident_char(#[trigger] s[k]),
        j < s.len() ==> !is_ident_char(s[j]),
    ensures
        ident_end(s, i0) == j,
    decreases j - i0,
{
    if i0 < j {
        lemma_ident_end_exact(s, i0 + 1, j);
    }
}

/// The end of an exponent part at `m`, or `m` itself when no complete
/// exponent (`e`/`E`, optional sign, one or more digits) starts there.
pub open spec fn exp_end(s: Seq<char>, m: int) -> int {
    if 0 <= m < s.len() && (s[m] == 'e' || s[m] == 'E') {
        let u = if m + 1 < s.len() && is_sign_char(s[m + 1]) {
            m + 2
        } else {
            m + 1
        };
        let e = digit_run_end(s, u);
        if e > u {
            e
        } else {
            m
        }
    } else {
        m
    }
}

/// The end of a maximal number literal starting at `i`: an optional sign,
/// then digits with an optional dot (at least one digit in the mantissa),
/// then an optional complete exponent. `None` when no number starts at `i`.
pub open spec fn scan_number_spec(s: Seq<char>, i: int) -> Option<int> {
    if 0 <= i <= s.len() {
        let p = if i < s.len() && is_sign_char(s[i]) {
            i + 1
        } else {
            i
        };
        let q = digit_run_end(s, p);
        let mant = if q > p {
            if q < s.len() && s[q] == '.' {
                Option::Some(digit_run_end(s, q + 1))
            } else {
                Option::Some(q)
            }
        } else if p < s.len() && s[p] == '.' {
            let f = digit_run_end(s, p + 1);
            if f > p + 1 {
                Option::Some(f)
            } else {
                Option::None
            }
        } else {
            Option::None
        };
        match mant {
            Option::None => Option::None,
            Option::Some(m) => Option::Some(exp_end(s, m)),
        }
    } else {
        Option::None
    }
}

/// The interpreted content of a string literal read from `i` (just past the
/// opening quote) up to its closing quote: `\"` reads as `"`, `\n` as a
/// newline, any other escape fails, and the quote and backslash characters
/// cannot appear bare. Yields the content and the index past the closing
/// quote.
pub open spec fn scan_string_spec(s: Seq<char>, i: int) -> Option<(Seq<char>, int)>
    decreases s.len() - i,
{
    if i < 0 || i >= s.len() {
        Option::None
    } else if s[i] == '"' {
        Option::Some((Seq::empty(), i + 1))
    } else if s[i] == '\\' {
        if i + 1 < s.len() && (s[i + 1] == '"' || s[i + 1] == 'n') {
            let c = if s[i + 1] == '"' {
                '"'
            } else {
                '\n'
            };
            match scan_string_spec(s, i + 2) {
                Option::None => Option::None,
                Option::Some((rest, j)) => Option::Some((seq![c] + rest, j)),
            }
        } else {
            Option::None
        }
    } else {
        match scan_string_spec(s, i + 1) {
            Option::None => Option::None,
            Option::Some((rest, j)) => Option::Some((seq![s[i]] + rest, j)),
        }
    }
}

/// One expression read from position `i`: leading whitespace is skipped,
/// then the alternatives are tried in order — number, string, symbol,
/// keyword, list. Yields the expression and the index just past it.
pub open spec fn parse_expr_spec(s: Seq<char>, i: int) -> Option<(ExprView, int)>
    decreases s.len() - i, 0int,
{
    if !(0 <= i <= s.len()) {
        Option::None
    } else {
        let w = ws_end(s, i);
        if !(i <= w < s.len()) {
            Option::None
        } else if scan_number_spec(s, w) is Some {
            let j = scan_number_spec(s, w)->Some_0;
            Option::Some((ExprView::Number(float_of_chars(s.subrange(w, j))), j))
        } else if s[w] == '"' {
            match scan_string_spec(s, w + 1) {
                Option::None => Option::None,
                Option::Some((content, j)) => Option::Some((ExprView::Str(content), j)),
            }
        } else if is_ident_char(s[w]) {
            let j = ident_end(s, w);
            Option::Some((ExprView::Symbol(s.subrange(w, j)), j))
        } else if s[w] == ':' && w + 1 < s.len() && is_ident_char(s[w + 1]) {
            let j = ident_end(s, w + 1);
            Option::Some((ExprView::Keyword(s.subrange(w + 1, j)), j))
        } else if s[w] == '(' {
            match parse_elems_spec(s, w + 1) {
                Option::None => Option::None,
                Option::Some((es, j)) => {
                    let k = ws_end(s, j);
                    if k < s.len() && s[k] == ')' {
                        Option::Some((ExprView::List(es), k + 1))
                    } else {
                        Option::None
                    }
                },
            }
        } else {
            Option::None
        }
    }
}

/// The elements of a list read from `i`: zero or more expressions, the
/// later ones each preceded by at least one whitespace character. Yields
/// the elements and the index just past the last one (or `i` when there is
/// none). A sub-parse that fails to advance fails the parse; the
/// executable grammar always advances.
pub open spec fn parse_elems_spec(s: Seq<char>, i: int) -> Option<(Seq<ExprView>, int)>
    decreases s.len() - i, 1int,
{
    if !(0 <= i <= s.len()) {
        Option::None
    } else {
        match parse_expr_spec(s, i) {
            Option::None => Option::Some((Seq::empty(), i)),
            Option::Some((e, j)) => {
                if j <= i || j > s.len() {
                    Option::None
                } else {
                    match parse_more_elems_spec(s, j) {
                        Option::None => Option::None,
                        Option::Some((rest, j2)) => Option::Some((seq![e] + rest, j2)),
                    }
                }
            },
        }
    }
}

/// Further list elements after one ending at `j`: repeatedly, one or more
/// whitespace characters and then an expression; stops before the first
/// position where that fails.
pub open spec fn parse_more_elems_spec(s: Seq<char>, j: int) -> Option<(Seq<ExprView>, int)>
    decreases s.len() - j, 0int,
{
    if !(0 <= j <= s.len()) {
        Option::None
    } else {
        let k = ws_end(s, j);
        if !(j <= k <= s.len()) {
            Option::None
        } else if k == j {
            Option::Some((Seq::empty(), j))
        } else {
            match parse_expr_spec(s, k) {
                Option::None => Option::Some((Seq::empty(), j)),
                Option::Some((e, j2)) => {
                    if j2 <= k || j2 > s.len() {
                        Option::None
                    } else {
                        match parse_more_elems_spec(s, j2) {
                            Option::None => Option::None,
                            Option::Some((rest, j3)) => Option::Some((seq![e] + rest, j3)),
                        }
                    }
                },
            }
        }
    }
}

fn ws_skip(s: &str, i: usize, n: usize) -> (w: usize)
    requires
        n == s@.len(),
        i <= n,
    ensures
        w as int == ws_end(s@, i as int),
        i <= w <= n,
{
    let mut w: usize = i;
    while w < n && ws_at(s, w)
        invariant
            n == s@.len(),
            i <= w <= n,
            forall|k: int| i <= k < w ==> is_ws_char(#[trigger] s@[k]),
        decreases n - w,
    {
        w = w + 1;
    }
    proof {
        lemma_ws_end_exact(s@, i as int, w as int);
    }
    w
}

fn ws_at(s: &str, j: usize) -> (r: bool)
    requires
        j < s@.len(),
    ensures
        r == is_ws_char(s@[j as int]),
{
    let c = s.get_char(j);
    c == ' ' || c == '\t' || c == '\n' || c == '\r'
}

fn digit_at(s: &str, j: usize) -> (r: bool)
    requires
        j < s@.len(),
    ensures
        r == is_digit_char(s@[j as int]),
{
    let c = s.get_char(j);
    c >= '0' && c <= '9'
}

fn ident_at(s: &str, j: usize) -> (r: bool)
    requires
        j < s@.len(),
    ensures
        r == is_ident_char(s@[j as int]),
{
    let c = s.get_char(j);
    (c >= '0' && c <= '9') || (c >= 'a' && c <= 'z') || (c >= 'A' && c <= 'Z') || c == '?'
        || c == '+' || c == '-' || c == '/' || c == '_' || c == '*' || c == '>' || c == '<'
        || c == '|' || c == '&' || c == '.' || c == '='
}

fn scan_digits(s: &str, start: usize, n: usize) -> (j: usize)
    requires
        n == s@.len(),
        start <= n,
    ensures
        j as int == digit_run_end(s@, start as int),
        start <= j <= n,
{
    let mut j: usize = start;
    while j < n && digit_at(s, j)
        invariant
            n == s@.len(),
            start <= j <= n,
            forall|k: int| start <= k < j ==> is_digit_char(#[trigger] s@[k]),
        decreases n - j,
    {
        j = j + 1;
    }
    proof {
        lemma_digit_run_end_exact(s@, start as int, j as int);
    }
    j
}

fn ident_skip(s: &str, start: usize, n: usize) -> (j: usize)
    requires
        n == s@.len(),
        start <= n,
    ensures
        j as int == ident_end(s@, start as int),
        start <= j <= n,
{
    let mut j: usize = start;
    while j < n && ident_at(s, j)
        invariant
            n == s@.len(),
            start <= j <= n,
            forall|k: int| start <= k < j ==> is_ident_char(#[trigger] s@[k]),
        decreases n - j,
    {
        j = j + 1;
    }
    proof {
        lemma_ident_end_exact(s@, start as int, j as int);
    }
    j
}

fn sign_at(s: &str, j: usize) -> (r: bool)
    requires
        j < s@.len(),
    ensures
        r == is_sign_char(s@[j as int]),
{
    let c = s.get_char(j);
    c == '+' || c == '-'
}

/// Scans a maximal number literal at `i`; on success the span is of the
/// decimal number shape that the trusted conversion accepts.
#[verifier::rlimit(50)]
fn scan_number_at(s: &str, i: usize, n: usize) -> (r: Option<usize>)
    requires
        n == s@.len(),
        i <= n,
    ensures
        r matches Some(j) ==> scan_number_spec(s@, i as int) == Some(j as int) && i < j <= n
            && is_number_text(s@.subrange(i as int, j as int)),
        r is None ==> scan_number_spec(s@, i as int) is None,
{
    let p: usize = if i < n && sign_at(s, i) {
        i + 1
    } else {
        i
    };
    let q = scan_digits(s, p, n);
    proof {
        lemma_digit_run_end_bounds(s@, p as int);
    }
    let m: usize;
    if q > p {
        if q < n && s.get_char(q) == '.' {
            m = scan_digits(s, q + 1, n);
            proof {
                lemma_digit_run_end_bounds(s@, q + 1 as int);
            }
        } else {
            m = q;
        }
    } else if p < n && s.get_char(p) == '.' {
        let f = scan_digits(s, p + 1, n);
        proof {
            lemma_digit_run_end_bounds(s@, p + 1 as int);
        }
        if f > p + 1 {
            m = f;
        } else {
            return None;
        }
    } else {
        return None;
    }
    let j: usize;
    if m < n && {
        let c = s.get_char(m);
        c == 'e' || c == 'E'
    } {
        let u: usize = if m + 1 < n && sign_at(s, m + 1) {
            m + 2
        } else {
            m + 1
        };
        let e2 = scan_digits(s, u, n);
        proof {
            lemma_digit_run_end_bounds(s@, u as int);
        }
        if e2 > u {
            j = e2;
        } else {
            j = m;
        }
    } else {
        j = m;
    }
    proof {
        assert(scan_number_spec(s@, i as int) == Some(j as int));
        let t = s@.subrange(i as int, j as int);
        let pp = p - i;
        let qq = q - i;
        let rr = m - i;
        assert forall|k: int| 0 <= k < t.len() implies t[k] == s@[i + k] by {}
        assert(number_shape(t, pp as int, qq as int, rr as int));
        assert(is_number_text(t));
    }
    Some(j)
}

/// Reads a string literal's content from just past the opening quote.
fn scan_string_at(s: &str, i: usize, n: usize) -> (r: Option<(Vec<char>, usize)>)
    requires
        n == s@.len(),
        i <= n,
    ensures
        match scan_string_spec(s@, i as int) {
            Option::None => r is None,
            Option::Some((content, j)) => r matches Some((cs, jj)) && cs@ == content && jj as int
                == j && i < jj <= n,
        },
    decreases n - i,
{
    if i >= n {
        return None;
    }
    let c = s.get_char(i);
    if c == '"' {
        let v: Vec<char> = Vec::new();
        proof {
            assert(v@ =~= Seq::<char>::empty());
        }
        return Some((v, i + 1));
    }
    if c == '\\' {
        if i + 1 < n {
            let c2 = s.get_char(i + 1);
            if c2 == '"' || c2 == 'n' {
                let interpreted: char = if c2 == '"' {
                    '"'
                } else {
                    '\n'
                };
                match scan_string_at(s, i + 2, n) {
                    None => None,
                    Some((mut rest, j)) => {
                        let mut v: Vec<char> = Vec::new();
                        v.push(interpreted);
                        let ghost rest0 = rest@;
                        v.append(&mut rest);
                        proof {
                            assert(v@ =~= seq![interpreted] + rest0);
                        }
                        Some((v, j))
                    },
                }
            } else {
                None
            }
        } else {
            None
        }
    } else {
        match scan_string_at(s, i + 1, n) {
            None => None,
            Some((mut rest, j)) => {
                let mut v: Vec<char> = Vec::new();
                v.push(c);
                let ghost rest0 = rest@;
                v.append(&mut rest);
                proof {
                    assert(v@ =~= seq![s@[i as int]] + rest0);
                }
                Some((v, j))
            },
        }
    }
}

/// Parses one expression at position `i`, leading whitespace included.
fn parse_expr_at(s: &str, i: usize, n: usize) -> (r: Option<(Expr, usize)>)
    requires
        n == s@.len(),
        i <= n,
    ensures
        match parse_expr_spec(s@, i as int) {
            Option::None => r is None,
            Option::Some((v, j)) => r matches Some((e, jj)) && expr_view(e) == v && jj as int == j
                && i < jj && jj <= n,
        },
    decreases n - i, 0int,
{
    let w = ws_skip(s, i, n);
    if w >= n {
        return None;
    }
    match scan_number_at(s, w, n) {
        Some(j) => {
            let t = s.substring_char(w, j);
            proof {
                assert(t@ == s@.subrange(w as int, j as int));
            }
            let bits = match number_from_text(t) {
                Some(b) => b,
                None => {
                    proof {
                        assert(false);
                    }
                    0
                },
            };
            return Some((Expr::Number(bits), j));
        },
        None => {},
    }
    let c = s.get_char(w);
    if c == '"' {
        match scan_string_at(s, w + 1, n) {
            None => None,
            Some((cs, j)) => {
                let content = chars_to_string(&cs);
                Some((Expr::String(content), j))
            },
        }
    } else if ident_at(s, w) {
        let j = ident_skip(s, w, n);
        let name = s.substring_char(w, j);
        proof {
            assert(j > w) by {
                assert(ident_end(s@, w + 1 as int) >= w + 1) by {
                    lemma_ident_end_bounds(s@, w + 1 as int);
                }
            }
        }
        Some((Expr::Symbol(String::from_str(name)), j))
    } else if c == ':' && w + 1 < n && ident_at(s, w + 1) {
        let j = ident_skip(s, w + 1, n);
        let name = s.substring_char(w + 1, j);
        proof {
            lemma_ident_end_bounds(s@, w + 2 as int);
        }
        Some((Expr::Keyword(String::from_str(name)), j))
    } else if c == '(' {
        match parse_elems_at(s, w + 1, n) {
            None => None,
            Some((es, j)) => {
                let k = ws_skip(s, j, n);
                if k < n && s.get_char(k) == ')' {
                    Some((Expr::List(es), k + 1))
                } else {
                    None
                }
            },
        }
    } else {
        None
    }
}

/// Parses the elements of a list, each after the first preceded by
/// whitespace.
fn parse_elems_at(s: &str, i: usize, n: usize) -> (r: Option<(Vec<Expr>, usize)>)
    requires
        n == s@.len(),
        i <= n,
    ensures
        match parse_elems_spec(s@, i as int) {
            Option::None => r is None,
            Option::Some((vs, j)) => r matches Some((es, jj)) && exprs_view(es@) == vs && jj as int
                == j && i <= jj <= n,
        },
    decreases n - i, 1int,
{
    match parse_expr_at(s, i, n) {
        None => {
            let v: Vec<Expr> = Vec::new();
            proof {
                assert(exprs_view(v@) =~= Seq::<ExprView>::empty());
            }
            Some((v, i))
        },
        Some((e, j)) => {
            match parse_more_at(s, j, n) {
                None => None,
                Some((mut rest, j2)) => {
                    let mut v: Vec<Expr> = Vec::new();
                    v.push(e);
                    let ghost rest0 = rest@;
                    let ghost e0 = e;
                    v.append(&mut rest);
                    proof {
                        assert(v@ =~= seq![e0] + rest0);
                        assert(v@[0] == e0);
                        assert(v@.drop_first() =~= rest0);
                        assert(exprs_view(v@) == seq![expr_view(e0)] + exprs_view(rest0));
                    }
                    Some((v, j2))
                },
            }
        },
    }
}

/// Parses further list elements: whitespace then an expression, repeatedly.
fn parse_more_at(s: &str, j: usize, n: usize) -> (r: Option<(Vec<Expr>, usize)>)
    requires
        n == s@.len(),
        j <= n,
    ensures
        match parse_more_elems_spec(s@, j as int) {
            Option::None => r is None,
            Option::Some((vs, j2)) => r matches Some((es, jj)) && exprs_view(es@) == vs
                && jj as int == j2 && j <= jj <= n,
        },
    decreases n - j, 0int,
{
    let k = ws_skip(s, j, n);
    if k == j {
        let v: Vec<Expr> = Vec::new();
        proof {
            assert(exprs_view(v@) =~= Seq::<ExprView>::empty());
        }
        return Some((v, j));
    }
    match parse_expr_at(s, k, n) {
        None => {
            let v: Vec<Expr> = Vec::new();
            proof {
                assert(exprs_view(v@) =~= Seq::<ExprView>::empty());
            }
            Some((v, j))
        },
        Some((e, j2)) => {
            match parse_more_at(s, j2, n) {
                None => None,
                Some((mut rest, j3)) => {
                    let mut v: Vec<Expr> = Vec::new();
                    v.push(e);
                    let ghost rest0 = rest@;
                    let ghost e0 = e;
                    v.append(&mut rest);
                    proof {
                        assert(v@ =~= seq![e0] + rest0);
                        assert(v@.drop_first() =~= rest0);
                        assert(exprs_view(v@) == seq![expr_view(e0)] + exprs_view(rest0));
                    }
                    Some((v, j3))
                },
            }
        },
    }
}

/// Parses one expression from the start of `src`; text after the parsed
/// prefix is ignored.
pub fn parse(src: &str) -> (r: AppResult<Expr>)
    ensures
        (r is Ok) <==> parse_expr_spec(src@, 0) is Some,
        r matches Ok(e) ==> (parse_expr_spec(src@, 0) matches Some((v, _j)) && expr_view(e) == v),
        r matches Err(err) ==> err.text() == "Failed to parse expression: "@ + src@,
{
    let n = src.unicode_len();
    match parse_expr_at(src, 0, n) {
        Some((e, _rest)) => Ok(e),
        None => {
            let mut m = String::from_str("Failed to parse expression: ");
            m.append(src);
            Err(AppError::from_string(m))
        },
    }
}

impl Expr {
    /// Parses an expression from text, as `parse` does.
    pub fn from_string(s: &str) -> (r: AppResult<Expr>)
        ensures
            (r is Ok) <==> parse_expr_spec(s@, 0) is Some,
            r matches Ok(e) ==> (parse_expr_spec(s@, 0) matches Some((v, _j)) && expr_view(e)
                == v),
    {
        parse(s)
    }

    /// A structural copy with the same view.
    #[verifier::loop_isolation(false)]
    pub fn duplicate(&self) -> (r: Expr)
        ensures
            expr_view(r) == expr_view(*self),
        decreases *self,
    {
        match self {
            Expr::Number(b) => Expr::Number(*b),
            Expr::String(s) => Expr::String(s.clone()),
            Expr::Boolean(b) => Expr::Boolean(*b),
            Expr::Symbol(s) => Expr::Symbol(s.clone()),
            Expr::Keyword(s) => Expr::Keyword(s.clone()),
            Expr::List(es) => {
                let mut v: Vec<Expr> = Vec::new();
                let mut idx: usize = 0;
                while idx < es.len()
                    invariant
                        idx <= es.len(),
                        v@.len() == idx,
                        forall|k: int|
                            0 <= k < idx ==> expr_view(#[trigger] v@[k]) == expr_view(es@[k]),
                    decreases es.len() - idx,
                {
                    proof {
                        assert(decreases_to!(*self => self->List_0));
                        assert(self->List_0 == *es);
                        assert(decreases_to!(*es => es@));
                        assert(decreases_to!(es@ => es@[idx as int]));
                        assert(decreases_to!(*self => es@[idx as int]));
                    }
                    let c = es[idx].duplicate();
                    v.push(c);
                    idx = idx + 1;
                }
                proof {
                    lemma_exprs_view(v@);
                    lemma_exprs_view(es@);
                    assert(exprs_view(v@) =~= exprs_view(es@));
                }
                Expr::List(v)
            },
        }
    }
}

/// One atom of an expression, as the walk hands it to a visitor.
pub enum Atom {
    Num(u32),
    Str(Seq<char>),
    Sym(Seq<char>),
    Kw(Seq<char>),
}

/// The atoms of an expression, depth first and left to right; boolean
/// leaves and list nodes contribute none of their own.
pub open spec fn atoms_of(v: ExprView) -> Seq<Atom>
    decreases v, 0int,
{
    match v {
        ExprView::Number(b) => seq![Atom::Num(b)],
        ExprView::Str(s) => seq![Atom::Str(s)],
        ExprView::Boolean(_) => Seq::empty(),
        ExprView::Symbol(s) => seq![Atom::Sym(s)],
        ExprView::Keyword(s) => seq![Atom::Kw(s)],
        ExprView::List(es) => atoms_of_seq(es),
    }
}

pub open spec fn atoms_of_seq(es: Seq<ExprView>) -> Seq<Atom>
    decreases es, 1int,
{
    if es.len() == 0 {
        Seq::empty()
    } else {
        atoms_of(es[0]) + atoms_of_seq(es.drop_first())
    }
}

proof fn lemma_atoms_of_seq_snoc(es: Seq<ExprView>, x: ExprView)
    ensures
        atoms_of_seq(es.push(x)) == atoms_of_seq(es) + atoms_of(x),
    decreases es.len(),
{
    let p = es.push(x);
    if es.len() == 0 {
        assert(p[0] == x);
        assert(p.drop_first() =~= Seq::<ExprView>::empty());
        assert(atoms_of_seq(p) == atoms_of(x) + atoms_of_seq(Seq::<ExprView>::empty()));
        assert(atoms_of_seq(p) =~= atoms_of_seq(es) + atoms_of(x));
    } else {
        assert(p[0] == es[0]);
        assert(p.drop_first() =~= es.drop_first().push(x));
        lemma_atoms_of_seq_snoc(es.drop_first(), x);
        assert(atoms_of_seq(p) == atoms_of(es[0]) + (atoms_of_seq(es.drop_first()) + atoms_of(
            x,
        )));
        assert(atoms_of(es[0]) + (atoms_of_seq(es.drop_first()) + atoms_of(x)) =~= (atoms_of(
            es[0],
        ) + atoms_of_seq(es.drop_first())) + atoms_of(x));
    }
}

/// Receives the atoms of an expression during a depth-first walk; `seen`
/// is the log of atoms handed over so far.
pub trait ExprVisitor {
    /// The atoms the visitor has been handed, in order.
    spec fn seen(&self) -> Seq<Atom>;

    fn visit_number(&mut self, num: u32)
        ensures
            final(self).seen() == old(self).seen().push(Atom::Num(num)),
    ;

    fn visit_string(&mut self, s: &String)
        ensures
            final(self).seen() == old(self).seen().push(Atom::Str(s@)),
    ;

    fn visit_symbol(&mut self, sym: &String)
        ensures
            final(self).seen() == old(self).seen().push(Atom::Sym(sym@)),
    ;

    fn visit_keyword(&mut self, kw: &String)
        ensures
            final(self).seen() == old(self).seen().push(Atom::Kw(kw@)),
    ;
}

/// A visitor that collects the atoms it is handed, each kind in order into
/// its own list.
pub struct AtomCollector {
    pub numbers: Vec<u32>,
    pub strings: Vec<String>,
    pub symbols: Vec<String>,
    pub keywords: Vec<String>,
    pub log: Ghost<Seq<Atom>>,
}

impl AtomCollector {
    pub fn new() -> (r: AtomCollector)
        ensures
            r.seen() == Seq::<Atom>::empty(),
            r.numbers@.len() == 0,
            r.strings@.len() == 0,
            r.symbols@.len() == 0,
            r.keywords@.len() == 0,
    {
        AtomCollector {
            numbers: Vec::new(),
            strings: Vec::new(),
            symbols: Vec::new(),
            keywords: Vec::new(),
            log: Ghost(Seq::empty()),
        }
    }
}

impl ExprVisitor for AtomCollector {
    open spec fn seen(&self) -> Seq<Atom> {
        self.log@
    }

    fn visit_number(&mut self, num: u32) {
        self.numbers.push(num);
        proof {
            self.log@ = self.log@.push(Atom::Num(num));
        }
    }

    fn visit_string(&mut self, s: &String) {
        self.strings.push(s.clone());
        proof {
            self.log@ = self.log@.push(Atom::Str(s@));
        }
    }

    fn visit_symbol(&mut self, sym: &String) {
        self.symbols.push(sym.clone());
        proof {
            self.log@ = self.log@.push(Atom::Sym(sym@));
        }
    }

    fn visit_keyword(&mut self, kw: &String) {
        self.keywords.push(kw.clone());
        proof {
            self.log@ = self.log@.push(Atom::Kw(kw@));
        }
    }
}

/// May replace a whole `List` node by pattern-matching its elements; `None`
/// declines, and the engine then recurses into the children.
pub trait ExprRewriter {
    /// What the rewriter answers for a list with the given elements.
    spec fn rewrite_spec(&self, form: Seq<ExprView>) -> Option<ExprView>;

    fn maybe_rewrite(&self, form: &Vec<Expr>) -> (r: Option<Expr>)
        ensures
            match self.rewrite_spec(exprs_view(form@)) {
                Option::Some(v) => r matches Some(e) && expr_view(e) == v,
                Option::None => r is None,
            },
    ;
}

/// The result of rewriting an expression: a list the rewriter answers for
/// is replaced wholesale; otherwise its children are rewritten; atoms stay.
pub open spec fn rewrite_view<R: ExprRewriter>(r: &R, v: ExprView) -> ExprView
    decreases v, 1int,
{
    match v {
        ExprView::List(es) => match r.rewrite_spec(es) {
            Option::Some(replacement) => replacement,
            Option::None => ExprView::List(rewrite_views(r, es)),
        },
        _ => v,
    }
}

pub open spec fn rewrite_views<R: ExprRewriter>(r: &R, es: Seq<ExprView>) -> Seq<ExprView>
    decreases es, 0int,
{
    if es.len() == 0 {
        Seq::empty()
    } else {
        seq![rewrite_view(r, es[0])] + rewrite_views(r, es.drop_first())
    }
}

proof fn lemma_rewrite_views<R: ExprRewriter>(r: &R, es: Seq<ExprView>)
    ensures
        rewrite_views(r, es).len() == es.len(),
        forall|i: int|
            0 <= i < es.len() ==> #[trigger] rewrite_views(r, es)[i] == rewrite_view(r, es[i]),
    decreases es,
{
    if es.len() > 0 {
        lemma_rewrite_views(r, es.drop_first());
        assert forall|i: int|
            0 <= i < es.len() implies rewrite_views(r, es)[i] == rewrite_view(r, es[i]) by {
            if i > 0 {
                assert(es.drop_first()[i - 1] == es[i]);
            }
        }
    }
}

impl Expr {
    /// Walks the expression depth-first, handing each atom to the visitor
    /// exactly once, left to right; `List` nodes recurse into their
    /// children without a callback of their own, and the expression is not
    /// changed.
    #[verifier::loop_isolation(false)]
    pub fn walk<T: ExprVisitor>(&self, visitor: &mut T)
        ensures
            final(visitor).seen() == old(visitor).seen() + atoms_of(expr_view(*self)),
        decreases *self,
    {
        match self {
            Expr::Number(num) => {
                visitor.visit_number(*num);
                proof {
                    assert(old(visitor).seen() + atoms_of(expr_view(*self))
                        =~= final(visitor).seen());
                }
            },
            Expr::String(s) => {
                visitor.visit_string(s);
                proof {
                    assert(old(visitor).seen() + atoms_of(expr_view(*self))
                        =~= final(visitor).seen());
                }
            },
            Expr::Boolean(_b) => {
                proof {
                    assert(old(visitor).seen() + atoms_of(expr_view(*self))
                        =~= old(visitor).seen());
                }
            },
            Expr::Symbol(sym) => {
                visitor.visit_symbol(sym);
                proof {
                    assert(old(visitor).seen() + atoms_of(expr_view(*self))
                        =~= final(visitor).seen());
                }
            },
            Expr::Keyword(kw) => {
                visitor.visit_keyword(kw);
                proof {
                    assert(old(visitor).seen() + atoms_of(expr_view(*self))
                        =~= final(visitor).seen());
                }
            },
            Expr::List(exprs) => {
                let ghost esv = exprs_view(exprs@);
                let ghost seen0 = visitor.seen();
                proof {
                    lemma_exprs_view(exprs@);
                    assert(esv.take(0) =~= Seq::<ExprView>::empty());
                    assert(seen0 + atoms_of_seq(esv.take(0)) =~= seen0);
                }
                let mut idx: usize = 0;
                while idx < exprs.len()
                    invariant
                        idx <= exprs.len(),
                        visitor.seen() == seen0 + atoms_of_seq(esv.take(idx as int)),
                    decreases exprs.len() - idx,
                {
                    proof {
                        assert(decreases_to!(*self => self->List_0));
                        assert(self->List_0 == *exprs);
                        assert(decreases_to!(*exprs => exprs@));
                        assert(decreases_to!(exprs@ => exprs@[idx as int]));
                        assert(decreases_to!(*self => exprs@[idx as int]));
                    }
                    exprs[idx].walk(visitor);
                    proof {
                        lemma_atoms_of_seq_snoc(esv.take(idx as int), esv[idx as int]);
                        assert(esv.take(idx + 1) =~= esv.take(idx as int).push(esv[idx as int]));
                        assert(visitor.seen() =~= seen0 + atoms_of_seq(esv.take(idx + 1)));
                    }
                    idx = idx + 1;
                }
                proof {
                    assert(esv.take(esv.len() as int) =~= esv);
                }
            },
        }
    }

    /// Rewrites the expression with the given rewriter.
    #[verifier::loop_isolation(false)]
    pub fn rewrite<T: ExprRewriter>(&self, rewriter: &T) -> (r: Expr)
        ensures
            expr_view(r) == rewrite_view(rewriter, expr_view(*self)),
        decreases *self,
    {
        match self {
            Expr::List(exprs) => match rewriter.maybe_rewrite(exprs) {
                Some(new_form) => new_form,
                None => {
                    let mut v: Vec<Expr> = Vec::new();
                    let mut idx: usize = 0;
                    proof {
                        lemma_exprs_view(exprs@);
                    }
                    while idx < exprs.len()
                        invariant
                            idx <= exprs.len(),
                            v@.len() == idx,
                            forall|k: int|
                                0 <= k < exprs@.len() ==> exprs_view(exprs@)[k] == expr_view(
                                    #[trigger] exprs@[k],
                                ),
                            exprs_view(exprs@).len() == exprs@.len(),
                            forall|k: int|
                                0 <= k < idx ==> expr_view(#[trigger] v@[k]) == rewrite_view(
                                    rewriter,
                                    expr_view(exprs@[k]),
                                ),
                        decreases exprs.len() - idx,
                    {
                        proof {
                            assert(decreases_to!(*self => self->List_0));
                            assert(self->List_0 == *exprs);
                            assert(decreases_to!(*exprs => exprs@));
                            assert(decreases_to!(exprs@ => exprs@[idx as int]));
                            assert(decreases_to!(*self => exprs@[idx as int]));
                        }
                        let c = exprs[idx].rewrite(rewriter);
                        v.push(c);
                        idx = idx + 1;
                    }
                    proof {
                        lemma_exprs_view(v@);
                        lemma_rewrite_views(rewriter, exprs_view(exprs@));
                        assert(exprs_view(v@) =~= rewrite_views(rewriter, exprs_view(exprs@)));
                    }
                    Expr::List(v)
                },
            },
            _ => {
                let c = self.duplicate();
                c
            },
        }
    }
}

/// A cell's raw text, classified: a leading `=` makes the rest a formula
/// expression; otherwise text that is in full a number literal is a number;
/// anything else is plain text.
pub enum InterpretCellResult {
    Number(u32),
    Text(String),
    Expr(Expr),
}

/// `s` is, in full, a number literal.
pub open spec fn is_full_number(s: Seq<char>) -> bool {
    s.len() > 0 && scan_number_spec(s, 0) == Some(s.len() as int)
}

pub fn interpret_cell(contents: &str) -> (r: AppResult<InterpretCellResult>)
    ensures
        (contents@.len() > 0 && contents@[0] == '=') ==> (match parse_expr_spec(
            contents@.skip(1),
            0,
        ) {
            Option::Some((v, _j)) => r matches Ok(ir) && ir matches InterpretCellResult::Expr(e)
                && expr_view(e) == v,
            Option::None => r is Err,
        }),
        !(contents@.len() > 0 && contents@[0] == '=') ==> {
            &&& r is Ok
            &&& (is_full_number(contents@) ==> (r matches Ok(ir) && ir
                == InterpretCellResult::Number(float_of_chars(contents@))))
            &&& (!is_full_number(contents@) ==> (r matches Ok(ir) && ir
                matches InterpretCellResult::Text(t) && t@ == contents@))
        },
{
    let n = contents.unicode_len();
    if n > 0 && contents.get_char(0) == '=' {
        let rest = contents.substring_char(1, n);
        proof {
            assert(rest@ =~= contents@.skip(1));
        }
        match parse(rest) {
            Ok(e) => Ok(InterpretCellResult::Expr(e)),
            Err(err) => Err(err),
        }
    } else {
        match scan_number_at(contents, 0, n) {
            Some(j) if j == n => {
                proof {
                    assert(contents@.subrange(0, n as int) =~= contents@);
                }
                let bits = match number_from_text(contents) {
                    Some(b) => b,
                    None => {
                        proof {
                            assert(false);
                        }
                        0
                    },
                };
                Ok(InterpretCellResult::Number(bits))
            },
            _ => Ok(InterpretCellResult::Text(String::from_str(contents))),
        }
    }
}

/// The escaped source form of string content: `"` as `\"`, a newline as
/// `\n`, every other character as itself.
pub open spec fn escape_chars(x: Seq<char>) -> Seq<char>
    decreases x.len(),
{
    if x.len() == 0 {
        Seq::empty()
    } else {
        let head: Seq<char> = if x[0] == '"' {
            seq!['\\', '"']
        } else if x[0] == '\n' {
            seq!['\\', 'n']
        } else {
            seq![x[0]]
        };
        head + escape_chars(x.drop_first())
    }
}

proof fn lemma_escape_snoc(x: Seq<char>, c: char)
    ensures
        escape_chars(x.push(c)) == escape_chars(x) + (if c == '"' {
            seq!['\\', '"']
        } else if c == '\n' {
            seq!['\\', 'n']
        } else {
            seq![c]
        }),
    decreases x.len(),
{
    let p = x.push(c);
    let head: Seq<char> = if c == '"' {
        seq!['\\', '"']
    } else if c == '\n' {
        seq!['\\', 'n']
    } else {
        seq![c]
    };
    if x.len() == 0 {
        assert(p.len() == 1);
        assert(p[0] == c);
        assert(p.drop_first() =~= Seq::<char>::empty());
        assert(escape_chars(p) == head + escape_chars(Seq::<char>::empty()));
        assert(escape_chars(p) =~= escape_chars(x) + head);
    } else {
        assert(p[0] == x[0]);
        assert(p.drop_first() =~= x.drop_first().push(c));
        lemma_escape_snoc(x.drop_first(), c);
        let h0: Seq<char> = if x[0] == '"' {
            seq!['\\', '"']
        } else if x[0] == '\n' {
            seq!['\\', 'n']
        } else {
            seq![x[0]]
        };
        assert(escape_chars(p) == h0 + (escape_chars(x.drop_first()) + head));
        assert(h0 + (escape_chars(x.drop_first()) + head) =~= (h0 + escape_chars(x.drop_first()))
            + head);
    }
}

/// The escaped source form of a string's characters, as `escape_chars`
/// says.
#[verifier::loop_isolation(false)]
pub fn escape_text(s: &str) -> (r: Vec<char>)
    ensures
        r@ == escape_chars(s@),
{
    let n = s.unicode_len();
    let mut r: Vec<char> = Vec::new();
    proof {
        assert(s@.take(0) =~= Seq::<char>::empty());
        assert(escape_chars(s@.take(0)) =~= Seq::<char>::empty());
    }
    let mut i: usize = 0;
    while i < n
        invariant
            i <= n,
            n == s@.len(),
            r@ == escape_chars(s@.take(i as int)),
        decreases n - i,
    {
        let c = s.get_char(i);
        if c == '"' {
            r.push('\\');
            r.push('"');
        } else if c == '\n' {
            r.push('\\');
            r.push('n');
        } else {
            r.push(c);
        }
        proof {
            lemma_escape_snoc(s@.take(i as int), s@[i as int]);
            assert(s@.take(i + 1) =~= s@.take(i as int).push(s@[i as int]));
            assert(r@ =~= escape_chars(s@.take(i + 1)));
        }
        i = i + 1;
    }
    proof {
        assert(s@.take(n as int) =~= s@);
    }
    r
}

proof fn lemma_scan_escaped(s: Seq<char>, i: int, x: Seq<char>)
    requires
        !x.contains('\\'),
        0 <= i,
        i + escape_chars(x).len() + 1 <= s.len(),
        s.subrange(i, i + escape_chars(x).len() + 1) == escape_chars(x) + seq!['"'],
    ensures
        scan_string_spec(s, i) == Some((x, i + escape_chars(x).len() + 1)),
    decreases x.len(),
{
    let esc = escape_chars(x);
    if x.len() == 0 {
        assert(s[i] == (esc + seq!['"'])[0]);
        assert(s[i] == '"');
    } else {
        let rest = x.drop_first();
        let erest = escape_chars(rest);
        assert(x[0] != '\\');
        if x[0] == '"' || x[0] == '\n' {
            assert(esc == seq!['\\', if x[0] == '"' { '"' } else { 'n' }] + erest);
            assert(s[i] == (esc + seq!['"'])[0]);
            assert(s[i + 1] == (esc + seq!['"'])[1]);
            assert(s[i] == '\\');
            assert forall|k: int| 0 <= k < erest.len() + 1 implies s.subrange(
                i + 2,
                i + 2 + erest.len() + 1,
            )[k] == (erest + seq!['"'])[k] by {
                assert(s.subrange(i, i + esc.len() + 1)[2 + k] == s[i + 2 + k]);
                assert((esc + seq!['"'])[2 + k] == (erest + seq!['"'])[k]);
            }
            assert(s.subrange(i + 2, i + 2 + erest.len() + 1) =~= erest + seq!['"']);
            lemma_scan_escaped(s, i + 2, rest);
            assert(seq![x[0]] + rest =~= x);
        } else {
            assert(esc == seq![x[0]] + erest);
            assert(s[i] == (esc + seq!['"'])[0]);
            assert(s[i] == x[0]);
            assert(s[i] != '"' && s[i] != '\\');
            assert forall|k: int| 0 <= k < erest.len() + 1 implies s.subrange(
                i + 1,
                i + 1 + erest.len() + 1,
            )[k] == (erest + seq!['"'])[k] by {
                assert(s.subrange(i, i + esc.len() + 1)[1 + k] == s[i + 1 + k]);
                assert((esc + seq!['"'])[1 + k] == (erest + seq!['"'])[k]);
            }
            assert(s.subrange(i + 1, i + 1 + erest.len() + 1) =~= erest + seq!['"']);
            lemma_scan_escaped(s, i + 1, rest);
            assert(seq![x[0]] + rest =~= x);
        }
    }
}

/// The parser inverts string escaping: the literal written as a quote,
/// the escaped content, and a closing quote reads back as exactly the
/// original content. A backslash cannot itself appear in string content;
/// only `\"` and `\n` escapes exist.
pub proof fn lemma_string_literal_round_trip(x: Seq<char>)
    requires
        !x.contains('\\'),
    ensures
        ({
            let src = seq!['"'] + escape_chars(x) + seq!['"'];
            parse_expr_spec(src, 0) == Some((ExprView::Str(x), src.len() as int))
        }),
{
    let src = seq!['"'] + escape_chars(x) + seq!['"'];
    assert(src[0] == '"');
    assert(!is_ws_char(src[0]));
    assert(ws_end(src, 0) == 0);
    assert(!is_sign_char(src[0]) && !is_digit_char(src[0]) && src[0] != '.');
    assert(digit_run_end(src, 0) == 0);
    assert(scan_number_spec(src, 0) is None);
    assert(src.subrange(1, 1 + escape_chars(x).len() as int + 1) =~= escape_chars(x) + seq!['"']);
    lemma_scan_escaped(src, 1, x);
}

} // verus!
