use vstd::prelude::*;

verus! {

pub open spec fn is_digit_char(c: char) -> bool {
    '0' as int <= c as int && c as int <= '9' as int
}

/// The first index at or after `i` that is past the end or holds a
/// non-digit character.
pub open spec fn digit_run_end(s: Seq<char>, i: int) -> int
    decreases s.len() - i,
{
    if i < 0 || i >= s.len() || !is_digit_char(s[i]) {
        i
    } else {
        digit_run_end(s, i + 1)
    }
}

/// The decimal value of the digits `s[i..j]`.
pub open spec fn digits_val(s: Seq<char>, i: int, j: int) -> int
    decreases j - i,
{
    if i >= j {
        0
    } else {
        digits_val(s, i, j - 1) * 10 + (s[j - 1] as int - '0' as int)
    }
}

pub proof fn lemma_digit_run_end_bounds(s: Seq<char>, i: int)
    requires
        0 <= i <= s.len(),
    ensures
        i <= digit_run_end(s, i) <= s.len(),
        forall|k: int| i <= k < digit_run_end(s, i) ==> is_digit_char(#[trigger] s[k]),
        digit_run_end(s, i) < s.len() ==> !is_digit_char(s[digit_run_end(s, i)]),
    decreases s.len() - i,
{
    if i < s.len() && is_digit_char(s[i]) {
        lemma_digit_run_end_bounds(s, i + 1);
    }
}

/// If every character of `s[i0..j]` is a digit and `j` is past the end or a
/// non-digit, the digit run from `i0` ends exactly at `j`.
pub proof fn lemma_digit_run_end_exact(s: Seq<char>, i0: int, j: int)
    requires
        0 <= i0 <= j <= s.len(),
        forall|k: int| i0 <= k < j ==> is_digit_char(#[trigger] s[k]),
        j < s.len() ==> !is_digit_char(s[j]),
    ensures
        digit_run_end(s, i0) == j,
    decreases j - i0,
{
    if i0 < j {
        lemma_digit_run_end_exact(s, i0 + 1, j);
    }
}

pub proof fn lemma_digits_val_nonneg(s: Seq<char>, i: int, j: int)
    requires
        forall|k: int| i <= k < j ==> is_digit_char(#[trigger] s[k]),
    ensures
        digits_val(s, i, j) >= 0,
    decreases j - i,
{
    if i < j {
        lemma_digits_val_nonneg(s, i, j - 1);
    }
}

/// Reading more digits never decreases the value.
pub proof fn lemma_digits_val_mono(s: Seq<char>, i: int, k: int, j: int)
    requires
        i <= k <= j,
        forall|m: int| i <= m < j ==> is_digit_char(#[trigger] s[m]),
    ensures
        digits_val(s, i, j) >= digits_val(s, i, k),
    decreases j - k,
{
    if k < j {
        lemma_digits_val_mono(s, i, k, j - 1);
        lemma_digits_val_nonneg(s, i, j - 1);
    }
}

pub open spec fn is_sign_char(c: char) -> bool {
    c == '+' || c == '-'
}

pub open spec fn all_digits(t: Seq<char>, a: int, b: int) -> bool {
    forall|k: int| a <= k < b ==> is_digit_char(#[trigger] t[k])
}

/// A complete exponent part starting at `r` and running to the end of `t`:
/// `e` or `E`, an optional sign, and at least one digit.
pub open spec fn exponent_shape(t: Seq<char>, r: int) -> bool {
    &&& 0 <= r < t.len()
    &&& (t[r] == 'e' || t[r] == 'E')
    &&& {
        let u = if r + 1 < t.len() && is_sign_char(t[r + 1]) {
            r + 2
        } else {
            r + 1
        };
        u < t.len() && all_digits(t, u, t.len() as int)
    }
}

/// `t` is a decimal number literal split as: an optional sign ending at
/// `p`, integer digits ending at `q`, an optional dot-and-fraction ending
/// at `r`, and an optional complete exponent from `r` to the end. At least
/// one digit stands before the exponent.
pub open spec fn number_shape(t: Seq<char>, p: int, q: int, r: int) -> bool {
    &&& 0 <= p <= q <= r <= t.len()
    &&& (p == 0 || (p == 1 && t.len() > 0 && is_sign_char(t[0])))
    &&& all_digits(t, p, q)
    &&& (if q == r {
        q > p
    } else {
        q < t.len() && t[q] == '.' && all_digits(t, q + 1, r) && (q > p || r > q + 1)
    })
    &&& (r == t.len() || exponent_shape(t, r))
}

/// `t` is, in full, a decimal number literal: sign, digits with at most
/// one dot and at least one digit, and an optional complete exponent.
pub open spec fn is_number_text(t: Seq<char>) -> bool {
    exists|p: int, q: int, r: int| number_shape(t, p, q, r)
}

} // verus!
