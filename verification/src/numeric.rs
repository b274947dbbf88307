//! Numbers are IEEE-754 single-precision values carried as their 32-bit
//! patterns. The arithmetic, the text-to-number conversion and the rendering
//! are done by the `rustc_apfloat` crate, behind the trusted items below;
//! everything else in the crate treats a number as its bit pattern.

use vstd::prelude::*;

use rustc_apfloat::Float;
use rustc_apfloat::Round;
use rustc_apfloat::ieee::Single;

use crate::chars::is_number_text;

verus! {

/// The single-precision value denoted by a decimal number literal, as a bit
/// pattern.
pub uninterp spec fn float_of_chars(s: Seq<char>) -> u32;

/// The single-precision sum of two numbers given as bit patterns.
pub uninterp spec fn add_bits(a: u32, b: u32) -> u32;

/// The single-precision product of two numbers given as bit patterns.
pub uninterp spec fn mul_bits(a: u32, b: u32) -> u32;

/// The decimal rendering of the number with the given bit pattern.
pub uninterp spec fn text_of_number(bits: u32) -> Seq<char>;

/// The bit pattern of single-precision zero.
pub const ZERO_BITS: u32 = 0;

/// The bit pattern of single-precision one.
pub const ONE_BITS: u32 = 0x3F80_0000;

/// Relies on rustc_apfloat's `Single::from_str`: the correctly rounded
/// (nearest-even) IEEE-754 single-precision reading of a decimal literal,
/// as `f32` literals are read. Its source returns `Ok` on every string of
/// the decimal number shape that `is_number_text` describes, and the value
/// is a function of the text alone.
#[verifier::external_body]
pub(crate) fn number_from_text(t: &str) -> (r: Option<u32>)
    requires
        is_number_text(t@),
    ensures
        r == Some(float_of_chars(t@)),
{
    match t.parse::<Single>() {
        Ok(f) => Some(f.to_bits() as u32),
        Err(_) => None,
    }
}

/// Relies on rustc_apfloat's `add_r` on `Single`: IEEE-754 single-precision
/// addition, round to nearest even, as `+` on `f32` is; the result depends
/// on the two bit patterns alone.
#[verifier::external_body]
pub(crate) fn number_add(a: u32, b: u32) -> (r: u32)
    ensures
        r == add_bits(a, b),
{
    let x = Single::from_bits(a as u128);
    let y = Single::from_bits(b as u128);
    x.add_r(y, Round::NearestTiesToEven).value.to_bits() as u32
}

/// Relies on rustc_apfloat's `mul_r` on `Single`: IEEE-754 single-precision
/// multiplication, round to nearest even, as `*` on `f32` is; the result
/// depends on the two bit patterns alone.
#[verifier::external_body]
pub(crate) fn number_mul(a: u32, b: u32) -> (r: u32)
    ensures
        r == mul_bits(a, b),
{
    let x = Single::from_bits(a as u128);
    let y = Single::from_bits(b as u128);
    x.mul_r(y, Round::NearestTiesToEven).value.to_bits() as u32
}

/// Relies on rustc_apfloat's `Display` for `Single`: a decimal rendering of
/// the value (an integer-valued number prints as a bare integer); the text
/// depends on the bit pattern alone.
#[verifier::external_body]
pub(crate) fn number_to_text(bits: u32) -> (r: String)
    ensures
        r@ == text_of_number(bits),
{
    let value = Single::from_bits(bits as u128);
    format!("{}", value)
}

/// Relies on `String::from_iter` over `char`: the built string holds
/// exactly the given characters.
#[verifier::external_body]
pub(crate) fn chars_to_string(v: &Vec<char>) -> (r: String)
    ensures
        r@ == v@,
{
    v.iter().collect()
}

} // verus!
