use vstd::prelude::*;

use rustc_apfloat::Float;
use rustc_apfloat::ieee::{Double, Single};

verus! {

/// The bit pattern of 1.0 as an IEEE-754 double.
pub const F64_ONE_BITS: u64 = 0x3FF0_0000_0000_0000;

/// The bit pattern of 1.0 as an IEEE-754 single.
pub const F32_ONE_BITS: u32 = 0x3F80_0000;

/// The sum of two IEEE-754 doubles, on bit patterns.
pub uninterp spec fn add_bits(a: u64, b: u64) -> u64;

/// The difference of two IEEE-754 doubles, on bit patterns.
pub uninterp spec fn sub_bits(a: u64, b: u64) -> u64;

/// The product of two IEEE-754 doubles, on bit patterns.
pub uninterp spec fn mul_bits(a: u64, b: u64) -> u64;

/// The quotient of two IEEE-754 doubles, on bit patterns.
pub uninterp spec fn div_bits(a: u64, b: u64) -> u64;

/// The IEEE-754 `<` comparison of two doubles, on bit patterns.
pub uninterp spec fn lt_bits(a: u64, b: u64) -> bool;

/// The IEEE-754 double nearest to an unsigned integer, as its bit pattern.
pub uninterp spec fn f64_of_u64(n: u64) -> u64;

/// The IEEE-754 double a decimal text denotes, correctly rounded, as its bit
/// pattern; nothing when the text is not a number.
pub uninterp spec fn f64_of_decimal(s: Seq<char>) -> Option<u64>;

/// The IEEE-754 single a decimal text denotes, correctly rounded, as its bit
/// pattern; nothing when the text is not a number.
pub uninterp spec fn f32_of_decimal(s: Seq<char>) -> Option<u32>;

/// A decimal text denoting exactly the IEEE-754 double with the given bit
/// pattern.
pub uninterp spec fn decimal_of_f64(b: u64) -> Seq<char>;

/// Relies on rustc_apfloat's IEEE double addition, rounding to nearest even
/// as hardware does: a function of the operand bit patterns alone.
#[verifier::external_body]
pub fn f64_add(a: u64, b: u64) -> (r: u64)
    ensures
        r == add_bits(a, b),
{
    (Double::from_bits(a as u128) + Double::from_bits(b as u128)).value.to_bits() as u64
}

/// Relies on rustc_apfloat's IEEE double subtraction.
#[verifier::external_body]
pub fn f64_sub(a: u64, b: u64) -> (r: u64)
    ensures
        r == sub_bits(a, b),
{
    (Double::from_bits(a as u128) - Double::from_bits(b as u128)).value.to_bits() as u64
}

/// Relies on rustc_apfloat's IEEE double multiplication.
#[verifier::external_body]
pub fn f64_mul(a: u64, b: u64) -> (r: u64)
    ensures
        r == mul_bits(a, b),
{
    (Double::from_bits(a as u128) * Double::from_bits(b as u128)).value.to_bits() as u64
}

/// Relies on rustc_apfloat's IEEE double division.
#[verifier::external_body]
pub fn f64_div(a: u64, b: u64) -> (r: u64)
    ensures
        r == div_bits(a, b),
{
    (Double::from_bits(a as u128) / Double::from_bits(b as u128)).value.to_bits() as u64
}

/// Relies on rustc_apfloat's IEEE double comparison: true exactly when the
/// first operand is ordered below the second (false on NaN).
#[verifier::external_body]
pub fn f64_lt(a: u64, b: u64) -> (r: bool)
    ensures
        r == lt_bits(a, b),
{
    Double::from_bits(a as u128) < Double::from_bits(b as u128)
}

/// Relies on rustc_apfloat's IEEE double comparison; `a > b` holds exactly
/// when `b < a`.
#[verifier::external_body]
pub fn f64_gt(a: u64, b: u64) -> (r: bool)
    ensures
        r == lt_bits(b, a),
{
    Double::from_bits(a as u128) > Double::from_bits(b as u128)
}

/// Relies on rustc_apfloat's integer-to-double conversion, rounding to
/// nearest even as `as f64` does.
#[verifier::external_body]
pub fn f64_from_u64(n: u64) -> (r: u64)
    ensures
        r == f64_of_u64(n),
{
    Double::from_u128(n as u128).value.to_bits() as u64
}

/// Relies on rustc_apfloat's correctly rounded decimal parsing for doubles.
#[verifier::external_body]
pub fn f64_parse(s: &str) -> (r: Option<u64>)
    ensures
        r == f64_of_decimal(s@),
{
    s.parse::<Double>().ok().map(|d| d.to_bits() as u64)
}

/// Relies on rustc_apfloat's correctly rounded decimal parsing for singles.
#[verifier::external_body]
pub fn f32_parse(s: &str) -> (r: Option<u32>)
    ensures
        r == f32_of_decimal(s@),
{
    s.parse::<Single>().ok().map(|d| d.to_bits() as u32)
}

/// Relies on rustc_apfloat's decimal formatting, which prints enough digits
/// to read the same value back.
#[verifier::external_body]
pub fn f64_to_decimal(b: u64) -> (r: String)
    ensures
        r@ == decimal_of_f64(b),
{
    format!("{}", Double::from_bits(b as u128))
}

/// Whether a double bit pattern is a finite value: its exponent bits are not
/// all ones.
pub open spec fn is_finite_bits(b: u64) -> bool {
    (b >> 52) & 0x7FF != 0x7FF
}

/// Whether a double bit pattern is finite and at least zero: finite, with a
/// clear sign bit.
pub open spec fn is_positive_bits(b: u64) -> bool {
    is_finite_bits(b) && b >> 63 == 0
}

/// Whether a double bit pattern is a zero of either sign.
pub open spec fn is_zero_bits(b: u64) -> bool {
    b == 0 || b == 0x8000_0000_0000_0000
}

/// Whether a double bit pattern is finite and strictly above zero.
pub open spec fn is_nonzero_positive_bits(b: u64) -> bool {
    is_positive_bits(b) && !is_zero_bits(b)
}

/// Decide `is_finite_bits`.
pub fn f64_is_finite(b: u64) -> (r: bool)
    ensures
        r == is_finite_bits(b),
{
    (b >> 52) & 0x7FF != 0x7FF
}

/// Decide `is_positive_bits`.
pub fn f64_is_positive(b: u64) -> (r: bool)
    ensures
        r == is_positive_bits(b),
{
    f64_is_finite(b) && b >> 63 == 0
}

/// Decide `is_zero_bits`.
pub fn f64_is_zero(b: u64) -> (r: bool)
    ensures
        r == is_zero_bits(b),
{
    b == 0 || b == 0x8000_0000_0000_0000
}

/// Decide `is_nonzero_positive_bits`.
pub fn f64_is_nonzero_positive(b: u64) -> (r: bool)
    ensures
        r == is_nonzero_positive_bits(b),
{
    f64_is_positive(b) && !f64_is_zero(b)
}

} // verus!
