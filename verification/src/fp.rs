//! IEEE-754 binary64 scalars carried as `u64` bit patterns, with the
//! arithmetic operations the simulation needs, and the stability clamp.

use vstd::prelude::*;
use rustc_apfloat::Float;
use rustc_apfloat::ieee::Double;

verus! {

/// Bit pattern of the binary64 value `0.0`.
pub const F64_ZERO_BITS: u64 = 0x0000_0000_0000_0000;
/// Bit pattern of the binary64 value `1.0`.
pub const F64_ONE_BITS: u64 = 0x3FF0_0000_0000_0000;
/// Bit pattern of the binary64 value `100.0`, the clamp's upper bound.
pub const F64_HUNDRED_BITS: u64 = 0x4059_0000_0000_0000;
/// Bit pattern of the binary64 value `-100.0`, the clamp's lower bound.
pub const F64_NEG_HUNDRED_BITS: u64 = 0xC059_0000_0000_0000;
/// Bit pattern of the binary64 value `-1.0`, the stencil's center weight.
pub const W_CENTER_BITS: u64 = 0xBFF0_0000_0000_0000;
/// Bit pattern of the binary64 value `0.2`, the weight of the four
/// axis-adjacent stencil neighbors.
pub const W_ADJACENT_BITS: u64 = 0x3FC9_9999_9999_999A;
/// Bit pattern of the binary64 value `0.05`, the weight of the four diagonal
/// stencil neighbors.
pub const W_DIAGONAL_BITS: u64 = 0x3FA9_9999_9999_999A;

/// The bit pattern of the binary64 sum of the values with bit patterns `a`
/// and `b`, rounded to nearest, ties to even.
pub uninterp spec fn add_bits(a: u64, b: u64) -> u64;

/// The bit pattern of the binary64 difference of the values with bit
/// patterns `a` and `b`, rounded to nearest, ties to even.
pub uninterp spec fn sub_bits(a: u64, b: u64) -> u64;

/// The bit pattern of the binary64 product of the values with bit patterns
/// `a` and `b`, rounded to nearest, ties to even.
pub uninterp spec fn mul_bits(a: u64, b: u64) -> u64;

/// Whether the binary64 value with bit pattern `a` compares strictly below
/// the one with bit pattern `b` (false whenever either is a NaN).
pub uninterp spec fn lt_bits(a: u64, b: u64) -> bool;

/// Relies on `rustc_apfloat::ieee::Double`'s `+` operator: IEEE-754 binary64
/// addition, rounded to nearest with ties to even, a function of the two
/// operand bit patterns alone.
#[verifier::external_body]
pub(crate) fn f64_add(a: u64, b: u64) -> (r: u64)
    ensures
        r == add_bits(a, b),
{
    (Double::from_bits(a as u128) + Double::from_bits(b as u128)).value.to_bits() as u64
}

/// Relies on `rustc_apfloat::ieee::Double`'s `-` operator: IEEE-754 binary64
/// subtraction, rounded to nearest with ties to even, a function of the two
/// operand bit patterns alone.
#[verifier::external_body]
pub(crate) fn f64_sub(a: u64, b: u64) -> (r: u64)
    ensures
        r == sub_bits(a, b),
{
    (Double::from_bits(a as u128) - Double::from_bits(b as u128)).value.to_bits() as u64
}

/// Relies on `rustc_apfloat::ieee::Double`'s `*` operator: IEEE-754 binary64
/// multiplication, rounded to nearest with ties to even, a function of the
/// two operand bit patterns alone.
#[verifier::external_body]
pub(crate) fn f64_mul(a: u64, b: u64) -> (r: u64)
    ensures
        r == mul_bits(a, b),
{
    (Double::from_bits(a as u128) * Double::from_bits(b as u128)).value.to_bits() as u64
}

/// Relies on `rustc_apfloat::ieee::Double`'s `PartialOrd`: the IEEE-754
/// binary64 `<` comparison, a function of the two operand bit patterns alone
/// (false whenever either operand is a NaN).
#[verifier::external_body]
pub(crate) fn f64_lt(a: u64, b: u64) -> (r: bool)
    ensures
        r == lt_bits(a, b),
{
    Double::from_bits(a as u128) < Double::from_bits(b as u128)
}

/// What the stability clamp returns: `-100.0` for values below `-100.0`,
/// `100.0` for values above `100.0`, the value itself otherwise.
pub open spec fn clamp_bits(v: u64) -> u64 {
    if lt_bits(v, F64_NEG_HUNDRED_BITS) {
        F64_NEG_HUNDRED_BITS
    } else if lt_bits(F64_HUNDRED_BITS, v) {
        F64_HUNDRED_BITS
    } else {
        v
    }
}

/// The stability clamp: bounds a concentration into `[-100.0, 100.0]` so
/// that a diverging reaction term cannot feed unbounded values back into the
/// integration. (`v > 100.0` is the IEEE comparison `100.0 < v`.)
pub fn softclamp(v: u64) -> (r: u64)
    ensures
        r == clamp_bits(v),
{
    if f64_lt(v, F64_NEG_HUNDRED_BITS) {
        F64_NEG_HUNDRED_BITS
    } else if f64_lt(F64_HUNDRED_BITS, v) {
        F64_HUNDRED_BITS
    } else {
        v
    }
}

} // verus!
