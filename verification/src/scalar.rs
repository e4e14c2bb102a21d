//! Scalar arithmetic on IEEE 754 binary64 bit patterns.
//!
//! The engine stores every scalar as the `u64` bit pattern of a binary64
//! value. The three arithmetic operations the engine needs are performed by
//! `rustc_apfloat`, a software implementation of IEEE 754 arithmetic that
//! works directly on bit patterns; each operation rounds to nearest, ties to
//! even, and its result is a function of the argument bit patterns alone.

use vstd::prelude::*;
use rustc_apfloat::Float;

verus! {

/// The bit pattern of the binary64 sum of the two values with bit patterns
/// `a` and `b`.
pub uninterp spec fn add_bits(a: u64, b: u64) -> u64;

/// The bit pattern of the binary64 difference of the two values with bit
/// patterns `a` and `b`.
pub uninterp spec fn sub_bits(a: u64, b: u64) -> u64;

/// The bit pattern of the binary64 product of the two values with bit
/// patterns `a` and `b`.
pub uninterp spec fn mul_bits(a: u64, b: u64) -> u64;

/// Relies on rustc_apfloat's binary64 addition (`IeeeFloat::add_r`, rounding
/// to nearest, ties to even): the result depends on the two bit patterns
/// alone.
#[verifier::external_body]
pub(crate) fn exec_add_bits(a: u64, b: u64) -> (r: u64)
    ensures
        r == add_bits(a, b),
{
    let x = rustc_apfloat::ieee::Double::from_bits(a as u128);
    let y = rustc_apfloat::ieee::Double::from_bits(b as u128);
    (x + y).value.to_bits() as u64
}

/// Relies on rustc_apfloat's binary64 subtraction (`IeeeFloat::sub_r`,
/// rounding to nearest, ties to even): the result depends on the two bit
/// patterns alone.
#[verifier::external_body]
pub(crate) fn exec_sub_bits(a: u64, b: u64) -> (r: u64)
    ensures
        r == sub_bits(a, b),
{
    let x = rustc_apfloat::ieee::Double::from_bits(a as u128);
    let y = rustc_apfloat::ieee::Double::from_bits(b as u128);
    (x - y).value.to_bits() as u64
}

/// Relies on rustc_apfloat's binary64 multiplication (`IeeeFloat::mul_r`,
/// rounding to nearest, ties to even): the result depends on the two bit
/// patterns alone.
#[verifier::external_body]
pub(crate) fn exec_mul_bits(a: u64, b: u64) -> (r: u64)
    ensures
        r == mul_bits(a, b),
{
    let x = rustc_apfloat::ieee::Double::from_bits(a as u128);
    let y = rustc_apfloat::ieee::Double::from_bits(b as u128);
    (x * y).value.to_bits() as u64
}

} // verus!
