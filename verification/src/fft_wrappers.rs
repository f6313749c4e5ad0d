//! Products that choose schoolbook or transform-based multiplication by
//! operand size.

use crate::big::{big_bits, big_mul, big_val};
use num_bigint::BigUint;
use vstd::prelude::*;

verus! {

/// `a * b`, through the transform from `fft_threshold` bits on.
pub fn smart_multiply(a: &BigUint, b: &BigUint, fft_threshold: usize) -> (r: BigUint)
    ensures
        big_val(r) == big_val(*a) * big_val(*b),
{
    let x = big_bits(a);
    let y = big_bits(b);
    let max_bits = if x >= y { x } else { y };
    if max_bits >= fft_threshold as u64 {
        mul_fft(a, b)
    } else {
        big_mul(a, b)
    }
}

/// `a * a`, through the transform from `fft_threshold` bits on.
pub fn smart_square(a: &BigUint, fft_threshold: usize) -> (r: BigUint)
    ensures
        big_val(r) == big_val(*a) * big_val(*a),
{
    let x = big_bits(a);
    if x >= fft_threshold as u64 {
        sqr_fft(a)
    } else {
        big_mul(a, a)
    }
}

/// `a * b` by the transform-based product.
pub fn mul_fft(a: &BigUint, b: &BigUint) -> (r: BigUint)
    ensures
        big_val(r) == big_val(*a) * big_val(*b),
{
    crate::fft::mul(a, b)
}

/// `a * a` by the transform-based square.
pub fn sqr_fft(a: &BigUint) -> (r: BigUint)
    ensures
        big_val(r) == big_val(*a) * big_val(*a),
{
    crate::fft::sqr(a)
}

} // verus!
