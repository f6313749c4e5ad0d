//! Arbitrary-precision unsigned integers, as provided by `num_bigint`.
//!
//! Every operation of `BigUint` that the library uses goes through one of the
//! small trusted wrappers below; their contracts speak of the numeric value of
//! a `BigUint`, `big_val`.

use num_bigint::BigUint;
use vstd::arithmetic::power2::pow2;
use vstd::arithmetic::power::pow;
use vstd::prelude::*;

verus! {

#[verifier::external_type_specification]
#[verifier::external_body]
pub struct ExBigUint(BigUint);

/// The natural number that a `BigUint` holds.
pub uninterp spec fn big_val(x: BigUint) -> nat;

/// Little-endian value of a sequence of base-2^64 limbs.
pub open spec fn limbs_val(s: Seq<u64>) -> nat
    decreases s.len(),
{
    if s.len() == 0 {
        0
    } else {
        (s[0] as nat) + pow2(64) * limbs_val(s.drop_first())
    }
}

/// Little-endian value of a sequence of bytes.
pub open spec fn bytes_val(s: Seq<u8>) -> nat
    decreases s.len(),
{
    if s.len() == 0 {
        0
    } else {
        (s[0] as nat) + 256 * bytes_val(s.drop_first())
    }
}

/// Bitwise AND of two natural numbers.
pub open spec fn nat_and(a: nat, b: nat) -> nat
    decreases a,
{
    if a == 0 || b == 0 {
        0
    } else {
        (if a % 2 == 1 && b % 2 == 1 { 1nat } else { 0nat }) + 2 * nat_and(a / 2, b / 2)
    }
}

/// Number of significant bits of `v`: the least `k` with `v < 2^k`.
pub open spec fn is_bit_length(v: nat, k: nat) -> bool {
    v < pow2(k) && (k == 0 || pow2((k - 1) as nat) <= v)
}

/// The number of significant bits of `v`.
pub open spec fn bits_of(v: nat) -> nat
    decreases v,
{
    if v == 0 {
        0
    } else {
        1 + bits_of(v / 2)
    }
}

/// The bit length of a number is `bits_of` it.
pub proof fn lemma_bits_unique(v: nat, k: nat)
    requires
        is_bit_length(v, k),
    ensures
        k == bits_of(v),
    decreases v,
{
    if v == 0 {
        if k > 0 {
            vstd::arithmetic::power2::lemma_pow2_pos((k - 1) as nat);
        }
    } else {
        if k == 0 {
            assert(pow2(0) == 1) by { vstd::arithmetic::power2::lemma2_to64(); }
        } else {
            vstd::arithmetic::power2::lemma_pow2_unfold(k);
            if k >= 2 {
                vstd::arithmetic::power2::lemma_pow2_unfold((k - 1) as nat);
            } else {
                assert(pow2(0) == 1) by { vstd::arithmetic::power2::lemma2_to64(); }
            }
            lemma_bits_unique(v / 2, (k - 1) as nat);
        }
    }
}

/// `BigUint::from(u64)`: the value `v`.
#[verifier::external_body]
pub(crate) fn big_from_u64(v: u64) -> (r: BigUint)
    ensures
        big_val(r) == v,
{
    BigUint::from(v)
}

/// `Clone::clone` on `BigUint`: the same value.
pub assume_specification[ <BigUint as Clone>::clone ](a: &BigUint) -> (r: BigUint)
    ensures
        big_val(r) == big_val(*a),
;

/// `&a + &b`: the sum.
#[verifier::external_body]
pub(crate) fn big_add(a: &BigUint, b: &BigUint) -> (r: BigUint)
    ensures
        big_val(r) == big_val(*a) + big_val(*b),
{
    a + b
}

/// `&a - &b`, which panics when `b > a`: the difference.
#[verifier::external_body]
pub(crate) fn big_sub(a: &BigUint, b: &BigUint) -> (r: BigUint)
    requires
        big_val(*b) <= big_val(*a),
    ensures
        big_val(r) == big_val(*a) - big_val(*b),
{
    a - b
}

/// `&a * &b`: the product.
#[verifier::external_body]
pub(crate) fn big_mul(a: &BigUint, b: &BigUint) -> (r: BigUint)
    ensures
        big_val(r) == big_val(*a) * big_val(*b),
{
    a * b
}

/// `&a % &m`, which panics when `m` is zero: the remainder.
#[verifier::external_body]
pub(crate) fn big_rem(a: &BigUint, m: &BigUint) -> (r: BigUint)
    requires
        big_val(*m) != 0,
    ensures
        big_val(r) == big_val(*a) % big_val(*m),
{
    a % m
}

/// `a << k`: the value times 2^k.
#[verifier::external_body]
pub(crate) fn big_shl(a: &BigUint, k: usize) -> (r: BigUint)
    ensures
        big_val(r) == big_val(*a) * pow2(k as nat),
{
    a << k
}

/// `a >> k`: the value divided by 2^k, rounded down.
#[verifier::external_body]
pub(crate) fn big_shr(a: &BigUint, k: usize) -> (r: BigUint)
    ensures
        big_val(r) == big_val(*a) / pow2(k as nat),
{
    a >> k
}

/// `&a & &b`: the bitwise AND.
#[verifier::external_body]
pub(crate) fn big_and(a: &BigUint, b: &BigUint) -> (r: BigUint)
    ensures
        big_val(r) == nat_and(big_val(*a), big_val(*b)),
{
    a & b
}

/// `BigUint::pow`: the value raised to `e`.
#[verifier::external_body]
pub(crate) fn big_pow(a: &BigUint, e: u32) -> (r: BigUint)
    ensures
        big_val(r) == pow(big_val(*a) as int, e as nat),
{
    a.pow(e)
}

/// `BigUint::bits`: the number of significant bits.
#[verifier::external_body]
pub(crate) fn big_bits(a: &BigUint) -> (r: u64)
    ensures
        is_bit_length(big_val(*a), r as nat),
{
    a.bits()
}

/// `a >= b` on `BigUint`: the order of the values.
#[verifier::external_body]
pub(crate) fn big_ge(a: &BigUint, b: &BigUint) -> (r: bool)
    ensures
        r == (big_val(*a) >= big_val(*b)),
{
    a >= b
}

/// `a == b` on `BigUint`: equality of the values.
#[verifier::external_body]
pub(crate) fn big_eq(a: &BigUint, b: &BigUint) -> (r: bool)
    ensures
        r == (big_val(*a) == big_val(*b)),
{
    a == b
}

/// `BigUint::to_u64_digits`: the little-endian base-2^64 digits, with no
/// trailing zero digit.
#[verifier::external_body]
pub(crate) fn big_to_u64_digits(a: &BigUint) -> (r: Vec<u64>)
    ensures
        limbs_val(r@) == big_val(*a),
        r@.len() == 0 || r@.last() != 0,
{
    a.to_u64_digits()
}

/// `BigUint::from_bytes_le`: the little-endian value of the bytes.
#[verifier::external_body]
pub(crate) fn big_from_bytes_le(bytes: &[u8]) -> (r: BigUint)
    ensures
        big_val(r) == bytes_val(bytes@),
{
    BigUint::from_bytes_le(bytes)
}

} // verus!

verus! {

/// `BigUint::ZERO`: the value 0.
#[verifier::external_body]
pub(crate) fn big_zero() -> (r: BigUint)
    ensures
        big_val(r) == 0,
{
    BigUint::ZERO
}

/// `num_traits::Zero::is_zero` on `BigUint`: whether the value is 0.
#[verifier::external_body]
pub(crate) fn big_is_zero(a: &BigUint) -> (r: bool)
    ensures
        r == (big_val(*a) == 0),
{
    num_traits::Zero::is_zero(a)
}

} // verus!

verus! {

/// Big-endian value of a sequence of bytes.
pub open spec fn bytes_be_val(s: Seq<u8>) -> nat
    decreases s.len(),
{
    if s.len() == 0 {
        0
    } else {
        bytes_be_val(s.drop_last()) * 256 + s.last() as nat
    }
}

/// `BigUint::from_bytes_be`: the big-endian value of the bytes.
#[verifier::external_body]
pub(crate) fn big_from_bytes_be(bytes: &[u8]) -> (r: BigUint)
    ensures
        big_val(r) == bytes_be_val(bytes@),
{
    BigUint::from_bytes_be(bytes)
}

} // verus!
