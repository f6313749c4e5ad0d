//! Portable limb arithmetic: add with carry, subtract with borrow, widening
//! multiply, and propagation of a scalar through a limb slice.

use crate::big::limbs_val;
use crate::limbs::{lemma_limb_base, lemma_lv_split, lemma_lv_take_step};
use vstd::arithmetic::power2::*;
use vstd::prelude::*;

verus! {

/// The position weight 2^(64 i) of limb `i`.
pub open spec fn limb_weight(i: int) -> nat {
    pow2((64 * i) as nat)
}

proof fn lemma_weight_step(i: int)
    requires
        i >= 0,
    ensures
        limb_weight(i + 1) == pow2(64) * limb_weight(i),
{
    lemma_pow2_adds(64, (64 * i) as nat);
    assert(64 + 64 * i == 64 * (i + 1));
}

/// `(x + c * B) * P == x * P + c * (B * P)`.
pub proof fn lemma_digit_shift(x: int, c: int, b: int, p: int)
    ensures
        (x + c * b) * p == x * p + c * (b * p),
{
    assert((x + c * b) * p == x * p + c * (b * p)) by (nonlinear_arith);
}

/// Add with carry: `a + b + carry`, split into the low limb and the carry out.
pub fn add_with_carry(a: u64, b: u64, carry: u64) -> (r: (u64, u64))
    ensures
        r.0 + r.1 * pow2(64) == a + b + carry,
        r.1 <= 2,
{
    proof { lemma_limb_base(); }
    let sum: u128 = (a as u128) + (b as u128) + (carry as u128);
    let lo: u64 = (sum % 0x1_0000_0000_0000_0000u128) as u64;
    let hi: u64 = (sum / 0x1_0000_0000_0000_0000u128) as u64;
    (lo, hi)
}

/// Subtract with borrow: `a - b - borrow` modulo 2^64, with borrow out 1
/// exactly when `a < b + borrow`.
pub fn sub_with_borrow(a: u64, b: u64, borrow: u64) -> (r: (u64, u64))
    ensures
        r.1 == (if a < b + borrow { 1u64 } else { 0u64 }),
        r.0 == (a - b - borrow) % (pow2(64) as int),
        borrow <= 1 ==> r.0 + b + borrow == a + r.1 * pow2(64),
{
    proof { lemma_limb_base(); }
    let t: u128 = (a as u128) + 0x2_0000_0000_0000_0000u128 - (b as u128) - (borrow as u128);
    let lo: u64 = (t % 0x1_0000_0000_0000_0000u128) as u64;
    proof {
        let d: int = a - b - borrow;
        assert(t == d + 2 * 0x1_0000_0000_0000_0000int);
        vstd::arithmetic::div_mod::lemma_mod_multiples_vanish(2, d, 0x1_0000_0000_0000_0000int);
    }
    proof {
        if borrow <= 1 {
            let d: int = a - b - borrow;
            if d < 0 {
                vstd::arithmetic::div_mod::lemma_fundamental_div_mod(d, 0x1_0000_0000_0000_0000int);
                vstd::arithmetic::div_mod::lemma_mod_bound(d, 0x1_0000_0000_0000_0000int);
                assert(d / 0x1_0000_0000_0000_0000int == -1) by (nonlinear_arith)
                    requires d < 0, d >= -0x1_0000_0000_0000_0000int,
                        d == 0x1_0000_0000_0000_0000int * (d / 0x1_0000_0000_0000_0000int)
                            + d % 0x1_0000_0000_0000_0000int,
                        0 <= d % 0x1_0000_0000_0000_0000int < 0x1_0000_0000_0000_0000int;
            } else {
                vstd::arithmetic::div_mod::lemma_small_mod(d as nat, 0x1_0000_0000_0000_0000nat);
            }
        }
    }
    if (a as u128) < (b as u128) + (borrow as u128) {
        (lo, 1)
    } else {
        (lo, 0)
    }
}

/// Widening multiply: `a * b` as a low and a high limb.
pub fn mul_wide(a: u64, b: u64) -> (r: (u64, u64))
    ensures
        r.0 + r.1 * pow2(64) == a * b,
{
    proof {
        lemma_limb_base();
        assert((a as nat) * (b as nat) <= 0xffff_ffff_ffff_ffff * 0xffff_ffff_ffff_ffff) by (nonlinear_arith)
            requires a <= 0xffff_ffff_ffff_ffffu64, b <= 0xffff_ffff_ffff_ffffu64;
    }
    let prod: u128 = (a as u128) * (b as u128);
    let lo: u64 = (prod % 0x1_0000_0000_0000_0000u128) as u64;
    let hi: u64 = (prod / 0x1_0000_0000_0000_0000u128) as u64;
    (lo, hi)
}

/// Add `scalar` to the number held in `data`, stopping as soon as no carry
/// remains; returns the carry out of the top limb (the scalar itself when
/// `data` is empty).
pub fn add_scalar(data: &mut [u64], scalar: u64) -> (carry: u64)
    ensures
        final(data)@.len() == old(data)@.len(),
        limbs_val(final(data)@) + carry * limb_weight(old(data)@.len() as int)
            == limbs_val(old(data)@) + scalar,
{
    let ghost orig = data@;
    let n = data.len();
    let mut carry = scalar;
    let mut i: usize = 0;
    proof {
        assert(data@.take(0) =~= Seq::<u64>::empty());
        assert(orig.take(0) =~= Seq::<u64>::empty());
        assert(pow2(0) == 1) by { lemma2_to64(); }
        assert(limb_weight(0) == 1);
    }
    while i < n
        invariant_except_break
            carry == 0 ==> i == 0,
        invariant
            n == data@.len(),
            n == orig.len(),
            i <= n,
            forall|j: int| i <= j < n ==> data@[j] == orig[j],
            limbs_val(data@.take(i as int)) + carry * limb_weight(i as int)
                == limbs_val(orig.take(i as int)) + scalar,
        ensures
            i == n || carry == 0,
            n == data@.len(),
            forall|j: int| i <= j < n ==> data@[j] == orig[j],
            limbs_val(data@.take(i as int)) + carry * limb_weight(i as int)
                == limbs_val(orig.take(i as int)) + scalar,
        decreases n - i,
    {
        let (sum, c) = add_with_carry(data[i], carry, 0);
        let ghost prev = data@;
        data[i] = sum;
        proof {
            lemma_lv_take_step(data@, i as int);
            lemma_lv_take_step(orig, i as int);
            assert(data@.take(i as int) =~= prev.take(i as int));
            lemma_weight_step(i as int);
            lemma_digit_shift(sum as int, c as int, pow2(64) as int, limb_weight(i as int) as int);
            lemma_digit_shift(prev[i as int] as int, 0, 0, limb_weight(i as int) as int);
            assert((sum + c * pow2(64)) * limb_weight(i as int)
                == (prev[i as int] + carry) * limb_weight(i as int));
            vstd::arithmetic::mul::lemma_mul_is_distributive_add_other_way(
                limb_weight(i as int) as int, prev[i as int] as int, carry as int);
        }
        carry = c;
        i += 1;
        if carry == 0 {
            break;
        }
    }
    proof {
        lemma_lv_split(data@, i as int);
        lemma_lv_split(orig, i as int);
        assert(data@.skip(i as int) =~= orig.skip(i as int));
        if i < n {
            assert(carry == 0);
        }
    }
    carry
}

/// Subtract `scalar` from the number held in `data`, stopping as soon as no
/// borrow remains; returns the borrow out of the top limb (the scalar itself
/// when `data` is empty).
pub fn sub_scalar(data: &mut [u64], scalar: u64) -> (borrow: u64)
    ensures
        final(data)@.len() == old(data)@.len(),
        limbs_val(final(data)@) == limbs_val(old(data)@) - scalar
            + borrow * limb_weight(old(data)@.len() as int),
{
    let ghost orig = data@;
    let n = data.len();
    let mut borrow = scalar;
    let mut i: usize = 0;
    proof {
        assert(data@.take(0) =~= Seq::<u64>::empty());
        assert(orig.take(0) =~= Seq::<u64>::empty());
        assert(pow2(0) == 1) by { lemma2_to64(); }
        assert(limb_weight(0) == 1);
    }
    while i < n
        invariant_except_break
            borrow == 0 ==> i == 0,
        invariant
            n == data@.len(),
            n == orig.len(),
            i <= n,
            forall|j: int| i <= j < n ==> data@[j] == orig[j],
            limbs_val(data@.take(i as int)) == limbs_val(orig.take(i as int)) - scalar
                + borrow * limb_weight(i as int),
            i > 0 ==> borrow <= 1,
            i == 0 ==> borrow == scalar,
        ensures
            i == n || borrow == 0,
            n == data@.len(),
            forall|j: int| i <= j < n ==> data@[j] == orig[j],
            limbs_val(data@.take(i as int)) == limbs_val(orig.take(i as int)) - scalar
                + borrow * limb_weight(i as int),
        decreases n - i,
    {
        let (diff, b) = sub_with_borrow(data[i], borrow, 0);
        let ghost prev = data@;
        data[i] = diff;
        proof {
            lemma_limb_base();
            lemma_lv_take_step(data@, i as int);
            lemma_lv_take_step(orig, i as int);
            assert(data@.take(i as int) =~= prev.take(i as int));
            lemma_weight_step(i as int);
            let w = limb_weight(i as int) as int;
            // diff == prev[i] - borrow + b * 2^64, with borrow small enough
            if i > 0 {
                assert(borrow <= 1);
            } else {
                assert(borrow == scalar);
            }
            assert(diff == prev[i as int] - borrow + b * pow2(64)) by {
                let d = prev[i as int] - borrow;
                assert(d >= -0xffff_ffff_ffff_ffffint);
                if d < 0 {
                    vstd::arithmetic::div_mod::lemma_fundamental_div_mod(d, 0x1_0000_0000_0000_0000int);
                    vstd::arithmetic::div_mod::lemma_mod_bound(d, 0x1_0000_0000_0000_0000int);
                    assert(d / 0x1_0000_0000_0000_0000int == -1) by (nonlinear_arith)
                        requires d < 0, d >= -0xffff_ffff_ffff_ffffint,
                            d == 0x1_0000_0000_0000_0000int * (d / 0x1_0000_0000_0000_0000int)
                                + d % 0x1_0000_0000_0000_0000int,
                            0 <= d % 0x1_0000_0000_0000_0000int < 0x1_0000_0000_0000_0000int;
                } else {
                    vstd::arithmetic::div_mod::lemma_small_mod(d as nat, 0x1_0000_0000_0000_0000nat);
                }
            }
            lemma_digit_shift(diff as int, b as int, pow2(64) as int, w);
            assert((prev[i as int] - borrow + b * pow2(64)) * w
                == prev[i as int] * w - borrow * w + b * (pow2(64) * w)) by (nonlinear_arith);
        }
        borrow = b;
        i += 1;
        if borrow == 0 {
            break;
        }
    }
    proof {
        lemma_lv_split(data@, i as int);
        lemma_lv_split(orig, i as int);
        assert(data@.skip(i as int) =~= orig.skip(i as int));
        if i < n {
            assert(borrow == 0);
        }
    }
    borrow
}

} // verus!
