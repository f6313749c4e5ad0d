//! Carry and borrow chains over limb vectors, and splitting a limb vector
//! at a bit position; the building blocks of Fermat-ring arithmetic.

use crate::arith::{add_with_carry, lemma_digit_shift, limb_weight, sub_with_borrow};
use crate::big::limbs_val;
use crate::limbs::{lemma_limb_base, lemma_lv_bound, lemma_lv_split, lemma_lv_take_step, lemma_lv_update};
use vstd::arithmetic::div_mod::*;
use vstd::arithmetic::mul::*;
use vstd::arithmetic::power2::*;
use vstd::prelude::*;

verus! {

/// Value of the first `n` limbs of `s`, the missing ones counting as zero.
pub open spec fn tval(s: Seq<u64>, n: nat) -> nat {
    if n <= s.len() {
        limbs_val(s.take(n as int))
    } else {
        limbs_val(s)
    }
}

/// Limb `i` of `s`, zero past the end.
pub open spec fn limb_or_zero(s: Seq<u64>, i: int) -> u64 {
    if 0 <= i < s.len() {
        s[i]
    } else {
        0
    }
}

pub proof fn lemma_weight_step(i: int)
    requires
        i >= 0,
    ensures
        limb_weight(i + 1) == pow2(64) * limb_weight(i),
{
    lemma_pow2_adds(64, (64 * i) as nat);
    assert(64 + 64 * i == 64 * (i + 1));
}

pub proof fn lemma_tval_step(s: Seq<u64>, i: nat)
    ensures
        tval(s, i + 1) == tval(s, i) + limb_or_zero(s, i as int) * limb_weight(i as int),
{
    if i < s.len() {
        lemma_lv_take_step(s, i as int);
    } else {
        if i == s.len() {
            assert(s.take(i as int) =~= s);
        }
        lemma_mul_by_zero_is_zero(limb_weight(i as int) as int);
    }
}

pub proof fn lemma_tval_zero(s: Seq<u64>)
    ensures
        tval(s, 0) == 0,
{
    assert(s.take(0) =~= Seq::<u64>::empty());
}

/// A value below 2^(64 n) is carried entirely by its first `n` limbs.
pub proof fn lemma_tval_full(s: Seq<u64>, n: nat)
    requires
        limbs_val(s) < limb_weight(n as int),
    ensures
        tval(s, n) == limbs_val(s),
{
    if n <= s.len() {
        lemma_lv_split(s, n as int);
        lemma_pow2_pos((64 * n) as nat);
        if limbs_val(s.skip(n as int)) > 0 {
            lemma_mul_increases(limbs_val(s.skip(n as int)) as int, limb_weight(n as int) as int);
            lemma_mul_is_commutative(limbs_val(s.skip(n as int)) as int, limb_weight(n as int) as int);
        }
    }
}

pub proof fn lemma_lv_push(s: Seq<u64>, v: u64)
    ensures
        limbs_val(s.push(v)) == limbs_val(s) + v * limb_weight(s.len() as int),
{
    let t = s.push(v);
    lemma_lv_take_step(t, s.len() as int);
    assert(t.take(s.len() as int) =~= s);
    assert(t.take(s.len() as int + 1) =~= t);
}

/// Limbwise `x + y` over the length of `x` (`y` truncated or padded with
/// zeros), with the carry out of the top limb.
pub fn add_limbs(x: &Vec<u64>, y: &Vec<u64>) -> (res: (Vec<u64>, u64))
    ensures
        res.0@.len() == x@.len(),
        res.1 <= 1,
        limbs_val(res.0@) + res.1 * limb_weight(x@.len() as int)
            == limbs_val(x@) + tval(y@, x@.len() as nat),
{
    let n = x.len();
    let mut r: Vec<u64> = Vec::with_capacity(n);
    let mut carry: u64 = 0;
    let mut i: usize = 0;
    proof {
        lemma_tval_zero(y@);
        assert(x@.take(0) =~= Seq::<u64>::empty());
    }
    while i < n
        invariant
            n == x@.len(),
            i <= n,
            r@.len() == i,
            carry <= 1,
            limbs_val(r@) + carry * limb_weight(i as int)
                == limbs_val(x@.take(i as int)) + tval(y@, i as nat),
        decreases n - i,
    {
        let a = x[i];
        let b = if i < y.len() { y[i] } else { 0 };
        let (s, c) = add_with_carry(a, b, carry);
        proof {
            lemma_limb_base();
            lemma_lv_push(r@, s);
            lemma_lv_take_step(x@, i as int);
            lemma_tval_step(y@, i as nat);
            lemma_weight_step(i as int);
            let w = limb_weight(i as int) as int;
            lemma_digit_shift(s as int, c as int, pow2(64) as int, w);
            assert((a + b + carry) * w == a * w + b * w + carry * w) by (nonlinear_arith);
        }
        r.push(s);
        carry = c;
        i += 1;
    }
    proof {
        assert(x@.take(n as int) =~= x@);
    }
    (r, carry)
}

/// Limbwise `x - y` over the length of `x` (`y` truncated or padded with
/// zeros), with the borrow out of the top limb.
pub fn sub_limbs(x: &Vec<u64>, y: &Vec<u64>) -> (res: (Vec<u64>, u64))
    ensures
        res.0@.len() == x@.len(),
        res.1 <= 1,
        limbs_val(res.0@) + tval(y@, x@.len() as nat)
            == limbs_val(x@) + res.1 * limb_weight(x@.len() as int),
        (res.1 == 1) == (limbs_val(x@) < tval(y@, x@.len() as nat)),
{
    let n = x.len();
    let mut r: Vec<u64> = Vec::with_capacity(n);
    let mut borrow: u64 = 0;
    let mut i: usize = 0;
    proof {
        lemma_tval_zero(y@);
        assert(x@.take(0) =~= Seq::<u64>::empty());
    }
    while i < n
        invariant
            n == x@.len(),
            i <= n,
            r@.len() == i,
            borrow <= 1,
            limbs_val(r@) + tval(y@, i as nat)
                == limbs_val(x@.take(i as int)) + borrow * limb_weight(i as int),
        decreases n - i,
    {
        let a = x[i];
        let b = if i < y.len() { y[i] } else { 0 };
        let (d, c) = sub_with_borrow(a, b, borrow);
        proof {
            lemma_limb_base();
            lemma_lv_push(r@, d);
            lemma_lv_take_step(x@, i as int);
            lemma_tval_step(y@, i as nat);
            lemma_weight_step(i as int);
            let w = limb_weight(i as int) as int;
            lemma_digit_shift(a as int, c as int, pow2(64) as int, w);
            assert((d + b + borrow) * w == d * w + b * w + borrow * w) by (nonlinear_arith);
        }
        r.push(d);
        borrow = c;
        i += 1;
    }
    proof {
        assert(x@.take(n as int) =~= x@);
        lemma_lv_bound(r@);
        lemma_lv_bound(x@);
        if borrow == 1 {
            assert(limbs_val(x@) < tval(y@, n as nat));
        } else {
            assert(limbs_val(x@) >= tval(y@, n as nat));
        }
    }
    (r, borrow)
}

/// Add `v * 2^(64 start)` to `data` in place, propagating the carry upward and
/// stopping as soon as it is zero; returns the carry out of the top limb.
pub fn add_at(data: &mut Vec<u64>, start: usize, v: u64) -> (carry: u64)
    requires
        start < old(data)@.len(),
    ensures
        final(data)@.len() == old(data)@.len(),
        carry <= 1,
        limbs_val(final(data)@) + carry * limb_weight(old(data)@.len() as int)
            == limbs_val(old(data)@) + v * limb_weight(start as int),
{
    let ghost orig = data@;
    let n = data.len();
    let mut carry = v;
    let mut i = start;
    while i < n
        invariant_except_break
            i > start ==> carry == 1,
        invariant
            n == data@.len(),
            n == orig.len(),
            start <= i <= n,
            i > start ==> carry <= 1,
            i == start ==> carry == v,
            limbs_val(data@) + carry * limb_weight(i as int)
                == limbs_val(orig) + v * limb_weight(start as int),
        ensures
            n == data@.len(),
            start <= i <= n,
            i == n || carry == 0,
            carry <= 1 || i == start,
            limbs_val(data@) + carry * limb_weight(i as int)
                == limbs_val(orig) + v * limb_weight(start as int),
        decreases n - i,
    {
        let (s, c) = add_with_carry(data[i], carry, 0);
        let ghost prev = data@;
        data[i] = s;
        proof {
            lemma_limb_base();
            lemma_lv_update(prev, i as int, s);
            lemma_weight_step(i as int);
            let w = limb_weight(i as int) as int;
            lemma_digit_shift(s as int, c as int, pow2(64) as int, w);
            assert((prev[i as int] + carry) * w == prev[i as int] * w + carry * w) by (nonlinear_arith);
        }
        carry = c;
        i += 1;
        if carry == 0 {
            break;
        }
    }
    proof {
        if i < n {
            assert(carry == 0);
        }
    }
    carry
}

/// Subtract `v * 2^(64 start)` from `data` in place, propagating the borrow
/// upward and stopping as soon as it is zero; returns the borrow out of the
/// top limb.
pub fn sub_at(data: &mut Vec<u64>, start: usize, v: u64) -> (borrow: u64)
    requires
        start < old(data)@.len(),
    ensures
        final(data)@.len() == old(data)@.len(),
        borrow <= 1,
        limbs_val(final(data)@) + v * limb_weight(start as int)
            == limbs_val(old(data)@) + borrow * limb_weight(old(data)@.len() as int),
{
    let ghost orig = data@;
    let n = data.len();
    let mut borrow = v;
    let mut i = start;
    while i < n
        invariant_except_break
            i > start ==> borrow == 1,
        invariant
            n == data@.len(),
            n == orig.len(),
            start <= i <= n,
            i > start ==> borrow <= 1,
            i == start ==> borrow == v,
            limbs_val(data@) + v * limb_weight(start as int)
                == limbs_val(orig) + borrow * limb_weight(i as int),
        ensures
            n == data@.len(),
            start <= i <= n,
            i == n || borrow == 0,
            borrow <= 1 || i == start,
            limbs_val(data@) + v * limb_weight(start as int)
                == limbs_val(orig) + borrow * limb_weight(i as int),
        decreases n - i,
    {
        let (d, c) = sub_with_borrow(data[i], borrow, 0);
        let ghost prev = data@;
        data[i] = d;
        proof {
            lemma_limb_base();
            lemma_lv_update(prev, i as int, d);
            lemma_weight_step(i as int);
            let w = limb_weight(i as int) as int;
            let x = prev[i as int] as int;
            // d == x - borrow + c * 2^64, for any borrow below 2^64
            assert(d == x - borrow + c * pow2(64)) by {
                let e = x - borrow;
                assert(e >= -0xffff_ffff_ffff_ffffint);
                if e < 0 {
                    lemma_fundamental_div_mod(e, 0x1_0000_0000_0000_0000int);
                    lemma_mod_bound(e, 0x1_0000_0000_0000_0000int);
                    assert(e / 0x1_0000_0000_0000_0000int == -1) by (nonlinear_arith)
                        requires e < 0, e >= -0xffff_ffff_ffff_ffffint,
                            e == 0x1_0000_0000_0000_0000int * (e / 0x1_0000_0000_0000_0000int)
                                + e % 0x1_0000_0000_0000_0000int,
                            0 <= e % 0x1_0000_0000_0000_0000int < 0x1_0000_0000_0000_0000int;
                } else {
                    lemma_small_mod(e as nat, 0x1_0000_0000_0000_0000nat);
                }
            }
            lemma_digit_shift(d as int, 0, 0, w);
            assert((x - borrow + c * pow2(64)) * w == x * w - borrow * w + c * (pow2(64) * w)) by (nonlinear_arith);
        }
        borrow = c;
        i += 1;
        if borrow == 0 {
            break;
        }
    }
    proof {
        if i < n {
            assert(borrow == 0);
        }
    }
    borrow
}

} // verus!
