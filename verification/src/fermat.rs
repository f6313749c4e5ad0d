//! Arithmetic modulo Fermat numbers 2^shift + 1 on little-endian u64 limbs,
//! the ring in which the number-theoretic transform works.

use crate::arith::limb_weight;
use crate::big::{big_add, big_from_bytes_le, big_from_u64, big_mul, big_rem, big_shl, big_to_u64_digits, big_val, bytes_val, limbs_val};
use num_bigint::BigUint;
use crate::limb_bits::{high_limbs, lemma_one_shl, lemma_value_at_limb, low_limbs, shl_limbs};
use crate::limb_ops::{add_at, add_limbs, lemma_tval_full, sub_at, sub_limbs, tval};
use crate::limbs::{lemma_bytes_split, lemma_limb_base, lemma_lv_bound, lemma_lv_split, lemma_lv_take_step, lemma_lv_zero};
use vstd::arithmetic::div_mod::*;
use vstd::arithmetic::mul::*;
use vstd::arithmetic::power2::*;
use vstd::prelude::*;

verus! {

/// The Fermat modulus 2^shift + 1.
pub open spec fn fermat_modulus(shift: nat) -> nat {
    pow2(shift) + 1
}

/// Number of limbs of a Fermat number with the given shift:
/// ceil(shift / 64) + 1.
pub open spec fn fermat_limbs(shift: nat) -> nat {
    (shift + 63) / 64 + 1
}

/// A number held modulo 2^shift + 1.
pub struct FermatNum {
    /// The value represented as limbs (little-endian u64).
    pub data: Vec<u64>,
    /// The shift: the Fermat modulus is 2^shift + 1.
    pub shift: usize,
}

/// `a + w * x >= w * k` exactly when `x >= k`, for a low part `a < w`.
pub proof fn lemma_ge_split(a: int, w: int, x: int, k: int)
    requires
        0 <= a < w,
        x >= 0,
        k >= 0,
    ensures
        (a + w * x >= w * k) <==> (x >= k),
{
    if x >= k {
        lemma_mul_inequality(k, x, w);
        lemma_mul_is_commutative(k, w);
        lemma_mul_is_commutative(x, w);
    } else {
        lemma_mul_inequality(x + 1, k, w);
        lemma_mul_is_distributive_add_other_way(w, x, 1);
        lemma_mul_is_commutative(x + 1, w);
        lemma_mul_is_commutative(k, w);
    }
}

/// 2^shift is the weight of bit `shift % 64` of limb `shift / 64`.
pub proof fn lemma_shift_weight(shift: nat)
    ensures
        pow2(shift) == limb_weight((shift / 64) as int) * pow2(shift % 64),
        pow2(shift + 1) == limb_weight((shift / 64) as int) * pow2(shift % 64 + 1),
{
    lemma_pow2_adds(64 * (shift / 64), shift % 64);
    lemma_pow2_adds(64 * (shift / 64), shift % 64 + 1);
}

/// 2^(2 shift) is 1 modulo 2^shift + 1.
pub proof fn lemma_pow2_double_shift(shift: nat)
    requires
        shift >= 1,
    ensures
        pow2(2 * shift) % fermat_modulus(shift) == 1,
{
    let p = pow2(shift) as int;
    let m = p + 1;
    lemma_pow2_adds(shift, shift);
    assert(shift + shift == 2 * shift);
    lemma_pow2_pos(shift);
    lemma_pow2_strictly_increases(0, shift);
    assert(pow2(0) == 1) by { lemma2_to64(); }
    assert(p * p == m * (p - 1) + 1) by (nonlinear_arith) requires m == p + 1;
    lemma_fundamental_div_mod_converse_mod(p * p, m, p - 1, 1);
}

/// Powers of two repeat with period 2 shift modulo 2^shift + 1.
pub proof fn lemma_pow2_period(shift: nat, k: nat)
    requires
        shift >= 1,
    ensures
        pow2(k) % fermat_modulus(shift) == pow2(k % (2 * shift)) % fermat_modulus(shift),
    decreases k,
{
    let m = fermat_modulus(shift) as int;
    let t = 2 * shift;
    lemma_pow2_pos(shift);
    if k < t {
        lemma_small_mod(k, t);
    } else {
        lemma_pow2_period(shift, (k - t) as nat);
        lemma_pow2_adds(t, (k - t) as nat);
        lemma_pow2_double_shift(shift);
        lemma_mul_mod_noop_left(pow2(t) as int, pow2((k - t) as nat) as int, m);
        lemma_mod_sub_multiples_vanish(k as int, t as int);
        assert(((k - t) as int) % (t as int) == (k as int) % (t as int));
    }
}

/// Multiplying by 2^(shift + t) is negating and multiplying by 2^t.
pub proof fn lemma_negate_shift(shift: nat, v: nat, t: nat)
    requires
        v <= fermat_modulus(shift),
    ensures
        (v * pow2(shift + t)) % fermat_modulus(shift)
            == ((((fermat_modulus(shift) - v) as int) % (fermat_modulus(shift) as int)) * pow2(t))
            % (fermat_modulus(shift) as int),
{
    let m = fermat_modulus(shift) as int;
    let q = pow2(t) as int;
    let p = pow2(shift) as int;
    lemma_pow2_adds(shift, t);
    lemma_pow2_pos(shift);
    lemma_mul_mod_noop_left(m - v, q, m);
    // v * (m - 1) * q + (m - v) * q == m * q * (v + 1) - ... both are -v q modulo m
    assert(v * (p * q) == (m - v) * q + m * (v * q - q)) by (nonlinear_arith)
        requires m == p + 1;
    lemma_mod_multiples_vanish(v * q - q, (m - v) * q, m);
}

/// The left shift that stands for a right shift by `k`: 2 shift - k, reduced
/// modulo 2 shift.
pub open spec fn right_shift_amount(shift: nat, k: nat) -> nat {
    if shift == 0 {
        0
    } else {
        ((2 * shift - k % (2 * shift)) % ((2 * shift) as int)) as nat
    }
}

/// Shifting left by `right_shift_amount(shift, k)` and then by `k` is a shift
/// by a multiple of 2 shift, which is 1 modulo 2^shift + 1.
pub proof fn lemma_shift_inverse(shift: nat, k: nat)
    requires
        shift >= 1,
    ensures
        pow2(right_shift_amount(shift, k) + k) % fermat_modulus(shift) == 1,
{
    let t = 2 * shift;
    let e = right_shift_amount(shift, k);
    let ti = t as int;
    let ki = k as int;
    lemma_mod_bound(ki, ti);
    lemma_fundamental_div_mod(ki, ti);
    let r = ki % ti;
    let q: int = if r == 0 { ki / ti } else { ki / ti + 1 };
    if r == 0 {
        lemma_mod_self_0(ti);
        assert(e == 0);
        assert(e + k == ti * q);
    } else {
        lemma_small_mod((ti - r) as nat, t);
        assert(e == ti - r);
        assert(e + ki == ti * q) by (nonlinear_arith)
            requires e == ti - r, ki == ti * (ki / ti) + r, q == ki / ti + 1;
    }
    lemma_div_pos_is_pos(ki, ti);
    lemma_mod_multiples_basic(q, ti);
    lemma_mul_is_commutative(ti, q);
    assert(((e + k) as int) % ti == 0);
    lemma_pow2_period(shift, e + k);
    assert(pow2(0) == 1) by { lemma2_to64(); }
    lemma_pow2_pos(shift);
    lemma_pow2_strictly_increases(0, shift);
    lemma_small_mod(1, fermat_modulus(shift));
}

/// Shifting left by `k` and then right by `k` gives back a reduced value.
pub proof fn lemma_shift_right_undoes_shift_left(shift: nat, v: nat, k: nat)
    requires
        shift >= 1,
        v < fermat_modulus(shift),
    ensures
        (((v * pow2(k)) % fermat_modulus(shift)) * pow2(right_shift_amount(shift, k)))
            % fermat_modulus(shift) == v,
{
    let m = fermat_modulus(shift) as int;
    let e = right_shift_amount(shift, k);
    lemma_pow2_pos(shift);
    lemma_shift_inverse(shift, k);
    lemma_mul_mod_noop_left((v * pow2(k)) as int, pow2(e) as int, m);
    lemma_mul_is_associative(v as int, pow2(k) as int, pow2(e) as int);
    lemma_pow2_adds(k, e);
    lemma_mul_mod_noop_right(v as int, pow2(k + e) as int, m);
    lemma_mul_basics(v as int);
    lemma_small_mod(v, m as nat);
}

/// The eight little-endian bytes of a limb hold its value.
proof fn lemma_limb_bytes(x: u64)
    ensures
        bytes_val(seq![x as u8, (x >> 8u64) as u8, (x >> 16u64) as u8, (x >> 24u64) as u8,
            (x >> 32u64) as u8, (x >> 40u64) as u8, (x >> 48u64) as u8, (x >> 56u64) as u8]) == x,
{
    let b = seq![x as u8, (x >> 8u64) as u8, (x >> 16u64) as u8, (x >> 24u64) as u8,
            (x >> 32u64) as u8, (x >> 40u64) as u8, (x >> 48u64) as u8, (x >> 56u64) as u8];
    reveal_with_fuel(bytes_val, 9);
    assert(b.drop_first().drop_first().drop_first().drop_first().drop_first().drop_first()
        .drop_first().drop_first() =~= Seq::<u8>::empty());
    assert(x == (x as u8) as u64 + 256 * (((x >> 8u64) as u8) as u64 + 256 * (((x >> 16u64) as u8) as u64
        + 256 * (((x >> 24u64) as u8) as u64 + 256 * (((x >> 32u64) as u8) as u64 + 256 * (
        ((x >> 40u64) as u8) as u64 + 256 * (((x >> 48u64) as u8) as u64 + 256 * ((x >> 56u64) as u8) as u64)))))))
        by (bit_vector);
}

/// Whether some limb from `start` upward is nonzero.
fn any_nonzero_from(data: &Vec<u64>, start: usize) -> (r: bool)
    ensures
        start <= data@.len() ==> r == (limbs_val(data@.skip(start as int)) != 0),
        start > data@.len() ==> !r,
{
    let n = data.len();
    if start > n {
        return false;
    }
    let mut i = start;
    while i < n
        invariant
            start <= i <= n,
            n == data@.len(),
            forall|k: int| start <= k < i ==> data@[k] == 0,
        decreases n - i,
    {
        if data[i] != 0 {
            proof {
                lemma_lv_zero(data@.skip(start as int));
                assert(data@.skip(start as int)[i - start] != 0);
            }
            return true;
        }
        i += 1;
    }
    proof {
        lemma_lv_zero(data@.skip(start as int));
        assert forall|k: int| 0 <= k < data@.skip(start as int).len()
            implies data@.skip(start as int)[k] == 0 by {
            assert(data@[start + k] == 0);
        }
    }
    false
}

/// Whether some limb below `end` is nonzero.
fn any_nonzero_below(data: &Vec<u64>, end: usize) -> (r: bool)
    requires
        end <= data@.len(),
    ensures
        r == (limbs_val(data@.take(end as int)) != 0),
{
    let mut i: usize = 0;
    while i < end
        invariant
            end <= data@.len(),
            i <= end,
            forall|k: int| 0 <= k < i ==> data@[k] == 0,
        decreases end - i,
    {
        if data[i] != 0 {
            proof {
                lemma_lv_zero(data@.take(end as int));
                assert(data@.take(end as int)[i as int] != 0);
            }
            return true;
        }
        i += 1;
    }
    proof {
        lemma_lv_zero(data@.take(end as int));
        assert forall|k: int| 0 <= k < end implies data@.take(end as int)[k] == 0 by {}
    }
    false
}

/// `(d & !((1 << (b + 1)) - 1)) != 0` tests `d >= 2^(b + 1)`.
proof fn lemma_above_mask(d: u64, b: u64)
    requires
        0 < b < 63,
    ensures
        ((d & !(((1u64 << ((b + 1) as u64)) - 1) as u64)) != 0) == (d as nat >= pow2((b + 1) as nat)),
{
    lemma_one_shl((b + 1) as u64);
    let c: u64 = (b + 1) as u64;
    let m: u64 = ((1u64 << c) - 1) as u64;
    assert(((d & !m) != 0) == (d >= (1u64 << c))) by (bit_vector)
        requires 0 < c < 64, m + 1 == (1u64 << c);
}

/// Below 2^(b + 1), bit `b` is set exactly when `d >= 2^b`.
proof fn lemma_bit_b(d: u64, b: u64)
    requires
        0 < b < 63,
        (d as nat) < pow2((b + 1) as nat),
    ensures
        ((d & (1u64 << b)) != 0) == (d as nat >= pow2(b as nat)),
{
    lemma_one_shl((b + 1) as u64);
    lemma_one_shl(b);
    let c: u64 = (b + 1) as u64;
    assert(d < (1u64 << c) ==> (((d & (1u64 << b)) != 0) == (d >= (1u64 << b)))) by (bit_vector)
        requires 0 < b < 63, c == b + 1;
}

impl FermatNum {
    /// The number the limbs hold (not yet reduced).
    pub open spec fn value(&self) -> nat {
        limbs_val(self.data@)
    }

    /// The modulus 2^shift + 1 of this number.
    pub open spec fn fmod(&self) -> nat {
        fermat_modulus(self.shift as nat)
    }

    /// The limb count matches the shift, and the shift leaves room for the
    /// index arithmetic of the transforms.
    pub open spec fn wf(&self) -> bool {
        &&& self.data@.len() == fermat_limbs(self.shift as nat)
        &&& self.shift <= usize::MAX / 4
    }

    /// The bit masks of the reduction stay within a limb.
    pub open spec fn mask_ok(&self) -> bool {
        self.shift % 64 != 63
    }

    /// Create a new zero Fermat number with the given shift.
    pub fn new(shift: usize) -> (r: Self)
        ensures
            r.shift == shift,
            r.data@.len() == fermat_limbs(shift as nat),
            r.value() == 0,
    {
        let num_limbs = shift / 64 + (if shift % 64 != 0 { 1usize } else { 0usize }) + 1;
        let r = Self { data: vec![0u64; num_limbs], shift };
        proof {
            lemma_lv_zero(r.data@);
        }
        r
    }

    /// Check if this is zero.
    pub fn is_zero(&self) -> (r: bool)
        ensures
            r == (self.value() == 0),
    {
        let r = !any_nonzero_from(&self.data, 0);
        proof {
            assert(self.data@.skip(0) =~= self.data@);
        }
        r
    }

    /// Whether the value has bits strictly above position `shift`.
    fn bits_above_shift(&self) -> (r: bool)
        requires
            self.mask_ok(),
        ensures
            r == (self.value() >= pow2(self.shift as nat + 1)),
    {
        let shift = self.shift;
        let limb_idx = shift / 64;
        let bit_idx = shift % 64;
        let num_limbs = self.data.len();
        let r = if bit_idx == 0 {
            (limb_idx < num_limbs && self.data[limb_idx] > 1) || any_nonzero_from(&self.data, limb_idx + 1)
        } else {
            proof { lemma_one_shl((bit_idx + 1) as u64); }
            let above_mask = !((1u64 << ((bit_idx + 1) as u64)) - 1);
            (limb_idx < num_limbs && (self.data[limb_idx] & above_mask) != 0)
                || any_nonzero_from(&self.data, limb_idx + 1)
        };
        proof {
            let s = shift as nat;
            let b = bit_idx as nat;
            lemma_shift_weight(s);
            let w = limb_weight(limb_idx as int) as int;
            lemma_pow2_pos((64 * limb_idx) as nat);
            if limb_idx >= num_limbs {
                lemma_lv_bound(self.data@);
                if num_limbs < limb_idx {
                    lemma_pow2_strictly_increases((64 * num_limbs) as nat, (64 * limb_idx) as nat);
                }
                lemma_pow2_pos(b + 1);
                lemma_mul_increases(pow2(b + 1) as int, w);
                lemma_mul_is_commutative(pow2(b + 1) as int, w);
            } else {
                lemma_value_at_limb(self.data@, limb_idx as int);
                let lo = limbs_val(self.data@.take(limb_idx as int)) as int;
                let d = self.data@[limb_idx as int] as int;
                let rest = limbs_val(self.data@.skip(limb_idx + 1)) as int;
                lemma_limb_base();
                let x = d + 0x1_0000_0000_0000_0000int * rest;
                lemma_ge_split(lo, w, x, pow2(b + 1) as int);
                lemma_one_shl((bit_idx + 1) as u64);
                if bit_idx == 0 {
                    assert(pow2(1) == 2) by { lemma2_to64(); }
                } else {
                    lemma_above_mask(self.data@[limb_idx as int], bit_idx as u64);
                }
                assert(pow2(b + 1) <= 0x1_0000_0000_0000_0000int);
                assert((x >= pow2(b + 1)) == (d >= pow2(b + 1) || rest != 0));
            }
        }
        r
    }

    /// Check if self >= modulus (2^shift + 1).
    pub(crate) fn ge_modulus(&self) -> (r: bool)
        requires
            self.mask_ok(),
        ensures
            r == (self.value() >= self.fmod()),
    {
        let limb_idx = self.shift / 64;
        let bit_idx = self.shift % 64;
        let n = self.data.len();
        let ghost s = self.shift as nat;
        let ghost b = bit_idx as nat;
        let ghost w = limb_weight(limb_idx as int) as int;
        proof {
            lemma_shift_weight(s);
            lemma_pow2_pos((64 * limb_idx) as nat);
            lemma_pow2_pos(b);
            lemma_limb_base();
            if limb_idx >= n {
                lemma_lv_bound(self.data@);
                if n < limb_idx {
                    lemma_pow2_strictly_increases((64 * n) as nat, (64 * limb_idx) as nat);
                }
                lemma_mul_increases(pow2(b) as int, w);
                lemma_mul_is_commutative(pow2(b) as int, w);
            } else {
                lemma_value_at_limb(self.data@, limb_idx as int);
            }
        }
        // Check for any bits strictly above position shift
        if any_nonzero_from(&self.data, limb_idx + 1) {
            proof {
                let lo = limbs_val(self.data@.take(limb_idx as int)) as int;
                let d = self.data@[limb_idx as int] as int;
                let rest = limbs_val(self.data@.skip(limb_idx + 1)) as int;
                lemma_value_at_limb(self.data@, limb_idx as int);
                let x = d + 0x1_0000_0000_0000_0000int * rest;
                assert(x >= 0x1_0000_0000_0000_0000int) by (nonlinear_arith)
                    requires x == d + 0x1_0000_0000_0000_0000int * rest, rest >= 1, d >= 0;
                lemma_ge_split(lo, w, x, pow2(b + 1) as int);
                lemma_one_shl((bit_idx + 1) as u64);
                lemma_pow2_adds(s, 1);
                assert(pow2(1) == 2) by { lemma2_to64(); }
                lemma_pow2_pos(s);
                assert(self.value() >= w * pow2(b + 1));
            }
            return true;
        }
        if bit_idx == 0 {
            if limb_idx >= n {
                return false;
            }
            proof {
                let lo = limbs_val(self.data@.take(limb_idx as int)) as int;
                let d = self.data@[limb_idx as int] as int;
                let rest = limbs_val(self.data@.skip(limb_idx + 1)) as int;
                assert(rest == 0);
                assert(pow2(0) == 1) by { lemma2_to64(); }
                assert(self.value() == lo + w * d);
                assert(pow2(s) == w);
                lemma_ge_split(lo, w, d, 2);
                lemma_ge_split(lo, w, d, 1);
                lemma_lv_zero(self.data@.take(limb_idx as int));
            }
            if self.data[limb_idx] > 1 {
                proof {
                    lemma_pow2_pos(s);
                    assert(self.value() >= w * 2);
                }
                return true;
            }
            if self.data[limb_idx] == 1 {
                if any_nonzero_below(&self.data, limb_idx) {
                    return true;
                }
            }
            false
        } else {
            if limb_idx >= n {
                return false;
            }
            proof { lemma_one_shl((bit_idx + 1) as u64); }
            let above_mask = !((1u64 << ((bit_idx + 1) as u64)) - 1);
            let ghost lo = limbs_val(self.data@.take(limb_idx as int)) as int;
            let ghost d = self.data@[limb_idx as int] as int;
            proof {
                let rest = limbs_val(self.data@.skip(limb_idx + 1)) as int;
                assert(rest == 0);
                assert(self.value() == lo + w * d);
                lemma_above_mask(self.data@[limb_idx as int], bit_idx as u64);
                lemma_ge_split(lo, w, d, pow2(b + 1) as int);
                lemma_pow2_adds(s, 1);
                assert(pow2(1) == 2) by { lemma2_to64(); }
            }
            if self.data[limb_idx] & above_mask != 0 {
                proof {
                    lemma_pow2_pos(s);
                    assert(self.value() >= w * pow2(b + 1));
                    assert(pow2(s + 1) == 2 * pow2(s));
                }
                return true;
            }
            proof {
                lemma_bit_b(self.data@[limb_idx as int], bit_idx as u64);
                lemma_one_shl(bit_idx as u64);
            }
            if self.data[limb_idx] & (1u64 << (bit_idx as u64)) != 0 {
                proof { lemma_one_shl(bit_idx as u64); }
                let low_mask = (1u64 << (bit_idx as u64)) - 1;
                proof {
                    crate::limb_bits::lemma_low_mask(self.data@[limb_idx as int], bit_idx as u64);
                    let pb = pow2(b) as int;
                    lemma_fundamental_div_mod(d, pb);
                    lemma_mod_bound(d, pb);
                    // d < 2^(b+1) and d >= 2^b, so d / 2^b == 1
                    lemma_pow2_adds(b, 1);
                    assert(pow2(1) == 2) by { lemma2_to64(); }
                    assert(d / pb == 1) by (nonlinear_arith)
                        requires pb <= d < 2 * pb, d == pb * (d / pb) + d % pb, 0 <= d % pb < pb;
                    let md = d % pb;
                    assert(self.value() == pow2(s) + lo + w * md) by (nonlinear_arith)
                        requires self.value() == lo + w * d, d == pb * 1 + md, pow2(s) == w * pb;
                    lemma_mul_nonnegative(w, md);
                    if md != 0 {
                        lemma_mul_increases(md, w);
                        lemma_mul_is_commutative(md, w);
                    }
                    lemma_lv_zero(self.data@.take(limb_idx as int));
                }
                if self.data[limb_idx] & low_mask != 0 {
                    return true;
                }
                if any_nonzero_below(&self.data, limb_idx) {
                    return true;
                }
            } else {
                proof {
                    let pb = pow2(b) as int;
                    assert(lo + w * d < w * pb) by (nonlinear_arith)
                        requires 0 <= lo < w, 0 <= d < pb, w > 0;
                }
            }
            false
        }
    }

    /// Add the modulus 2^shift + 1 to the limbs, dropping the carry out of the
    /// top limb.
    fn add_modulus(&mut self)
        ensures
            final(self).shift == old(self).shift,
            final(self).data@.len() == old(self).data@.len(),
            final(self).value() == (old(self).value() + old(self).fmod())
                % limb_weight(old(self).data@.len() as int),
    {
        let n = self.data.len();
        let ghost v0 = self.value() as int;
        let ghost wn = limb_weight(n as int) as int;
        let ghost s = self.shift as nat;
        proof {
            lemma_pow2_pos((64 * n) as nat);
            lemma_lv_bound(self.data@);
        }
        if n == 0 {
            proof {
                assert(pow2(0) == 1) by { lemma2_to64(); }
                assert(self.value() == 0);
            }
            return;
        }
        // Add 1
        let c1 = add_at(&mut self.data, 0, 1);
        let ghost v1 = self.value() as int;
        proof {
            assert(pow2(0) == 1) by { lemma2_to64(); }
            assert(v1 + c1 * wn == v0 + 1);
        }
        // Add 2^shift
        let limb_idx = self.shift / 64;
        let bit_idx = self.shift % 64;
        if limb_idx < n {
            proof { lemma_one_shl(bit_idx as u64); }
            let c2 = add_at(&mut self.data, limb_idx, 1u64 << (bit_idx as u64));
            proof {
                lemma_shift_weight(s);
                lemma_mul_is_commutative(pow2(bit_idx as nat) as int, limb_weight(limb_idx as int) as int);
                let v2 = self.value() as int;
                assert(v2 + (c1 + c2) * wn == v0 + fermat_modulus(s)) by (nonlinear_arith)
                    requires v2 + c2 * wn == v1 + pow2(s), v1 + c1 * wn == v0 + 1,
                        fermat_modulus(s) == pow2(s) + 1;
                lemma_lv_bound(self.data@);
                lemma_fundamental_div_mod_converse_mod(v0 + fermat_modulus(s), wn, c1 + c2, v2);
            }
        } else {
            proof {
                // 2^shift is a multiple of 2^(64 n)
                lemma_pow2_adds((64 * n) as nat, (s - 64 * n) as nat);
                let k = pow2((s - 64 * n) as nat) as int;
                assert(pow2(s) == wn * k);
                lemma_lv_bound(self.data@);
                assert(v0 + fermat_modulus(s) == wn * (c1 + k) + v1) by (nonlinear_arith)
                    requires v1 + c1 * wn == v0 + 1, fermat_modulus(s) == pow2(s) + 1, pow2(s) == wn * k;
                lemma_fundamental_div_mod_converse_mod(v0 + fermat_modulus(s), wn, c1 + k, v1);
            }
        }
    }

    /// Subtract the modulus once from a value at least the modulus.
    fn sub_modulus(&mut self)
        requires
            old(self).value() >= old(self).fmod(),
        ensures
            final(self).shift == old(self).shift,
            final(self).data@.len() == old(self).data@.len(),
            final(self).value() == old(self).value() - old(self).fmod(),
    {
        let n = self.data.len();
        let limb_idx = self.shift / 64;
        let bit_idx = self.shift % 64;
        let ghost v0 = self.value() as int;
        let ghost wn = limb_weight(n as int) as int;
        let ghost s = self.shift as nat;
        proof {
            lemma_lv_bound(self.data@);
            lemma_pow2_pos(s);
            lemma_shift_weight(s);
            lemma_pow2_pos(bit_idx as nat);
            if limb_idx >= n {
                if n < limb_idx {
                    lemma_pow2_strictly_increases((64 * n) as nat, (64 * limb_idx) as nat);
                }
                lemma_mul_increases(pow2(bit_idx as nat) as int, limb_weight(limb_idx as int) as int);
                lemma_mul_is_commutative(pow2(bit_idx as nat) as int, limb_weight(limb_idx as int) as int);
                assert(false);
            }
        }
        let b1 = sub_at(&mut self.data, 0, 1);
        let ghost v1 = self.value() as int;
        proof {
            assert(pow2(0) == 1) by { lemma2_to64(); }
            lemma_lv_bound(self.data@);
            if b1 == 1 {
                assert(v1 >= wn);
            }
            assert(b1 == 0);
        }
        proof { lemma_one_shl(bit_idx as u64); }
        let b2 = sub_at(&mut self.data, limb_idx, 1u64 << (bit_idx as u64));
        proof {
            lemma_mul_is_commutative(pow2(bit_idx as nat) as int, limb_weight(limb_idx as int) as int);
            lemma_lv_bound(self.data@);
            let v2 = self.value() as int;
            if b2 == 1 {
                assert(v2 >= wn);
            }
        }
    }

    /// Normalize: reduce modulo 2^shift + 1 directly on the limbs.
    ///
    /// Since 2^shift is -1 modulo 2^shift + 1, the bits from position `shift`
    /// upward are folded down by subtracting them from the low `shift` bits;
    /// a final comparison with the modulus leaves the least residue.
    pub fn normalize(&mut self)
        requires
            old(self).mask_ok(),
            old(self).value() < pow2(2 * old(self).shift as nat),
        ensures
            final(self).shift == old(self).shift,
            final(self).data@.len() == old(self).data@.len(),
            final(self).value() == old(self).value() % old(self).fmod(),
    {
        let shift = self.shift;
        let n = self.data.len();
        let ghost v0 = self.value();
        let ghost m = self.fmod() as int;
        let ghost s = shift as nat;
        proof {
            lemma_pow2_pos(s);
        }
        loop
            invariant
                self.shift == shift,
                self.data@.len() == n,
                s == shift as nat,
                m == fermat_modulus(s),
                m > 1,
                shift % 64 != 63,
                (self.value() as int) % m == (v0 as int) % m,
                self.value() < pow2(2 * s),
            ensures
                self.shift == shift,
                self.data@.len() == n,
                (self.value() as int) % m == (v0 as int) % m,
                self.value() < pow2(s + 1),
            decreases self.value(),
        {
            if !self.bits_above_shift() {
                break;
            }
            let ghost v = self.value() as int;
            let ghost li = shift / 64;
            proof {
                lemma_pow2_adds(s, 1);
                assert(pow2(1) == 2) by { lemma2_to64(); }
                if s == 0 {
                    assert(pow2(0) == 1) by { lemma2_to64(); }
                    assert(false);
                }
                lemma_lv_bound(self.data@);
                if li >= n {
                    if n < li {
                        lemma_pow2_strictly_increases((64 * n) as nat, (64 * li) as nat);
                    }
                    lemma_shift_weight(s);
                    lemma_pow2_pos((shift % 64) as nat);
                    lemma_mul_increases(pow2((shift % 64) as nat) as int, limb_weight(li as int) as int);
                    lemma_mul_is_commutative(pow2((shift % 64) as nat) as int, limb_weight(li as int) as int);
                    assert(false);
                }
            }
            let high = high_limbs(&self.data, shift);
            let low = low_limbs(&self.data, shift, n);
            let (diff, borrow) = sub_limbs(&low, &high);
            let ghost h = limbs_val(high@) as int;
            let ghost l = limbs_val(low@) as int;
            let ghost wn = limb_weight(n as int) as int;
            proof {
                let ps = pow2(s) as int;
                lemma_fundamental_div_mod(v, ps);
                lemma_mod_bound(v, ps);
                // h < 2^s because v < 2^(2s)
                lemma_pow2_adds(s, s);
                assert(s + s == 2 * s);
                assert(h < ps) by {
                    if h >= ps {
                        lemma_mul_inequality(ps, h, ps);
                        assert(v >= ps * h);
                        lemma_mul_is_commutative(ps, h);
                    }
                }
                // 2^s + 1 < 2^(64 n)
                assert(s + 1 <= 64 * n);
                if s + 1 < 64 * n {
                    lemma_pow2_strictly_increases(s + 1, (64 * n) as nat);
                }
                lemma_pow2_strictly_increases(s, s + 1);
                assert(h < wn);
                lemma_tval_full(high@, n as nat);
                assert(tval(high@, n as nat) == h);
                lemma_lv_bound(diff@);
                if borrow == 0 {
                    lemma_mul_basics(wn);
                    assert(limbs_val(diff@) == l - h);
                } else {
                    assert(borrow == 1);
                    lemma_mul_basics(wn);
                    assert(limbs_val(diff@) == l - h + wn);
                }
            }
            self.data = diff;
            if borrow > 0 {
                self.add_modulus();
                proof {
                    let x = l - h + m;
                    assert(0 < x < m);
                    assert(limbs_val(diff@) + m == wn * 1 + x);
                    lemma_fundamental_div_mod_converse_mod(limbs_val(diff@) + m, wn, 1, x);
                    assert(self.value() == x);
                }
            }
            proof {
                let nv = self.value() as int;
                assert(nv == l - h || nv == l - h + m);
                assert(nv < m);
                // v == h * 2^s + l == (l - h) + h * m
                assert(v == (l - h) + h * m) by (nonlinear_arith)
                    requires v == pow2(s) * h + l, m == pow2(s) + 1;
                lemma_mod_multiples_vanish(h, l - h, m);
                lemma_mod_multiples_vanish(h + 1, l - h, m);
                assert(v == nv + h * m || v == nv + (h - 1) * m) by (nonlinear_arith)
                    requires v == (l - h) + h * m, nv == l - h || nv == l - h + m;
                lemma_mul_is_commutative(h, m);
                lemma_mul_is_commutative(h - 1, m);
                lemma_mod_multiples_vanish(h, nv, m);
                lemma_mod_multiples_vanish(h - 1, nv, m);
                if s >= 1 {
                    lemma_pow2_strictly_increases(s, 2 * s);
                }
            }
        }
        if self.ge_modulus() {
            self.sub_modulus();
        }
        proof {
            let fv = self.value() as int;
            lemma_pow2_adds(s, 1);
            assert(pow2(1) == 2) by { lemma2_to64(); }
            assert(fv < m);
            lemma_small_mod(fv as nat, m as nat);
            if fv != limbs_val(self.data@) {
                assert(false);
            }
            lemma_mod_multiples_vanish(1, fv, m);
        }
    }

    /// Add two Fermat numbers modulo 2^shift + 1.
    pub fn add(&self, other: &Self) -> (result: Self)
        requires
            self.shift == other.shift,
            self.mask_ok(),
            self.value() + tval(other.data@, self.data@.len() as nat) < pow2(2 * self.shift as nat),
            self.value() + tval(other.data@, self.data@.len() as nat) < limb_weight(self.data@.len() as int),
        ensures
            result.shift == self.shift,
            result.data@.len() == self.data@.len(),
            result.value() == (self.value() + tval(other.data@, self.data@.len() as nat)) % self.fmod(),
    {
        let (sum, carry) = add_limbs(&self.data, &other.data);
        let mut result = Self { data: sum, shift: self.shift };
        proof {
            lemma_lv_bound(result.data@);
            let w = limb_weight(self.data@.len() as int) as int;
            if carry > 0 {
                lemma_mul_increases(carry as int, w);
                lemma_mul_is_commutative(carry as int, w);
                assert(false);
            }
            lemma_mul_basics(w);
            assert(result.value() == self.value() + tval(other.data@, self.data@.len() as nat));
        }
        if carry > 0 || result.ge_modulus() {
            result.normalize();
        } else {
            proof {
                lemma_small_mod(result.value(), result.fmod());
            }
        }
        result
    }

    /// Subtract `other` from self modulo 2^shift + 1 (the limbs of `other`
    /// beyond the length of self are ignored).
    pub fn sub(&self, other: &Self) -> (result: Self)
        requires
            self.shift == other.shift,
        ensures
            result.shift == self.shift,
            result.data@.len() == self.data@.len(),
            ({
                let a = self.value() as int;
                let b = tval(other.data@, self.data@.len() as nat) as int;
                let w = limb_weight(self.data@.len() as int) as int;
                result.value() == if a >= b { a - b } else { (a + w - b + self.fmod()) % w }
            }),
            self.shift / 64 < self.data@.len() && self.value() < self.fmod()
                && tval(other.data@, self.data@.len() as nat) < self.fmod()
                ==> result.value() == (self.value() + self.fmod()
                    - tval(other.data@, self.data@.len() as nat)) % (self.fmod() as int),
    {
        let (diff, borrow) = sub_limbs(&self.data, &other.data);
        let mut result = Self { data: diff, shift: self.shift };
        let ghost a = self.value() as int;
        let ghost b = tval(other.data@, self.data@.len() as nat) as int;
        let ghost w = limb_weight(self.data@.len() as int) as int;
        let ghost m = self.fmod() as int;
        proof {
            lemma_mul_basics(w);
        }
        if borrow > 0 {
            proof {
                assert(borrow == 1);
                assert(limbs_val(diff@) == a + w - b);
            }
            result.add_modulus();
        }
        proof {
            lemma_pow2_pos(self.shift as nat);
            if self.shift / 64 < self.data@.len() && a < m && b < m {
                let s = self.shift as nat;
                let n = self.data@.len();
                assert(s + 1 <= 64 * n);
                if s + 1 < 64 * n {
                    lemma_pow2_strictly_increases(s + 1, (64 * n) as nat);
                }
                lemma_pow2_adds(s, 1);
                assert(pow2(1) == 2) by { lemma2_to64(); }
                if a >= b {
                    lemma_mod_multiples_vanish(1, a - b, m);
                    lemma_small_mod((a - b) as nat, m as nat);
                } else {
                    lemma_fundamental_div_mod_converse_mod(a + w - b + m, w, 1, a - b + m);
                    lemma_small_mod((a - b + m) as nat, m as nat);
                }
            }
        }
        result
    }

    /// Negate modulo 2^shift + 1: the modulus minus the value (zero stays zero).
    fn negate_mod(&mut self)
        requires
            old(self).shift >= 1,
            old(self).shift / 64 < old(self).data@.len(),
            old(self).value() <= old(self).fmod(),
        ensures
            final(self).shift == old(self).shift,
            final(self).data@.len() == old(self).data@.len(),
            final(self).value() == (old(self).fmod() - old(self).value()) % (old(self).fmod() as int),
    {
        let ghost m = self.fmod() as int;
        proof {
            lemma_pow2_pos(self.shift as nat);
        }
        if self.is_zero() {
            proof {
                lemma_mod_self_0(m);
            }
            return;
        }
        let num_limbs = self.data.len();
        let limb_idx = self.shift / 64;
        let bit_idx = self.shift % 64;
        let mut modulus_data: Vec<u64> = vec![0u64; num_limbs];
        modulus_data[0] = 1;
        proof { lemma_one_shl(bit_idx as u64); }
        if limb_idx < num_limbs {
            modulus_data[limb_idx] = modulus_data[limb_idx] | (1u64 << (bit_idx as u64));
        }
        proof {
            let s = self.shift as nat;
            let b = bit_idx as u64;
            lemma_shift_weight(s);
            assert forall|k: int| 0 <= k < num_limbs && k != 0 && k != limb_idx
                implies modulus_data@[k] == 0 by {}
            if limb_idx == 0 {
                assert(b >= 1);
                assert(1u64 | (1u64 << b) == 1 + (1u64 << b)) by (bit_vector)
                    requires 1 <= b < 64;
                assert(limb_weight(0) == 1) by { lemma2_to64(); }
                lemma_value_at_limb(modulus_data@, 0);
                assert(modulus_data@.take(0) =~= Seq::<u64>::empty());
                lemma_lv_zero(modulus_data@.skip(1));
            } else {
                assert(0u64 | (1u64 << b) == (1u64 << b)) by (bit_vector);
                lemma_value_at_limb(modulus_data@, limb_idx as int);
                lemma_value_at_limb(modulus_data@.take(limb_idx as int), 0);
                assert(modulus_data@.take(limb_idx as int).take(0) =~= Seq::<u64>::empty());
                lemma_lv_zero(modulus_data@.take(limb_idx as int).skip(1));
                lemma_lv_zero(modulus_data@.skip(limb_idx + 1));
                assert(limb_weight(0) == 1) by { lemma2_to64(); }
            }
            lemma_mul_by_zero_is_zero(pow2(64) as int);
            lemma_mul_is_commutative(pow2(bit_idx as nat) as int, limb_weight(limb_idx as int) as int);
            assert(limbs_val(modulus_data@) == m);
            lemma_lv_bound(self.data@);
            lemma_tval_full(self.data@, num_limbs as nat);
            lemma_mul_basics(limb_weight(num_limbs as int) as int);
        }
        let (d, _borrow) = sub_limbs(&modulus_data, &self.data);
        proof {
            lemma_lv_bound(d@);
            let v = self.value() as int;
            assert(limbs_val(d@) == m - v);
            lemma_small_mod((m - v) as nat, m as nat);
        }
        self.data = d;
    }

    /// Multiply by 2^s modulo 2^shift + 1. A shift by a multiple of `shift`
    /// is at most a negation and needs no reduction, whatever the shift.
    pub fn shift_left(&mut self, s: usize)
        requires
            old(self).wf(),
            old(self).mask_ok() || s % old(self).shift == 0,
            old(self).shift >= 1,
            old(self).value() < old(self).fmod(),
        ensures
            final(self).shift == old(self).shift,
            final(self).data@.len() == old(self).data@.len(),
            final(self).value() == (old(self).value() * pow2(s as nat)) % old(self).fmod(),
            final(self).value() < old(self).fmod(),
    {
        let ghost v0 = self.value();
        let ghost m = self.fmod() as int;
        let ghost sh = self.shift as nat;
        let ghost s0 = s as nat;
        proof {
            lemma_pow2_pos(sh);
            lemma_small_mod(v0, m as nat);
        }
        if s == 0 {
            proof {
                assert(pow2(0) == 1) by { lemma2_to64(); }
            }
            return;
        }
        // 2^(2 shift) is 1 modulo 2^shift + 1, so reduce the shift amount.
        let two_shift = 2 * self.shift;
        let mut s = s % two_shift;
        let ghost s1 = s as nat;
        proof {
            lemma_pow2_period(sh, s0);
            lemma_mul_mod_noop_right(v0 as int, pow2(s0) as int, m);
            lemma_mul_mod_noop_right(v0 as int, pow2(s1) as int, m);
            assert(((v0 * pow2(s0)) as int) % m == ((v0 * pow2(s1)) as int) % m);
        }
        if s == 0 {
            proof {
                assert(pow2(0) == 1) by { lemma2_to64(); }
            }
            return;
        }
        // Past `shift`, use 2^shift == -1: negate, then shift by the rest.
        let ghost negated = s >= self.shift;
        if s >= self.shift {
            self.negate_mod();
            s -= self.shift;
            proof {
                lemma_negate_shift(sh, v0, s as nat);
                assert(sh + s == s1);
            }
            if s == 0 {
                proof {
                    assert(pow2(0) == 1) by { lemma2_to64(); }
                    let nv = self.value() as int;
                    assert(nv == (m - v0) % m);
                    lemma_mod_bound(m - v0, m);
                    lemma_mul_basics(nv);
                    assert(nv * pow2(0) == nv);
                    lemma_small_mod(nv as nat, m as nat);
                    assert(sh + 0 == s1);
                    assert(((v0 * pow2(s1)) as int) % m == nv);
                }
                return;
            }
        }
        let ghost v1 = self.value() as int;
        let ghost t = s as nat;
        proof {
            // A shift by a multiple of `shift` has returned by now.
            if !self.mask_ok() {
                lemma_mod_mod(s0 as int, sh as int, 2);
                assert(sh * 2 == 2 * sh);
                assert(s1 % sh == 0);
                assert(s1 == sh) by (nonlinear_arith)
                    requires s1 % sh == 0, 0 < s1 < 2 * sh, sh > 0;
                assert(false);
            }
            if negated {
                assert(((v0 * pow2(s1)) as int) % m == (v1 * pow2(t)) % m);
            } else {
                assert(v1 == v0);
            }
            assert(v1 < m);
        }
        // Now 0 < s < shift: shift the limbs, then fold the bits from `shift`
        // upward back down (one fold suffices).
        let num_limbs = self.data.len();
        let new_data = shl_limbs(&self.data, s);
        let high = high_limbs(&new_data, self.shift);
        let low = low_limbs(&new_data, self.shift, num_limbs);
        let (diff, borrow) = sub_limbs(&low, &high);
        let ghost nd = limbs_val(new_data@) as int;
        let ghost h = limbs_val(high@) as int;
        let ghost l = limbs_val(low@) as int;
        let ghost wn = limb_weight(num_limbs as int) as int;
        proof {
            let ps = pow2(sh) as int;
            let pt = pow2(t) as int;
            lemma_pow2_pos(t);
            lemma_fundamental_div_mod(nd, ps);
            lemma_mod_bound(nd, ps);
            // v1 <= 2^shift, so h <= 2^t
            assert(nd <= ps * pt) by (nonlinear_arith) requires nd == v1 * pt, v1 <= ps, pt > 0;
            assert(h <= pt) by {
                lemma_div_is_ordered(nd, ps * pt, ps);
                lemma_div_by_multiple(pt, ps);
                lemma_mul_is_commutative(ps, pt);
            }
            lemma_pow2_strictly_increases(t, sh);
            assert(sh + 1 <= 64 * num_limbs);
            lemma_pow2_strictly_increases(sh, (64 * num_limbs) as nat);
            lemma_tval_full(high@, num_limbs as nat);
            lemma_lv_bound(diff@);
            lemma_mul_basics(wn);
            if borrow == 0 {
                assert(limbs_val(diff@) == l - h);
            } else {
                assert(borrow == 1);
                assert(limbs_val(diff@) == l - h + wn);
            }
        }
        self.data = diff;
        if borrow > 0 {
            self.add_modulus();
            proof {
                let x = l - h + m;
                assert(0 < x < m);
                assert(limbs_val(diff@) + m == wn * 1 + x);
                lemma_fundamental_div_mod_converse_mod(limbs_val(diff@) + m, wn, 1, x);
            }
        }
        let ghost nv = self.value() as int;
        proof {
            assert(nv == l - h || nv == l - h + m);
            assert(nv < m);
            lemma_pow2_strictly_increases(sh, 2 * sh);
            assert(nd == (l - h) + h * m) by (nonlinear_arith)
                requires nd == pow2(sh) * h + l, m == pow2(sh) + 1;
            assert(nd == nv + h * m || nd == nv + (h - 1) * m) by (nonlinear_arith)
                requires nd == (l - h) + h * m, nv == l - h || nv == l - h + m;
            lemma_mul_is_commutative(h, m);
            lemma_mul_is_commutative(h - 1, m);
            lemma_mod_multiples_vanish(h, nv, m);
            lemma_mod_multiples_vanish(h - 1, nv, m);
            lemma_small_mod(nv as nat, m as nat);
            assert(nd % m == nv);
        }
        self.normalize();
        proof {
            lemma_small_mod(nv as nat, m as nat);
        }
    }

    /// Divide by 2^k modulo 2^shift + 1, as multiplication by 2^(2 shift - k).
    /// As with `shift_left`, a multiple of `shift` needs no reduction.
    pub fn shift_right(&mut self, k: usize)
        requires
            old(self).wf(),
            old(self).mask_ok() || k % old(self).shift == 0,
            old(self).shift >= 1,
            old(self).value() < old(self).fmod(),
        ensures
            final(self).shift == old(self).shift,
            final(self).data@.len() == old(self).data@.len(),
            final(self).value() == (old(self).value() * pow2(
                right_shift_amount(old(self).shift as nat, k as nat))) % old(self).fmod(),
            final(self).value() < old(self).fmod(),
            (final(self).value() * pow2(k as nat)) % old(self).fmod() == old(self).value(),
    {
        let ghost v0 = self.value();
        let ghost m = self.fmod() as int;
        let ghost sh = self.shift as nat;
        proof {
            lemma_pow2_pos(sh);
            lemma_small_mod(v0, m as nat);
            assert(pow2(0) == 1) by { lemma2_to64(); }
            lemma_shift_inverse(sh, k as nat);
        }
        if k == 0 {
            proof {
                lemma_mod_self_0((2 * sh) as int);
                lemma_small_mod(0, 2 * sh);
                assert(0nat % (2 * sh) == 0);
                assert(right_shift_amount(sh, 0) == 0);
                lemma_mul_basics(v0 as int);
            }
            return;
        }
        let two_shift = 2 * self.shift;
        let effective = (two_shift - (k % two_shift)) % two_shift;
        proof {
            if !self.mask_ok() {
                let r = (k % two_shift) as nat;
                lemma_mod_mod(k as int, sh as int, 2);
                assert(sh * 2 == 2 * sh);
                assert(r % sh == 0);
                assert(r == 0 || r == sh) by (nonlinear_arith)
                    requires r % sh == 0, r < 2 * sh, sh > 0;
                if r == 0 {
                    lemma_mod_self_0((2 * sh) as int);
                    assert(effective == 0);
                } else {
                    lemma_small_mod(sh, 2 * sh);
                    assert(effective == sh);
                    lemma_mod_self_0(sh as int);
                }
            }
        }
        if effective > 0 {
            self.shift_left(effective);
        }
        proof {
            let e = effective as nat;
            let v1 = self.value() as int;
            lemma_mul_mod_noop_left((v0 * pow2(e)) as int, pow2(k as nat) as int, m);
            lemma_mul_is_associative(v0 as int, pow2(e) as int, pow2(k as nat) as int);
            lemma_pow2_adds(e, k as nat);
            lemma_mul_mod_noop_right(v0 as int, pow2(e + k as nat) as int, m);
            lemma_mul_mod_noop_right(v0 as int, 1, m);
        }
    }

    /// Create from a `BigUint` value, keeping the limbs that fit.
    pub fn from_biguint(value: &BigUint, shift: usize) -> (r: Self)
        ensures
            r.shift == shift,
            r.data@.len() == fermat_limbs(shift as nat),
            r.value() == big_val(*value) % limb_weight(fermat_limbs(shift as nat) as int),
    {
        let digits = big_to_u64_digits(value);
        let num_limbs = shift / 64 + (if shift % 64 != 0 { 1usize } else { 0usize }) + 1;
        let mut data: Vec<u64> = vec![0u64; num_limbs];
        let copy_len = if digits.len() < num_limbs { digits.len() } else { num_limbs };
        let mut i: usize = 0;
        while i < copy_len
            invariant
                copy_len <= digits@.len(),
                copy_len <= num_limbs,
                data@.len() == num_limbs,
                i <= copy_len,
                forall|k: int| 0 <= k < i ==> data@[k] == digits@[k],
                forall|k: int| i <= k < num_limbs ==> data@[k] == 0,
            decreases copy_len - i,
        {
            data[i] = digits[i];
            i += 1;
        }
        proof {
            let w = limb_weight(num_limbs as int) as int;
            let dv = limbs_val(digits@) as int;
            lemma_pow2_pos((64 * num_limbs) as nat);
            crate::limbs::lemma_lv_high_zero(data@, copy_len as int);
            assert(data@.take(copy_len as int) =~= digits@.take(copy_len as int));
            if copy_len == digits@.len() {
                assert(digits@.take(copy_len as int) =~= digits@);
                lemma_lv_bound(digits@);
                if digits@.len() < num_limbs {
                    lemma_pow2_strictly_increases((64 * digits@.len()) as nat, (64 * num_limbs) as nat);
                }
                lemma_small_mod(dv as nat, w as nat);
            } else {
                lemma_lv_split(digits@, num_limbs as int);
                lemma_lv_bound(digits@.take(num_limbs as int));
                lemma_mul_is_commutative(w, limbs_val(digits@.skip(num_limbs as int)) as int);
                lemma_fundamental_div_mod_converse_mod(dv, w, limbs_val(digits@.skip(num_limbs as int)) as int,
                    limbs_val(digits@.take(num_limbs as int)) as int);
            }
        }
        Self { data, shift }
    }

    /// Convert back to `BigUint`.
    pub fn to_biguint(&self) -> (r: BigUint)
        ensures
            big_val(r) == self.value(),
    {
        let n = self.data.len();
        let mut bytes: Vec<u8> = Vec::new();
        let mut i: usize = 0;
        proof {
            assert(self.data@.take(0) =~= Seq::<u64>::empty());
        }
        while i < n
            invariant
                n == self.data@.len(),
                i <= n,
                bytes@.len() == 8 * i,
                bytes_val(bytes@) == limbs_val(self.data@.take(i as int)),
            decreases n - i,
        {
            let x = self.data[i];
            let ghost prev = bytes@;
            bytes.push(x as u8);
            bytes.push((x >> 8u64) as u8);
            bytes.push((x >> 16u64) as u8);
            bytes.push((x >> 24u64) as u8);
            bytes.push((x >> 32u64) as u8);
            bytes.push((x >> 40u64) as u8);
            bytes.push((x >> 48u64) as u8);
            bytes.push((x >> 56u64) as u8);
            proof {
                let b8 = seq![x as u8, (x >> 8u64) as u8, (x >> 16u64) as u8, (x >> 24u64) as u8,
                    (x >> 32u64) as u8, (x >> 40u64) as u8, (x >> 48u64) as u8, (x >> 56u64) as u8];
                assert(bytes@ =~= prev + b8);
                lemma_bytes_split(bytes@, 8 * i);
                assert(bytes@.take(8 * i) =~= prev);
                assert(bytes@.skip(8 * i) =~= b8);
                lemma_limb_bytes(x);
                lemma_lv_take_step(self.data@, i as int);
                assert(8 * (8 * i) == 64 * i);
                lemma_mul_is_commutative(x as int, limb_weight(i as int) as int);
            }
            i += 1;
        }
        proof {
            assert(self.data@.take(n as int) =~= self.data@);
        }
        big_from_bytes_le(&bytes)
    }

    /// The Fermat modulus 2^shift + 1.
    pub fn modulus(&self) -> (r: BigUint)
        ensures
            big_val(r) == self.fmod(),
    {
        let one = big_from_u64(1);
        let p = big_shl(&one, self.shift);
        big_add(&p, &one)
    }

    /// Multiply two Fermat numbers modulo 2^shift + 1.
    pub fn fermat_mul(&self, other: &Self) -> (r: Self)
        requires
            self.shift == other.shift,
        ensures
            r.shift == self.shift,
            r.data@.len() == fermat_limbs(self.shift as nat),
            r.value() == (self.value() * other.value()) % self.fmod(),
    {
        let modulus = self.modulus();
        let a = self.to_biguint();
        let b = other.to_biguint();
        let prod = big_mul(&a, &b);
        proof {
            lemma_pow2_pos(self.shift as nat);
        }
        let product = big_rem(&prod, &modulus);
        let r = Self::from_biguint(&product, self.shift);
        proof {
            let s = self.shift as nat;
            let n = fermat_limbs(s);
            let m = self.fmod();
            lemma_mod_bound((self.value() * other.value()) as int, m as int);
            assert(s + 1 <= 64 * n);
            lemma_pow2_strictly_increases(s, (64 * n) as nat);
            lemma_small_mod(big_val(product), limb_weight(n as int));
        }
        r
    }
}

} // verus!
