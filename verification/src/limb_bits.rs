//! Shifting limb vectors by a number of bits, and splitting them at a bit
//! position into a low and a high part.

use crate::arith::limb_weight;
use crate::big::limbs_val;
use crate::limbs::{lemma_limb_base, lemma_lv_bound, lemma_lv_high_zero, lemma_lv_split, lemma_lv_zero};
use vstd::arithmetic::div_mod::*;
use vstd::arithmetic::mul::*;
use vstd::arithmetic::power2::*;
use vstd::bits::*;
use vstd::prelude::*;

verus! {

/// `(1 << b) == 2^b` for a bit index of a limb.
pub proof fn lemma_one_shl(b: u64)
    requires
        b < 64,
    ensures
        (1u64 << b) as nat == pow2(b as nat),
        pow2(b as nat) <= 0x8000_0000_0000_0000,
        pow2(b as nat) >= 1,
{
    lemma_pow2_pos(b as nat);
    lemma_u64_pow2_no_overflow(b as nat);
    lemma_u64_shl_is_mul(1, b);
    if b < 63 {
        lemma_pow2_strictly_increases(b as nat, 63);
    }
    lemma2_to64_rest();
}

/// Masking with `(1 << b) - 1` keeps the remainder modulo 2^b.
pub proof fn lemma_low_mask(x: u64, b: u64)
    requires
        b < 64,
    ensures
        (x & (((1u64 << b) - 1) as u64)) as nat == x as nat % pow2(b as nat),
{
    lemma_one_shl(b);
    lemma_pow2_pos(b as nat);
    lemma_u64_low_bits_mask_is_mod(x, b as nat);
    assert(low_bits_mask(b as nat) == pow2(b as nat) - 1);
}

/// One limb of a right shift across a limb boundary.
pub proof fn lemma_shr_or(x: u64, y: u64, b: u64)
    requires
        0 < b < 64,
    ensures
        ((x >> b) | (y << ((64 - b) as u64))) as nat
            == x as nat / pow2(b as nat) + (y as nat % pow2(b as nat)) * pow2((64 - b) as nat),
{
    lemma_one_shl(b);
    let c: u64 = (64 - b) as u64;
    let m: u64 = ((1u64 << b) - 1) as u64;
    assert((x >> b) | (y << c) == (x >> b) + ((y & m) << c)) by (bit_vector)
        requires 0 < b < 64, c == 64 - b, m + 1 == (1u64 << b);
    lemma_u64_shr_is_div(x, b);
    lemma_low_mask(y, b);
    let z: u64 = y & m;
    lemma_pow2_adds(b as nat, c as nat);
    lemma2_to64_rest();
    assert(z as nat <= pow2(b as nat) - 1);
    assert(z * pow2(c as nat) <= 0xffff_ffff_ffff_ffff) by {
        lemma_mul_inequality(z as int, pow2(b as nat) - 1, pow2(c as nat) as int);
        lemma_mul_is_distributive_sub_other_way(pow2(c as nat) as int, pow2(b as nat) as int, 1);
        lemma_pow2_pos(c as nat);
    }
    lemma_u64_shl_is_mul(z, c);
    assert((x as nat) / pow2(b as nat) <= 0xffff_ffff_ffff_ffff) by {
        lemma_pow2_pos(b as nat);
        lemma_div_is_ordered_by_denominator(x as int, 1, pow2(b as nat) as int);
    }
}

/// The right shift by `b` bits (0 < b < 64) of a limb sequence, limb by limb.
pub open spec fn shr_seq(t: Seq<u64>, b: u64) -> Seq<u64> {
    Seq::new(
        t.len(),
        |k: int|
            (t[k] >> b) | (if k + 1 < t.len() { t[k + 1] << ((64 - b) as u64) } else { 0u64 }),
    )
}

pub proof fn lemma_shr_seq_value(t: Seq<u64>, b: u64)
    requires
        0 < b < 64,
    ensures
        limbs_val(shr_seq(t, b)) == limbs_val(t) / pow2(b as nat),
    decreases t.len(),
{
    let p = pow2(b as nat) as int;
    lemma_pow2_pos(b as nat);
    if t.len() == 0 {
        assert(limbs_val(t) == 0);
        assert(shr_seq(t, b) =~= Seq::<u64>::empty());
    } else {
        let rest = t.drop_first();
        lemma_shr_seq_value(rest, b);
        let sh = shr_seq(t, b);
        assert(sh.drop_first() =~= shr_seq(rest, b));
        let y: u64 = if 1 < t.len() { t[1] } else { 0u64 };
        assert(y << ((64 - b) as u64) == 0u64 ==> true);
        if 1 >= t.len() {
            assert(0u64 << ((64 - b) as u64) == 0u64) by (bit_vector);
        }
        assert(sh[0] == (t[0] >> b) | (y << ((64 - b) as u64)));
        lemma_shr_or(t[0], y, b);
        let r = limbs_val(rest) as int;
        let t0 = t[0] as int;
        lemma_limb_base();
        // r % 2^b == y % 2^b, since 2^b divides 2^64
        lemma_pow2_adds(b as nat, (64 - b) as nat);
        let c = pow2((64 - b) as nat) as int;
        assert(p * c == 0x1_0000_0000_0000_0000int);
        assert(r % p == (y as int) % p) by {
            if rest.len() == 0 {
                assert(r == 0);
                assert(y == 0);
            } else {
                assert(y == rest[0]);
                assert(r == rest[0] + 0x1_0000_0000_0000_0000int * limbs_val(rest.drop_first()));
                let q = limbs_val(rest.drop_first()) as int;
                assert(0x1_0000_0000_0000_0000int * q == p * (c * q)) by (nonlinear_arith)
                    requires p * c == 0x1_0000_0000_0000_0000int;
                lemma_mod_multiples_vanish(c * q, y as int, p);
            }
        }
        // limbs_val(t) / p == t0 / p + (r % p) * c + 2^64 * (r / p)
        let qr = r / p;
        let rr = r % p;
        lemma_fundamental_div_mod(r, p);
        lemma_fundamental_div_mod(t0, p);
        let lt = limbs_val(t) as int;
        assert(lt == t0 + 0x1_0000_0000_0000_0000int * r);
        assert(lt == p * (t0 / p + rr * c + 0x1_0000_0000_0000_0000int * qr) + t0 % p) by (nonlinear_arith)
            requires lt == t0 + 0x1_0000_0000_0000_0000int * r, r == p * qr + rr,
                t0 == p * (t0 / p) + t0 % p, p * c == 0x1_0000_0000_0000_0000int;
        lemma_mod_bound(t0, p);
        lemma_fundamental_div_mod_converse_div(lt, p, t0 / p + rr * c + 0x1_0000_0000_0000_0000int * qr, t0 % p);
        assert(limbs_val(sh) == sh[0] + 0x1_0000_0000_0000_0000int * limbs_val(shr_seq(rest, b)));
    }
}

/// Split point of a bit position: value = low + 2^(64 L) * (limb L + 2^64 * rest).
pub proof fn lemma_value_at_limb(s: Seq<u64>, li: int)
    requires
        0 <= li < s.len(),
    ensures
        limbs_val(s) == limbs_val(s.take(li)) + limb_weight(li) * (s[li] + pow2(64) * limbs_val(s.skip(li + 1))),
        limbs_val(s.take(li)) < limb_weight(li),
{
    lemma_lv_split(s, li);
    let t = s.skip(li);
    assert(t.drop_first() =~= s.skip(li + 1));
    assert(t[0] == s[li]);
    lemma_lv_bound(s.take(li));
}

/// The limbs of `src` from bit `shift` upward: the value divided by 2^shift.
pub fn high_limbs(src: &Vec<u64>, shift: usize) -> (high: Vec<u64>)
    requires
        shift / 64 < src@.len(),
    ensures
        high@.len() == src@.len() - shift / 64,
        limbs_val(high@) == limbs_val(src@) / pow2(shift as nat),
{
    let li = shift / 64;
    let bi = (shift % 64) as u64;
    let n = src.len();
    let mut high: Vec<u64> = Vec::with_capacity(n - li);
    let ghost t = src@.skip(li as int);
    if bi == 0 {
        let mut i = li;
        while i < n
            invariant
                li <= i <= n,
                n == src@.len(),
                t == src@.skip(li as int),
                high@ =~= t.take(i - li),
            decreases n - i,
        {
            high.push(src[i]);
            i += 1;
        }
        proof {
            assert(high@ =~= t);
        }
    } else {
        let mut i = li;
        while i < n
            invariant
                li <= i <= n,
                0 < bi < 64,
                n == src@.len(),
                t == src@.skip(li as int),
                high@ =~= shr_seq(t, bi).take(i - li),
            decreases n - i,
        {
            let lo = src[i] >> bi;
            let hi = if i + 1 < n { src[i + 1] << (64 - bi) } else { 0 };
            high.push(lo | hi);
            i += 1;
        }
        proof {
            assert(high@ =~= shr_seq(t, bi));
        }
    }
    proof {
        let p = pow2((64 * li) as nat) as int;
        lemma_lv_split(src@, li as int);
        lemma_lv_bound(src@.take(li as int));
        lemma_pow2_pos((64 * li) as nat);
        lemma_pow2_pos(bi as nat);
        let lo = limbs_val(src@.take(li as int)) as int;
        let tv = limbs_val(t) as int;
        // (lo + p * tv) / p == tv
        lemma_fundamental_div_mod_converse_div(lo + p * tv, p, tv, lo);
        lemma_mul_is_commutative(p, tv);
        lemma_pow2_adds((64 * li) as nat, bi as nat);
        assert(shift == 64 * li + bi);
        lemma_div_denominator(lo + p * tv, p, pow2(bi as nat) as int);
        if bi == 0 {
            assert(pow2(0) == 1) by { lemma2_to64(); }
        } else {
            lemma_shr_seq_value(t, bi);
        }
    }
    high
}

/// The first `n` limbs of `src` below bit `shift`: the value modulo 2^shift.
pub fn low_limbs(src: &Vec<u64>, shift: usize, n: usize) -> (low: Vec<u64>)
    requires
        shift / 64 < n <= src@.len(),
    ensures
        low@.len() == n,
        limbs_val(low@) == limbs_val(src@) % pow2(shift as nat),
{
    let li = shift / 64;
    let bi = (shift % 64) as u64;
    let mut low: Vec<u64> = vec![0u64; n];
    let mut j: usize = 0;
    while j < li
        invariant
            li < n <= src@.len(),
            low@.len() == n,
            j <= li,
            forall|k: int| 0 <= k < j ==> low@[k] == src@[k],
            forall|k: int| j <= k < n ==> low@[k] == 0,
        decreases li - j,
    {
        low[j] = src[j];
        j += 1;
    }
    if bi != 0 {
        proof { lemma_one_shl(bi); }
        low[li] = src[li] & ((1u64 << bi) - 1);
    }
    proof {
        let w = limb_weight(li as int) as int;
        let d = src@[li as int] as int;
        let pb = pow2(bi as nat) as int;
        let md: int = d % pb;
        lemma_pow2_pos(bi as nat);
        if bi != 0 {
            lemma_low_mask(src@[li as int], bi);
        } else {
            assert(pow2(0) == 1) by { lemma2_to64(); }
        }
        assert(low@[li as int] == md);
        // value of low: prefix plus the masked limb
        lemma_value_at_limb(low@, li as int);
        assert(low@.take(li as int) =~= src@.take(li as int));
        assert forall|k: int| li + 1 <= k < n implies #[trigger] low@.skip(li + 1)[k - li - 1] == 0 by {}
        lemma_lv_zero(low@.skip(li + 1));
        lemma_mul_by_zero_is_zero(pow2(64) as int);
        let lo = limbs_val(src@.take(li as int)) as int;
        assert(limbs_val(low@) == lo + w * md);
        // value of src
        lemma_value_at_limb(src@, li as int);
        let rest = limbs_val(src@.skip(li + 1)) as int;
        lemma_limb_base();
        lemma_pow2_adds(bi as nat, (64 - bi) as nat);
        let c = pow2((64 - bi) as nat) as int;
        lemma_fundamental_div_mod(d as int, pb);
        lemma_mod_bound(d as int, pb);
        lemma_pow2_adds((64 * li) as nat, bi as nat);
        let ps = pow2(shift as nat) as int;
        assert(ps == w * pb);
        let q = d as int / pb + c * rest;
        assert(limbs_val(src@) == lo + w * (d + 0x1_0000_0000_0000_0000int * rest));
        assert(lo + w * (d + 0x1_0000_0000_0000_0000int * rest) == ps * q + (lo + w * md)) by (nonlinear_arith)
            requires ps == w * pb, pb * c == 0x1_0000_0000_0000_0000int, d == pb * (d / pb) + md,
                q == d / pb + c * rest;
        assert(lo + w * md < ps) by (nonlinear_arith)
            requires lo < w, md <= pb - 1, ps == w * pb, w > 0;
        assert(0 <= lo + w * md) by (nonlinear_arith) requires lo >= 0, md >= 0, w > 0;
        lemma_fundamental_div_mod_converse_mod(limbs_val(src@) as int, ps, q, lo + w * md);
    }
    low
}

/// `src` shifted left by `s` bits, into `src.len() + s / 64 + 1` limbs.
pub fn shl_limbs(src: &Vec<u64>, s: usize) -> (out: Vec<u64>)
    requires
        src@.len() + s / 64 + 1 <= usize::MAX,
    ensures
        out@.len() == src@.len() + s / 64 + 1,
        limbs_val(out@) == limbs_val(src@) * pow2(s as nat),
{
    let n = src.len();
    let ws = s / 64;
    let bs = (s % 64) as u64;
    let new_len = n + ws + 1;
    let mut out: Vec<u64> = vec![0u64; new_len];
    let ghost z = seq![0u64] + src@;
    if bs == 0 {
        let mut i: usize = 0;
        while i < n
            invariant
                n == src@.len(),
                new_len == n + ws + 1,
                out@.len() == new_len,
                i <= n,
                forall|k: int| 0 <= k < ws ==> out@[k] == 0,
                forall|k: int| 0 <= k < i ==> out@[ws + k] == #[trigger] src@[k],
                forall|k: int| ws + i <= k < new_len ==> out@[k] == 0,
            decreases n - i,
        {
            out[ws + i] = src[i];
            i += 1;
        }
        proof {
            lemma_lv_split(out@, ws as int);
            assert(out@.take(ws as int) =~= Seq::new(ws as nat, |k: int| 0u64));
            lemma_lv_zero(out@.take(ws as int));
            let hi = out@.skip(ws as int);
            assert(hi =~= src@ + seq![0u64]);
            lemma_lv_high_zero(hi, n as int);
            assert(hi.take(n as int) =~= src@);
            lemma_mul_is_commutative(limbs_val(src@) as int, limb_weight(ws as int) as int);
            assert(pow2(0) == 1) by { lemma2_to64(); }
            assert(s == 64 * ws);
        }
    } else {
        let mut i: usize = 0;
        while i < n
            invariant
                n == src@.len(),
                new_len == n + ws + 1,
                out@.len() == new_len,
                0 < bs < 64,
                z == seq![0u64] + src@,
                i <= n,
                forall|k: int| 0 <= k < ws ==> out@[k] == 0,
                forall|k: int| 0 <= k < i ==> out@[ws + k] == #[trigger] shr_seq(z, (64 - bs) as u64)[k],
                out@[ws + i] == (if i == 0 { 0u64 } else { src@[i - 1] >> ((64 - bs) as u64) }),
                forall|k: int| ws + i < k < new_len ==> out@[k] == 0,
            decreases n - i,
        {
            let ghost cur = out@[ws + i];
            let x = src[i];
            out[i + ws] = out[i + ws] | (x << bs);
            out[i + ws + 1] = x >> (64 - bs);
            proof {
                let c: u64 = (64 - bs) as u64;
                assert(z[i as int] == (if i == 0 { 0u64 } else { src@[i - 1] }));
                assert(z[i + 1] == x);
                assert(shr_seq(z, c)[i as int] == (z[i as int] >> c) | (z[i + 1] << bs));
                let p = z[i as int];
                assert(p >> c | x << bs == (p >> c) | (x << bs));
                assert(((p >> c) | (x << bs)) == ((x << bs) | (p >> c))) by (bit_vector);
                if i == 0 {
                    assert((0u64 >> c) == 0u64) by (bit_vector);
                }
            }
            i += 1;
        }
        proof {
            let c: u64 = (64 - bs) as u64;
            assert(shr_seq(z, c)[n as int] == (z[n as int] >> c)) by {
                assert((z[n as int] >> c) | 0u64 == (z[n as int] >> c)) by (bit_vector);
            }
            if n == 0 {
                assert(z[0] == 0u64);
                assert((0u64 >> c) == 0u64) by (bit_vector);
            }
            let hi = out@.skip(ws as int);
            assert(hi =~= shr_seq(z, c));
            lemma_shr_seq_value(z, c);
            lemma_lv_split(out@, ws as int);
            assert(out@.take(ws as int) =~= Seq::new(ws as nat, |k: int| 0u64));
            lemma_lv_zero(out@.take(ws as int));
            // limbs_val(z) == 2^64 * limbs_val(src)
            assert(z.drop_first() =~= src@);
            lemma_limb_base();
            lemma_pow2_adds(bs as nat, c as nat);
            let pb = pow2(bs as nat) as int;
            let pc = pow2(c as nat) as int;
            lemma_pow2_pos(c as nat);
            let v = limbs_val(src@) as int;
            assert(limbs_val(z) == 0x1_0000_0000_0000_0000int * v);
            assert(0x1_0000_0000_0000_0000int * v == pc * (pb * v)) by (nonlinear_arith)
                requires pb * pc == 0x1_0000_0000_0000_0000int;
            lemma_div_multiples_vanish(pb * v, pc);
            lemma_pow2_adds((64 * ws) as nat, bs as nat);
            assert(s == 64 * ws + bs);
            let w = limb_weight(ws as int) as int;
            assert(w * (pb * v) == v * (w * pb)) by (nonlinear_arith);
        }
    }
    out
}

} // verus!
