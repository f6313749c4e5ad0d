//! Facts about the little-endian value of limb and byte sequences.

use crate::big::{bytes_val, limbs_val};
use vstd::arithmetic::div_mod::*;
use vstd::arithmetic::mul::*;
use vstd::arithmetic::power2::*;
use vstd::prelude::*;

verus! {

/// 2^64, the radix of a limb.
pub open spec fn limb_base() -> nat {
    pow2(64)
}

pub proof fn lemma_limb_base()
    ensures
        limb_base() == 0x1_0000_0000_0000_0000,
        pow2(64) == 0x1_0000_0000_0000_0000,
{
    lemma2_to64_rest();
}

/// Splitting a limb sequence at `i`: the low part plus 2^(64 i) times the high part.
pub proof fn lemma_lv_split(s: Seq<u64>, i: int)
    requires
        0 <= i <= s.len(),
    ensures
        limbs_val(s) == limbs_val(s.take(i)) + pow2((64 * i) as nat) * limbs_val(s.skip(i)),
    decreases i,
{
    if i == 0 {
        assert(s.take(0) =~= Seq::<u64>::empty());
        assert(s.skip(0) =~= s);
        assert(pow2(0) == 1) by { lemma2_to64(); }
        assert(limbs_val(s.take(0)) == 0);
        assert((64 * 0) as nat == 0);
        assert(1 * limbs_val(s) == limbs_val(s));
    } else {
        let t = s.drop_first();
        lemma_lv_split(t, i - 1);
        assert(s.take(i).drop_first() =~= t.take(i - 1));
        assert(s.skip(i) =~= t.skip(i - 1));
        let a = limbs_val(t.take(i - 1));
        let b = limbs_val(t.skip(i - 1));
        let p = pow2((64 * (i - 1)) as nat);
        lemma_pow2_adds(64, (64 * (i - 1)) as nat);
        assert(pow2(64) * p == pow2((64 * i) as nat));
        assert(pow2(64) * (a + p * b) == pow2(64) * a + (pow2(64) * p) * b) by {
            lemma_mul_is_distributive_add(pow2(64) as int, a as int, (p * b) as int);
            lemma_mul_is_associative(pow2(64) as int, p as int, b as int);
        }
        assert(limbs_val(s) == s[0] + pow2(64) * limbs_val(t));
        assert(s.take(i)[0] == s[0]);
        assert(limbs_val(s.take(i)) == s[0] + pow2(64) * a);
        assert(limbs_val(t) == a + p * b);
        assert(limbs_val(s) == limbs_val(s.take(i)) + pow2((64 * i) as nat) * b);
    }
}

/// The value of `len` limbs is below 2^(64 len).
pub proof fn lemma_lv_bound(s: Seq<u64>)
    ensures
        limbs_val(s) < pow2((64 * s.len()) as nat),
    decreases s.len(),
{
    if s.len() == 0 {
        assert(pow2(0) == 1) by { lemma2_to64(); }
    } else {
        let t = s.drop_first();
        lemma_lv_bound(t);
        lemma_limb_base();
        lemma_pow2_adds(64, (64 * t.len()) as nat);
        let p = pow2((64 * t.len()) as nat);
        assert(limbs_val(t) + 1 <= p);
        assert(pow2(64) * (limbs_val(t) + 1) <= pow2(64) * p) by {
            lemma_mul_inequality((limbs_val(t) + 1) as int, p as int, pow2(64) as int);
            lemma_mul_is_commutative((limbs_val(t) + 1) as int, pow2(64) as int);
            lemma_mul_is_commutative(p as int, pow2(64) as int);
        }
        assert(pow2(64) * (limbs_val(t) + 1) == pow2(64) * limbs_val(t) + pow2(64)) by {
            lemma_mul_is_distributive_add(pow2(64) as int, limbs_val(t) as int, 1);
        }
    }
}

/// Extending a prefix by one limb.
pub proof fn lemma_lv_take_step(s: Seq<u64>, i: int)
    requires
        0 <= i < s.len(),
    ensures
        limbs_val(s.take(i + 1)) == limbs_val(s.take(i)) + s[i] * pow2((64 * i) as nat),
{
    let t = s.take(i + 1);
    lemma_lv_split(t, i);
    assert(t.take(i) =~= s.take(i));
    assert(t.skip(i) =~= seq![s[i]]);
    assert(limbs_val(seq![s[i]]) == s[i]) by {
        assert(seq![s[i]].drop_first() =~= Seq::<u64>::empty());
        assert(limbs_val(Seq::<u64>::empty()) == 0);
        lemma_mul_by_zero_is_zero(pow2(64) as int);
    }
    lemma_mul_is_commutative(s[i] as int, pow2((64 * i) as nat) as int);
}

/// A sequence of zero limbs has value 0, and only such a sequence.
pub proof fn lemma_lv_zero(s: Seq<u64>)
    ensures
        (limbs_val(s) == 0) <==> (forall|i: int| 0 <= i < s.len() ==> s[i] == 0),
    decreases s.len(),
{
    if s.len() > 0 {
        let t = s.drop_first();
        lemma_lv_zero(t);
        lemma_pow2_pos(64);
        if limbs_val(s) == 0 {
            assert(s[0] == 0);
            assert(pow2(64) * limbs_val(t) == 0);
            lemma_mul_nonzero(pow2(64) as int, limbs_val(t) as int);
            assert forall|i: int| 0 <= i < s.len() implies s[i] == 0 by {
                if i > 0 {
                    assert(t[i - 1] == s[i]);
                }
            }
        }
        if forall|i: int| 0 <= i < s.len() ==> s[i] == 0 {
            assert forall|i: int| 0 <= i < t.len() implies t[i] == 0 by {
                assert(s[i + 1] == 0);
            }
            assert(s[0] == 0);
            lemma_mul_by_zero_is_zero(pow2(64) as int);
        }
    }
}

/// Writing limb `i` changes the value by the difference times 2^(64 i).
pub proof fn lemma_lv_update(s: Seq<u64>, i: int, v: u64)
    requires
        0 <= i < s.len(),
    ensures
        limbs_val(s.update(i, v)) + s[i] * pow2((64 * i) as nat)
            == limbs_val(s) + v * pow2((64 * i) as nat),
{
    let u = s.update(i, v);
    lemma_lv_split(s, i);
    lemma_lv_split(u, i);
    assert(u.take(i) =~= s.take(i));
    let hs = s.skip(i);
    let hu = u.skip(i);
    assert(hs.drop_first() =~= hu.drop_first());
    assert(hs[0] == s[i]);
    assert(hu[0] == v);
    let p = pow2((64 * i) as nat);
    let r = pow2(64) * limbs_val(hs.drop_first());
    assert(p * limbs_val(hs) == p * s[i] + p * r) by {
        lemma_mul_is_distributive_add(p as int, s[i] as int, r as int);
    }
    assert(p * limbs_val(hu) == p * v + p * r) by {
        lemma_mul_is_distributive_add(p as int, v as int, r as int);
    }
    lemma_mul_is_commutative(p as int, s[i] as int);
    lemma_mul_is_commutative(p as int, v as int);
}

/// Limbs beyond index `i` that are all zero add nothing to the value.
pub proof fn lemma_lv_high_zero(s: Seq<u64>, i: int)
    requires
        0 <= i <= s.len(),
        forall|j: int| i <= j < s.len() ==> s[j] == 0,
    ensures
        limbs_val(s) == limbs_val(s.take(i)),
{
    lemma_lv_split(s, i);
    lemma_lv_zero(s.skip(i));
    lemma_mul_by_zero_is_zero(pow2((64 * i) as nat) as int);
}

/// A sequence of `n` zero limbs.
pub open spec fn zeros(n: nat) -> Seq<u64> {
    Seq::new(n, |i: int| 0u64)
}

/// Value of a byte sequence split at `i`.
pub proof fn lemma_bytes_split(s: Seq<u8>, i: int)
    requires
        0 <= i <= s.len(),
    ensures
        bytes_val(s) == bytes_val(s.take(i)) + pow2((8 * i) as nat) * bytes_val(s.skip(i)),
    decreases i,
{
    if i == 0 {
        assert(s.take(0) =~= Seq::<u8>::empty());
        assert(s.skip(0) =~= s);
        assert(pow2(0) == 1) by { lemma2_to64(); }
        assert(bytes_val(s.take(0)) == 0);
        assert((8 * 0) as nat == 0);
        assert(1 * bytes_val(s) == bytes_val(s));
    } else {
        let t = s.drop_first();
        lemma_bytes_split(t, i - 1);
        assert(s.take(i).drop_first() =~= t.take(i - 1));
        assert(s.skip(i) =~= t.skip(i - 1));
        let a = bytes_val(t.take(i - 1));
        let b = bytes_val(t.skip(i - 1));
        let p = pow2((8 * (i - 1)) as nat);
        lemma_pow2_adds(8, (8 * (i - 1)) as nat);
        assert(pow2(8) == 256) by { lemma2_to64(); }
        assert(8 + 8 * (i - 1) == 8 * i);
        assert(256 * p == pow2((8 * i) as nat));
        assert(256 * (a + p * b) == 256 * a + (256 * p) * b) by {
            lemma_mul_is_distributive_add(256, a as int, (p * b) as int);
            lemma_mul_is_associative(256, p as int, b as int);
        }
        assert(bytes_val(s) == s[0] + 256 * bytes_val(t));
        assert(s.take(i)[0] == s[0]);
        assert(bytes_val(s.take(i)) == s[0] + 256 * a);
    }
}

} // verus!
