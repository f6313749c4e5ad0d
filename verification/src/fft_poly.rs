//! Splitting a number into fixed-width pieces held modulo a Fermat number,
//! and putting the pieces back together.

use crate::arith::limb_weight;
use crate::big::{big_add, big_and, big_from_u64, big_shl, big_shr, big_sub, big_val, nat_and};
use crate::fermat::{fermat_limbs, FermatNum};
use crate::fft_core::{lemma_pow2_le, values};
use crate::ntt::{lemma_tsum_prefix, tsum};
use num_bigint::BigUint;
use vstd::arithmetic::div_mod::*;
use vstd::arithmetic::mul::*;
use vstd::arithmetic::power2::*;
use vstd::prelude::*;

verus! {

/// Piece `i` of `v`: bits `pb * i` to `pb * (i + 1)`.
pub open spec fn piece(v: nat, pb: nat, i: nat) -> nat {
    (v / pow2(pb * i)) % pow2(pb)
}

/// The first `n` pieces of `v`.
pub open spec fn pieces(v: nat, pb: nat, n: nat) -> Seq<nat> {
    Seq::new(n, |i: int| piece(v, pb, i as nat))
}

/// The number whose pieces of width `pb` are `s`, lowest first.
pub open spec fn digits_val(s: Seq<nat>, pb: nat) -> nat
    decreases s.len(),
{
    if s.len() == 0 {
        0
    } else {
        digits_val(s.drop_last(), pb) + s.last() * pow2(pb * (s.len() - 1) as nat)
    }
}

/// AND with 2^k - 1 keeps the low `k` bits.
pub proof fn lemma_and_low_mask(a: nat, k: nat)
    ensures
        nat_and(a, (pow2(k) - 1) as nat) == a % pow2(k),
    decreases a,
{
    lemma_pow2_pos(k);
    if k == 0 {
        assert(pow2(0) == 1) by { lemma2_to64(); }
        assert(nat_and(a, 0) == 0);
    } else if a == 0 {
        lemma_small_mod(0, pow2(k));
    } else {
        let mask = (pow2(k) - 1) as nat;
        lemma_pow2_adds(1, (k - 1) as nat);
        assert(pow2(1) == 2) by { lemma2_to64(); }
        lemma_pow2_pos((k - 1) as nat);
        assert(mask % 2 == 1 && mask / 2 == pow2((k - 1) as nat) - 1);
        lemma_and_low_mask(a / 2, (k - 1) as nat);
        lemma_mod_breakdown(a as int, 2, pow2((k - 1) as nat) as int);
    }
}

/// The pieces of `v` put back together give `v` below 2^(pb n).
pub proof fn lemma_pieces_sum(v: nat, pb: nat, n: nat)
    ensures
        digits_val(pieces(v, pb, n), pb) == v % pow2(pb * n),
    decreases n,
{
    let s = pieces(v, pb, n);
    if n == 0 {
        assert(pow2(0) == 1) by { lemma2_to64(); }
    } else {
        assert(s.drop_last() =~= pieces(v, pb, (n - 1) as nat));
        lemma_pieces_sum(v, pb, (n - 1) as nat);
        let lo = pow2(pb * (n - 1) as nat);
        lemma_pow2_pos(pb * (n - 1) as nat);
        lemma_pow2_pos(pb);
        lemma_mod_breakdown(v as int, lo as int, pow2(pb) as int);
        lemma_pow2_adds(pb * (n - 1) as nat, pb);
        assert(pb * (n - 1) as nat + pb == pb * n) by (nonlinear_arith)
            requires n >= 1;
        lemma_mul_is_commutative(lo as int, piece(v, pb, (n - 1) as nat) as int);
    }
}

/// One more piece adds its weighted value.
pub proof fn lemma_digits_take_step(s: Seq<nat>, pb: nat, k: int)
    requires
        0 <= k < s.len(),
    ensures
        digits_val(s.take(k + 1), pb) == digits_val(s.take(k), pb) + s[k] * pow2(pb * k as nat),
{
    assert(s.take(k + 1).drop_last() =~= s.take(k));
}

/// A polynomial of pieces held modulo 2^fermat_shift + 1.
pub struct Poly {
    /// The coefficients, lowest first.
    pub coeffs: Vec<FermatNum>,
    /// The shift of the Fermat modulus of the coefficients.
    pub fermat_shift: usize,
    /// Bits per piece.
    pub piece_bits: usize,
}

impl Poly {
    /// Split `value` into its `n` lowest pieces of `piece_bits` bits, each
    /// held as a Fermat number with the given shift.
    pub fn from_biguint(value: &BigUint, n: usize, piece_bits: usize, fermat_shift: usize) -> (r: Self)
        ensures
            r.fermat_shift == fermat_shift,
            r.piece_bits == piece_bits,
            r.coeffs@.len() == n,
            forall|i: int| 0 <= i < n ==> (#[trigger] r.coeffs@[i]).shift == fermat_shift
                && r.coeffs@[i].data@.len() == fermat_limbs(fermat_shift as nat)
                && r.coeffs@[i].value() == piece(big_val(*value), piece_bits as nat, i as nat)
                    % limb_weight(fermat_limbs(fermat_shift as nat) as int),
            big_val(*value) < pow2(piece_bits as nat * n as nat) && piece_bits <= fermat_shift
                ==> digits_val(values(r.coeffs@), piece_bits as nat) == big_val(*value),
    {
        let one = big_from_u64(1);
        let top = big_shl(&one, piece_bits);
        proof {
            lemma_pow2_pos(piece_bits as nat);
        }
        let mask = big_sub(&top, &one);
        let mut coeffs: Vec<FermatNum> = Vec::new();
        let mut remaining = value.clone();
        let ghost v = big_val(*value);
        let ghost pb = piece_bits as nat;
        let mut i: usize = 0;
        proof {
            assert(pow2(0) == 1) by { lemma2_to64(); }
            assert(pb * 0 == 0);
        }
        while i < n
            invariant
                i <= n,
                coeffs@.len() == i,
                big_val(mask) == pow2(pb) - 1,
                pb == piece_bits as nat,
                v == big_val(*value),
                big_val(remaining) == v / pow2(pb * i as nat),
                forall|k: int| 0 <= k < i ==> (#[trigger] coeffs@[k]).shift == fermat_shift
                    && coeffs@[k].data@.len() == fermat_limbs(fermat_shift as nat)
                    && coeffs@[k].value() == piece(v, pb, k as nat)
                        % limb_weight(fermat_limbs(fermat_shift as nat) as int),
            decreases n - i,
        {
            let part = big_and(&remaining, &mask);
            proof {
                lemma_and_low_mask(big_val(remaining), pb);
            }
            remaining = big_shr(&remaining, piece_bits);
            proof {
                lemma_pow2_pos(pb * i as nat);
                lemma_pow2_pos(pb);
                lemma_div_denominator(v as int, pow2(pb * i as nat) as int, pow2(pb) as int);
                lemma_pow2_adds(pb * i as nat, pb);
                assert(pb * i as nat + pb == pb * (i + 1) as nat) by (nonlinear_arith);
            }
            let c = FermatNum::from_biguint(&part, fermat_shift);
            coeffs.push(c);
            i += 1;
        }
        proof {
            if v < pow2(pb * n as nat) && piece_bits <= fermat_shift {
                let w = limb_weight(fermat_limbs(fermat_shift as nat) as int);
                assert(64 * fermat_limbs(fermat_shift as nat) >= fermat_shift);
                lemma_pow2_le(pb, (64 * fermat_limbs(fermat_shift as nat)) as nat);
                assert forall|k: int| 0 <= k < n implies #[trigger] values(coeffs@)[k] == pieces(v, pb, n as nat)[k] by {
                    lemma_pow2_pos(pb);
                    lemma_mod_bound((v / pow2(pb * k as nat)) as int, pow2(pb) as int);
                    lemma_small_mod(piece(v, pb, k as nat), w);
                }
                assert(values(coeffs@) =~= pieces(v, pb, n as nat));
                lemma_pieces_sum(v, pb, n as nat);
                lemma_small_mod(v, pow2(pb * n as nat));
            }
        }
        Self { coeffs, fermat_shift, piece_bits }
    }

    /// The number the pieces stand for.
    pub fn to_biguint(&self) -> (r: BigUint)
        requires
            self.coeffs@.len() * self.piece_bits <= usize::MAX,
        ensures
            big_val(r) == digits_val(values(self.coeffs@), self.piece_bits as nat),
    {
        reassemble(&self.coeffs, self.piece_bits)
    }

    /// Number of coefficients.
    pub fn len(&self) -> (r: usize)
        ensures
            r == self.coeffs@.len(),
    {
        self.coeffs.len()
    }

    /// Whether there is no coefficient.
    pub fn is_empty(&self) -> (r: bool)
        ensures
            r == (self.coeffs@.len() == 0),
    {
        self.coeffs.len() == 0
    }
}

/// Multiply two coefficient vectors element by element modulo the Fermat
/// number of their shift.
pub fn pointwise_multiply(a: &Vec<FermatNum>, b: &Vec<FermatNum>, shift: usize) -> (r: Vec<FermatNum>)
    requires
        a@.len() == b@.len(),
        forall|i: int| 0 <= i < a@.len() ==> (#[trigger] a@[i]).shift == b@[i].shift,
    ensures
        r@.len() == a@.len(),
        forall|i: int| 0 <= i < a@.len() ==> (#[trigger] r@[i]).shift == a@[i].shift
            && r@[i].data@.len() == fermat_limbs(a@[i].shift as nat)
            && r@[i].value() == (a@[i].value() * b@[i].value()) % a@[i].fmod(),
{
    let mut r: Vec<FermatNum> = Vec::new();
    let mut i: usize = 0;
    while i < a.len()
        invariant
            a@.len() == b@.len(),
            i <= a@.len(),
            r@.len() == i,
            forall|k: int| 0 <= k < a@.len() ==> (#[trigger] a@[k]).shift == b@[k].shift,
            forall|k: int| 0 <= k < i ==> (#[trigger] r@[k]).shift == a@[k].shift
                && r@[k].data@.len() == fermat_limbs(a@[k].shift as nat)
                && r@[k].value() == (a@[k].value() * b@[k].value()) % a@[k].fmod(),
        decreases a@.len() - i,
    {
        let p = a[i].fermat_mul(&b[i]);
        r.push(p);
        i += 1;
    }
    r
}

/// Put pieces of `piece_bits` bits back together: the sum of coefficient
/// `i` times 2^(i piece_bits).
pub fn reassemble(coeffs: &Vec<FermatNum>, piece_bits: usize) -> (r: BigUint)
    requires
        coeffs@.len() * piece_bits <= usize::MAX,
    ensures
        big_val(r) == digits_val(values(coeffs@), piece_bits as nat),
{
    let mut result = big_from_u64(0);
    let ghost vals = values(coeffs@);
    let mut i: usize = 0;
    proof {
        assert(vals.take(0) =~= Seq::<nat>::empty());
    }
    while i < coeffs.len()
        invariant
            i <= coeffs@.len(),
            vals == values(coeffs@),
            coeffs@.len() * piece_bits <= usize::MAX,
            big_val(result) == digits_val(vals.take(i as int), piece_bits as nat),
        decreases coeffs@.len() - i,
    {
        proof {
            assert(i * piece_bits <= coeffs@.len() * piece_bits) by (nonlinear_arith)
                requires i <= coeffs@.len();
        }
        let c = coeffs[i].to_biguint();
        let term = big_shl(&c, i * piece_bits);
        result = big_add(&result, &term);
        proof {
            lemma_digits_take_step(vals, piece_bits as nat, i as int);
            assert(vals[i as int] == coeffs@[i as int].value());
            assert(piece_bits as nat * i as nat == (i * piece_bits) as nat) by (nonlinear_arith);
        }
        i += 1;
    }
    proof {
        assert(vals.take(coeffs@.len() as int) =~= vals);
    }
    result
}

/// Putting pieces together is the weighted sum with the root 2^pb at
/// frequency 1.
pub proof fn lemma_digits_tsum(s: Seq<nat>, pb: nat)
    ensures
        digits_val(s, pb) == tsum(s, pb, 1, s.len()),
    decreases s.len(),
{
    if s.len() > 0 {
        let c1 = (s.len() - 1) as nat;
        lemma_digits_tsum(s.drop_last(), pb);
        lemma_tsum_prefix(s.drop_last(), s, pb, 1, c1);
        assert(pb * c1 * 1 == pb * c1);
    }
}

/// The pieces of a number below 2^(pb na) are zero from `na` on.
pub proof fn lemma_pieces_zero(v: nat, pb: nat, n: nat, na: nat)
    requires
        v < pow2(pb * na),
    ensures
        forall|i: int| na <= i < n ==> #[trigger] pieces(v, pb, n)[i] == 0,
{
    assert forall|i: int| na <= i < n implies #[trigger] pieces(v, pb, n)[i] == 0 by {
        let e = pb * (i as nat);
        assert(pb * na <= e) by (nonlinear_arith) requires na <= i, e == pb * (i as nat), i >= 0;
        lemma_pow2_le(pb * na, e);
        lemma_pow2_pos(e);
        lemma_pow2_pos(pb);
        lemma_div_pos_is_pos(v as int, pow2(e) as int);
        assert(v / pow2(e) == 0) by {
            lemma_fundamental_div_mod_converse(v as int, pow2(e) as int, 0, v as int);
        }
        lemma_small_mod(0, pow2(pb));
    }
}

} // verus!
