//! Bit reversal of indices: the order in which the iterative transform
//! reads its input.

use vstd::arithmetic::div_mod::*;
use vstd::arithmetic::mul::*;
use vstd::arithmetic::power2::*;
use vstd::prelude::*;

verus! {

/// The low `k` bits of `i` in reverse order.
pub open spec fn rev_bits(i: nat, k: nat) -> nat
    decreases k,
{
    if k == 0 {
        0
    } else {
        (i % 2) * pow2((k - 1) as nat) + rev_bits(i / 2, (k - 1) as nat)
    }
}

/// A reversal of `k` bits is below 2^k.
pub proof fn lemma_rev_bound(i: nat, k: nat)
    ensures
        rev_bits(i, k) < pow2(k),
    decreases k,
{
    if k == 0 {
        assert(pow2(0) == 1) by { lemma2_to64(); }
    } else {
        lemma_rev_bound(i / 2, (k - 1) as nat);
        lemma_pow2_unfold(k);
        let p = pow2((k - 1) as nat);
        assert((i % 2) * p <= p) by (nonlinear_arith) requires i % 2 <= 1;
    }
}

/// Splitting the index: reversing `low + 2^s high` (low < 2^s) in k >= s
/// bits puts the reversed low part on top of the reversed high part.
pub proof fn lemma_rev_split(low: nat, high: nat, s: nat, k: nat)
    requires
        low < pow2(s),
        s <= k,
    ensures
        rev_bits(low + pow2(s) * high, k) == rev_bits(low, s) * pow2((k - s) as nat) + rev_bits(high, (k - s) as nat),
    decreases s,
{
    if s == 0 {
        assert(pow2(0) == 1) by { lemma2_to64(); }
        assert(low == 0);
        lemma_mul_basics(high as int);
        assert(rev_bits(low, 0) == 0);
        assert(0 * pow2(k) == 0);
        assert(low + pow2(0) * high == high);
        assert((k - 0) as nat == k);
    } else {
        let x = low + pow2(s) * high;
        lemma_pow2_unfold(s);
        let p = pow2((s - 1) as nat);
        assert(pow2(s) * high == 2 * (p * high)) by (nonlinear_arith) requires pow2(s) == 2 * p;
        assert(x % 2 == low % 2 && x / 2 == low / 2 + p * high) by {
            lemma_fundamental_div_mod(low as int, 2);
            assert(x == 2 * (low / 2 + p * high) + low % 2);
            lemma_fundamental_div_mod_converse(x as int, 2, (low / 2 + p * high) as int, (low % 2) as int);
        }
        assert(low / 2 < p) by {
            lemma_div_is_ordered(low as int, (2 * p - 1) as int, 2);
        }
        lemma_rev_split(low / 2, high, (s - 1) as nat, (k - 1) as nat);
        assert(rev_bits(x, k) == (x % 2) * pow2((k - 1) as nat) + rev_bits(x / 2, (k - 1) as nat));
        assert(rev_bits(low, s) == (low % 2) * p + rev_bits(low / 2, (s - 1) as nat));
        assert((k - 1) as nat - (s - 1) as nat == (k - s) as nat);
        lemma_pow2_adds((s - 1) as nat, (k - s) as nat);
        assert((s - 1) as nat + (k - s) as nat == (k - 1) as nat);
        let lr = rev_bits(low / 2, (s - 1) as nat);
        assert((low % 2) * pow2((k - 1) as nat) + lr * pow2((k - s) as nat)
            == ((low % 2) * p + lr) * pow2((k - s) as nat)) by (nonlinear_arith)
            requires pow2((k - 1) as nat) == p * pow2((k - s) as nat);
    }
}

/// Reversing twice gives back the index.
pub proof fn lemma_rev_involution(i: nat, k: nat)
    requires
        i < pow2(k),
    ensures
        rev_bits(rev_bits(i, k), k) == i,
    decreases k,
{
    if k > 0 {
        lemma_pow2_unfold(k);
        let p = pow2((k - 1) as nat);
        let b = i % 2;
        let h = i / 2;
        lemma_fundamental_div_mod(i as int, 2);
        assert(h < p) by {
            lemma_div_is_ordered(i as int, (2 * p - 1) as int, 2);
        }
        lemma_rev_involution(h, (k - 1) as nat);
        let rh = rev_bits(h, (k - 1) as nat);
        lemma_rev_bound(h, (k - 1) as nat);
        // rev(i) = b * 2^(k-1) + rh = rh + 2^(k-1) * b with rh < 2^(k-1)
        lemma_mul_is_commutative(b as int, p as int);
        lemma_rev_split(rh, b, (k - 1) as nat, k);
        // rev(rev(i)) = rev(rh, k-1) * 2 + rev(b, 1) = h * 2 + b
        assert(rev_bits(b, 1) == b) by {
            assert(pow2(0) == 1) by { lemma2_to64(); }
            assert(b < 2);
            lemma_small_mod(b, 2);
            assert(rev_bits(b / 2, 0) == 0);
            assert(rev_bits(b, 1) == (b % 2) * pow2(0) + rev_bits(b / 2, 0));
        }
        assert(rev_bits(i, k) == rh + p * b);
        assert((k - (k - 1) as nat) as nat == 1);
        assert(pow2(1) == 2) by { lemma2_to64(); }
        assert(rev_bits(rh + p * b, k) == rev_bits(rh, (k - 1) as nat) * pow2(1) + rev_bits(b, 1));
        assert(rev_bits(rh, (k - 1) as nat) == h);
        assert(i == 2 * h + b);
        assert(rev_bits(rh, (k - 1) as nat) * pow2(1) == 2 * h) by (nonlinear_arith)
            requires rev_bits(rh, (k - 1) as nat) == h, pow2(1) == 2;
    } else {
        assert(pow2(0) == 1) by { lemma2_to64(); }
    }
}


/// Reversing zero gives zero.
pub proof fn lemma_rev_zero(k: nat)
    ensures
        rev_bits(0, k) == 0,
    decreases k,
{
    if k > 0 {
        lemma_rev_zero((k - 1) as nat);
        assert(0nat % 2 == 0 && 0nat / 2 == 0);
    }
}

/// The top bit of a reversal of `w` bits is the lowest bit of the index.
pub proof fn lemma_rev_top(h: nat, w: nat)
    requires
        w >= 1,
    ensures
        rev_bits(h, w) == (h % 2) * pow2((w - 1) as nat) + rev_bits(h / 2, (w - 1) as nat),
        rev_bits(h / 2, (w - 1) as nat) < pow2((w - 1) as nat),
        rev_bits(h, w) / pow2((w - 1) as nat) == h % 2,
{
    let p = pow2((w - 1) as nat);
    lemma_rev_bound(h / 2, (w - 1) as nat);
    lemma_pow2_pos((w - 1) as nat);
    lemma_fundamental_div_mod_converse((rev_bits(h, w)) as int, p as int, (h % 2) as int,
        rev_bits(h / 2, (w - 1) as nat) as int);
}

/// The reversed increment: when bits 0..q-1 of m are ones and bit q is
/// zero, setting the top bit left of the cleared ones gives the reversal
/// of m + 1.
pub proof fn lemma_rev_increment(m: nat, q: nat, k: nat)
    requires
        q < k,
        m % pow2(q) == pow2(q) - 1,
        (m / pow2(q)) % 2 == 0,
    ensures
        rev_bits(m / pow2(q), (k - q) as nat) + pow2((k - q - 1) as nat) == rev_bits(m + 1, k),
{
    let h = m / pow2(q);
    lemma_pow2_pos(q);
    lemma_fundamental_div_mod(m as int, pow2(q) as int);
    assert(m + 1 == 0 + pow2(q) * (h + 1)) by (nonlinear_arith)
        requires m == pow2(q) * h + (pow2(q) - 1);
    lemma_rev_split(0, h + 1, q, k);
    lemma_rev_zero(q);
    let w = (k - q) as nat;
    lemma_rev_top(h, w);
    lemma_rev_top(h + 1, w);
    assert((h + 1) % 2 == 1 && (h + 1) / 2 == h / 2) by {
        lemma_fundamental_div_mod(h as int, 2);
        lemma_fundamental_div_mod_converse((h + 1) as int, 2, (h / 2) as int, 1);
    }
    assert((w - 1) as nat == (k - q - 1) as nat);
    assert(0 * pow2(w) == 0);
}

/// The low q bits of m are ones and bit q is one: so are its low q + 1 bits.
pub proof fn lemma_more_ones(m: nat, q: nat)
    requires
        m % pow2(q) == pow2(q) - 1,
        (m / pow2(q)) % 2 == 1,
    ensures
        m % pow2(q + 1) == pow2(q + 1) - 1,
        m / pow2(q + 1) == (m / pow2(q)) / 2,
{
    lemma_pow2_pos(q);
    lemma_pow2_adds(q, 1);
    assert(pow2(1) == 2) by { lemma2_to64(); }
    lemma_mod_breakdown(m as int, pow2(q) as int, 2);
    lemma_div_denominator(m as int, pow2(q) as int, 2);
}

/// `a` holds the elements of `b` in bit-reversed order of their indices.
pub open spec fn bit_reversed<A>(a: Seq<A>, b: Seq<A>) -> bool {
    &&& a.len() == b.len()
    &&& forall|k: nat, p: int|
        #![trigger pow2(k), a[p]]
        pow2(k) == a.len() && 0 <= p < a.len() ==> a[p] == b[rev_bits(p as nat, k) as int]
}

/// Where the element at index `p` came from once every pair `(x, rev x)`
/// whose smaller index is below `i` has been exchanged.
pub open spec fn rev_prefix(p: nat, k: nat, i: nat) -> nat {
    if p < i || rev_bits(p, k) < i {
        rev_bits(p, k)
    } else {
        p
    }
}

/// A power of two held in a `usize` has an exponent below the width, and
/// is a shifted one.
pub proof fn lemma_exp_fits(n: usize, k: nat)
    requires
        pow2(k) == n,
    ensures
        k < usize::BITS,
        (1usize << (k as usize)) == n,
{
    lemma_pow2_pos(k);
    if k >= usize::BITS {
        lemma2_to64();
        lemma2_to64_rest();
        assert(usize::BITS == 32 || usize::BITS == 64);
        if k > usize::BITS {
            lemma_pow2_strictly_increases(usize::BITS as nat, k);
        }
        assert(false);
    }
    vstd::bits::lemma_usize_pow2_no_overflow(k);
    vstd::bits::lemma_usize_shl_is_mul(1, k as usize);
}

/// Testing, clearing and setting a single bit of a value below twice that bit.
proof fn lemma_single_bit(j: usize, e: usize)
    requires
        e < usize::BITS,
        j < 2 * (1usize << e),
    ensures
        (j & (1usize << e) != 0) == (j >= (1usize << e)),
        j >= (1usize << e) ==> (j ^ (1usize << e)) == j - (1usize << e),
        j < (1usize << e) ==> (j ^ (1usize << e)) == j + (1usize << e),
{
    assert((j & (1usize << e) != 0) == (j >= (1usize << e))) by (bit_vector)
        requires e < usize::BITS, j < 2 * (1usize << e);
    assert(j >= (1usize << e) ==> (j ^ (1usize << e)) == j - (1usize << e)) by (bit_vector)
        requires e < usize::BITS, j < 2 * (1usize << e);
    assert(j < (1usize << e) ==> (j ^ (1usize << e)) == j + (1usize << e)) by (bit_vector)
        requires e < usize::BITS;
}

/// The state of the reversed counter while it carries through the top bits:
/// `j` holds the reversal of `m` with its top `q` one-bits cleared, and
/// `bit` is the next bit down.
pub open spec fn carrying(j: usize, bit: usize, m: nat, q: nat, k: nat) -> bool {
    &&& q < k
    &&& bit == pow2((k - 1 - q) as nat)
    &&& m % pow2(q) == pow2(q) - 1
    &&& j == rev_bits(m / pow2(q), (k - q) as nat)
}

/// What the bit under test says of `m`, and the value of `j` below it.
proof fn lemma_carry_bit(j: usize, bit: usize, m: nat, q: nat, k: nat)
    requires
        carrying(j, bit, m, q, k),
    ensures
        (j & bit != 0) == ((m / pow2(q)) % 2 == 1),
        (j & bit != 0) ==> (j ^ bit) == rev_bits((m / pow2(q)) / 2, (k - q - 1) as nat),
        (j & bit == 0) ==> (j ^ bit) == j + bit,
{
    let e = (k - 1 - q) as nat;
    let w = (k - q) as nat;
    lemma_pow2_pos(q);
    let h = m / pow2(q);
    lemma_exp_fits(bit, e);
    lemma_rev_top(h, w);
    lemma_rev_bound(h, w);
    lemma_pow2_unfold(w);
    assert((w - 1) as nat == e);
    lemma_single_bit(j, e as usize);
    let low = rev_bits(h / 2, e);
    let b = h % 2;
    assert(j == b * bit + low);
    if b == 0 {
        assert(j == low) by (nonlinear_arith)
            requires j == b * bit + low, b == 0;
    } else {
        assert(j == bit + low) by (nonlinear_arith)
            requires j == b * bit + low, b == 1;
    }
}

/// One pass of the carry: bit `q` of `m` is one, so it is cleared in `j`
/// and the test moves one bit down.
pub proof fn lemma_rev_carry(j: usize, bit: usize, m: nat, q: nat, k: nat)
    requires
        carrying(j, bit, m, q, k),
        m + 1 < pow2(k),
        j & bit != 0,
    ensures
        bit >= 2,
        (bit >> 1usize) < bit,
        carrying(j ^ bit, bit >> 1usize, m, q + 1, k),
{
    lemma_carry_bit(j, bit, m, q, k);
    lemma_more_ones(m, q);
    if q + 1 == k {
        lemma_pow2_pos(k);
        lemma_small_mod(m, pow2(k));
        assert(false);
    }
    let e = (k - 1 - q) as nat;
    lemma_pow2_unfold(e);
    lemma_pow2_pos((e - 1) as nat);
    assert(bit >> 1usize == bit / 2) by (bit_vector);
    assert((e - 1) as nat == (k - 1 - (q + 1)) as nat);
    assert((k - q - 1) as nat == (k - (q + 1)) as nat);
}

/// The carry stops at a zero bit of `m`: setting it gives the reversal of
/// `m + 1`.
pub proof fn lemma_rev_settle(j: usize, bit: usize, m: nat, q: nat, k: nat)
    requires
        carrying(j, bit, m, q, k),
        j & bit == 0,
    ensures
        (j ^ bit) == rev_bits(m + 1, k),
{
    lemma_carry_bit(j, bit, m, q, k);
    lemma_rev_increment(m, q, k);
    assert((k - q - 1) as nat == (k - 1 - q) as nat);
}

/// Bit-reversing a power-of-two sequence twice gives it back.
pub proof fn lemma_bit_reversed_twice<A>(a: Seq<A>, b: Seq<A>, c: Seq<A>)
    requires
        exists|k: nat| #[trigger] pow2(k) == b.len(),
        bit_reversed(a, b),
        bit_reversed(c, a),
    ensures
        c == b,
{
    let k = choose|k: nat| #[trigger] pow2(k) == b.len();
    assert forall|p: int| 0 <= p < c.len() implies c[p] == b[p] by {
        lemma_rev_bound(p as nat, k);
        lemma_rev_involution(p as nat, k);
        let r = rev_bits(p as nat, k) as int;
        assert(c[p] == a[r]);
        assert(a[r] == b[rev_bits(r as nat, k) as int]);
    }
    assert(c =~= b);
}

} // verus!
