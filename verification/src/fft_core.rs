//! The number-theoretic transform over Z/(2^shift + 1): forward transform
//! (iterative Cooley-Tukey after a bit-reversal permutation), inverse
//! transform, and the permutation itself.

use crate::fermat::{fermat_modulus, lemma_shift_right_undoes_shift_left, FermatNum};
use crate::arith::limb_weight;
use crate::limb_ops::lemma_tval_full;
use crate::ntt::{intt, lemma_ntt_short, level_value, lemma_level_full, lemma_level_step, lemma_level_zero, log2_of, ntt, rev_tail};
use crate::bit_reverse::{
    bit_reversed, carrying, lemma_rev_bound, lemma_rev_carry, lemma_rev_involution, lemma_rev_settle,
    lemma_rev_zero, rev_bits, rev_prefix,
};
use vstd::arithmetic::div_mod::*;
use vstd::arithmetic::mul::*;
use vstd::arithmetic::power2::*;
use vstd::prelude::*;

verus! {

/// A least residue modulo 2^shift + 1, with the limb count of that shift.
pub open spec fn is_residue(x: FermatNum, shift: usize) -> bool {
    &&& x.shift == shift
    &&& x.wf()
    &&& x.value() < x.fmod()
}

/// A least residue whose shift the bit masks of the reduction can take
/// (see `FermatNum::mask_ok`): one that the butterflies can work on.
pub open spec fn is_reduced(x: FermatNum, shift: usize) -> bool {
    &&& is_residue(x, shift)
    &&& x.mask_ok()
}

/// Every element is a least residue modulo 2^shift + 1.
pub open spec fn all_residues(v: Seq<FermatNum>, shift: usize) -> bool {
    forall|i: int| 0 <= i < v.len() ==> #[trigger] is_residue(v[i], shift)
}

/// Every element is a least residue that the butterflies can work on.
pub open spec fn all_reduced(v: Seq<FermatNum>, shift: usize) -> bool {
    forall|i: int| 0 <= i < v.len() ==> #[trigger] is_reduced(v[i], shift)
}

/// Residues that the butterflies can work on are residues.
pub proof fn lemma_reduced_residues(v: Seq<FermatNum>, shift: usize)
    requires
        all_reduced(v, shift),
    ensures
        all_residues(v, shift),
{
    assert forall|i: int| 0 <= i < v.len() implies #[trigger] is_residue(v[i], shift) by {
        assert(is_reduced(v[i], shift));
    }
}

/// 2^a <= 2^b for a <= b.
pub proof fn lemma_pow2_le(a: nat, b: nat)
    requires
        a <= b,
    ensures
        pow2(a) <= pow2(b),
{
    if a < b {
        lemma_pow2_strictly_increases(a, b);
    }
}

/// Room for the sums of two residues: below 2^(2 shift) and below the
/// weight of the limb vector.
proof fn lemma_residue_room(x: FermatNum)
    requires
        x.wf(),
        x.shift >= 2,
    ensures
        2 * x.fmod() <= pow2(2 * x.shift as nat),
        2 * x.fmod() <= limb_weight(x.data@.len() as int),
{
    let s = x.shift as nat;
    let n = x.data@.len();
    lemma_pow2_adds(s, 1);
    lemma_pow2_adds(s, s);
    assert(pow2(1) == 2 && pow2(2) == 4) by { lemma2_to64(); }
    lemma_pow2_le(2, s);
    assert(pow2(s) * pow2(s) >= 4 * pow2(s)) by (nonlinear_arith)
        requires pow2(s) >= 4;
    assert(64 * n >= s + 2);
    lemma_pow2_le(s + 1, (64 * n) as nat);
    lemma_pow2_strictly_increases(s + 1, s + 2);
    lemma_pow2_le(s + 2, (64 * n) as nat);
    lemma_pow2_adds(s, 2);
}

/// The butterfly of the transform: (u + 2^s v, u - 2^s v) modulo 2^shift + 1.
fn butterfly(u: &FermatNum, v: FermatNum, s: usize) -> (r: (FermatNum, FermatNum))
    requires
        is_reduced(*u, u.shift),
        is_reduced(v, u.shift),
        u.shift >= 2,
    ensures
        is_reduced(r.0, u.shift),
        is_reduced(r.1, u.shift),
        r.0.value() == (u.value() + (v.value() * pow2(s as nat)) % u.fmod()) % u.fmod(),
        r.1.value() == (u.value() + u.fmod() - (v.value() * pow2(s as nat)) % u.fmod()) % (u.fmod() as int),
{
    let mut t = v;
    t.shift_left(s);
    proof {
        lemma_residue_room(*u);
        lemma_pow2_pos(u.shift as nat);
        lemma_tval_full(t.data@, u.data@.len() as nat);
    }
    let sum = u.add(&t);
    let diff = u.sub(&t);
    proof {
        let m = u.fmod() as int;
        lemma_mod_bound((u.value() + t.value()) as int, m);
        lemma_mod_bound(u.value() + m - t.value(), m);
    }
    (sum, diff)
}



/// Whether `n` is a power of two.
pub open spec fn is_pow2(n: nat) -> bool {
    exists|k: nat| #[trigger] pow2(k) == n
}

/// `x` is one of the elements of `b`.
pub open spec fn occurs_in(x: FermatNum, b: Seq<FermatNum>) -> bool {
    exists|j: int| 0 <= j < b.len() && x == #[trigger] b[j]
}

/// Every element of `a` occurs somewhere in `b`.
pub open spec fn drawn_from(a: Seq<FermatNum>, b: Seq<FermatNum>) -> bool {
    forall|i: int| 0 <= i < a.len() ==> #[trigger] occurs_in(a[i], b)
}

/// Move element `i` out of `data`, leaving a zero of shift 0 in its place.
fn take_at(data: &mut Vec<FermatNum>, i: usize) -> (r: FermatNum)
    requires
        i < old(data)@.len(),
    ensures
        r == old(data)@[i as int],
        final(data)@.len() == old(data)@.len(),
        forall|k: int| 0 <= k < old(data)@.len() && k != i ==> final(data)@[k] == old(data)@[k],
{
    let mut tmp = FermatNum::new(0);
    std::mem::swap(&mut data[i], &mut tmp);
    tmp
}

/// Swap elements `i` and `j` of `data`.
fn swap_at(data: &mut Vec<FermatNum>, i: usize, j: usize)
    requires
        i < old(data)@.len(),
        j < old(data)@.len(),
        i != j,
    ensures
        final(data)@ == old(data)@.update(i as int, old(data)@[j as int]).update(j as int, old(data)@[i as int]),
{
    let a = take_at(data, i);
    let b = take_at(data, j);
    data[i] = b;
    data[j] = a;
    proof {
        assert(data@ =~= old(data)@.update(i as int, old(data)@[j as int]).update(j as int, old(data)@[i as int]));
    }
}

/// Powers of two up to `n = 2^k` divide `n`.
proof fn lemma_pow2_divides(m: nat, k: nat)
    requires
        m <= k,
    ensures
        pow2(k) % pow2(m) == 0,
{
    lemma_pow2_adds(m, (k - m) as nat);
    lemma_pow2_pos(m);
    lemma_mod_multiples_basic(pow2((k - m) as nat) as int, pow2(m) as int);
    lemma_mul_is_commutative(pow2(m) as int, pow2((k - m) as nat) as int);
}

/// A power of two has no bit in common with its predecessor.
proof fn lemma_pow2_bits(n: usize)
    requires
        is_pow2(n as nat),
    ensures
        n >= 1,
        n & ((n - 1) as usize) == 0,
{
    let k = choose|k: nat| #[trigger] pow2(k) == n;
    lemma_pow2_pos(k);
    if k >= usize::BITS {
        lemma2_to64();
        lemma2_to64_rest();
        assert(usize::BITS == 32 || usize::BITS == 64);
        if k > usize::BITS {
            lemma_pow2_strictly_increases(usize::BITS as nat, k);
        }
        assert(false);
    }
    let kk = k as usize;
    vstd::bits::lemma_usize_pow2_no_overflow(k);
    vstd::bits::lemma_usize_shl_is_mul(1, kk);
    assert((1usize << kk) & (((1usize << kk) - 1) as usize) == 0) by (bit_vector)
        requires kk < usize::BITS;
}

/// Bit-reversal permutation of the elements: the element at index `p`
/// moves to the index whose bits are those of `p` reversed.
pub fn bit_reverse_permutation(data: &mut Vec<FermatNum>)
    requires
        is_pow2(old(data)@.len() as nat),
    ensures
        bit_reversed(final(data)@, old(data)@),
        drawn_from(final(data)@, old(data)@),
{
    let n = data.len();
    let ghost orig = data@;
    let ghost k: nat = choose|k: nat| #[trigger] pow2(k) == n;
    proof {
        lemma_pow2_bits(n);
        lemma_rev_zero(k);
        assert forall|p: int| 0 <= p < n implies #[trigger] data@[p] == orig[rev_prefix(p as nat, k, 1) as int] by {
            lemma_rev_involution(p as nat, k);
            lemma_rev_zero(k);
        }
    }
    let mut j: usize = 0;
    let mut i: usize = 1;
    while i < n
        invariant
            n == data@.len(),
            n == orig.len(),
            pow2(k) == n,
            1 <= i <= n,
            j == rev_bits((i - 1) as nat, k),
            forall|p: int| 0 <= p < n ==> #[trigger] data@[p] == orig[rev_prefix(p as nat, k, i as nat) as int],
        decreases n - i,
    {
        let ghost m: nat = (i - 1) as nat;
        let mut bit = n >> 1;
        let ghost mut q: nat = 0;
        proof {
            if k == 0 {
                assert(pow2(0) == 1) by { lemma2_to64(); }
            }
            lemma_pow2_unfold(k);
            assert(n >> 1usize == n / 2) by (bit_vector);
            assert(pow2(0) == 1) by { lemma2_to64(); }
            assert(m / 1 == m && m % 1 == 0);
            assert((k - 0) as nat == k && (k - 1 - 0) as nat == (k - 1) as nat);
        }
        while j & bit != 0
            invariant
                carrying(j, bit, m, q, k),
                m + 1 < pow2(k),
            decreases bit,
        {
            proof {
                lemma_rev_carry(j, bit, m, q, k);
            }
            j = j ^ bit;
            bit = bit >> 1;
            proof {
                q = q + 1;
            }
        }
        proof {
            lemma_rev_settle(j, bit, m, q, k);
            lemma_rev_bound(i as nat, k);
            assert(m + 1 == i);
        }
        j = j ^ bit;
        let ghost before = data@;
        if i < j {
            swap_at(data, i, j);
        }
        proof {
            lemma_rev_involution(i as nat, k);
            assert forall|p: int| 0 <= p < n implies #[trigger] data@[p] == orig[rev_prefix(p as nat, k, (i + 1) as nat) as int] by {
                lemma_rev_involution(p as nat, k);
                lemma_rev_bound(p as nat, k);
                assert(before[p] == orig[rev_prefix(p as nat, k, i as nat) as int]);
                if i < j && p == i {
                    assert(before[j as int] == orig[rev_prefix(j as nat, k, i as nat) as int]);
                } else if i < j && p == j {
                    assert(before[i as int] == orig[rev_prefix(i as nat, k, i as nat) as int]);
                }
            }
        }
        i += 1;
    }
    proof {
        let res = data@;
        assert forall|kk: nat, p: int| #![trigger pow2(kk), res[p]]
            pow2(kk) == res.len() && 0 <= p < res.len() implies res[p] == orig[rev_bits(p as nat, kk) as int] by {
            if kk < k {
                lemma_pow2_strictly_increases(kk, k);
            } else if kk > k {
                lemma_pow2_strictly_increases(k, kk);
            }
            assert(res[p] == orig[rev_prefix(p as nat, k, n as nat) as int]);
        }
        assert forall|p: int| 0 <= p < res.len() implies #[trigger] occurs_in(res[p], orig) by {
            lemma_rev_bound(p as nat, k);
            let r = rev_bits(p as nat, k) as int;
            assert(res[p] == orig[rev_prefix(p as nat, k, n as nat) as int]);
            assert(0 <= r < n && res[p] == orig[r]);
        }
    }
}

} // verus!

verus! {

/// Multiples of `d` below `b`, itself a multiple of `d`, leave room for one
/// more block of `d`.
proof fn lemma_block_fits(a: int, b: int, d: int)
    requires
        d > 0,
        0 <= a < b,
        a % d == 0,
        b % d == 0,
    ensures
        a + d <= b,
{
    lemma_fundamental_div_mod(a, d);
    lemma_fundamental_div_mod(b, d);
    let qa = a / d;
    let qb = b / d;
    assert(a == d * qa && b == d * qb);
    assert(qa < qb) by (nonlinear_arith)
        requires a == d * qa, b == d * qb, a < b, d > 0;
    assert(a + d <= b) by (nonlinear_arith)
        requires a == d * qa, b == d * qb, qa < qb, d > 0;
}

/// Replace element `i` of `data`.
fn put_at(data: &mut Vec<FermatNum>, i: usize, x: FermatNum)
    requires
        i < old(data)@.len(),
    ensures
        final(data)@ == old(data)@.update(i as int, x),
{
    data[i] = x;
}

/// The values held by a sequence of residues.
pub open spec fn values(s: Seq<FermatNum>) -> Seq<nat> {
    Seq::new(s.len(), |i: int| s[i].value())
}

/// `d` divides `b` when it divides a divisor `a` of `b`.
proof fn lemma_divides_trans(d: nat, a: nat, b: nat)
    requires
        d > 0,
        a > 0,
        b % a == 0,
        a % d == 0,
    ensures
        b % d == 0,
{
    lemma_fundamental_div_mod(b as int, a as int);
    lemma_fundamental_div_mod(a as int, d as int);
    let x = b / a;
    let y = a / d;
    assert(b == d * (y * x)) by (nonlinear_arith) requires b == a * x, a == d * y;
    lemma_mod_multiples_basic((y * x) as int, d as int);
    lemma_mul_is_commutative((y * x) as int, d as int);
}

/// One level of the transform: the butterflies of every block of width
/// `size`, which turn the transforms of the half blocks into the transforms
/// of the blocks.
fn transform_level(
    data: &mut Vec<FermatNum>,
    shift: usize,
    size: usize,
    Ghost(lvl): Ghost<nat>,
    Ghost(y): Ghost<Seq<nat>>,
    Ghost(exact): Ghost<bool>,
)
    requires
        2 <= size <= old(data)@.len(),
        old(data)@.len() % (size as nat) == 0,
        pow2(lvl) == size,
        shift >= 2,
        shift <= usize::MAX / 4,
        all_reduced(old(data)@, shift),
        exact ==> ((2 * shift) as nat) % (size as nat) == 0,
        exact ==> forall|p: int| 0 <= p < old(data)@.len() ==> #[trigger] old(data)@[p].value()
            == level_value(y, (size / 2) as nat, (lvl - 1) as nat, shift as nat, p as nat),
    ensures
        final(data)@.len() == old(data)@.len(),
        all_reduced(final(data)@, shift),
        exact ==> forall|p: int| 0 <= p < final(data)@.len() ==> #[trigger] final(data)@[p].value()
            == level_value(y, size as nat, lvl, shift as nat, p as nat),
{
    let n = data.len();
    let half = size / 2;
    let step = 2 * shift / size;
    let ghost h = half as nat;
    let ghost l1 = (lvl - 1) as nat;
    proof {
        lemma_fundamental_div_mod((2 * shift) as int, size as int);
        assert(step * size <= 2 * shift) by (nonlinear_arith)
            requires step == (2 * shift) / (size as int), size > 0,
                (2 * shift) == size * ((2 * shift) / (size as int)) + (2 * shift) % (size as int),
                (2 * shift) % (size as int) >= 0;
        if lvl == 0 {
            assert(pow2(0) == 1) by { lemma2_to64(); }
        }
        lemma_pow2_unfold(lvl);
        assert(pow2(l1) == h);
        assert(size == 2 * h);
    }
    let mut start: usize = 0;
    while start < n
        invariant
            n == data@.len(),
            2 <= size <= n,
            n % size == 0,
            start % size == 0,
            start <= n,
            half * 2 == size,
            h == half,
            pow2(l1) == h,
            step == ((2 * shift) as nat) / (size as nat),
            step * size <= 2 * shift,
            shift >= 2,
            shift <= usize::MAX / 4,
            all_reduced(data@, shift),
            exact ==> ((2 * shift) as nat) % (size as nat) == 0,
            exact ==> forall|p: int| 0 <= p < n ==> #[trigger] data@[p].value() == (if p < start {
                level_value(y, size as nat, l1 + 1, shift as nat, p as nat)
            } else {
                level_value(y, h, l1, shift as nat, p as nat)
            }),
        decreases n - start,
    {
        proof {
            lemma_block_fits(start as int, n as int, size as int);
        }
        let mut j: usize = 0;
        while j < half
            invariant
                n == data@.len(),
                start + size <= n,
                start % size == 0,
                half * 2 == size,
                h == half,
                pow2(l1) == h,
                2 <= size,
                step == ((2 * shift) as nat) / (size as nat),
                step * size <= 2 * shift,
                shift >= 2,
                shift <= usize::MAX / 4,
                j <= half,
                all_reduced(data@, shift),
                exact ==> ((2 * shift) as nat) % (size as nat) == 0,
                exact ==> forall|p: int| 0 <= p < n ==> #[trigger] data@[p].value() == (if p < start + j
                    || (start + half <= p < start + half + j) {
                    level_value(y, size as nat, l1 + 1, shift as nat, p as nat)
                } else {
                    level_value(y, h, l1, shift as nat, p as nat)
                }),
            decreases half - j,
        {
            proof {
                assert(step * j <= step * half) by (nonlinear_arith)
                    requires j <= half, step >= 0;
                assert(step * half <= shift) by (nonlinear_arith)
                    requires step * size <= 2 * shift, half * 2 == size, size >= 2;
            }
            let s = step * j;
            let ghost before = data@;
            let lower = take_at(data, start + j + half);
            proof {
                assert(is_reduced(data@[(start + j) as int], shift));
            }
            let (sum, diff) = butterfly(&data[start + j], lower, s);
            put_at(data, start + j, sum);
            put_at(data, start + j + half, diff);
            proof {
                assert forall|i: int| 0 <= i < data@.len() implies #[trigger] is_reduced(data@[i], shift) by {
                    if i != (start + j) as int && i != (start + j + half) as int {
                        assert(is_reduced(before[i], shift));
                    }
                }
                if exact {
                    lemma_level_step(y, shift as nat, h, l1, start as nat, j as nat);
                    assert(size as nat == 2 * h);
                    assert(before[(start + j) as int].value() == level_value(y, h, l1, shift as nat, (start + j) as nat));
                    assert(before[(start + j + half) as int].value() == level_value(y, h, l1, shift as nat, (start + j + half) as nat));
                    assert forall|p: int| 0 <= p < n implies #[trigger] data@[p].value() == (if p < start + (j + 1)
                        || (start + half <= p < start + half + (j + 1)) {
                        level_value(y, size as nat, l1 + 1, shift as nat, p as nat)
                    } else {
                        level_value(y, h, l1, shift as nat, p as nat)
                    }) by {
                        if p != (start + j) as int && p != (start + j + half) as int {
                            assert(data@[p] == before[p]);
                        }
                    }
                }
            }
            j += 1;
        }
        start += size;
        proof {
            lemma_mod_add_multiples_vanish(start as int - size as int, size as int);
        }
    }
}

/// Forward number-theoretic transform in place, modulo 2^shift + 1, with
/// the root of unity 2^(2 shift / size) at each level of size `size`. When
/// the length divides 2 shift, the result is the transform `ntt` of the
/// input with the root 2^(2 shift / n). Fewer than two elements are left
/// as they are, whatever the shift.
pub fn fft_forward(data: &mut Vec<FermatNum>, shift: usize)
    requires
        old(data)@.len() == 0 || is_pow2(old(data)@.len() as nat),
        all_residues(old(data)@, shift),
        old(data)@.len() >= 2 ==> all_reduced(old(data)@, shift),
        shift >= 2,
    ensures
        final(data)@.len() == old(data)@.len(),
        all_residues(final(data)@, shift),
        all_reduced(old(data)@, shift) ==> all_reduced(final(data)@, shift),
        old(data)@.len() <= 1 ==> final(data)@ == old(data)@,
        ((2 * shift) as nat) % (old(data)@.len() as nat) == 0 ==> values(final(data)@) == ntt(values(old(data)@), shift as nat),
{
    let n = data.len();
    let ghost x = values(data@);
    let ghost exact = ((2 * shift) as nat) % (n as nat) == 0;
    if n <= 1 {
        proof {
            if n == 1 {
                assert(is_residue(data@[0], shift));
            }
            lemma_ntt_short(x, shift as nat);
        }
        return;
    }
    let ghost orig = data@;
    bit_reverse_permutation(data);
    let ghost k = choose|k: nat| #[trigger] pow2(k) == n;
    let ghost y = values(data@);
    proof {
        assert forall|i: int| 0 <= i < data@.len() implies #[trigger] is_reduced(data@[i], shift) by {
            assert(occurs_in(data@[i], orig));
            let j = choose|j: int| 0 <= j < orig.len() && data@[i] == #[trigger] orig[j];
            assert(is_reduced(orig[j], shift));
        }
        assert forall|q: int| 0 <= q < n implies #[trigger] y[q] == x[rev_bits(q as nat, k) as int] by {
            assert(data@[q] == orig[rev_bits(q as nat, k) as int]);
            lemma_rev_bound(q as nat, k);
        }
        assert forall|p: int| 0 <= p < n implies #[trigger] data@[p].value()
            == level_value(y, 1, 0, shift as nat, p as nat) by {
            assert(is_reduced(data@[p], shift));
            lemma_level_zero(y, shift as nat, p as nat);
        }
    }
    let mut size: usize = 2;
    let ghost mut lvl: nat = 1;
    proof {
        assert(pow2(1) == 2) by { lemma2_to64(); }
        if k == 0 {
            assert(pow2(0) == 1) by { lemma2_to64(); }
        }
        lemma_pow2_divides(1, k);
        assert((size / 2) as nat == 1 && (lvl - 1) as nat == 0);
        assert(is_reduced(data@[0], shift));
    }
    loop
        invariant_except_break
            exact ==> forall|p: int| 0 <= p < n ==> #[trigger] data@[p].value()
                == level_value(y, (size / 2) as nat, (lvl - 1) as nat, shift as nat, p as nat),
        invariant
            n == data@.len(),
            n >= 2,
            pow2(k) == n,
            pow2(lvl) == size,
            1 <= lvl <= k,
            2 <= size <= n,
            n % size == 0,
            shift >= 2,
            shift <= usize::MAX / 4,
            all_reduced(data@, shift),
            exact == (((2 * shift) as nat) % (n as nat) == 0),
        ensures
            exact ==> forall|p: int| 0 <= p < n ==> #[trigger] data@[p].value()
                == level_value(y, n as nat, k, shift as nat, p as nat),
        decreases k - lvl,
    {
        proof {
            if exact {
                lemma_divides_trans(size as nat, n as nat, (2 * shift) as nat);
            }
        }
        transform_level(data, shift, size, Ghost(lvl), Ghost(y), Ghost(exact));
        if size == n {
            proof {
                if lvl < k {
                    lemma_pow2_strictly_increases(lvl, k);
                }
            }
            break;
        }
        proof {
            lemma_block_fits(size as int, n as int, size as int);
            lemma_pow2_adds(lvl, 1);
            assert(pow2(1) == 2) by { lemma2_to64(); }
            if lvl + 1 > k {
                lemma_pow2_strictly_increases(k, lvl);
            }
            lemma_pow2_divides(lvl + 1, k);
            lvl = lvl + 1;
        }
        size = size * 2;
        proof {
            assert((size / 2) as nat == (size / 2) as nat);
        }
    }
    proof {
        if exact {
            assert forall|p: int| 0 <= p < n implies #[trigger] values(data@)[p] == ntt(x, shift as nat)[p] by {
                lemma_level_full(y, x, k, shift as nat, p as nat);
            }
            assert(values(data@) =~= ntt(x, shift as nat));
        }
        lemma_reduced_residues(data@, shift);
    }
}

} // verus!

verus! {

/// Reverse the order of the elements after the first one.
fn reverse_tail(data: &mut Vec<FermatNum>)
    requires
        old(data)@.len() >= 1,
    ensures
        final(data)@.len() == old(data)@.len(),
        final(data)@[0] == old(data)@[0],
        forall|i: int| 1 <= i < old(data)@.len() ==> #[trigger] final(data)@[i] == old(data)@[old(data)@.len() - i],
{
    let n = data.len();
    let ghost orig = data@;
    let mut lo: usize = 1;
    let mut hi: usize = n - 1;
    while lo < hi
        invariant
            n == data@.len(),
            n == orig.len(),
            n >= 1,
            1 <= lo,
            hi < n,
            lo + hi == n,
            data@[0] == orig[0],
            forall|i: int| lo <= i <= hi ==> #[trigger] data@[i] == orig[i],
            forall|i: int| 1 <= i < lo ==> #[trigger] data@[i] == orig[n - i],
            forall|i: int| hi < i < n ==> #[trigger] data@[i] == orig[n - i],
        decreases n - lo,
    {
        swap_at(data, lo, hi);
        lo += 1;
        hi -= 1;
    }
}

/// Base-2 logarithm of a power of two.
fn log2_exact(n: usize) -> (r: usize)
    requires
        is_pow2(n as nat),
    ensures
        pow2(r as nat) == n,
{
    let ghost k = choose|k: nat| #[trigger] pow2(k) == n;
    let mut m = n;
    let mut r: usize = 0;
    proof {
        lemma_pow2_pos(k);
        assert(pow2(0) == 1) by { lemma2_to64(); }
        if k > 64 {
            lemma_pow2_strictly_increases(64, k);
        }
        lemma2_to64_rest();
    }
    while m > 1
        invariant
            r <= k,
            k <= 64,
            m as nat * pow2(r as nat) == n,
            m as nat == pow2((k - r) as nat),
            n == pow2(k),
        decreases m,
    {
        proof {
            if r == k {
                assert(pow2(0) == 1) by { lemma2_to64(); }
                assert(false);
            }
            lemma_pow2_adds(1, (k - r - 1) as nat);
            assert(pow2(1) == 2) by { lemma2_to64(); }
            lemma_pow2_adds(r as nat, 1);
            assert(m == 2 * pow2((k - r - 1) as nat));
            let a = pow2((k - r - 1) as nat) as int;
            let b = pow2(r as nat) as int;
            assert((m as int) / 2 == a);
            assert(a * (b * 2) == (2 * a) * b) by (nonlinear_arith);
            assert(m / 2 * pow2((r + 1) as nat) == m * pow2(r as nat));
            lemma_pow2_le(r as nat, k);
        }
        m = m / 2;
        r = r + 1;
    }
    proof {
        lemma_pow2_pos((k - r) as nat);
        assert(m == 1);
        assert(1 * pow2(r as nat) == pow2(r as nat));
    }
    r
}

/// Inverse transform in place: the forward transform of the sequence with
/// its tail reversed, each element then divided by the length. When the
/// length divides 2 shift, the result is `intt` of the input, which undoes
/// `ntt` (see `lemma_ntt_roundtrip`). Fewer than two elements are left as
/// they are, whatever the shift.
pub fn fft_inverse(data: &mut Vec<FermatNum>, shift: usize)
    requires
        old(data)@.len() == 0 || is_pow2(old(data)@.len() as nat),
        all_residues(old(data)@, shift),
        old(data)@.len() >= 2 ==> all_reduced(old(data)@, shift),
        shift >= 2,
    ensures
        final(data)@.len() == old(data)@.len(),
        all_residues(final(data)@, shift),
        all_reduced(old(data)@, shift) ==> all_reduced(final(data)@, shift),
        old(data)@.len() <= 1 ==> final(data)@ == old(data)@,
        ((2 * shift) as nat) % (old(data)@.len() as nat) == 0 ==> values(final(data)@) == intt(values(old(data)@), shift as nat),
{
    let n = data.len();
    let ghost xv = values(data@);
    let ghost exact = ((2 * shift) as nat) % (n as nat) == 0;
    if n <= 1 {
        proof {
            if n == 1 {
                let k = log2_of(1);
                assert(pow2(0) == 1) by { lemma2_to64(); }
                assert(pow2(k) == 1);
                if k > 0 {
                    lemma_pow2_strictly_increases(0, k);
                }
                assert(is_residue(data@[0], shift));
                let v = xv[0];
                assert(rev_tail(xv) =~= xv);
                lemma_level_zero(xv, shift as nat, 0);
                lemma_level_full(xv, xv, 0, shift as nat, 0);
                assert(rev_bits(0, 0) == 0);
                assert(ntt(xv, shift as nat)[0] == v);
                lemma_shift_right_undoes_shift_left(shift as nat, v, 0);
                assert(v * pow2(0) == v);
                lemma_pow2_pos(shift as nat);
                lemma_small_mod(v, fermat_modulus(shift as nat));
            }
            assert(values(data@) =~= intt(xv, shift as nat));
        }
        return;
    }
    let ghost before = data@;
    reverse_tail(data);
    proof {
        assert forall|i: int| 0 <= i < data@.len() implies #[trigger] is_reduced(data@[i], shift) by {
            if i >= 1 {
                assert(is_reduced(before[n - i], shift));
            } else {
                assert(is_reduced(before[0], shift));
            }
        }
        assert forall|i: int| 0 <= i < n implies #[trigger] values(data@)[i] == rev_tail(xv)[i] by {
            if i == 0 {
                lemma_mod_self_0(n as int);
            } else {
                lemma_small_mod((n - i) as nat, n as nat);
            }
        }
        assert(values(data@) =~= rev_tail(xv));
        lemma_reduced_residues(data@, shift);
    }
    fft_forward(data, shift);
    let ghost mid = values(data@);
    let log_n = log2_exact(n);
    proof {
        let k = log2_of(n as nat);
        assert(pow2(k) == n);
        if k < log_n as nat {
            lemma_pow2_strictly_increases(k, log_n as nat);
        } else if k > log_n as nat {
            lemma_pow2_strictly_increases(log_n as nat, k);
        }
    }
    let mut i: usize = 0;
    while i < n
        invariant
            n == data@.len(),
            i <= n,
            shift >= 2,
            all_reduced(data@, shift),
            log_n as nat == log2_of(n as nat),
            mid.len() == n,
            exact ==> mid == ntt(rev_tail(xv), shift as nat),
            exact ==> forall|p: int| 0 <= p < n ==> #[trigger] data@[p].value() == (if p < i {
                intt(xv, shift as nat)[p]
            } else {
                mid[p]
            }),
            forall|p: int| i <= p < n ==> #[trigger] data@[p].value() == mid[p],
            xv.len() == n,
        decreases n - i,
    {
        let mut x = take_at(data, i);
        proof {
            assert(is_reduced(x, shift));
        }
        x.shift_right(log_n);
        let ghost after_take = data@;
        put_at(data, i, x);
        proof {
            assert forall|p: int| 0 <= p < data@.len() implies #[trigger] is_reduced(data@[p], shift) by {
                if p != i as int {
                    assert(is_reduced(after_take[p], shift));
                }
            }
        }
        i += 1;
    }
    proof {
        lemma_reduced_residues(data@, shift);
    }
}

} // verus!
