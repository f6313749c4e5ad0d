//! The number-theoretic transform modulo 2^shift + 1 as mathematics:
//! weighted sums of residues, with powers of two as the roots of unity.

use crate::bit_reverse::{lemma_rev_bound, lemma_rev_involution, rev_bits};
use crate::fermat::{fermat_modulus, lemma_pow2_period, lemma_shift_inverse, right_shift_amount};
use vstd::arithmetic::div_mod::*;
use vstd::arithmetic::mul::*;
use vstd::arithmetic::power2::*;
use vstd::prelude::*;

verus! {

/// The weighted sum z[0] 2^(g·0·t) + z[1] 2^(g·1·t) + ... of the first `c`
/// terms: the transform of `z` at frequency `t` with the root 2^g.
pub open spec fn tsum(z: Seq<nat>, g: nat, t: nat, c: nat) -> nat
    decreases c,
{
    if c == 0 {
        0
    } else {
        tsum(z, g, t, (c - 1) as nat) + z[c - 1] * pow2(g * ((c - 1) as nat) * t)
    }
}

/// Powers of two whose exponents agree modulo 2 shift agree modulo
/// 2^shift + 1.
pub proof fn lemma_pow2_congruent(a: nat, b: nat, shift: nat)
    requires
        shift >= 1,
        a % (2 * shift) == b % (2 * shift),
    ensures
        pow2(a) % fermat_modulus(shift) == pow2(b) % fermat_modulus(shift),
{
    lemma_pow2_period(shift, a);
    lemma_pow2_period(shift, b);
}

/// Splitting a sum of even length into its even and its odd terms.
pub proof fn lemma_tsum_even_odd(z: Seq<nat>, e: Seq<nat>, o: Seq<nat>, g: nat, t: nat, c: nat)
    requires
        forall|i: int| 0 <= i < c ==> z[2 * i] == #[trigger] e[i] && z[2 * i + 1] == o[i],
    ensures
        tsum(z, g, t, 2 * c) == tsum(e, 2 * g, t, c) + pow2(g * t) * tsum(o, 2 * g, t, c),
    decreases c,
{
    if c > 0 {
        let c1 = (c - 1) as nat;
        lemma_tsum_even_odd(z, e, o, g, t, c1);
        let a = (2 * c1) as nat;
        let b = (2 * c1 + 1) as nat;
        assert(tsum(z, g, t, 2 * c) == tsum(z, g, t, b) + z[b as int] * pow2(g * b * t));
        assert(tsum(z, g, t, b) == tsum(z, g, t, a) + z[a as int] * pow2(g * a * t));
        assert(e[c1 as int] == z[a as int] && o[c1 as int] == z[b as int]);
        let x = (2 * g) * c1 * t;
        assert(g * a * t == x) by (nonlinear_arith) requires a == 2 * c1, x == (2 * g) * c1 * t;
        assert(g * b * t == g * t + x) by (nonlinear_arith) requires b == 2 * c1 + 1, x == (2 * g) * c1 * t;
        lemma_pow2_adds(g * t, x);
        let p = pow2(x);
        let q = pow2(g * t);
        let ee = tsum(e, 2 * g, t, c1);
        let oo = tsum(o, 2 * g, t, c1);
        assert(tsum(e, 2 * g, t, c) == ee + e[c1 as int] * p);
        assert(tsum(o, 2 * g, t, c) == oo + o[c1 as int] * p);
        assert(tsum(z, g, t, a) == ee + q * oo);
        let ec = e[c1 as int];
        let oc = o[c1 as int];
        assert((ee + q * oo) + ec * p + oc * (q * p) == (ee + ec * p) + q * (oo + oc * p))
            by (nonlinear_arith);
    } else {
        assert(pow2(g * t) * 0 == 0);
    }
}

/// The sum does not change modulo 2^shift + 1 when the frequency moves by
/// a period `h` of the root (g h a multiple of 2 shift).
pub proof fn lemma_tsum_period(z: Seq<nat>, g: nat, t: nat, h: nat, c: nat, shift: nat)
    requires
        shift >= 1,
        (g * h) % (2 * shift) == 0,
    ensures
        tsum(z, g, t + h, c) % fermat_modulus(shift) == tsum(z, g, t, c) % fermat_modulus(shift),
    decreases c,
{
    let m = fermat_modulus(shift) as int;
    lemma_pow2_pos(shift);
    if c > 0 {
        let c1 = (c - 1) as nat;
        lemma_tsum_period(z, g, t, h, c1, shift);
        let a = g * c1 * t;
        let b = g * c1 * (t + h);
        let s2 = 2 * shift;
        assert(b == a + (g * h) * c1) by (nonlinear_arith)
            requires a == g * c1 * t, b == g * c1 * (t + h);
        assert(((g * h) * c1) % s2 == 0) by {
            lemma_fundamental_div_mod((g * h) as int, s2 as int);
            let k = (g * h) / s2;
            assert((g * h) * c1 == s2 * (k * c1)) by (nonlinear_arith)
                requires g * h == s2 * k;
            lemma_mod_multiples_basic((k * c1) as int, s2 as int);
            lemma_mul_is_commutative((k * c1) as int, s2 as int);
        }
        assert(b % s2 == a % s2) by {
            lemma_add_mod_noop(a as int, ((g * h) * c1) as int, s2 as int);
            lemma_mod_twice(a as int, s2 as int);
        }
        lemma_pow2_congruent(a, b, shift);
        let zc = z[c1 as int] as int;
        lemma_mul_mod_noop_right(zc, pow2(a) as int, m);
        lemma_mul_mod_noop_right(zc, pow2(b) as int, m);
        lemma_add_mod_noop(tsum(z, g, t + h, c1) as int, zc * pow2(b), m);
        lemma_add_mod_noop(tsum(z, g, t, c1) as int, zc * pow2(a), m);
    }
}

/// Block `b` of width `w` = 2^l of `y`, read in bit-reversed order.
pub open spec fn rblock(y: Seq<nat>, b: nat, w: nat, l: nat) -> Seq<nat> {
    Seq::new(w, |i: int| y[(b * w + rev_bits(i as nat, l)) as int])
}

/// What the iterative transform holds at index `p` once the blocks of
/// width `w` = 2^l are transformed: the transform of the block of `p`,
/// read in bit-reversed order, at the offset of `p` in its block.
pub open spec fn level_value(y: Seq<nat>, w: nat, l: nat, shift: nat, p: nat) -> nat {
    tsum(rblock(y, p / w, w, l), (2 * shift) / w, p % w, w) % fermat_modulus(shift)
}

/// The index arithmetic of a butterfly: `base` starts a block of width 2h.
proof fn lemma_block_index(base: nat, h: nat, j: nat)
    requires
        h >= 1,
        base % (2 * h) == 0,
        j < h,
    ensures
        (base + j) / h == 2 * (base / (2 * h)),
        (base + j) % h == j,
        (base + j + h) / h == 2 * (base / (2 * h)) + 1,
        (base + j + h) % h == j,
        (base + j) / (2 * h) == base / (2 * h),
        (base + j) % (2 * h) == j,
        (base + j + h) / (2 * h) == base / (2 * h),
        (base + j + h) % (2 * h) == j + h,
{
    let w = 2 * h;
    let b = base / w;
    lemma_fundamental_div_mod(base as int, w as int);
    assert(base == w * b);
    assert(base + j == (2 * b) * h + j) by (nonlinear_arith) requires base == w * b, w == 2 * h;
    assert(base + j + h == (2 * b + 1) * h + j) by (nonlinear_arith) requires base == w * b, w == 2 * h;
    assert(base + j == b * w + j) by (nonlinear_arith) requires base == w * b;
    assert(base + j + h == b * w + (j + h)) by (nonlinear_arith) requires base == w * b;
    lemma_fundamental_div_mod_converse((base + j) as int, h as int, (2 * b) as int, j as int);
    lemma_fundamental_div_mod_converse((base + j + h) as int, h as int, (2 * b + 1) as int, j as int);
    lemma_fundamental_div_mod_converse((base + j) as int, w as int, b as int, j as int);
    lemma_fundamental_div_mod_converse((base + j + h) as int, w as int, b as int, (j + h) as int);
}

/// The reversed block of width 2h splits into the reversed blocks of width
/// h: its even terms come from the first half, its odd terms from the second.
proof fn lemma_rblock_halves(y: Seq<nat>, b: nat, h: nat, l: nat, i: int)
    requires
        pow2(l) == h,
        0 <= i < h,
    ensures
        rblock(y, b, 2 * h, l + 1)[2 * i] == rblock(y, 2 * b, h, l)[i],
        rblock(y, b, 2 * h, l + 1)[2 * i + 1] == rblock(y, 2 * b + 1, h, l)[i],
{
    let ii = i as nat;
    let ev = (2 * ii) as nat;
    let od = (2 * ii + 1) as nat;
    lemma_fundamental_div_mod_converse(ev as int, 2, i, 0);
    lemma_fundamental_div_mod_converse(od as int, 2, i, 1);
    assert(rev_bits(ev, l + 1) == (ev % 2) * pow2(l) + rev_bits(ev / 2, l));
    assert(rev_bits(od, l + 1) == (od % 2) * pow2(l) + rev_bits(od / 2, l));
    assert(ev % 2 == 0 && ev / 2 == ii && od % 2 == 1 && od / 2 == ii);
    assert((ev % 2) * pow2(l) == 0) by (nonlinear_arith) requires ev % 2 == 0;
    assert((od % 2) * pow2(l) == pow2(l)) by (nonlinear_arith) requires od % 2 == 1;
    assert(rev_bits(ev, l + 1) == rev_bits(ii, l));
    assert(rev_bits(od, l + 1) == h + rev_bits(ii, l));
    let r = rev_bits(ii, l);
    assert(b * (2 * h) + r == (2 * b) * h + r) by (nonlinear_arith);
    assert(b * (2 * h) + (h + r) == (2 * b + 1) * h + r) by (nonlinear_arith);
    assert(rblock(y, b, 2 * h, l + 1)[2 * i] == y[(b * (2 * h) + rev_bits(ev, l + 1)) as int]);
    assert(rblock(y, b, 2 * h, l + 1)[2 * i + 1] == y[(b * (2 * h) + rev_bits(od, l + 1)) as int]);
    assert(rblock(y, 2 * b, h, l)[i] == y[((2 * b) * h + r) as int]);
    assert(rblock(y, 2 * b + 1, h, l)[i] == y[((2 * b + 1) * h + r) as int]);
}

/// Modular form of the two butterfly outputs.
proof fn lemma_butterfly_mod(e0: int, o0: int, e1: int, o1: int, q: int, z0: int, z1: int, m: int)
    requires
        m > 1,
        e1 % m == e0 % m,
        o1 % m == o0 % m,
        z0 == e0 + q * o0,
        (z1 + q * o1) % m == e1 % m,
    ensures
        ((e0 % m) + ((o0 % m) * q) % m) % m == z0 % m,
        ((e0 % m) + m - ((o0 % m) * q) % m) % m == z1 % m,
{
    lemma_mul_mod_noop_left(o0, q, m);
    lemma_add_mod_noop(e0, o0 * q, m);
    lemma_mod_twice(e0, m);
    lemma_mul_is_commutative(o0, q);
    let w = (o0 * q) % m;
    // (e0 % m + m - w) % m == (e0 - o0 q) % m
    lemma_mod_add_multiples_vanish(e0 % m - w, m);
    lemma_sub_mod_noop(e0, o0 * q, m);
    lemma_mod_twice(o0 * q, m);
    // z1 == e1 - q o1 + k m, and e1 - q o1 == e0 - q o0 modulo m
    lemma_mul_mod_noop_right(q, o1, m);
    lemma_mul_mod_noop_right(q, o0, m);
    lemma_sub_mod_noop(e1, q * o1, m);
    lemma_sub_mod_noop(e0, q * o0, m);
    lemma_sub_mod_noop(z1 + q * o1, q * o1, m);
    assert(z1 + q * o1 - q * o1 == z1);
}

/// One level of the transform: the butterflies at offset j of a block of
/// width 2h turn the two transforms of width h into the transform of width
/// 2h (the root for width 2h squared is the root for width h, and its h-th
/// power is 2^shift, which is -1).
pub proof fn lemma_level_step(y: Seq<nat>, shift: nat, h: nat, l: nat, base: nat, j: nat)
    requires
        shift >= 1,
        pow2(l) == h,
        (2 * shift) % (2 * h) == 0,
        base % (2 * h) == 0,
        j < h,
    ensures
        ({
            let m = fermat_modulus(shift);
            let u = level_value(y, h, l, shift, base + j);
            let v = level_value(y, h, l, shift, base + j + h);
            let s = ((2 * shift) / (2 * h)) * j;
            &&& (u + (v * pow2(s)) % m) % m == level_value(y, 2 * h, l + 1, shift, base + j)
            &&& (u + m - (v * pow2(s)) % m) % (m as int) == level_value(y, 2 * h, l + 1, shift, base + j + h)
        }),
{
    let m = fermat_modulus(shift);
    lemma_pow2_pos(shift);
    lemma_pow2_pos(l);
    let w = 2 * h;
    let b = base / w;
    lemma_block_index(base, h, j);
    let g = (2 * shift) / w;
    lemma_fundamental_div_mod((2 * shift) as int, w as int);
    assert(2 * shift == w * g);
    assert(g * h == shift) by (nonlinear_arith) requires 2 * shift == w * g, w == 2 * h;
    assert((2 * shift) / h == 2 * g) by {
        assert(2 * shift == h * (2 * g)) by (nonlinear_arith) requires 2 * shift == w * g, w == 2 * h;
        lemma_fundamental_div_mod_converse((2 * shift) as int, h as int, (2 * g) as int, 0);
    }
    let z = rblock(y, b, w, l + 1);
    let e = rblock(y, 2 * b, h, l);
    let o = rblock(y, 2 * b + 1, h, l);
    assert forall|i: int| 0 <= i < h implies z[2 * i] == #[trigger] e[i] && z[2 * i + 1] == o[i] by {
        lemma_rblock_halves(y, b, h, l, i);
    }
    let jh = j + h;
    // the sums at j and at j + h
    lemma_tsum_even_odd(z, e, o, g, j, h);
    lemma_tsum_even_odd(z, e, o, g, jh, h);
    assert(((2 * g) * h) % (2 * shift) == 0) by {
        assert((2 * g) * h == 2 * shift) by (nonlinear_arith) requires g * h == shift;
        lemma_mod_self_0((2 * shift) as int);
    }
    lemma_tsum_period(e, 2 * g, j, h, h, shift);
    lemma_tsum_period(o, 2 * g, j, h, h, shift);
    let e0 = tsum(e, 2 * g, j, h) as int;
    let o0 = tsum(o, 2 * g, j, h) as int;
    let e1 = tsum(e, 2 * g, jh, h) as int;
    let o1 = tsum(o, 2 * g, jh, h) as int;
    let q = pow2(g * j) as int;
    let z0 = tsum(z, g, j, w) as int;
    let z1 = tsum(z, g, jh, w) as int;
    // 2^(g (j + h)) = 2^(g j) 2^shift, and 2^shift is -1 modulo m
    assert(g * jh == g * j + shift) by (nonlinear_arith) requires g * h == shift, jh == j + h;
    lemma_pow2_adds(g * j, shift);
    let p = pow2(shift) as int;
    assert(z1 == e1 + (q * p) * o1);
    assert((z1 + q * o1) == e1 + m * (q * o1)) by (nonlinear_arith)
        requires z1 == e1 + (q * p) * o1, m == p + 1;
    lemma_mod_multiples_vanish(q * o1, e1, m as int);
    assert(g * j == ((2 * shift) / (2 * h)) * j);
    lemma_butterfly_mod(e0, o0, e1, o1, q, z0, z1, m as int);
    assert(level_value(y, h, l, shift, base + j) == e0 % (m as int));
    assert(level_value(y, h, l, shift, base + j + h) == o0 % (m as int));
    assert(level_value(y, w, l + 1, shift, base + j) == z0 % (m as int));
    assert(level_value(y, w, l + 1, shift, base + j + h) == z1 % (m as int));
}

/// The transform of `x` modulo 2^shift + 1 with the root 2^(2 shift / n),
/// n the length of `x`: entry t is the sum of x[i] 2^((2 shift / n) i t).
pub open spec fn ntt(x: Seq<nat>, shift: nat) -> Seq<nat> {
    Seq::new(x.len(), |t: int| tsum(x, (2 * shift) / x.len(), t as nat, x.len()) % fermat_modulus(shift))
}

/// Blocks of width 1 are their own transforms.
pub proof fn lemma_level_zero(y: Seq<nat>, shift: nat, p: nat)
    requires
        p < y.len(),
        y[p as int] < fermat_modulus(shift),
    ensures
        level_value(y, 1, 0, shift, p) == y[p as int],
{
    assert(p / 1 == p && p % 1 == 0);
    let z = rblock(y, p, 1, 0);
    assert(rev_bits(0, 0) == 0);
    assert(z[0] == y[p as int]);
    let g = (2 * shift) / 1;
    assert(g * 0 * 0 == 0);
    assert(pow2(0) == 1) by { lemma2_to64(); }
    assert(tsum(z, g, 0, 0) == 0);
    assert(tsum(z, g, 0, 1) == z[0] * pow2(g * 0 * 0));
    assert(z[0] * 1 == z[0]);
    lemma_small_mod(y[p as int], fermat_modulus(shift));
}

/// The single block of full width, read in bit-reversed order from the
/// bit-reversed sequence, is the sequence itself: its transform is `ntt`.
pub proof fn lemma_level_full(y: Seq<nat>, x: Seq<nat>, k: nat, shift: nat, p: nat)
    requires
        pow2(k) == x.len(),
        y.len() == x.len(),
        forall|q: int| 0 <= q < x.len() ==> #[trigger] y[q] == x[rev_bits(q as nat, k) as int],
        p < x.len(),
    ensures
        level_value(y, x.len(), k, shift, p) == ntt(x, shift)[p as int],
{
    let n = x.len();
    lemma_small_mod(p, n);
    assert(p / n == 0) by {
        lemma_fundamental_div_mod_converse(p as int, n as int, 0, p as int);
    }
    assert(rblock(y, 0, n, k) =~= x) by {
        assert forall|i: int| 0 <= i < n implies #[trigger] rblock(y, 0, n, k)[i] == x[i] by {
            lemma_rev_bound(i as nat, k);
            lemma_rev_involution(i as nat, k);
            let r = rev_bits(i as nat, k);
            assert(0 * n + r == r);
            assert(y[r as int] == x[rev_bits(r, k) as int]);
        }
    }
}

/// f(0) + f(1) + ... + f(c - 1).
pub open spec fn fsum(f: spec_fn(nat) -> int, c: nat) -> int
    decreases c,
{
    if c == 0 {
        0
    } else {
        fsum(f, (c - 1) as nat) + f((c - 1) as nat)
    }
}

/// Sums of functions that agree below `c` agree.
pub proof fn lemma_fsum_ext(f: spec_fn(nat) -> int, g: spec_fn(nat) -> int, c: nat)
    requires
        forall|i: nat| i < c ==> #[trigger] f(i) == g(i),
    ensures
        fsum(f, c) == fsum(g, c),
    decreases c,
{
    if c > 0 {
        lemma_fsum_ext(f, g, (c - 1) as nat);
    }
}

/// Sums of functions that agree modulo `m` below `c` agree modulo `m`.
pub proof fn lemma_fsum_mod(f: spec_fn(nat) -> int, g: spec_fn(nat) -> int, c: nat, m: int)
    requires
        m > 0,
        forall|i: nat| i < c ==> #[trigger] f(i) % m == g(i) % m,
    ensures
        fsum(f, c) % m == fsum(g, c) % m,
    decreases c,
{
    if c > 0 {
        let c1 = (c - 1) as nat;
        lemma_fsum_mod(f, g, c1, m);
        lemma_add_mod_noop(fsum(f, c1), f(c1), m);
        lemma_add_mod_noop(fsum(g, c1), g(c1), m);
    }
}

/// A sum of terms each multiplied by `a` is the sum multiplied by `a`.
pub proof fn lemma_fsum_scale(f: spec_fn(nat) -> int, a: int, c: nat)
    ensures
        fsum(|i: nat| f(i) * a, c) == fsum(f, c) * a,
    decreases c,
{
    if c > 0 {
        let c1 = (c - 1) as nat;
        lemma_fsum_scale(f, a, c1);
        let fa = |i: nat| f(i) * a;
        assert(fsum(fa, c) == fsum(fa, c1) + fa(c1));
        lemma_mul_is_distributive_add_other_way(a, fsum(f, c1), f(c1));
    }
}

/// The sum of two sums, term by term.
pub proof fn lemma_fsum_add(f: spec_fn(nat) -> int, g: spec_fn(nat) -> int, c: nat)
    ensures
        fsum(|i: nat| f(i) + g(i), c) == fsum(f, c) + fsum(g, c),
    decreases c,
{
    if c > 0 {
        lemma_fsum_add(f, g, (c - 1) as nat);
    }
}

/// Exchanging the order of a double sum.
pub proof fn lemma_fsum_swap(ff: spec_fn(nat, nat) -> int, r: nat, c: nat)
    ensures
        fsum(|t: nat| fsum(|p: nat| ff(t, p), c), r) == fsum(|p: nat| fsum(|t: nat| ff(t, p), r), c),
    decreases r,
{
    if r == 0 {
        lemma_fsum_ext(|p: nat| fsum(|t: nat| ff(t, p), 0), |p: nat| 0int, c);
        lemma_fsum_zero(c);
    } else {
        let r1 = (r - 1) as nat;
        lemma_fsum_swap(ff, r1, c);
        let inner = |p: nat| fsum(|t: nat| ff(t, p), r1);
        let last = |p: nat| ff(r1, p);
        lemma_fsum_add(inner, last, c);
        lemma_fsum_ext(|p: nat| fsum(|t: nat| ff(t, p), r), |p: nat| inner(p) + last(p), c);
    }
}

/// A sum of zeros is zero.
pub proof fn lemma_fsum_zero(c: nat)
    ensures
        fsum(|i: nat| 0int, c) == 0,
    decreases c,
{
    if c > 0 {
        lemma_fsum_zero((c - 1) as nat);
    }
}

/// A sum whose only nonzero term is at `s` is that term.
pub proof fn lemma_fsum_single(f: spec_fn(nat) -> int, s: nat, c: nat)
    requires
        s < c,
        forall|i: nat| i < c && i != s ==> #[trigger] f(i) == 0,
    ensures
        fsum(f, c) == f(s),
    decreases c,
{
    let c1 = (c - 1) as nat;
    if s < c1 {
        lemma_fsum_single(f, s, c1);
    } else {
        lemma_fsum_ext(f, |i: nat| 0int, c1);
        lemma_fsum_zero(c1);
    }
}

/// The weighted sum as a sum of terms.
pub proof fn lemma_tsum_fsum(z: Seq<nat>, g: nat, t: nat, c: nat)
    ensures
        tsum(z, g, t, c) == fsum(|i: nat| (z[i as int] * pow2(g * i * t)) as int, c),
    decreases c,
{
    if c > 0 {
        lemma_tsum_fsum(z, g, t, (c - 1) as nat);
    }
}

/// A sequence of `c` ones.
pub open spec fn ones(c: nat) -> Seq<nat> {
    Seq::new(c, |i: int| 1nat)
}

/// The sum of the powers 2^(G i d), i < n, is n modulo 2^shift + 1 when
/// d is 0 and 0 otherwise, for a root 2^G of order n = 2^K (G n = 2 shift).
pub proof fn lemma_orthogonality(gg: nat, kk: nat, d: nat, shift: nat)
    requires
        shift >= 1,
        gg * pow2(kk) == 2 * shift,
        d < pow2(kk),
    ensures
        tsum(ones(pow2(kk)), gg, d, pow2(kk)) % fermat_modulus(shift) == (if d == 0 {
            pow2(kk) % fermat_modulus(shift)
        } else {
            0
        }),
    decreases kk,
{
    let m = fermat_modulus(shift) as int;
    let n = pow2(kk);
    lemma_pow2_pos(shift);
    if kk == 0 {
        assert(pow2(0) == 1) by { lemma2_to64(); }
        assert(d == 0);
        assert(gg * 0 * 0 == 0);
        assert(tsum(ones(1), gg, 0, 0) == 0);
        assert(tsum(ones(1), gg, 0, 1) == ones(1)[0] * pow2(gg * 0 * 0));
    } else {
        let h = pow2((kk - 1) as nat);
        lemma_pow2_unfold(kk);
        lemma_pow2_pos((kk - 1) as nat);
        let g2 = 2 * gg;
        assert(g2 * h == 2 * shift) by (nonlinear_arith) requires gg * n == 2 * shift, n == 2 * h, g2 == 2 * gg;
        assert(gg * h == shift) by (nonlinear_arith) requires gg * n == 2 * shift, n == 2 * h;
        let d1: nat = if d < h { d } else { (d - h) as nat };
        lemma_orthogonality(g2, (kk - 1) as nat, d1, shift);
        lemma_tsum_even_odd(ones(n), ones(h), ones(h), gg, d, h);
        let tt = tsum(ones(h), g2, d, h) as int;
        let t1 = tsum(ones(h), g2, d1, h) as int;
        let q = pow2(gg * d) as int;
        assert(tsum(ones(n), gg, d, n) == tt + q * tt);
        assert(tt % m == t1 % m) by {
            if d >= h {
                lemma_mod_self_0((2 * shift) as int);
                lemma_tsum_period(ones(h), g2, d1, h, h, shift);
                assert(d1 + h == d);
            }
        }
        assert(tt + q * tt == tt * (1 + q)) by (nonlinear_arith);
        lemma_mul_mod_noop_left(tt, 1 + q, m);
        lemma_mul_mod_noop_left(t1, 1 + q, m);
        if d1 != 0 {
            assert(t1 % m == 0);
            assert(0 * (1 + q) == 0);
            lemma_small_mod(0, m as nat);
        } else if d == 0 {
            assert(gg * 0 == 0);
            assert(pow2(0) == 1) by { lemma2_to64(); }
            assert(t1 % m == (h as int) % m);
            lemma_mul_mod_noop_left(t1, 2, m);
            lemma_mul_mod_noop_left(h as int, 2, m);
            assert((h as int) * 2 == n);
        } else {
            assert(d == h);
            assert(q == pow2(shift));
            assert(1 + q == m);
            lemma_mod_multiples_basic(tt, m);
            lemma_mul_is_commutative(tt, m);
        }
    }
}

/// The sequence with every entry but the first in reverse order: entry t
/// is x[(n - t) mod n].
pub open spec fn rev_tail(x: Seq<nat>) -> Seq<nat> {
    Seq::new(x.len(), |t: int| x[(x.len() - t) % (x.len() as int)])
}

/// The exponent of a power of two.
pub open spec fn log2_of(n: nat) -> nat {
    choose|k: nat| pow2(k) == n
}

/// The inverse transform: the transform of the reversed tail, divided by
/// n = 2^k (multiplied by 2^(2 shift - k)) modulo 2^shift + 1.
pub open spec fn intt(y: Seq<nat>, shift: nat) -> Seq<nat> {
    Seq::new(y.len(), |s: int| (ntt(rev_tail(y), shift)[s] * pow2(right_shift_amount(shift, log2_of(y.len()))))
        % fermat_modulus(shift))
}

/// A term of the double sum behind the inverse: x[p] at frequency
/// (n - t) mod n, times the root to the power t s.
pub open spec fn cross(x: Seq<nat>, g: nat, s: nat, t: nat, p: nat) -> int {
    (x[p as int] * pow2(g * p * (((x.len() - t) % (x.len() as int)) as nat))) as int * pow2(g * t * s)
}

/// A row of the double sum: the entry t of the reversed tail of the
/// transform, times the root to the power t s, modulo m.
proof fn lemma_inverse_row(x: Seq<nat>, shift: nat, g: nat, s: nat, t: nat)
    requires
        shift >= 1,
        x.len() > 0,
        g == (2 * shift) / x.len(),
        t < x.len(),
    ensures
        ((rev_tail(ntt(x, shift))[t as int] * pow2(g * t * s)) as int) % (fermat_modulus(shift) as int)
            == fsum(|p: nat| cross(x, g, s, t, p), x.len()) % (fermat_modulus(shift) as int),
{
    let n = x.len();
    let m = fermat_modulus(shift) as int;
    lemma_pow2_pos(shift);
    let q = ((n - t) % (n as int)) as nat;
    lemma_mod_bound(n - t, n as int);
    let b = tsum(x, g, q, n) as int;
    assert(rev_tail(ntt(x, shift))[t as int] == b % m);
    let pp = pow2(g * t * s) as int;
    lemma_mul_mod_noop_left(b, pp, m);
    lemma_tsum_fsum(x, g, q, n);
    let bt = |p: nat| (x[p as int] * pow2(g * p * q)) as int;
    lemma_fsum_scale(bt, pp, n);
    lemma_fsum_ext(|p: nat| bt(p) * pp, |p: nat| cross(x, g, s, t, p), n);
}

/// The exponents of a column of the double sum agree modulo 2 shift with
/// those of the powers of the root to the difference of frequencies.
proof fn lemma_inverse_exponent(n: nat, g: nat, shift: nat, s: nat, t: nat, p: nat)
    requires
        g * n == 2 * shift,
        shift >= 1,
        s < n,
        t < n,
        p < n,
    ensures
        (g * p * (((n - t) % (n as int)) as nat) + g * t * s) % (2 * shift)
            == (g * t * (((s + n - p) % (n as int)) as nat)) % (2 * shift),
{
    let q = (n - t) % (n as int);
    let d = (s + n - p) % (n as int);
    let w: int = if t == 0 { 0 } else if s >= p { p as int } else { p - t };
    if t == 0 {
        lemma_mod_self_0(n as int);
        assert(q == 0);
    } else {
        lemma_small_mod((n - t) as nat, n);
        assert(q == n - t);
    }
    if s >= p {
        lemma_mod_add_multiples_vanish((s - p) as int, n as int);
        lemma_small_mod((s - p) as nat, n);
        assert(d == s - p);
    } else {
        lemma_small_mod((s + n - p) as nat, n);
        assert(d == s + n - p);
    }
    // p q + t s is t d plus a multiple of n
    if t == 0 {
        assert(p * q + t * s == t * d + n * w) by (nonlinear_arith) requires q == 0, t == 0, w == 0;
    } else if s >= p {
        assert(p * q + t * s == t * d + n * w) by (nonlinear_arith) requires q == n - t, d == s - p, w == p;
    } else {
        assert(p * q + t * s == t * d + n * w) by (nonlinear_arith) requires q == n - t, d == s + n - p, w == p - t;
    }
    let e1 = g * p * (q as nat) + g * t * s;
    let e2 = g * t * (d as nat);
    let pq = p * q;
    let ts = t * s;
    let td = t * d;
    lemma_mul_is_associative(g as int, p as int, q);
    lemma_mul_is_associative(g as int, t as int, s as int);
    lemma_mul_is_associative(g as int, t as int, d);
    lemma_mul_is_distributive_add(g as int, pq, ts as int);
    lemma_mul_is_distributive_add(g as int, td, n * w);
    lemma_mul_is_associative(g as int, n as int, w);
    assert(e1 == e2 + (2 * shift) * w);
    lemma_mod_multiples_vanish(w, e2 as int, (2 * shift) as int);
    lemma_mul_is_commutative(w, (2 * shift) as int);
}

/// A column of the double sum: the powers of the root sum to n when p is s
/// and to 0 otherwise, so the column is x[s] n or 0, modulo m.
proof fn lemma_inverse_column(x: Seq<nat>, shift: nat, g: nat, k: nat, s: nat, p: nat)
    requires
        shift >= 1,
        pow2(k) == x.len(),
        g * x.len() == 2 * shift,
        s < x.len(),
        p < x.len(),
    ensures
        fsum(|t: nat| cross(x, g, s, t, p), x.len()) % (fermat_modulus(shift) as int)
            == (if p == s { (x[s as int] * x.len()) as int } else { 0int }) % (fermat_modulus(shift) as int),
{
    let n = x.len();
    let m = fermat_modulus(shift) as int;
    lemma_pow2_pos(shift);
    let d = ((s + n - p) % (n as int)) as nat;
    lemma_mod_bound(s + n - p, n as int);
    let hh = |t: nat| pow2(g * p * (((n - t) % (n as int)) as nat)) as int * pow2(g * t * s);
    let xp = x[p as int] as int;
    // the column is the sum of hh times x[p]
    assert forall|t: nat| t < n implies #[trigger] cross(x, g, s, t, p) == hh(t) * xp by {
        let a = pow2(g * p * (((n - t) % (n as int)) as nat)) as int;
        let b = pow2(g * t * s) as int;
        assert((xp * a) * b == (a * b) * xp) by (nonlinear_arith);
    }
    lemma_fsum_ext(|t: nat| cross(x, g, s, t, p), |t: nat| hh(t) * xp, n);
    lemma_fsum_scale(hh, xp, n);
    // hh(t) is a power of two congruent to 2^(g t d)
    let pw = |t: nat| (ones(n)[t as int] * pow2(g * t * d)) as int;
    assert forall|t: nat| t < n implies #[trigger] hh(t) % m == pw(t) % m by {
        let qt = (((n - t) % (n as int)) as nat);
        lemma_mod_bound(n - t, n as int);
        lemma_pow2_adds(g * p * qt, g * t * s);
        lemma_inverse_exponent(n, g, shift, s, t, p);
        lemma_pow2_congruent(g * p * qt + g * t * s, g * t * d, shift);
        assert(ones(n)[t as int] == 1);
    }
    lemma_fsum_mod(hh, pw, n, m);
    lemma_tsum_fsum(ones(n), g, d, n);
    lemma_orthogonality(g, k, d, shift);
    let sh = fsum(hh, n);
    lemma_mul_mod_noop_left(sh, xp, m);
    if p == s {
        assert(d == 0) by {
            lemma_mod_self_0(n as int);
        }
        lemma_mul_mod_noop_left(n as int, xp, m);
        assert((n as int) * xp == xp * (n as int)) by (nonlinear_arith);
    } else {
        assert(d != 0) by {
            if s >= p {
                lemma_mod_add_multiples_vanish((s - p) as int, n as int);
                lemma_small_mod((s - p) as nat, n);
            } else {
                lemma_small_mod((s + n - p) as nat, n);
            }
        }
        assert(0 * xp == 0);
    }
}

/// The transform of the reversed tail of the transform of `x` is n x,
/// modulo 2^shift + 1.
pub proof fn lemma_inverse_sum(x: Seq<nat>, shift: nat, k: nat, s: nat)
    requires
        shift >= 1,
        pow2(k) == x.len(),
        (2 * shift) % x.len() == 0,
        s < x.len(),
    ensures
        ntt(rev_tail(ntt(x, shift)), shift)[s as int] == (x[s as int] * x.len()) % fermat_modulus(shift),
{
    let n = x.len();
    let m = fermat_modulus(shift) as int;
    lemma_pow2_pos(shift);
    lemma_pow2_pos(k);
    let g = (2 * shift) / n;
    lemma_fundamental_div_mod((2 * shift) as int, n as int);
    assert(g * n == 2 * shift);
    let z = rev_tail(ntt(x, shift));
    assert(z.len() == n);
    lemma_tsum_fsum(z, g, s, n);
    let row = |t: nat| (z[t as int] * pow2(g * t * s)) as int;
    let ff = |t: nat, p: nat| cross(x, g, s, t, p);
    let rows = |t: nat| fsum(|p: nat| ff(t, p), n);
    assert forall|t: nat| t < n implies #[trigger] row(t) % m == rows(t) % m by {
        lemma_inverse_row(x, shift, g, s, t);
        lemma_fsum_ext(|p: nat| ff(t, p), |p: nat| cross(x, g, s, t, p), n);
    }
    lemma_fsum_mod(row, rows, n, m);
    lemma_fsum_swap(ff, n, n);
    let cols = |p: nat| fsum(|t: nat| ff(t, p), n);
    let single = |p: nat| if p == s { (x[s as int] * n) as int } else { 0 };
    assert forall|p: nat| p < n implies #[trigger] cols(p) % m == single(p) % m by {
        lemma_inverse_column(x, shift, g, k, s, p);
        lemma_fsum_ext(|t: nat| ff(t, p), |t: nat| cross(x, g, s, t, p), n);
    }
    lemma_fsum_mod(cols, single, n, m);
    lemma_fsum_single(single, s, n);
}

/// The inverse transform undoes the transform: for a power-of-two length n
/// dividing 2 shift and entries below 2^shift + 1, intt(ntt(x)) is x.
pub proof fn lemma_ntt_roundtrip(x: Seq<nat>, shift: nat)
    requires
        shift >= 1,
        exists|k: nat| pow2(k) == x.len(),
        (2 * shift) % x.len() == 0,
        forall|i: int| 0 <= i < x.len() ==> x[i] < fermat_modulus(shift),
    ensures
        intt(ntt(x, shift), shift) == x,
{
    let n = x.len();
    let k = log2_of(n);
    let m = fermat_modulus(shift) as int;
    lemma_pow2_pos(shift);
    assert(pow2(k) == n);
    let r = right_shift_amount(shift, k);
    let y = ntt(x, shift);
    assert forall|s: int| 0 <= s < n implies #[trigger] intt(y, shift)[s] == x[s] by {
        lemma_inverse_sum(x, shift, k, s as nat);
        let v = ntt(rev_tail(y), shift)[s];
        let xs = x[s] as int;
        assert(v == (xs * n) % m);
        lemma_mul_mod_noop_left(xs * n, pow2(r) as int, m);
        lemma_pow2_adds(r, k);
        assert((xs * n) * pow2(r) == xs * pow2(r + k)) by (nonlinear_arith)
            requires n == pow2(k), pow2(r + k) == pow2(r) * pow2(k);
        lemma_shift_inverse(shift, k);
        lemma_mul_mod_noop_right(xs, pow2(r + k) as int, m);
        lemma_small_mod(xs as nat, m as nat);
    }
    assert(intt(y, shift) =~= x);
}

/// The weighted sum reads only the first `c` entries.
pub proof fn lemma_tsum_prefix(z1: Seq<nat>, z2: Seq<nat>, g: nat, t: nat, c: nat)
    requires
        forall|i: int| 0 <= i < c ==> #[trigger] z1[i] == z2[i],
    ensures
        tsum(z1, g, t, c) == tsum(z2, g, t, c),
    decreases c,
{
    if c > 0 {
        lemma_tsum_prefix(z1, z2, g, t, (c - 1) as nat);
    }
}

/// A sequence of at most one least residue is its own transform.
pub proof fn lemma_ntt_short(x: Seq<nat>, shift: nat)
    requires
        x.len() <= 1,
        forall|i: int| 0 <= i < x.len() ==> x[i] < fermat_modulus(shift),
    ensures
        ntt(x, shift) == x,
{
    if x.len() == 1 {
        lemma_level_zero(x, shift, 0);
        assert(pow2(0) == 1) by { lemma2_to64(); }
        assert(rev_bits(0, 0) == 0);
        lemma_level_full(x, x, 0, shift, 0);
    }
    assert(ntt(x, shift) =~= x);
}

} // verus!
