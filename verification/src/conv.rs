//! Cyclic convolution and the transform: the transform of a convolution is
//! the product of the transforms, and the pieces of a product of numbers
//! are the convolution of their pieces.

use crate::fermat::fermat_modulus;
use crate::ntt::{
    intt, lemma_ntt_roundtrip, ntt, fsum, lemma_fsum_ext, lemma_fsum_mod, lemma_fsum_scale, lemma_fsum_swap, lemma_pow2_congruent,
    lemma_tsum_fsum, tsum,
};
use vstd::arithmetic::div_mod::*;
use vstd::arithmetic::mul::*;
use vstd::arithmetic::power2::*;
use vstd::prelude::*;

verus! {

/// Splitting a sum after its first `a` terms.
pub proof fn lemma_fsum_split(f: spec_fn(nat) -> int, a: nat, b: nat)
    ensures
        fsum(f, a + b) == fsum(f, a) + fsum(|i: nat| f(a + i), b),
    decreases b,
{
    if b > 0 {
        lemma_fsum_split(f, a, (b - 1) as nat);
        assert((a + b - 1) as nat == a + (b - 1) as nat);
    }
}

/// Reading the terms of a sum from `c` on, cyclically, does not change it.
pub proof fn lemma_fsum_rotate(f: spec_fn(nat) -> int, c: nat, n: nat)
    requires
        c < n,
    ensures
        fsum(|u: nat| f((u + c) % n), n) == fsum(f, n),
{
    let rot = |u: nat| f((u + c) % n);
    let m = (n - c) as nat;
    lemma_fsum_split(rot, m, c);
    lemma_fsum_split(f, c, m);
    assert(m + c == n && c + m == n);
    assert forall|i: nat| i < m implies #[trigger] rot(i) == f(c + i) by {
        lemma_small_mod((i + c) as nat, n);
    }
    lemma_fsum_ext(rot, |i: nat| f(c + i), m);
    assert forall|i: nat| i < c implies #[trigger] rot(m + i) == f(i) by {
        lemma_mod_add_multiples_vanish(i as int, n as int);
        lemma_small_mod(i, n);
        assert(m + i + c == n + i);
    }
    lemma_fsum_ext(|i: nat| rot(m + i), f, c);
    lemma_fsum_ext(|u: nat| f((u + c) % n), rot, n);
}

/// Entry `s` of the cyclic convolution of `a` and `b` (both of length n):
/// the sum of a[p] b[(s - p) mod n].
pub open spec fn conv_at(a: Seq<nat>, b: Seq<nat>, s: nat) -> int {
    fsum(|p: nat| (a[p as int] * b[((s + a.len() - p) % (a.len() as int))]) as int, a.len())
}

/// A term of the transform of the convolution: a[p] b[(s - p) mod n]
/// times the root to the power s t.
pub open spec fn conv_term(a: Seq<nat>, b: Seq<nat>, g: nat, t: nat, s: nat, p: nat) -> int {
    (a[p as int] * b[((s + a.len() - p) % (a.len() as int))]) as int * pow2(g * s * t)
}

/// A term of the product of the transforms: a[p] 2^(g p t) b[u] 2^(g u t).
pub open spec fn prod_term(a: Seq<nat>, b: Seq<nat>, g: nat, t: nat, p: nat, u: nat) -> int {
    (a[p as int] * pow2(g * p * t)) as int * (b[u as int] * pow2(g * u * t)) as int
}

/// Row `s` of the transform of the convolution.
pub open spec fn conv_row(a: Seq<nat>, b: Seq<nat>, g: nat, t: nat, s: nat) -> int {
    fsum(|p: nat| conv_term(a, b, g, t, s, p), a.len())
}

/// Column `p` of the transform of the convolution.
pub open spec fn conv_col(a: Seq<nat>, b: Seq<nat>, g: nat, t: nat, p: nat) -> int {
    fsum(|s: nat| conv_term(a, b, g, t, s, p), a.len())
}

/// Column `p` of the transform of the convolution, read from s = p on, is
/// column `p` of the product of the transforms, modulo 2^shift + 1.
proof fn lemma_conv_column(a: Seq<nat>, b: Seq<nat>, g: nat, t: nat, shift: nat, p: nat)
    requires
        a.len() == b.len(),
        p < a.len(),
        shift >= 1,
        g * a.len() == 2 * shift,
    ensures
        fsum(|s: nat| conv_term(a, b, g, t, s, p), a.len()) % (fermat_modulus(shift) as int)
            == fsum(|u: nat| prod_term(a, b, g, t, p, u), a.len()) % (fermat_modulus(shift) as int),
{
    let n = a.len();
    let m = fermat_modulus(shift) as int;
    lemma_pow2_pos(shift);
    let col = |s: nat| conv_term(a, b, g, t, s, p);
    lemma_fsum_rotate(col, p, n);
    assert forall|u: nat| u < n implies #[trigger] col((u + p) % n) % m == prod_term(a, b, g, t, p, u) % m by {
        let s = (u + p) % n;
        lemma_fundamental_div_mod((u + p) as int, n as int);
        lemma_mod_bound((u + p) as int, n as int);
        let w = (u + p) / n;
        assert(w == 0 || w == 1) by {
            lemma_div_is_ordered((u + p) as int, (2 * n - 1) as int, n as int);
            lemma_fundamental_div_mod_converse((2 * n - 1) as int, n as int, 1, (n - 1) as int);
        }
        // b's index comes back to u
        assert(((s + n - p) % (n as int)) == u) by {
            assert((u + p) as int == (n as int) * w + (s as int));
            lemma_mul_basics(n as int);
            if w == 0 {
                assert(s == u + p);
                lemma_mod_add_multiples_vanish(u as int, n as int);
                lemma_small_mod(u, n);
            } else {
                assert(s == u + p - n);
                lemma_small_mod(u, n);
            }
        }
        // the exponents agree modulo 2 shift
        let e1 = g * s * t;
        let e2 = g * p * t + g * u * t;
        assert(e2 == e1 + (2 * shift) * (w * t)) by (nonlinear_arith)
            requires e1 == g * s * t, e2 == g * p * t + g * u * t, u + p == n * w + s, g * n == 2 * shift;
        lemma_mod_multiples_vanish((w * t) as int, e1 as int, (2 * shift) as int);
        lemma_mul_is_commutative((w * t) as int, (2 * shift) as int);
        lemma_pow2_congruent(e1, e2, shift);
        lemma_pow2_adds(g * p * t, g * u * t);
        let ab = (a[p as int] * b[u as int]) as int;
        assert(col(s) == ab * pow2(e1));
        assert(prod_term(a, b, g, t, p, u) == ab * pow2(e2)) by (nonlinear_arith)
            requires prod_term(a, b, g, t, p, u) == (a[p as int] * pow2(g * p * t)) as int * (b[u as int] * pow2(g * u * t)) as int,
                pow2(e2) == pow2(g * p * t) * pow2(g * u * t), ab == a[p as int] * b[u as int];
        lemma_mul_mod_noop_right(ab, pow2(e1) as int, m);
        lemma_mul_mod_noop_right(ab, pow2(e2) as int, m);
    }
    lemma_fsum_mod(|u: nat| col((u + p) % n), |u: nat| prod_term(a, b, g, t, p, u), n, m);
}

/// The product of two weighted sums is the double sum of the products of
/// their terms.
proof fn lemma_prod_double(a: Seq<nat>, b: Seq<nat>, g: nat, t: nat)
    requires
        a.len() == b.len(),
    ensures
        tsum(a, g, t, a.len()) * tsum(b, g, t, a.len())
            == fsum(|p: nat| fsum(|u: nat| prod_term(a, b, g, t, p, u), a.len()), a.len()),
{
    let n = a.len();
    let alpha = |p: nat| (a[p as int] * pow2(g * p * t)) as int;
    let beta = |u: nat| (b[u as int] * pow2(g * u * t)) as int;
    lemma_tsum_fsum(a, g, t, n);
    lemma_tsum_fsum(b, g, t, n);
    let sb = fsum(beta, n);
    lemma_fsum_scale(alpha, sb, n);
    assert forall|p: nat| p < n implies #[trigger] (alpha(p) * sb) == fsum(|u: nat| prod_term(a, b, g, t, p, u), n) by {
        lemma_fsum_scale(beta, alpha(p), n);
        assert forall|u: nat| u < n implies #[trigger] (beta(u) * alpha(p)) == prod_term(a, b, g, t, p, u) by {
            lemma_mul_is_commutative(beta(u), alpha(p));
        }
        lemma_fsum_ext(|u: nat| beta(u) * alpha(p), |u: nat| prod_term(a, b, g, t, p, u), n);
        lemma_mul_is_commutative(sb, alpha(p));
    }
    lemma_fsum_ext(|p: nat| alpha(p) * sb, |p: nat| fsum(|u: nat| prod_term(a, b, g, t, p, u), n), n);
}

/// The weighted sum of the convolution, summed by columns.
proof fn lemma_conv_double(a: Seq<nat>, b: Seq<nat>, g: nat, t: nat)
    requires
        a.len() == b.len(),
    ensures
        fsum(|s: nat| conv_at(a, b, s) * pow2(g * s * t), a.len())
            == fsum(|p: nat| conv_col(a, b, g, t, p), a.len()),
{
    let n = a.len();
    let rows = |s: nat| conv_at(a, b, s) * pow2(g * s * t);
    assert forall|s: nat| s < n implies #[trigger] rows(s) == conv_row(a, b, g, t, s) by {
        let f = |p: nat| (a[p as int] * b[((s + n - p) % (n as int))]) as int;
        lemma_fsum_scale(f, pow2(g * s * t) as int, n);
        lemma_fsum_ext(|p: nat| f(p) * pow2(g * s * t), |p: nat| conv_term(a, b, g, t, s, p), n);
    }
    let ct = |s: nat, p: nat| conv_term(a, b, g, t, s, p);
    lemma_fsum_swap(ct, n, n);
    assert forall|s: nat| s < n implies #[trigger] conv_row(a, b, g, t, s) == fsum(|p: nat| ct(s, p), n) by {
        lemma_fsum_ext(|p: nat| conv_term(a, b, g, t, s, p), |p: nat| ct(s, p), n);
    }
    lemma_fsum_ext(rows, |s: nat| fsum(|p: nat| ct(s, p), n), n);
    assert forall|p: nat| p < n implies fsum(|s: nat| ct(s, p), n) == #[trigger] conv_col(a, b, g, t, p) by {
        lemma_fsum_ext(|s: nat| ct(s, p), |s: nat| conv_term(a, b, g, t, s, p), n);
    }
    lemma_fsum_ext(|p: nat| fsum(|s: nat| ct(s, p), n), |p: nat| conv_col(a, b, g, t, p), n);
}

/// The transform of the cyclic convolution is the product of the
/// transforms, modulo 2^shift + 1 (for a root 2^g of order n, g n = 2 shift).
pub proof fn lemma_conv_transform(a: Seq<nat>, b: Seq<nat>, g: nat, t: nat, shift: nat)
    requires
        a.len() == b.len(),
        shift >= 1,
        g * a.len() == 2 * shift,
    ensures
        (tsum(a, g, t, a.len()) * tsum(b, g, t, a.len())) % fermat_modulus(shift)
            == fsum(|s: nat| conv_at(a, b, s) * pow2(g * s * t), a.len()) % (fermat_modulus(shift) as int),
{
    let n = a.len();
    let m = fermat_modulus(shift) as int;
    lemma_pow2_pos(shift);
    lemma_prod_double(a, b, g, t);
    lemma_conv_double(a, b, g, t);
    let pcols = |p: nat| fsum(|u: nat| prod_term(a, b, g, t, p, u), n);
    assert forall|p: nat| p < n implies #[trigger] conv_col(a, b, g, t, p) % m == pcols(p) % m by {
        lemma_conv_column(a, b, g, t, shift, p);
    }
    lemma_fsum_mod(|p: nat| conv_col(a, b, g, t, p), pcols, n, m);
}

/// Column `p` of the weighted sum of the convolution is exactly column `p`
/// of the product when the two sequences are zero from `na` and `nb` on,
/// with na + nb <= n: no product wraps around.
proof fn lemma_conv_column_exact(a: Seq<nat>, b: Seq<nat>, g: nat, t: nat, p: nat, na: nat, nb: nat)
    requires
        a.len() == b.len(),
        p < a.len(),
        na + nb <= a.len(),
        forall|i: int| na <= i < a.len() ==> #[trigger] a[i] == 0,
        forall|i: int| nb <= i < b.len() ==> #[trigger] b[i] == 0,
    ensures
        conv_col(a, b, g, t, p) == fsum(|u: nat| prod_term(a, b, g, t, p, u), a.len()),
{
    let n = a.len();
    let col = |s: nat| conv_term(a, b, g, t, s, p);
    lemma_fsum_rotate(col, p, n);
    assert forall|u: nat| u < n implies #[trigger] col((u + p) % n) == prod_term(a, b, g, t, p, u) by {
        let s = (u + p) % n;
        let ap = a[p as int];
        let bu = b[u as int];
        if ap == 0 || bu == 0 {
            assert(ap * pow2(g * p * t) == 0 || bu * pow2(g * u * t) == 0) by (nonlinear_arith)
                requires ap == 0 || bu == 0;
            assert(prod_term(a, b, g, t, p, u) == 0) by (nonlinear_arith)
                requires prod_term(a, b, g, t, p, u) == (ap * pow2(g * p * t)) as int * (bu * pow2(g * u * t)) as int,
                    ap * pow2(g * p * t) == 0 || bu * pow2(g * u * t) == 0;
            lemma_fundamental_div_mod((u + p) as int, n as int);
            lemma_mod_bound((u + p) as int, n as int);
            let w = (u + p) / n;
            assert(w == 0 || w == 1) by {
                lemma_div_is_ordered((u + p) as int, (2 * n - 1) as int, n as int);
                lemma_fundamental_div_mod_converse((2 * n - 1) as int, n as int, 1, (n - 1) as int);
            }
            assert(((s + n - p) % (n as int)) == u) by {
                assert((u + p) as int == (n as int) * w + (s as int));
                lemma_mul_basics(n as int);
                if w == 0 {
                    assert(s == u + p);
                    lemma_mod_add_multiples_vanish(u as int, n as int);
                    lemma_small_mod(u, n);
                } else {
                    assert(s == u + p - n);
                    lemma_small_mod(u, n);
                }
            }
            assert(col(s) == 0) by (nonlinear_arith)
                requires col(s) == (ap * bu) as int * pow2(g * s * t), ap == 0 || bu == 0;
        } else {
            assert(p < na && u < nb);
            lemma_small_mod(u + p, n);
            assert(s == u + p);
            assert(((s + n - p) % (n as int)) == u) by {
                lemma_mod_add_multiples_vanish(u as int, n as int);
                lemma_small_mod(u, n);
            }
            assert(g * s * t == g * p * t + g * u * t) by (nonlinear_arith) requires s == u + p;
            lemma_pow2_adds(g * p * t, g * u * t);
            assert(col(s) == prod_term(a, b, g, t, p, u)) by (nonlinear_arith)
                requires col(s) == (ap * bu) as int * pow2(g * s * t),
                    prod_term(a, b, g, t, p, u) == (ap * pow2(g * p * t)) as int * (bu * pow2(g * u * t)) as int,
                    pow2(g * s * t) == pow2(g * p * t) * pow2(g * u * t);
        }
    }
    lemma_fsum_ext(|u: nat| col((u + p) % n), |u: nat| prod_term(a, b, g, t, p, u), n);
}

/// For sequences that are zero from `na` and `nb` on, with na + nb <= n,
/// the weighted sum of the convolution is the product of the weighted sums:
/// the convolution holds the coefficients of the product.
pub proof fn lemma_conv_product(a: Seq<nat>, b: Seq<nat>, g: nat, t: nat, na: nat, nb: nat)
    requires
        a.len() == b.len(),
        na + nb <= a.len(),
        forall|i: int| na <= i < a.len() ==> #[trigger] a[i] == 0,
        forall|i: int| nb <= i < b.len() ==> #[trigger] b[i] == 0,
    ensures
        fsum(|s: nat| conv_at(a, b, s) * pow2(g * s * t), a.len())
            == tsum(a, g, t, a.len()) * tsum(b, g, t, a.len()),
{
    let n = a.len();
    lemma_prod_double(a, b, g, t);
    lemma_conv_double(a, b, g, t);
    let pcols = |p: nat| fsum(|u: nat| prod_term(a, b, g, t, p, u), n);
    assert forall|p: nat| p < n implies #[trigger] conv_col(a, b, g, t, p) == pcols(p) by {
        lemma_conv_column_exact(a, b, g, t, p, na, nb);
    }
    lemma_fsum_ext(|p: nat| conv_col(a, b, g, t, p), pcols, n);
}

/// The pointwise product of two transforms modulo 2^shift + 1.
pub open spec fn pmul(x: Seq<nat>, y: Seq<nat>, shift: nat) -> Seq<nat> {
    Seq::new(x.len(), |t: int| (x[t] * y[t]) % fermat_modulus(shift))
}

/// The cyclic convolution of `a` and `b` reduced modulo 2^shift + 1.
pub open spec fn conv_mod(a: Seq<nat>, b: Seq<nat>, shift: nat) -> Seq<nat> {
    Seq::new(a.len(), |s: int| (conv_at(a, b, s as nat) % (fermat_modulus(shift) as int)) as nat)
}

/// Multiplying transforms pointwise and transforming back gives the cyclic
/// convolution modulo 2^shift + 1.
pub proof fn lemma_conv_inverse(a: Seq<nat>, b: Seq<nat>, shift: nat)
    requires
        shift >= 1,
        exists|k: nat| pow2(k) == a.len(),
        a.len() == b.len(),
        (2 * shift) % a.len() == 0,
    ensures
        intt(pmul(ntt(a, shift), ntt(b, shift), shift), shift) == conv_mod(a, b, shift),
{
    let n = a.len();
    let m = fermat_modulus(shift) as int;
    lemma_pow2_pos(shift);
    let k = choose|k: nat| pow2(k) == n;
    lemma_pow2_pos(k);
    let g = (2 * shift) / n;
    lemma_fundamental_div_mod((2 * shift) as int, n as int);
    assert(g * n == 2 * shift);
    let c = conv_mod(a, b, shift);
    assert forall|t: int| 0 <= t < n implies #[trigger] pmul(ntt(a, shift), ntt(b, shift), shift)[t] == ntt(c, shift)[t] by {
        let tt = t as nat;
        let ta = tsum(a, g, tt, n) as int;
        let tb = tsum(b, g, tt, n) as int;
        lemma_mul_mod_noop(ta, tb, m);
        lemma_conv_transform(a, b, g, tt, shift);
        lemma_tsum_fsum(c, g, tt, n);
        let f1 = |s: nat| conv_at(a, b, s) * pow2(g * s * tt);
        let f2 = |s: nat| (c[s as int] * pow2(g * s * tt)) as int;
        assert forall|s: nat| s < n implies #[trigger] f1(s) % m == f2(s) % m by {
            lemma_mod_bound(conv_at(a, b, s), m);
            lemma_mul_mod_noop_left(conv_at(a, b, s), pow2(g * s * tt) as int, m);
            lemma_mul_mod_noop_left(c[s as int] as int, pow2(g * s * tt) as int, m);
            lemma_mod_twice(conv_at(a, b, s), m);
        }
        lemma_fsum_mod(f1, f2, n, m);
    }
    assert(pmul(ntt(a, shift), ntt(b, shift), shift) =~= ntt(c, shift));
    assert forall|i: int| 0 <= i < c.len() implies c[i] < fermat_modulus(shift) by {
        lemma_mod_bound(conv_at(a, b, i as nat), m);
    }
    lemma_ntt_roundtrip(c, shift);
}

/// A sum of `c` terms in [0, u] is in [0, c u].
pub proof fn lemma_fsum_bounds(f: spec_fn(nat) -> int, c: nat, u: int)
    requires
        forall|i: nat| i < c ==> 0 <= #[trigger] f(i) <= u,
    ensures
        0 <= fsum(f, c) <= c * u,
    decreases c,
{
    if c > 0 {
        lemma_fsum_bounds(f, (c - 1) as nat, u);
        assert((c - 1) * u + u == c * u) by (nonlinear_arith);
    }
}

/// Each entry of the convolution of sequences with entries below `bound`
/// is at most n bound^2.
pub proof fn lemma_conv_bound(a: Seq<nat>, b: Seq<nat>, s: nat, bound: nat)
    requires
        a.len() == b.len(),
        a.len() > 0,
        forall|i: int| 0 <= i < a.len() ==> #[trigger] a[i] < bound,
        forall|i: int| 0 <= i < b.len() ==> #[trigger] b[i] < bound,
    ensures
        0 <= conv_at(a, b, s) <= a.len() * (bound * bound),
{
    let n = a.len();
    let f = |p: nat| (a[p as int] * b[((s + n - p) % (n as int))]) as int;
    assert forall|p: nat| p < n implies 0 <= #[trigger] f(p) <= bound * bound by {
        lemma_mod_bound(s + n - p, n as int);
        let j = (s + n - p) % (n as int);
        assert(a[p as int] < bound && b[j] < bound);
        lemma_mul_upper_bound(a[p as int] as int, bound as int, b[j] as int, bound as int);
    }
    lemma_fsum_bounds(f, n, (bound * bound) as int);
}

} // verus!
