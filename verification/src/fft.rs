//! Products of big numbers: schoolbook below a size threshold, and through
//! the number-theoretic transform modulo 2^s + 1 above it.

use crate::big::{big_bits, big_is_zero, big_mul, big_val, big_zero, is_bit_length, lemma_bits_unique};
use crate::fermat::{fermat_limbs, FermatNum};
use crate::fft_core::{all_reduced, fft_forward, fft_inverse, is_pow2, is_reduced, lemma_pow2_le, lemma_reduced_residues, values};
use crate::fft_params::{ceil_div, chosen_fft_params, is_least_pow2_at_least, select_fft_params};
use crate::fft_poly::{digits_val, lemma_digits_tsum, lemma_pieces_sum, lemma_pieces_zero, piece, pieces, pointwise_multiply, reassemble, Poly};
use crate::ntt::{intt, lemma_fsum_ext, lemma_tsum_fsum, ntt, tsum};
use crate::conv::{conv_at, conv_mod, lemma_conv_bound, lemma_conv_inverse, lemma_conv_product, pmul};
use crate::fermat::fermat_modulus;
use crate::arith::limb_weight;
use num_bigint::BigUint;
use vstd::arithmetic::div_mod::*;
use vstd::arithmetic::mul::*;
use vstd::arithmetic::power2::*;
use vstd::prelude::*;

verus! {

/// Operand size (bits) from which products go through the transform.
pub const FFT_BIT_THRESHOLD: u64 = 10_000;

/// Largest operand size (bits) that the transform's index arithmetic
/// handles; larger operands, which no machine can hold, are multiplied
/// directly.
pub open spec fn fft_bits_limit() -> nat {
    (usize::MAX / 16) as nat
}

/// `fft_bits_limit` for executable code.
fn max_fft_bits() -> (r: u64)
    ensures
        r == fft_bits_limit(),
{
    (usize::MAX / 16) as u64
}

/// A bit length below 2^B is at most B.
proof fn lemma_bits_bound(v: nat, r: nat, b: nat)
    requires
        is_bit_length(v, r),
        v < pow2(b),
    ensures
        r <= b,
{
    if r > b {
        lemma_pow2_le(b, (r - 1) as nat);
    }
}

/// The transform's parameters keep every index below the machine limits.
proof fn lemma_param_room(a_bits: nat, b_bits: nat, pb: nat, n: nat, shift: nat)
    requires
        a_bits <= fft_bits_limit(),
        b_bits <= fft_bits_limit(),
        64 <= pb <= 4096,
        n <= 2 * (ceil_div(a_bits, pb) + ceil_div(b_bits, pb)) + 8,
        shift < n / 2 + 2 * pb + 68,
    ensures
        n * pb <= usize::MAX,
        shift <= usize::MAX / 4,
{
    assert(ceil_div(a_bits, pb) * pb <= a_bits + pb) by {
        lemma_fundamental_div_mod((a_bits + pb - 1) as int, pb as int);
        lemma_mod_bound((a_bits + pb - 1) as int, pb as int);
        lemma_mul_is_commutative(ceil_div(a_bits, pb) as int, pb as int);
    }
    assert(ceil_div(b_bits, pb) * pb <= b_bits + pb) by {
        lemma_fundamental_div_mod((b_bits + pb - 1) as int, pb as int);
        lemma_mod_bound((b_bits + pb - 1) as int, pb as int);
        lemma_mul_is_commutative(ceil_div(b_bits, pb) as int, pb as int);
    }
    assert(n * pb <= 2 * (ceil_div(a_bits, pb) * pb + ceil_div(b_bits, pb) * pb) + 8 * pb) by (nonlinear_arith)
        requires n <= 2 * (ceil_div(a_bits, pb) + ceil_div(b_bits, pb)) + 8;
    assert(n <= n * pb / 64) by {
        assert(64 * n <= n * pb) by (nonlinear_arith) requires pb >= 64;
        lemma_div_is_ordered((64 * n) as int, (n * pb) as int, 64);
    }
}

/// The values of the pieces of `v`, split for the transform, are the
/// pieces themselves.
proof fn lemma_poly_values(v: nat, c: Seq<FermatNum>, pb: nat, n: nat, shift: usize)
    requires
        2 * pb + 2 <= shift,
        c.len() == n,
        forall|i: int| 0 <= i < c.len() ==> (#[trigger] c[i]).shift == shift
            && c[i].data@.len() == fermat_limbs(shift as nat)
            && c[i].value() == piece(v, pb, i as nat) % limb_weight(fermat_limbs(shift as nat) as int),
    ensures
        values(c) == pieces(v, pb, n),
{
    assert forall|i: int| 0 <= i < n implies #[trigger] values(c)[i] == pieces(v, pb, n)[i] by {
        lemma_pow2_pos(pb);
        lemma_mod_bound((v / pow2(pb * i as nat)) as int, pow2(pb) as int);
        assert(64 * fermat_limbs(shift as nat) >= shift);
        lemma_pow2_le(pb, (64 * fermat_limbs(shift as nat)) as nat);
        lemma_small_mod(piece(v, pb, i as nat), limb_weight(fermat_limbs(shift as nat) as int));
    }
    assert(values(c) =~= pieces(v, pb, n));
}

/// The values of a pointwise product of reduced transforms.
proof fn lemma_pointwise_values(a: Seq<FermatNum>, b: Seq<FermatNum>, r: Seq<FermatNum>, shift: usize)
    requires
        all_reduced(a, shift),
        a.len() == b.len(),
        r.len() == a.len(),
        forall|i: int| 0 <= i < a.len() ==> (#[trigger] r[i]).shift == a[i].shift
            && r[i].value() == (a[i].value() * b[i].value()) % a[i].fmod(),
    ensures
        values(r) == pmul(values(a), values(b), shift as nat),
{
    assert forall|i: int| 0 <= i < r.len() implies #[trigger] values(r)[i] == pmul(values(a), values(b), shift as nat)[i] by {
        assert(is_reduced(a[i], shift));
    }
    assert(values(r) =~= pmul(values(a), values(b), shift as nat));
}

/// Product of two numbers through the transform.
pub fn fft_multiply(a: &BigUint, b: &BigUint) -> (r: BigUint)
    requires
        big_val(*a) < pow2(fft_bits_limit()),
        big_val(*b) < pow2(fft_bits_limit()),
    ensures
        big_val(r) == big_val(*a) * big_val(*b),
{
    if big_is_zero(a) || big_is_zero(b) {
        proof {
            lemma_mul_by_zero_is_zero(big_val(*a) as int);
            lemma_mul_by_zero_is_zero(big_val(*b) as int);
        }
        return big_zero();
    }
    let a_bits64 = big_bits(a);
    let b_bits64 = big_bits(b);
    proof {
        lemma_bits_bound(big_val(*a), a_bits64 as nat, fft_bits_limit());
        lemma_bits_bound(big_val(*b), b_bits64 as nat, fft_bits_limit());
    }
    let a_bits = a_bits64 as usize;
    let b_bits = b_bits64 as usize;
    let (piece_bits, n, fermat_shift) = select_fft_params(a_bits, b_bits);
    let ghost va = big_val(*a);
    let ghost vb = big_val(*b);
    let ghost pb = piece_bits as nat;
    let ghost kk: nat;
    let ghost na: nat;
    let ghost nb: nat;
    proof {
        lemma_param_room(a_bits as nat, b_bits as nat, piece_bits as nat, n as nat, fermat_shift as nat);
        let r = lemma_params_facts(a_bits as nat, b_bits as nat, pb, n as nat, fermat_shift as nat);
        kk = r.0;
        na = r.1;
        nb = r.2;
        lemma_pow2_le(a_bits as nat, pb * na);
        lemma_pow2_le(b_bits as nat, pb * nb);
    }
    let poly_a = Poly::from_biguint(a, n, piece_bits, fermat_shift);
    let poly_b = Poly::from_biguint(b, n, piece_bits, fermat_shift);
    let mut coeffs_a = poly_a.coeffs;
    let mut coeffs_b = poly_b.coeffs;
    proof {
        lemma_pieces_reduced(big_val(*a), coeffs_a@, piece_bits as nat, fermat_shift);
        lemma_pieces_reduced(big_val(*b), coeffs_b@, piece_bits as nat, fermat_shift);
        lemma_poly_values(va, coeffs_a@, pb, n as nat, fermat_shift);
        lemma_poly_values(vb, coeffs_b@, pb, n as nat, fermat_shift);
    }
    proof {
        lemma_reduced_residues(coeffs_a@, fermat_shift);
        lemma_reduced_residues(coeffs_b@, fermat_shift);
    }
    fft_forward(&mut coeffs_a, fermat_shift);
    fft_forward(&mut coeffs_b, fermat_shift);
    proof {
        assert forall|i: int| 0 <= i < coeffs_a@.len() implies (#[trigger] coeffs_a@[i]).shift == coeffs_b@[i].shift by {
            assert(is_reduced(coeffs_a@[i], fermat_shift));
            assert(is_reduced(coeffs_b@[i], fermat_shift));
        }
    }
    let mut result_coeffs = pointwise_multiply(&coeffs_a, &coeffs_b, fermat_shift);
    proof {
        lemma_products_reduced(coeffs_a@, result_coeffs@, fermat_shift);
        lemma_pointwise_values(coeffs_a@, coeffs_b@, result_coeffs@, fermat_shift);
    }
    proof {
        lemma_reduced_residues(result_coeffs@, fermat_shift);
    }
    fft_inverse(&mut result_coeffs, fermat_shift);
    let r = reassemble(&result_coeffs, piece_bits);
    proof {
        lemma_transform_product(va, vb, pb, n as nat, kk, fermat_shift as nat, na, nb);
    }
    r
}

/// Square of a number through the transform.
pub fn fft_square(a: &BigUint) -> (r: BigUint)
    requires
        big_val(*a) < pow2(fft_bits_limit()),
    ensures
        big_val(r) == big_val(*a) * big_val(*a),
{
    if big_is_zero(a) {
        proof {
            lemma_mul_by_zero_is_zero(big_val(*a) as int);
        }
        return big_zero();
    }
    let a_bits64 = big_bits(a);
    proof {
        lemma_bits_bound(big_val(*a), a_bits64 as nat, fft_bits_limit());
    }
    let a_bits = a_bits64 as usize;
    let (piece_bits, n, fermat_shift) = select_fft_params(a_bits, a_bits);
    let ghost va = big_val(*a);
    let ghost pb = piece_bits as nat;
    let ghost kk: nat;
    let ghost na: nat;
    proof {
        lemma_param_room(a_bits as nat, a_bits as nat, piece_bits as nat, n as nat, fermat_shift as nat);
        let r = lemma_params_facts(a_bits as nat, a_bits as nat, pb, n as nat, fermat_shift as nat);
        kk = r.0;
        na = r.1;
        lemma_pow2_le(a_bits as nat, pb * na);
    }
    let poly_a = Poly::from_biguint(a, n, piece_bits, fermat_shift);
    let mut coeffs = poly_a.coeffs;
    proof {
        lemma_pieces_reduced(big_val(*a), coeffs@, piece_bits as nat, fermat_shift);
        lemma_poly_values(va, coeffs@, pb, n as nat, fermat_shift);
    }
    proof {
        lemma_reduced_residues(coeffs@, fermat_shift);
    }
    fft_forward(&mut coeffs, fermat_shift);
    let ghost fwd = coeffs@;
    let mut i: usize = 0;
    while i < coeffs.len()
        invariant
            i <= coeffs@.len(),
            coeffs@.len() == n,
            fwd.len() == n,
            n * piece_bits <= usize::MAX,
            is_pow2(coeffs@.len() as nat),
            fermat_shift >= 2,
            all_reduced(coeffs@, fermat_shift),
            all_reduced(fwd, fermat_shift),
            forall|k: int| i <= k < n ==> #[trigger] coeffs@[k] == fwd[k],
            forall|k: int| 0 <= k < i ==> #[trigger] coeffs@[k].value()
                == pmul(values(fwd), values(fwd), fermat_shift as nat)[k],
        decreases coeffs@.len() - i,
    {
        let squared = coeffs[i].fermat_mul(&coeffs[i]);
        let ghost before = coeffs@;
        proof {
            assert(is_reduced(before[i as int], fermat_shift));
            lemma_mod_bound((before[i as int].value() * before[i as int].value()) as int,
                before[i as int].fmod() as int);
        }
        coeffs.set(i, squared);
        proof {
            assert forall|k: int| 0 <= k < coeffs@.len() implies #[trigger] is_reduced(coeffs@[k], fermat_shift) by {
                if k != i as int {
                    assert(is_reduced(before[k], fermat_shift));
                }
            }
        }
        i += 1;
    }
    proof {
        assert(values(coeffs@) =~= pmul(values(fwd), values(fwd), fermat_shift as nat));
    }
    proof {
        lemma_reduced_residues(coeffs@, fermat_shift);
    }
    fft_inverse(&mut coeffs, fermat_shift);
    let r = reassemble(&coeffs, piece_bits);
    proof {
        lemma_transform_product(va, va, pb, n as nat, kk, fermat_shift as nat, na, na);
    }
    r
}

/// The pieces of a number, split for the transform, are least residues.
proof fn lemma_pieces_reduced(v: nat, c: Seq<FermatNum>, pb: nat, shift: usize)
    requires
        2 * pb + 2 <= shift,
        shift <= usize::MAX / 4,
        shift % 2 == 0,
        forall|i: int| 0 <= i < c.len() ==> (#[trigger] c[i]).shift == shift
            && c[i].data@.len() == fermat_limbs(shift as nat)
            && c[i].value() == piece(v, pb, i as nat) % limb_weight(fermat_limbs(shift as nat) as int),
    ensures
        all_reduced(c, shift),
{
    assert forall|i: int| 0 <= i < c.len() implies #[trigger] is_reduced(c[i], shift) by {
        lemma_pow2_pos(pb);
        lemma_pow2_pos((64 * fermat_limbs(shift as nat)) as nat);
        lemma_mod_bound((v / pow2(pb * i as nat)) as int, pow2(pb) as int);
        lemma_pow2_le(pb, (64 * fermat_limbs(shift as nat)) as nat);
        lemma_small_mod(piece(v, pb, i as nat), limb_weight(fermat_limbs(shift as nat) as int));
        lemma_pow2_le(pb, shift as nat);
    }
}

/// Products of least residues reduced modulo the Fermat number are least
/// residues.
proof fn lemma_products_reduced(a: Seq<FermatNum>, r: Seq<FermatNum>, shift: usize)
    requires
        all_reduced(a, shift),
        r.len() == a.len(),
        forall|i: int| 0 <= i < a.len() ==> (#[trigger] r[i]).shift == a[i].shift
            && r[i].data@.len() == fermat_limbs(a[i].shift as nat)
            && r[i].value() < a[i].fmod(),
    ensures
        all_reduced(r, shift),
{
    assert forall|i: int| 0 <= i < r.len() implies #[trigger] is_reduced(r[i], shift) by {
        assert(is_reduced(a[i], shift));
    }
}

/// Product of two numbers: schoolbook below `FFT_BIT_THRESHOLD` bits,
/// through the transform from there on.
pub fn mul(a: &BigUint, b: &BigUint) -> (r: BigUint)
    ensures
        big_val(r) == big_val(*a) * big_val(*b),
{
    let a_bits = big_bits(a);
    let b_bits = big_bits(b);
    proof {
        lemma_bits_unique(big_val(*a), a_bits as nat);
        lemma_bits_unique(big_val(*b), b_bits as nat);
    }
    let max_bits = if a_bits >= b_bits { a_bits } else { b_bits };
    if max_bits >= FFT_BIT_THRESHOLD && max_bits <= max_fft_bits() {
        proof {
            lemma_pow2_le(a_bits as nat, fft_bits_limit());
            lemma_pow2_le(b_bits as nat, fft_bits_limit());
        }
        fft_multiply(a, b)
    } else {
        big_mul(a, b)
    }
}

/// Square of a number: schoolbook below `FFT_BIT_THRESHOLD` bits, through
/// the transform from there on.
pub fn sqr(a: &BigUint) -> (r: BigUint)
    ensures
        big_val(r) == big_val(*a) * big_val(*a),
{
    let bits = big_bits(a);
    proof {
        lemma_bits_unique(big_val(*a), bits as nat);
    }
    if bits >= FFT_BIT_THRESHOLD && bits <= max_fft_bits() {
        proof {
            lemma_pow2_le(bits as nat, fft_bits_limit());
        }
        fft_square(a)
    } else {
        big_mul(a, a)
    }
}

/// `*dst = mul(a, b)`.
pub fn mul_to(dst: &mut BigUint, a: &BigUint, b: &BigUint)
    ensures
        big_val(*final(dst)) == big_val(*a) * big_val(*b),
{
    *dst = self::mul(a, b);
}

/// `*dst = sqr(a)`.
pub fn sqr_to(dst: &mut BigUint, a: &BigUint)
    ensures
        big_val(*final(dst)) == big_val(*a) * big_val(*a),
{
    *dst = sqr(a);
}

/// Rounding up to a multiple of `h` gives at least the number.
proof fn lemma_ceil_div_mul_ge(x: nat, h: nat)
    requires
        h > 0,
    ensures
        ceil_div(x, h) * h >= x,
{
    lemma_fundamental_div_mod((x + h - 1) as int, h as int);
    lemma_mod_bound((x + h - 1) as int, h as int);
    lemma_mul_is_commutative(ceil_div(x, h) as int, h as int);
}

/// The piece counts and the transform length that the parameters give: the
/// operands fit in `na` and `nb` pieces, na + nb <= n = 2^k, n divides
/// 2 shift, and the shift leaves room for every coefficient of the product.
proof fn lemma_params_facts(a_bits: nat, b_bits: nat, pb: nat, n: nat, shift: nat) -> (r: (nat, nat, nat))
    requires
        chosen_fft_params(a_bits, b_bits, pb, n, shift),
        n >= 4,
        shift % (n / 2) == 0,
        pb >= 64,
    ensures
        pow2(r.0) == n,
        r.1 == ceil_div(a_bits, pb),
        r.2 == ceil_div(b_bits, pb),
        a_bits <= pb * r.1,
        b_bits <= pb * r.2,
        r.1 + r.2 <= n,
        2 * pb + r.0 + 2 <= shift,
        (2 * shift) % n == 0,
{
    let max_bits = if a_bits >= b_bits { a_bits } else { b_bits };
    let na = ceil_div(a_bits, pb);
    let nb = ceil_div(b_bits, pb);
    let count = na + nb;
    let target = if count >= 4 { count } else { 4 };
    let k = choose|k: nat| is_least_pow2_at_least(n, k, target) && #[trigger] pow2(k) == n
        && shift == ceil_div((2 * pb + k + 2) as nat, n / 2) * (n / 2);
    lemma_ceil_div_mul_ge(a_bits, pb);
    lemma_ceil_div_mul_ge(b_bits, pb);
    lemma_mul_is_commutative(na as int, pb as int);
    lemma_mul_is_commutative(nb as int, pb as int);
    lemma_ceil_div_mul_ge((2 * pb + k + 2) as nat, n / 2);
    // n is even: n = 2^k with k >= 2
    if k < 2 {
        lemma2_to64();
        if k == 0 {
            assert(pow2(0) == 1);
        } else {
            assert(pow2(1) == 2);
        }
    }
    lemma_pow2_unfold(k);
    assert(n == 2 * (n / 2));
    lemma_fundamental_div_mod(shift as int, (n / 2) as int);
    let c = shift / (n / 2);
    assert(2 * shift == n * c) by (nonlinear_arith) requires shift == (n / 2) * c, n == 2 * (n / 2);
    lemma_mod_multiples_basic(c as int, n as int);
    lemma_mul_is_commutative(c as int, n as int);
    (k, na, nb)
}

/// The pieces of a number are below 2^pb and, read back, give the number.
proof fn lemma_piece_values(v: nat, pb: nat, n: nat, na: nat)
    requires
        v < pow2(pb * na),
        na <= n,
    ensures
        forall|i: int| 0 <= i < n ==> #[trigger] pieces(v, pb, n)[i] < pow2(pb),
        digits_val(pieces(v, pb, n), pb) == v,
        tsum(pieces(v, pb, n), pb, 1, n) == v,
{
    lemma_pow2_pos(pb);
    assert forall|i: int| 0 <= i < n implies #[trigger] pieces(v, pb, n)[i] < pow2(pb) by {
        lemma_pow2_pos(pb * (i as nat));
        lemma_mod_bound((v / pow2(pb * (i as nat))) as int, pow2(pb) as int);
    }
    lemma_pieces_sum(v, pb, n);
    assert(pb * na <= pb * n) by (nonlinear_arith) requires na <= n;
    lemma_pow2_le(pb * na, pb * n);
    lemma_small_mod(v, pow2(pb * n));
    lemma_digits_tsum(pieces(v, pb, n), pb);
}

/// Through the transform, the product of the pieces of two numbers read
/// back gives the product of the numbers: the inverse transform of the
/// pointwise product is the convolution of the pieces, each of its entries
/// is below 2^shift + 1, and the convolution holds the coefficients of the
/// product.
proof fn lemma_transform_product(va: nat, vb: nat, pb: nat, n: nat, k: nat, shift: nat, na: nat, nb: nat)
    requires
        pow2(k) == n,
        (2 * shift) % n == 0,
        shift >= 1,
        2 * pb + k + 2 <= shift,
        va < pow2(pb * na),
        vb < pow2(pb * nb),
        na + nb <= n,
    ensures
        digits_val(intt(pmul(ntt(pieces(va, pb, n), shift), ntt(pieces(vb, pb, n), shift), shift), shift), pb)
            == va * vb,
{
    let xa = pieces(va, pb, n);
    let xb = pieces(vb, pb, n);
    let m = fermat_modulus(shift) as int;
    lemma_pow2_pos(k);
    lemma_piece_values(va, pb, n, na);
    lemma_piece_values(vb, pb, n, nb);
    lemma_pieces_zero(va, pb, n, na);
    lemma_pieces_zero(vb, pb, n, nb);
    lemma_conv_inverse(xa, xb, shift);
    let cs = conv_mod(xa, xb, shift);
    let bound = pow2(pb);
    // every entry of the convolution is below 2^(k + 2 pb) < 2^shift + 1
    lemma_pow2_adds(pb, pb);
    lemma_pow2_adds(k, pb + pb);
    lemma_pow2_le(k + pb + pb, shift);
    assert forall|s: nat| s < n implies 0 <= #[trigger] conv_at(xa, xb, s) < m by {
        lemma_conv_bound(xa, xb, s, bound);
        assert(n * (bound * bound) == pow2(k + (pb + pb)));
    }
    assert forall|s: int| 0 <= s < n implies #[trigger] cs[s] == conv_at(xa, xb, s as nat) by {
        lemma_small_mod(conv_at(xa, xb, s as nat) as nat, m as nat);
    }
    // read back, the convolution is the product
    lemma_digits_tsum(cs, pb);
    lemma_tsum_fsum(cs, pb, 1, n);
    lemma_fsum_ext(|s: nat| (cs[s as int] * pow2(pb * s * 1)) as int, |s: nat| conv_at(xa, xb, s) * pow2(pb * s * 1), n);
    lemma_conv_product(xa, xb, pb, 1, na, nb);
}

} // verus!
