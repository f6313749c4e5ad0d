//! Choice of the FFT parameters (piece size, transform length, Fermat
//! shift) for a product, and the memory such a product needs.

use vstd::arithmetic::div_mod::*;
use vstd::arithmetic::mul::*;
use vstd::arithmetic::power2::*;
use vstd::prelude::*;

verus! {

/// Bits per piece for operands of at most `max_bits` bits.
pub open spec fn piece_bits_for(max_bits: nat) -> nat {
    if max_bits < 10_000 {
        64
    } else if max_bits < 100_000 {
        256
    } else if max_bits < 1_000_000 {
        1024
    } else {
        4096
    }
}

/// Rounded-up quotient.
pub open spec fn ceil_div(a: nat, b: nat) -> nat {
    if b == 0 {
        0
    } else {
        ((a + b - 1) as nat) / b
    }
}

/// The least power of two that is at least `x`, with its exponent.
pub open spec fn is_least_pow2_at_least(p: nat, k: nat, x: nat) -> bool {
    &&& p == pow2(k)
    &&& x <= p
    &&& (k == 0 || pow2((k - 1) as nat) < x)
}

/// `a.div_ceil(b)` for a nonzero divisor.
pub fn div_ceil(a: usize, b: usize) -> (r: usize)
    requires
        b > 0,
    ensures
        r == ceil_div(a as nat, b as nat),
{
    let q = a / b;
    proof {
        lemma_fundamental_div_mod(a as int, b as int);
        lemma_mod_bound(a as int, b as int);
        assert(q <= q * b) by (nonlinear_arith) requires b >= 1;
        lemma_mul_is_commutative(q as int, b as int);
    }
    let r = if a % b != 0 { q + 1 } else { q };
    proof {
        let c = (a + b - 1) as int;
        if a % b != 0 {
            assert(c == (q + 1) * b + (a % b - 1)) by (nonlinear_arith)
                requires a == b * q + a % b, c == a + b - 1;
            lemma_fundamental_div_mod_converse_div(c, b as int, q + 1, (a % b - 1) as int);
        } else {
            assert(c == q * b + (b - 1)) by (nonlinear_arith)
                requires a == b * q + a % b, c == a + b - 1, a % b == 0;
            lemma_fundamental_div_mod_converse_div(c, b as int, q as int, (b - 1) as int);
        }
    }
    r
}

/// The least power of two at least `x` (for `x >= 1`), and its exponent.
fn next_power_of_two(x: usize) -> (r: (usize, usize))
    requires
        1 <= x <= usize::MAX / 2,
    ensures
        is_least_pow2_at_least(r.0 as nat, r.1 as nat, x as nat),
        r.1 < 64,
{
    let mut p: usize = 1;
    let mut k: usize = 0;
    proof {
        lemma2_to64();
    }
    while p < x
        invariant
            1 <= x <= usize::MAX / 2,
            p == pow2(k as nat),
            1 <= p,
            k == 0 || pow2((k - 1) as nat) < x,
            k < 64,
        decreases 64 - k,
    {
        proof {
            lemma_pow2_unfold((k + 1) as nat);
            assert(pow2(((k + 1) - 1) as nat) == p);
        }
        p = p * 2;
        k = k + 1;
        proof {
            lemma2_to64_rest();
            if k > 64 {
                lemma_pow2_strictly_increases(64, k as nat);
            }
        }
    }
    (p, k)
}

/// The parameters (bits per piece, transform length, Fermat shift) chosen
/// for an `a_bits`-bit by `b_bits`-bit product: pieces sized by the larger
/// operand, the least power-of-two length (at least 4) that holds both
/// operands' pieces, and the least multiple of half that length which is
/// at least 2 pb + log2(length) + 2.
pub open spec fn chosen_fft_params(a_bits: nat, b_bits: nat, pb: nat, n: nat, shift: nat) -> bool {
    let max_bits = if a_bits >= b_bits { a_bits } else { b_bits };
    let count = ceil_div(a_bits, piece_bits_for(max_bits)) + ceil_div(b_bits, piece_bits_for(max_bits));
    let target = if count >= 4 { count } else { 4 };
    &&& pb == piece_bits_for(max_bits)
    &&& exists|k: nat| is_least_pow2_at_least(n, k, target)
        && #[trigger] pow2(k) == n
        && shift == ceil_div((2 * pb + k + 2) as nat, n / 2) * (n / 2)
}

/// Bounds on the Fermat shift: a multiple of half the transform length, at
/// least the minimum, below the minimum plus that half, and even.
proof fn lemma_shift_facts(n: nat, log_n: nat, ms: nat, cd: nat, target: nat)
    requires
        n == pow2(log_n),
        n >= 4,
        log_n == 0 || pow2((log_n - 1) as nat) < target,
        cd == ceil_div(ms, n / 2),
    ensures
        ms <= cd * (n / 2) <= ms + n / 2 - 1,
        n < 2 * target,
        (cd * (n / 2)) % 2 == 0,
{
    let h = (n / 2) as int;
    if log_n < 2 {
        lemma2_to64();
        assert(false);
    }
    lemma_pow2_unfold(log_n);
    lemma_pow2_unfold((log_n - 1) as nat);
    assert(h == pow2((log_n - 1) as nat));
    assert(h == 2 * pow2((log_n - 2) as nat));
    lemma_fundamental_div_mod(ms + h - 1, h);
    lemma_mod_bound(ms + h - 1, h);
    assert(cd * h <= ms + h - 1 && cd * h >= ms) by (nonlinear_arith)
        requires ms + h - 1 == h * cd + (ms + h - 1) % h, 0 <= (ms + h - 1) % h < h, h > 0;
    assert(cd * h == (cd * pow2((log_n - 2) as nat)) * 2) by (nonlinear_arith)
        requires h == 2 * pow2((log_n - 2) as nat);
    lemma_mod_multiples_basic((cd * pow2((log_n - 2) as nat)) as int, 2);
}

/// Select the FFT parameters for multiplying an `a_bits`-bit number by a
/// `b_bits`-bit number: bits per piece, transform length, Fermat shift.
pub fn select_fft_params(a_bits: usize, b_bits: usize) -> (r: (usize, usize, usize))
    requires
        a_bits <= usize::MAX / 4,
        b_bits <= usize::MAX / 4,
    ensures
        chosen_fft_params(a_bits as nat, b_bits as nat, r.0 as nat, r.1 as nat, r.2 as nat),
        r.1 >= 4,
        r.2 % (r.1 / 2) == 0,
        64 <= r.0 <= 4096,
        r.1 <= 2 * (ceil_div(a_bits as nat, r.0 as nat) + ceil_div(b_bits as nat, r.0 as nat)) + 8,
        2 * r.0 + 2 <= r.2,
        r.2 < r.1 / 2 + 2 * r.0 + 68,
        r.2 % 2 == 0,
{
    let max_bits = if a_bits >= b_bits { a_bits } else { b_bits };
    let piece_bits: usize = if max_bits < 10_000 {
        64
    } else if max_bits < 100_000 {
        256
    } else if max_bits < 1_000_000 {
        1024
    } else {
        4096
    };
    let n_a = div_ceil(a_bits, piece_bits);
    let n_b = div_ceil(b_bits, piece_bits);
    proof {
        lemma_div_is_ordered((a_bits + piece_bits - 1) as int, (usize::MAX / 4 + 4095) as int, piece_bits as int);
        lemma_div_is_ordered((b_bits + piece_bits - 1) as int, (usize::MAX / 4 + 4095) as int, piece_bits as int);
        lemma_div_is_ordered_by_denominator((usize::MAX / 4 + 4095) as int, 64, piece_bits as int);
    }
    let count = n_a + n_b;
    let target = if count >= 4 { count } else { 4 };
    let (n, log_n) = next_power_of_two(target);
    proof {
        if log_n < 2 {
            lemma2_to64();
            assert(pow2(log_n as nat) <= 2);
        }
        lemma_pow2_unfold(log_n as nat);
        assert(n == 2 * pow2((log_n - 1) as nat));
    }
    let min_shift = 2 * piece_bits + log_n + 2;
    let half_n = n / 2;
    let cd = div_ceil(min_shift, half_n);
    proof {
        lemma_fundamental_div_mod((min_shift + half_n - 1) as int, half_n as int);
        lemma_mod_bound((min_shift + half_n - 1) as int, half_n as int);
        lemma_mul_is_commutative(cd as int, half_n as int);
    }
    let fermat_shift = cd * half_n;
    proof {
        lemma_div_is_ordered((min_shift + half_n - 1) as int, (min_shift + half_n) as int, half_n as int);
        lemma_fundamental_div_mod((min_shift + half_n) as int, half_n as int);
        lemma_mod_multiples_basic(ceil_div(min_shift as nat, half_n as nat) as int, half_n as int);
        assert(exists|k: nat| is_least_pow2_at_least(n as nat, k, target as nat)
            && #[trigger] pow2(k) == n
            && fermat_shift == ceil_div((2 * piece_bits + k + 2) as nat, (n / 2) as nat) * (n / 2)) by {
            assert(pow2(log_n as nat) == n);
        }
        lemma_shift_facts(n as nat, log_n as nat, min_shift as nat, cd as nat, target as nat);
    }
    (piece_bits, n, fermat_shift)
}

/// Spec of the memory estimate of an FFT product with transform length `n`
/// and Fermat shift `shift`.
pub open spec fn fft_memory_bytes(n: nat, shift: nat) -> nat {
    n * ((ceil_div(shift, 64) + 1) * 8) * 4 + n * 8 * 2
}

/// A rounded-up quotient by 8 is at most an eighth of the dividend plus one.
pub proof fn lemma_ceil_div_le(a: nat, b: nat)
    requires
        b == 8,
    ensures
        ceil_div(a, b) <= a / 8 + 1,
{
    vstd::arithmetic::div_mod::lemma_div_is_ordered((a + 7) as int, (a + 8) as int, 8);
    vstd::arithmetic::div_mod::lemma_div_plus_one(a as int, 8);
}

} // verus!
