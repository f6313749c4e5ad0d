//! Memory needed by one FFT product.

use crate::fft_params::{ceil_div, chosen_fft_params, div_ceil, fft_memory_bytes, select_fft_params};
use vstd::prelude::*;

verus! {

/// `x * y`, or `usize::MAX` when the product does not fit.
fn mul_sat(x: usize, y: usize) -> (r: usize)
    ensures
        r == if x * y <= usize::MAX { x * y } else { usize::MAX as int },
{
    match x.checked_mul(y) {
        Some(v) => v,
        None => usize::MAX,
    }
}

/// `x + y`, or `usize::MAX` when the sum does not fit.
fn add_sat(x: usize, y: usize) -> (r: usize)
    ensures
        r == if x + y <= usize::MAX { x + y } else { usize::MAX as int },
{
    x.saturating_add(y)
}

/// Bytes of memory an FFT product of an `a_bits`-bit number by a
/// `b_bits`-bit number uses: four polynomials of the transform length, each
/// coefficient a Fermat number of ceil(shift / 64) + 1 limbs, and two root
/// tables of 8-byte words. An estimate too large for `usize` is
/// `usize::MAX`.
pub fn estimate_fft_memory(a_bits: usize, b_bits: usize) -> (r: usize)
    requires
        a_bits <= usize::MAX / 4,
        b_bits <= usize::MAX / 4,
    ensures
        exists|pb: nat, n: nat, shift: nat| #[trigger] chosen_fft_params(a_bits as nat, b_bits as nat, pb, n, shift)
            && r == saturated(fft_memory_bytes(n, shift)),
{
    let (piece_bits, n, shift) = select_fft_params(a_bits, b_bits);
    let limbs_per_element = div_ceil(shift, 64) + 1;
    let bytes_per_element = mul_sat(limbs_per_element, 8);
    let nb = mul_sat(n, bytes_per_element);
    let poly_bytes = mul_sat(nb, 4);
    let root_bytes = mul_sat(mul_sat(n, 8), 2);
    let r = add_sat(poly_bytes, root_bytes);
    proof {
        let e = fft_memory_bytes(n as nat, shift as nat);
        let lpe = ceil_div(shift as nat, 64) + 1;
        assert(lpe == limbs_per_element);
        assert(e == n * (lpe * 8) * 4 + n * 8 * 2);
        assert(n * (lpe * 8) * 4 >= 0 && n * 8 * 2 >= 0) by (nonlinear_arith);
        if e <= usize::MAX {
            assert(n * (lpe * 8) * 4 <= usize::MAX);
            assert(lpe * 8 <= n * (lpe * 8) * 4) by (nonlinear_arith) requires n >= 4;
            assert(n * (lpe * 8) <= n * (lpe * 8) * 4) by (nonlinear_arith);
            assert(n * 8 <= n * 8 * 2) by (nonlinear_arith);
        } else {
            assert(r == usize::MAX) by {
                if bytes_per_element == usize::MAX {
                    assert(n * bytes_per_element * 4 >= usize::MAX) by (nonlinear_arith)
                        requires n >= 4, bytes_per_element == usize::MAX;
                } else if nb == usize::MAX {
                } else if poly_bytes == usize::MAX {
                } else if n * 8 > usize::MAX || n * 8 * 2 > usize::MAX {
                    assert(root_bytes == usize::MAX);
                }
            }
        }
        assert(chosen_fft_params(a_bits as nat, b_bits as nat, piece_bits as nat, n as nat, shift as nat));
    }
    r
}

/// `v`, capped at `usize::MAX`.
pub open spec fn saturated(v: nat) -> nat {
    if v <= usize::MAX { v } else { usize::MAX as nat }
}

} // verus!
