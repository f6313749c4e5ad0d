//! Entry point of the transform that picks sequential or parallel work.

use crate::fermat::FermatNum;
use crate::fft_core::{all_reduced, all_residues, fft_forward, is_pow2, is_residue, values};
use crate::ntt::{lemma_ntt_short, ntt};
use vstd::prelude::*;

verus! {

/// Forward transform in place (see `fft_forward`). Lengths above
/// `parallel_threshold` run the same sequential transform, which is all this
/// version provides.
pub fn fft_recursive(data: &mut Vec<FermatNum>, shift: usize, parallel_threshold: usize)
    requires
        old(data)@.len() == 0 || is_pow2(old(data)@.len() as nat),
        all_residues(old(data)@, shift),
        old(data)@.len() >= 2 ==> all_reduced(old(data)@, shift),
        shift >= 2,
    ensures
        final(data)@.len() == old(data)@.len(),
        all_residues(final(data)@, shift),
        all_reduced(old(data)@, shift) ==> all_reduced(final(data)@, shift),
        old(data)@.len() <= 1 ==> final(data)@ == old(data)@,
        ((2 * shift) as nat) % (old(data)@.len() as nat) == 0 ==> values(final(data)@) == ntt(values(old(data)@), shift as nat),
{
    let n = data.len();
    if n <= 1 {
        proof {
            if n == 1 {
                assert(is_residue(data@[0], shift));
            }
            lemma_ntt_short(values(data@), shift as nat);
        }
        return;
    }
    if n <= parallel_threshold {
        fft_sequential(data, shift);
    } else {
        fft_sequential(data, shift);
    }
}

/// The sequential forward transform.
fn fft_sequential(data: &mut Vec<FermatNum>, shift: usize)
    requires
        old(data)@.len() == 0 || is_pow2(old(data)@.len() as nat),
        all_residues(old(data)@, shift),
        old(data)@.len() >= 2 ==> all_reduced(old(data)@, shift),
        shift >= 2,
    ensures
        final(data)@.len() == old(data)@.len(),
        all_residues(final(data)@, shift),
        all_reduced(old(data)@, shift) ==> all_reduced(final(data)@, shift),
        old(data)@.len() <= 1 ==> final(data)@ == old(data)@,
        ((2 * shift) as nat) % (old(data)@.len() as nat) == 0 ==> values(final(data)@) == ntt(values(old(data)@), shift as nat),
{
    fft_forward(data, shift);
}

} // verus!
