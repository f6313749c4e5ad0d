//! Size of a big number.

use crate::big::{big_bits, big_val, bits_of, lemma_bits_unique};
use num_bigint::BigUint;
use vstd::prelude::*;

verus! {

/// Number of significant bits of `n` (0 for zero).
pub fn bit_length(n: &BigUint) -> (r: usize)
    requires
        bits_of(big_val(*n)) <= usize::MAX,
    ensures
        r == bits_of(big_val(*n)),
{
    let b = big_bits(n);
    proof {
        lemma_bits_unique(big_val(*n), b as nat);
    }
    b as usize
}

} // verus!
