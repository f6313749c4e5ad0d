//! Sources of temporary big numbers.

use crate::big::{big_val, big_zero};
use num_bigint::BigUint;
use vstd::prelude::*;

verus! {

/// Something that hands out temporary big numbers and takes them back.
pub trait TempAllocator {
    /// A number to use as a temporary of at least `min_bits` bits.
    fn allocate(&self, min_bits: usize) -> BigUint;

    /// Give a temporary back.
    fn free(&self, value: BigUint);
}

/// Allocator that hands out fresh zeros and drops what it gets back.
pub struct SimpleAllocator;

impl TempAllocator for SimpleAllocator {
    fn allocate(&self, min_bits: usize) -> (r: BigUint)
        ensures
            big_val(r) == 0,
    {
        big_zero()
    }

    fn free(&self, value: BigUint) {
    }
}

} // verus!
