//! Generators of runs of consecutive Fibonacci numbers.

use crate::big::big_val;
use crate::calculator::FibError;
use crate::fibonacci::fib;
use crate::progress::CancellationToken;
use num_bigint::BigUint;
use vstd::prelude::*;

verus! {

/// `v` lists (i, F(i)) for i from `start` to `end`.
pub open spec fn is_fib_run(v: Seq<(u64, BigUint)>, start: u64, end: u64) -> bool {
    &&& v.len() == end - start + 1
    &&& forall|j: int| 0 <= j < v.len() ==> (#[trigger] v[j]).0 == start + j && big_val(v[j].1) == fib(
        (start + j) as nat)
}

/// Something that lists consecutive Fibonacci numbers.
pub trait SequenceGenerator {
    /// (i, F(i)) for i from `start` to `end`; `start > end` is a
    /// configuration error.
    fn generate(&self, start: u64, end: u64, cancel: &CancellationToken) -> (r: Result<Vec<(u64, BigUint)>, FibError>)
        ensures
            start > end ==> (r matches Err(FibError::Config(s)) && s@ == "start must be <= end"@),
            start <= end && r is Err ==> r == Err::<Vec<(u64, BigUint)>, FibError>(FibError::Cancelled),
            r is Ok ==> start <= end && is_fib_run(r->Ok_0@, start, end);

    /// Name of the generator.
    fn name(&self) -> &'static str;
}

} // verus!
