//! Consecutive Fibonacci numbers by the additive recurrence.

use crate::big::{big_add, big_from_u64, big_val};
use crate::calculator::FibError;
use crate::fibonacci::fib;
use crate::generator::{is_fib_run, SequenceGenerator};
use crate::progress::CancellationToken;
use num_bigint::BigUint;
use vstd::prelude::*;

verus! {

/// Generator that walks F(0), F(1), ... up to the end of the run.
pub struct IterativeGenerator;

impl IterativeGenerator {
    /// A new generator.
    pub fn new() -> (r: Self) {
        IterativeGenerator
    }

    /// (i, F(i)) for i from `start` to `end`, asking `cancelled` before each
    /// step whether to stop; `start > end` is a configuration error. It
    /// stops with `Err(Cancelled)` only on a `true` answer, so a source that
    /// can never answer `true` always lets it finish the run.
    pub fn generate_with<C: Fn() -> bool>(&self, start: u64, end: u64, cancelled: &C) -> (r: Result<
        Vec<(u64, BigUint)>,
        FibError,
    >)
        requires
            cancelled.requires(()),
        ensures
            start > end ==> (r matches Err(FibError::Config(s)) && s@ == "start must be <= end"@),
            start <= end && r is Err ==> r == Err::<Vec<(u64, BigUint)>, FibError>(FibError::Cancelled)
                && cancelled.ensures((), true),
            r is Ok ==> start <= end && is_fib_run(r->Ok_0@, start, end),
            start <= end && !cancelled.ensures((), true) ==> r is Ok,
    {
        if start > end {
            return Err(FibError::Config(String::from_str("start must be <= end")));
        }
        let mut results: Vec<(u64, BigUint)> = Vec::new();
        let mut a = big_from_u64(0);
        let mut b = big_from_u64(1);
        let mut i: u64 = 0;
        proof {
            assert(fib(0) == 0 && fib(1) == 1);
        }
        loop
            invariant
                start <= end,
                i <= end,
                cancelled.requires(()),
                big_val(a) == fib(i as nat),
                big_val(b) == fib(i as nat + 1),
                results@.len() == if i <= start { 0 } else { i - start },
                forall|j: int| 0 <= j < results@.len() ==> (#[trigger] results@[j]).0 == start + j
                    && big_val(results@[j].1) == fib((start + j) as nat),
            decreases end - i,
        {
            if cancelled() {
                return Err(FibError::Cancelled);
            }
            if i >= start {
                results.push((i, a.clone()));
            }
            let next = big_add(&a, &b);
            proof {
                assert(fib(i as nat + 2) == fib(i as nat + 1) + fib(i as nat));
            }
            if i == end {
                proof {
                    assert(is_fib_run(results@, start, end));
                }
                return Ok(results);
            }
            a = b;
            b = next;
            i += 1;
        }
    }
}

impl Default for IterativeGenerator {
    fn default() -> (r: Self) {
        IterativeGenerator
    }
}

impl SequenceGenerator for IterativeGenerator {
    fn generate(&self, start: u64, end: u64, cancel: &CancellationToken) -> (r: Result<Vec<(u64, BigUint)>, FibError>) {
        let cancelled = || cancel.is_cancelled();
        self.generate_with(start, end, &cancelled)
    }

    fn name(&self) -> (r: &'static str)
        ensures
            r@ == "IterativeGenerator"@,
    {
        "IterativeGenerator"
    }
}

} // verus!
