//! The Fast Doubling loop over any doubling-step executor.

use crate::big::{bits_of, big_add, big_from_u64, big_val};
use crate::calculator::FibError;
use crate::fastdoubling::{bit_count, lemma_pair_after_step, lemma_prefix_step, prefix};
use crate::fibonacci::{fib, lemma_fib_monotonic};
use crate::progress::{accepts_progress, CancellationToken};
use crate::strategy::{DoublingStepExecutor, KaratsubaStrategy, ParallelKaratsubaStrategy};
use num_bigint::BigUint;
use vstd::arithmetic::power2::*;
use vstd::prelude::*;

verus! {

/// F(n) by Fast Doubling with the given step executor, with cancellation
/// read from the token (see `execute_doubling_loop_with`). `report` is told
/// (bits done, bits in all) after each bit.
pub fn execute_doubling_loop<E: DoublingStepExecutor, F: Fn(u64, u64)>(n: u64, executor: &E,
    cancel: &CancellationToken, report: &F) -> (r: Result<BigUint, FibError>)
    requires
        accepts_progress(*report, n as nat),
    ensures
        r is Err ==> r == Err::<BigUint, FibError>(FibError::Cancelled),
        r is Ok ==> big_val(r->Ok_0) == fib(n as nat),
        n == 0 ==> r is Ok,
{
    let cancelled = || cancel.is_cancelled();
    execute_doubling_loop_with(n, executor, &cancelled, report)
}

/// F(n) by Fast Doubling with the given step executor, asking `cancelled`
/// before each bit whether to stop. It stops with `Err(Cancelled)` only on
/// a `true` answer, so a source that can never answer `true` always lets it
/// finish with F(n). `report` is told (bits done, bits in all) after each
/// bit.
pub fn execute_doubling_loop_with<E: DoublingStepExecutor, F: Fn(u64, u64), C: Fn() -> bool>(n: u64,
    executor: &E, cancelled: &C, report: &F) -> (r: Result<BigUint, FibError>)
    requires
        accepts_progress(*report, n as nat),
        cancelled.requires(()),
    ensures
        r is Err ==> r == Err::<BigUint, FibError>(FibError::Cancelled) && cancelled.ensures((), true),
        r is Ok ==> big_val(r->Ok_0) == fib(n as nat),
        !cancelled.ensures((), true) ==> r is Ok,
        n == 0 ==> r is Ok,
{
    let num_bits = bit_count(n);
    let mut fk = big_from_u64(0);
    let mut fk1 = big_from_u64(1);
    let mut i: u32 = num_bits;
    proof {
        assert(fib(0) == 0 && fib(1) == 1);
    }
    while i > 0
        invariant
            i <= num_bits <= 64,
            num_bits == bits_of(n as nat),
            accepts_progress(*report, n as nat),
            cancelled.requires(()),
            big_val(fk) == fib(prefix(n as nat, i as nat)),
            big_val(fk1) == fib(prefix(n as nat, i as nat) + 1),
        decreases i,
    {
        if cancelled() {
            return Err(FibError::Cancelled);
        }
        i -= 1;
        let ghost k = prefix(n as nat, (i + 1) as nat);
        proof {
            lemma_prefix_step(n as nat, i as nat);
            lemma_fib_monotonic(k, k + 1);
        }
        let (f2k, f2k1) = executor.execute_doubling_step(&fk, &fk1);
        let bit = (n >> i) & 1;
        proof {
            vstd::bits::lemma_u64_shr_is_div(n, i as u64);
            assert((n >> i) & 1 == (n >> i) % 2) by (bit_vector);
            lemma_pair_after_step(k, bit as nat, big_val(f2k), big_val(f2k1));
        }
        if bit == 1 {
            fk = f2k1;
            fk1 = big_add(&f2k, &fk);
        } else {
            fk = f2k;
            fk1 = f2k1;
        }
        report((num_bits - i) as u64, num_bits as u64);
    }
    proof {
        assert(pow2(0) == 1) by { lemma2_to64(); }
        assert((n as nat) / 1 == n);
    }
    Ok(fk)
}

/// F(n) by Fast Doubling with schoolbook products: run concurrently from
/// `parallel_threshold` bits on when the threshold is nonzero, one after
/// the other otherwise.
pub fn execute_doubling_loop_parallel<F: Fn(u64, u64)>(n: u64, cancel: &CancellationToken, report: &F,
    parallel_threshold: usize) -> (r: Result<BigUint, FibError>)
    requires
        accepts_progress(*report, n as nat),
    ensures
        r is Err ==> r == Err::<BigUint, FibError>(FibError::Cancelled),
        r is Ok ==> big_val(r->Ok_0) == fib(n as nat),
        n == 0 ==> r is Ok,
{
    if parallel_threshold > 0 {
        let strategy = ParallelKaratsubaStrategy::new(parallel_threshold);
        execute_doubling_loop(n, &strategy, cancel, report)
    } else {
        let strategy = KaratsubaStrategy::new();
        execute_doubling_loop(n, &strategy, cancel, report)
    }
}

} // verus!
