//! Fast Doubling with the adaptive strategy: transform-based products from
//! the default FFT threshold on.

use crate::big::big_val;
use crate::calculator::FibError;
use crate::constants::{DEFAULT_FFT_THRESHOLD, DEFAULT_STRASSEN_THRESHOLD};
use crate::doubling_framework::execute_doubling_loop;
use crate::fibonacci::fib;
use crate::options::Options;
use crate::progress::{accepts_progress, CancellationToken};
use crate::strategy::AdaptiveStrategy;
use num_bigint::BigUint;
use vstd::prelude::*;

verus! {

/// Fast Doubling calculator whose products go through the transform from
/// `DEFAULT_FFT_THRESHOLD` bits on.
pub struct FFTBasedCalculator;

impl FFTBasedCalculator {
    /// A new calculator.
    pub fn new() -> (r: Self) {
        FFTBasedCalculator
    }

    /// F(n) (the options are not consulted).
    pub fn calculate_core<F: Fn(u64, u64)>(&self, cancel: &CancellationToken, report: &F, n: u64,
        _opts: &Options) -> (r: Result<BigUint, FibError>)
        requires
            accepts_progress(*report, n as nat),
        ensures
            r is Err ==> r == Err::<BigUint, FibError>(FibError::Cancelled),
            r is Ok ==> big_val(r->Ok_0) == fib(n as nat),
            n == 0 ==> r is Ok,
    {
        let strategy = AdaptiveStrategy::new(DEFAULT_FFT_THRESHOLD, DEFAULT_STRASSEN_THRESHOLD);
        execute_doubling_loop(n, &strategy, cancel, report)
    }
}

impl Default for FFTBasedCalculator {
    fn default() -> (r: Self) {
        FFTBasedCalculator
    }
}

} // verus!
