//! Errors of the calculators, and the fast path for small indices.

use crate::big::{big_from_u64, big_val};
use crate::constants::{FIB_TABLE, MAX_FIB_U64};
use crate::fibonacci::{fib, lemma_fib_table};
use num_bigint::BigUint;
use vstd::prelude::*;

verus! {

/// Error of a Fibonacci calculation.
#[derive(Debug, Clone, PartialEq, Eq)]
pub enum FibError {
    /// A calculation error occurred.
    Calculation(String),
    /// Configuration error.
    Config(String),
    /// The calculation was cancelled.
    Cancelled,
    /// The calculation timed out.
    Timeout(String),
    /// Results from different algorithms do not match.
    Mismatch,
}

/// The message of an error.
pub open spec fn error_message(e: FibError) -> Seq<char> {
    match e {
        FibError::Calculation(s) => "calculation error: "@ + s@,
        FibError::Config(s) => "configuration error: "@ + s@,
        FibError::Cancelled => "calculation cancelled"@,
        FibError::Timeout(s) => "calculation timed out after "@ + s@,
        FibError::Mismatch => "result mismatch between algorithms"@,
    }
}

impl FibError {
    /// The message of the error, as displayed to the user.
    pub fn to_string(&self) -> (r: String)
        ensures
            r@ == error_message(*self),
    {
        match self {
            FibError::Calculation(s) => {
                let mut m = String::from_str("calculation error: ");
                m.append(s.as_str());
                m
            },
            FibError::Config(s) => {
                let mut m = String::from_str("configuration error: ");
                m.append(s.as_str());
                m
            },
            FibError::Cancelled => String::from_str("calculation cancelled"),
            FibError::Timeout(s) => {
                let mut m = String::from_str("calculation timed out after ");
                m.append(s.as_str());
                m
            },
            FibError::Mismatch => String::from_str("result mismatch between algorithms"),
        }
    }
}

/// F(n) for n <= 93, read from the precomputed table.
pub fn calculate_small(n: u64) -> (r: BigUint)
    requires
        n <= MAX_FIB_U64,
    ensures
        big_val(r) == fib(n as nat),
{
    proof {
        lemma_fib_table(n as nat);
    }
    big_from_u64(FIB_TABLE[n as usize])
}

} // verus!

verus! {

/// A Fibonacci algorithm, run for indices above the fast path.
pub trait CoreCalculator {
    /// What a successful result `v` of the algorithm for F(n) is known to
    /// be, with these options.
    spec fn computes(&self, n: nat, opts: crate::options::Options, v: nat) -> bool;

    /// The options that the algorithm refuses: it fails on them whatever
    /// the index.
    spec fn refuses(&self, opts: crate::options::Options) -> bool;

    /// The errors that the algorithm may give with these options.
    spec fn error_allowed(&self, opts: crate::options::Options, e: FibError) -> bool;

    /// Run the algorithm. `report` is told (steps done, steps in all).
    fn calculate_core<F: Fn(u64, u64)>(&self, cancel: &crate::progress::CancellationToken, report: &F, n: u64,
        opts: &crate::options::Options) -> (r: Result<BigUint, FibError>)
        requires
            crate::progress::accepts_progress(*report, n as nat),
        ensures
            r is Ok ==> self.computes(n as nat, *opts, big_val(r->Ok_0)),
            r matches Err(e) ==> self.error_allowed(*opts, e),
            self.refuses(*opts) ==> r is Err,
            n == 0 && !self.refuses(*opts) ==> r is Ok;

    /// The name of the algorithm.
    spec fn algorithm_name(&self) -> Seq<char>;

    /// Name of the algorithm.
    fn name(&self) -> (r: &'static str)
        ensures
            r@ == self.algorithm_name();
}

/// An algorithm behind the fast path: indices up to 93 are read from the
/// table, the others go to the algorithm once the token is checked.
pub struct FibCalculator<C: CoreCalculator> {
    inner: C,
}

impl<C: CoreCalculator> FibCalculator<C> {
    /// Wrap an algorithm.
    pub fn new(inner: C) -> (r: Self)
        ensures
            r.algorithm() == inner,
    {
        FibCalculator { inner }
    }

    /// The wrapped algorithm.
    pub closed spec fn algorithm(&self) -> C {
        self.inner
    }

    /// F(n): from the table for n <= 93, from the algorithm otherwise.
    pub fn calculate<F: Fn(u64, u64)>(&self, cancel: &crate::progress::CancellationToken, report: &F, n: u64,
        opts: &crate::options::Options) -> (r: Result<BigUint, FibError>)
        requires
            crate::progress::accepts_progress(*report, n as nat),
        ensures
            n <= MAX_FIB_U64 ==> r is Ok && big_val(r->Ok_0) == fib(n as nat),
            n > MAX_FIB_U64 && r is Ok ==> self.algorithm().computes(n as nat, *opts, big_val(r->Ok_0)),
            r matches Err(e) ==> e == FibError::Cancelled || self.algorithm().error_allowed(*opts, e),
    {
        if n <= MAX_FIB_U64 {
            return Ok(calculate_small(n));
        }
        if cancel.is_cancelled() {
            return Err(FibError::Cancelled);
        }
        self.inner.calculate_core(cancel, report, n, opts)
    }

    /// Name of the wrapped algorithm.
    pub fn name(&self) -> (r: &'static str)
        ensures
            r@ == self.algorithm().algorithm_name(),
    {
        self.inner.name()
    }
}

impl CoreCalculator for crate::fastdoubling::OptimizedFastDoubling {
    open spec fn computes(&self, n: nat, opts: crate::options::Options, v: nat) -> bool {
        v == fib(n)
    }

    fn calculate_core<F: Fn(u64, u64)>(&self, cancel: &crate::progress::CancellationToken, report: &F, n: u64,
        opts: &crate::options::Options) -> (r: Result<BigUint, FibError>) {
        self.calculate_core(cancel, report, n, opts)
    }

    open spec fn refuses(&self, opts: crate::options::Options) -> bool {
        false
    }

    open spec fn error_allowed(&self, opts: crate::options::Options, e: FibError) -> bool {
        e == FibError::Cancelled
    }

    open spec fn algorithm_name(&self) -> Seq<char> {
        "FastDoubling"@
    }

    fn name(&self) -> (r: &'static str) {
        "FastDoubling"
    }
}

impl CoreCalculator for crate::matrix::MatrixExponentiation {
    open spec fn computes(&self, n: nat, opts: crate::options::Options, v: nat) -> bool {
        v == fib(n)
    }

    fn calculate_core<F: Fn(u64, u64)>(&self, cancel: &crate::progress::CancellationToken, report: &F, n: u64,
        opts: &crate::options::Options) -> (r: Result<BigUint, FibError>) {
        self.calculate_core(cancel, report, n)
    }

    open spec fn refuses(&self, opts: crate::options::Options) -> bool {
        false
    }

    open spec fn error_allowed(&self, opts: crate::options::Options, e: FibError) -> bool {
        e == FibError::Cancelled
    }

    open spec fn algorithm_name(&self) -> Seq<char> {
        "MatrixExponentiation"@
    }

    fn name(&self) -> (r: &'static str) {
        "MatrixExponentiation"
    }
}

impl CoreCalculator for crate::modular::FastDoublingMod {
    open spec fn computes(&self, n: nat, opts: crate::options::Options, v: nat) -> bool {
        opts.last_digits matches Some(d) && v == fib(n) % (vstd::arithmetic::power::pow(10, d as nat) as nat)
    }

    fn calculate_core<F: Fn(u64, u64)>(&self, cancel: &crate::progress::CancellationToken, report: &F, n: u64,
        opts: &crate::options::Options) -> (r: Result<BigUint, FibError>) {
        self.calculate_core(cancel, report, n, opts)
    }

    open spec fn refuses(&self, opts: crate::options::Options) -> bool {
        opts.last_digits is None || opts.last_digits == Some(0u32)
    }

    open spec fn error_allowed(&self, opts: crate::options::Options, e: FibError) -> bool {
        if self.refuses(opts) {
            e matches FibError::Config(s) && s@ == "FastDoublingMod requires last_digits > 0"@
        } else {
            e == FibError::Cancelled
        }
    }

    open spec fn algorithm_name(&self) -> Seq<char> {
        "FastDoublingMod"@
    }

    fn name(&self) -> (r: &'static str) {
        "FastDoublingMod"
    }
}

impl CoreCalculator for crate::fft_based::FFTBasedCalculator {
    open spec fn computes(&self, n: nat, opts: crate::options::Options, v: nat) -> bool {
        v == fib(n)
    }

    fn calculate_core<F: Fn(u64, u64)>(&self, cancel: &crate::progress::CancellationToken, report: &F, n: u64,
        opts: &crate::options::Options) -> (r: Result<BigUint, FibError>) {
        self.calculate_core(cancel, report, n, opts)
    }

    open spec fn refuses(&self, opts: crate::options::Options) -> bool {
        false
    }

    open spec fn error_allowed(&self, opts: crate::options::Options, e: FibError) -> bool {
        e == FibError::Cancelled
    }

    open spec fn algorithm_name(&self) -> Seq<char> {
        "FFTBased"@
    }

    fn name(&self) -> (r: &'static str) {
        "FFTBased"
    }
}

} // verus!

verus! {

/// F(n): from the table up to F(93), by Fast Doubling with the default
/// options beyond. Nothing can cancel it.
pub fn fibonacci(n: u64) -> (r: BigUint)
    ensures
        big_val(r) == fib(n as nat),
{
    if n <= MAX_FIB_U64 {
        return calculate_small(n);
    }
    let opts = <crate::options::Options as Default>::default();
    crate::fastdoubling::doubling_unchecked(n, &opts)
}

} // verus!
