//! Calculation options.

use crate::constants::{DEFAULT_FFT_THRESHOLD, DEFAULT_PARALLEL_THRESHOLD, DEFAULT_STRASSEN_THRESHOLD};
use vstd::prelude::*;

verus! {

/// Options for a Fibonacci calculation.
#[derive(Debug, Clone)]
pub struct Options {
    /// Threshold (in bits) for parallel multiplication.
    pub parallel_threshold: usize,
    /// Threshold (in bits) for FFT multiplication.
    pub fft_threshold: usize,
    /// Threshold (in bits) for Strassen multiplication.
    pub strassen_threshold: usize,
    /// Number of last digits to compute (`None` = full number).
    pub last_digits: Option<u32>,
    /// Memory limit in bytes (`None` = unlimited).
    pub memory_limit: Option<usize>,
    /// Whether to show verbose output.
    pub verbose: bool,
    /// Whether to show detailed output.
    pub details: bool,
}

/// `t`, or `default` in place of zero.
pub open spec fn or_default(t: usize, default: usize) -> usize {
    if t == 0 { default } else { t }
}

impl Options {
    /// The options with every zero threshold replaced by its default.
    pub open spec fn normalized(self) -> Options {
        Options {
            parallel_threshold: or_default(self.parallel_threshold, DEFAULT_PARALLEL_THRESHOLD),
            fft_threshold: or_default(self.fft_threshold, DEFAULT_FFT_THRESHOLD),
            strassen_threshold: or_default(self.strassen_threshold, DEFAULT_STRASSEN_THRESHOLD),
            ..self
        }
    }

    /// Normalize the options: a zero threshold takes its default value.
    pub fn normalize(self) -> (r: Self)
        ensures
            r == self.normalized(),
    {
        let mut o = self;
        if o.parallel_threshold == 0 {
            o.parallel_threshold = DEFAULT_PARALLEL_THRESHOLD;
        }
        if o.fft_threshold == 0 {
            o.fft_threshold = DEFAULT_FFT_THRESHOLD;
        }
        if o.strassen_threshold == 0 {
            o.strassen_threshold = DEFAULT_STRASSEN_THRESHOLD;
        }
        o
    }
}

/// Normalizing twice is normalizing once, and a normalized set of options
/// has no zero threshold.
pub proof fn lemma_normalize_idempotent(o: Options)
    ensures
        o.normalized().normalized() == o.normalized(),
        o.normalized().parallel_threshold != 0,
        o.normalized().fft_threshold != 0,
        o.normalized().strassen_threshold != 0,
{
}

impl Default for Options {
    fn default() -> (r: Self)
        ensures
            r.parallel_threshold == DEFAULT_PARALLEL_THRESHOLD,
            r.fft_threshold == DEFAULT_FFT_THRESHOLD,
            r.strassen_threshold == DEFAULT_STRASSEN_THRESHOLD,
            r.last_digits is None,
            r.memory_limit is None,
            !r.verbose,
            !r.details,
    {
        Options {
            parallel_threshold: DEFAULT_PARALLEL_THRESHOLD,
            fft_threshold: DEFAULT_FFT_THRESHOLD,
            strassen_threshold: DEFAULT_STRASSEN_THRESHOLD,
            last_digits: None,
            memory_limit: None,
            verbose: false,
            details: false,
        }
    }
}

} // verus!
