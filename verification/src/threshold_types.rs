//! Kinds of multiplication the thresholds choose between.

use vstd::prelude::*;

verus! {

/// A multiplication method.
#[derive(Debug, Clone, Copy, PartialEq, Eq)]
pub enum MultiplicationMethod {
    /// Schoolbook / Karatsuba.
    Karatsuba,
    /// Number-theoretic transform.
    Fft,
    /// Strassen matrix products.
    Strassen,
}

} // verus!
