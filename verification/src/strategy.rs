//! Multiplication strategies and the doubling step built on them.

use crate::big::{big_add, big_bits, big_mul, big_shl, big_sub, big_val, bits_of, lemma_bits_unique};
use crate::fft::sqr;
use num_bigint::BigUint;
use vstd::arithmetic::mul::*;
use vstd::arithmetic::power2::*;
use vstd::prelude::*;

verus! {

/// Product by the transform-based `mul` or by schoolbook multiplication.
pub fn product(a: &BigUint, b: &BigUint, use_fft: bool) -> (r: BigUint)
    ensures
        big_val(r) == big_val(*a) * big_val(*b),
{
    if use_fft {
        crate::fft::mul(a, b)
    } else {
        big_mul(a, b)
    }
}

/// Square by the transform-based `sqr` or by schoolbook multiplication.
pub fn square(a: &BigUint, use_fft: bool) -> (r: BigUint)
    ensures
        big_val(r) == big_val(*a) * big_val(*a),
{
    if use_fft {
        sqr(a)
    } else {
        big_mul(a, a)
    }
}

/// `fk^2` and `fk1^2`.
fn squares(fk: &BigUint, fk1: &BigUint, use_fft: bool) -> (r: (BigUint, BigUint))
    ensures
        big_val(r.0) == big_val(*fk) * big_val(*fk),
        big_val(r.1) == big_val(*fk1) * big_val(*fk1),
{
    (square(fk, use_fft), square(fk1, use_fft))
}

/// The products of a doubling step, `(fk^2, fk1^2)` and `fk * t`, computed
/// concurrently by `rayon::join`: one closure calls `squares`, the other
/// `product`, and the contract is theirs.
#[verifier::external_body]
fn join_products(fk: &BigUint, fk1: &BigUint, t: &BigUint, use_fft: bool) -> (r: ((BigUint, BigUint), BigUint))
    ensures
        big_val(r.0.0) == big_val(*fk) * big_val(*fk),
        big_val(r.0.1) == big_val(*fk1) * big_val(*fk1),
        big_val(r.1) == big_val(*fk) * big_val(*t),
{
    rayon::join(|| squares(fk, fk1, use_fft), || product(fk, t, use_fft))
}

/// `2 * fk1 - fk`, the second factor of F(2k).
pub fn doubling_factor(fk: &BigUint, fk1: &BigUint) -> (t: BigUint)
    requires
        big_val(*fk) <= 2 * big_val(*fk1),
    ensures
        big_val(t) == 2 * big_val(*fk1) - big_val(*fk),
{
    let d = big_shl(fk1, 1);
    proof {
        assert(pow2(1) == 2) by { lemma2_to64(); }
        lemma_mul_is_commutative(big_val(*fk1) as int, 2);
    }
    big_sub(&d, fk)
}

/// The doubling step with the given products: (fk * t, fk^2 + fk1^2),
/// the three products computed concurrently when `parallel` is set.
pub fn doubling_products(fk: &BigUint, fk1: &BigUint, use_fft: bool, parallel: bool) -> (r: (BigUint, BigUint))
    requires
        big_val(*fk) <= 2 * big_val(*fk1),
    ensures
        doubled(big_val(*fk), big_val(*fk1), big_val(r.0), big_val(r.1)),
{
    let t = doubling_factor(fk, fk1);
    if parallel {
        let ((fk_sq, fk1_sq), f2k) = join_products(fk, fk1, &t, use_fft);
        (f2k, big_add(&fk_sq, &fk1_sq))
    } else {
        let f2k = product(fk, &t, use_fft);
        let fk_sq = square(fk, use_fft);
        let fk1_sq = square(fk1, use_fft);
        (f2k, big_add(&fk_sq, &fk1_sq))
    }
}

/// The results of a doubling step from (fk, fk1): f2k = fk (2 fk1 - fk)
/// and f2k1 = fk^2 + fk1^2.
pub open spec fn doubled(fk: nat, fk1: nat, f2k: nat, f2k1: nat) -> bool {
    f2k == fk * (2 * fk1 - fk) && f2k1 == fk * fk + fk1 * fk1
}

/// Something that multiplies big numbers.
pub trait Multiplier {
    /// `a * b`.
    fn multiply(&self, a: &BigUint, b: &BigUint) -> (r: BigUint)
        ensures
            big_val(r) == big_val(*a) * big_val(*b);

    /// `a * a`.
    fn square(&self, a: &BigUint) -> (r: BigUint)
        ensures
            big_val(r) == big_val(*a) * big_val(*a);

    /// Name of the strategy.
    fn name(&self) -> &'static str;
}

/// A multiplier that performs the whole doubling step of Fast Doubling:
/// from (F(k), F(k+1)) to (F(2k), F(2k+1)).
pub trait DoublingStepExecutor: Multiplier {
    /// (fk (2 fk1 - fk), fk^2 + fk1^2).
    fn execute_doubling_step(&self, fk: &BigUint, fk1: &BigUint) -> (r: (BigUint, BigUint))
        requires
            big_val(*fk) <= 2 * big_val(*fk1),
        ensures
            doubled(big_val(*fk), big_val(*fk1), big_val(r.0), big_val(r.1));
}

/// Schoolbook multiplication (Karatsuba inside the big-number library).
pub struct KaratsubaStrategy;

impl KaratsubaStrategy {
    /// A new Karatsuba strategy.
    pub fn new() -> (r: Self) {
        KaratsubaStrategy
    }
}

impl Default for KaratsubaStrategy {
    fn default() -> (r: Self) {
        KaratsubaStrategy
    }
}

impl Multiplier for KaratsubaStrategy {
    fn multiply(&self, a: &BigUint, b: &BigUint) -> (r: BigUint) {
        big_mul(a, b)
    }

    fn square(&self, a: &BigUint) -> (r: BigUint) {
        big_mul(a, a)
    }

    fn name(&self) -> (r: &'static str)
        ensures
            r@ == "Karatsuba"@,
    {
        "Karatsuba"
    }
}

impl DoublingStepExecutor for KaratsubaStrategy {
    fn execute_doubling_step(&self, fk: &BigUint, fk1: &BigUint) -> (r: (BigUint, BigUint)) {
        doubling_products(fk, fk1, false, false)
    }
}

/// Schoolbook multiplication, the three products of a doubling step run
/// concurrently from `parallel_threshold` bits on.
pub struct ParallelKaratsubaStrategy {
    parallel_threshold: usize,
}

impl ParallelKaratsubaStrategy {
    /// A new strategy with the given threshold (bits).
    pub fn new(parallel_threshold: usize) -> (r: Self)
        ensures
            r.threshold() == parallel_threshold,
    {
        ParallelKaratsubaStrategy { parallel_threshold }
    }

    /// The threshold (bits) from which the products run concurrently.
    pub closed spec fn threshold(&self) -> usize {
        self.parallel_threshold
    }
}

impl Multiplier for ParallelKaratsubaStrategy {
    fn multiply(&self, a: &BigUint, b: &BigUint) -> (r: BigUint) {
        big_mul(a, b)
    }

    fn square(&self, a: &BigUint) -> (r: BigUint) {
        big_mul(a, a)
    }

    fn name(&self) -> (r: &'static str)
        ensures
            r@ == "ParallelKaratsuba"@,
    {
        "ParallelKaratsuba"
    }
}

impl DoublingStepExecutor for ParallelKaratsubaStrategy {
    fn execute_doubling_step(&self, fk: &BigUint, fk1: &BigUint) -> (r: (BigUint, BigUint)) {
        let a = big_bits(fk);
        let b = big_bits(fk1);
        let max_bits = if a >= b { a } else { b };
        let parallel = max_bits >= self.parallel_threshold as u64;
        doubling_products(fk, fk1, false, parallel)
    }
}

/// Every product through the transform-based `mul` and `sqr`.
pub struct FFTOnlyStrategy;

impl FFTOnlyStrategy {
    /// A new FFT strategy.
    pub fn new() -> (r: Self) {
        FFTOnlyStrategy
    }
}

impl Default for FFTOnlyStrategy {
    fn default() -> (r: Self) {
        FFTOnlyStrategy
    }
}

impl Multiplier for FFTOnlyStrategy {
    fn multiply(&self, a: &BigUint, b: &BigUint) -> (r: BigUint) {
        crate::fft::mul(a, b)
    }

    fn square(&self, a: &BigUint) -> (r: BigUint) {
        sqr(a)
    }

    fn name(&self) -> (r: &'static str)
        ensures
            r@ == "FFT"@,
    {
        "FFT"
    }
}

impl DoublingStepExecutor for FFTOnlyStrategy {
    fn execute_doubling_step(&self, fk: &BigUint, fk1: &BigUint) -> (r: (BigUint, BigUint)) {
        doubling_products(fk, fk1, true, false)
    }
}

/// Schoolbook products below `fft_threshold` bits, the transform above.
pub struct AdaptiveStrategy {
    fft_threshold: usize,
    strassen_threshold: usize,
}

impl AdaptiveStrategy {
    /// A new adaptive strategy with the given thresholds (bits).
    pub fn new(fft_threshold: usize, strassen_threshold: usize) -> (r: Self)
        ensures
            r.threshold() == fft_threshold,
    {
        AdaptiveStrategy { fft_threshold, strassen_threshold }
    }

    /// The threshold (bits) from which products go through the transform.
    pub closed spec fn threshold(&self) -> usize {
        self.fft_threshold
    }

    /// Whether operands of these bit lengths go through the transform.
    fn uses_fft(&self, a: &BigUint, b: &BigUint) -> (r: bool)
        ensures
            r == (if bits_of(big_val(*a)) >= bits_of(big_val(*b)) { bits_of(big_val(*a)) } else {
                bits_of(big_val(*b)) } >= self.fft_threshold),
    {
        let x = big_bits(a);
        let y = big_bits(b);
        proof {
            lemma_bits_unique(big_val(*a), x as nat);
            lemma_bits_unique(big_val(*b), y as nat);
        }
        let m = if x >= y { x } else { y };
        m >= self.fft_threshold as u64
    }
}

impl Multiplier for AdaptiveStrategy {
    fn multiply(&self, a: &BigUint, b: &BigUint) -> (r: BigUint) {
        if self.uses_fft(a, b) {
            crate::fft::mul(a, b)
        } else {
            big_mul(a, b)
        }
    }

    fn square(&self, a: &BigUint) -> (r: BigUint) {
        if self.uses_fft(a, a) {
            sqr(a)
        } else {
            big_mul(a, a)
        }
    }

    fn name(&self) -> (r: &'static str)
        ensures
            r@ == "Adaptive"@,
    {
        "Adaptive"
    }
}

impl DoublingStepExecutor for AdaptiveStrategy {
    fn execute_doubling_step(&self, fk: &BigUint, fk1: &BigUint) -> (r: (BigUint, BigUint)) {
        let t = doubling_factor(fk, fk1);
        let f2k = self.multiply(fk, &t);
        let fk_sq = self.square(fk);
        let fk1_sq = self.square(fk1);
        (f2k, big_add(&fk_sq, &fk1_sq))
    }
}

} // verus!
