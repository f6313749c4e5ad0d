//! Fast Doubling: from (F(k), F(k+1)) to (F(2k), F(2k+1)) by
//!   F(2k)   = F(k) (2 F(k+1) - F(k)),
//!   F(2k+1) = F(k+1)^2 + F(k)^2,
//! walking the bits of n from the most significant down.

use crate::big::{big_add, big_bits, big_from_u64, big_val, big_zero, bits_of};
use crate::calculator::FibError;
use crate::fibonacci::{fib, lemma_fib_double, lemma_fib_monotonic};
use crate::options::Options;
use crate::progress::{accepts_progress, CancellationToken};
use crate::strategy::doubling_products;
use num_bigint::BigUint;
use vstd::arithmetic::div_mod::*;
use vstd::arithmetic::mul::*;
use vstd::arithmetic::power2::*;
use vstd::prelude::*;

verus! {

/// The registers of a Fast Doubling computation, kept for reuse: the pair
/// F(k), F(k+1) and three temporaries.
pub struct CalculationState {
    /// Current F(k).
    pub fk: BigUint,
    /// Current F(k+1).
    pub fk1: BigUint,
    /// Temporary register 1.
    pub t1: BigUint,
    /// Temporary register 2.
    pub t2: BigUint,
    /// Temporary register 3.
    pub t3: BigUint,
}

impl CalculationState {
    /// The registers at the start: F(0) = 0, F(1) = 1, temporaries 0.
    pub open spec fn is_initial(&self) -> bool {
        &&& big_val(self.fk) == 0
        &&& big_val(self.fk1) == 1
        &&& big_val(self.t1) == 0
        &&& big_val(self.t2) == 0
        &&& big_val(self.t3) == 0
    }

    /// A state for F(0), F(1).
    pub fn new() -> (r: Self)
        ensures
            r.is_initial(),
    {
        CalculationState { fk: big_zero(), fk1: big_from_u64(1), t1: big_zero(), t2: big_zero(), t3: big_zero() }
    }

    /// Back to the state of `new`.
    pub fn reset(&mut self)
        ensures
            final(self).is_initial(),
    {
        self.fk = big_zero();
        self.fk1 = big_from_u64(1);
        self.t1 = big_zero();
        self.t2 = big_zero();
        self.t3 = big_zero();
    }
}

impl Default for CalculationState {
    fn default() -> (r: Self)
        ensures
            r.is_initial(),
    {
        Self::new()
    }
}

/// The bits of `n` above bit `i`: n / 2^i.
pub open spec fn prefix(n: nat, i: nat) -> nat {
    n / pow2(i)
}

/// The next prefix takes one more bit: n / 2^i = 2 (n / 2^(i+1)) + bit i.
pub proof fn lemma_prefix_step(n: nat, i: nat)
    ensures
        prefix(n, i) == 2 * prefix(n, i + 1) + prefix(n, i) % 2,
        prefix(n, i + 1) <= prefix(n, i),
{
    lemma_pow2_pos(i);
    lemma_pow2_adds(i, 1);
    assert(pow2(1) == 2) by { lemma2_to64(); }
    lemma_div_denominator(n as int, pow2(i) as int, 2);
    lemma_fundamental_div_mod((n / pow2(i)) as int, 2);
}

/// The Fibonacci pair after a doubling step and the optional addition step.
pub proof fn lemma_pair_after_step(k: nat, bit: nat, f2k: nat, f2k1: nat)
    requires
        bit <= 1,
        f2k == fib(k) * (2 * fib(k + 1) - fib(k)),
        f2k1 == fib(k) * fib(k) + fib(k + 1) * fib(k + 1),
    ensures
        f2k == fib(2 * k),
        f2k1 == fib(2 * k + 1),
        bit == 1 ==> f2k1 == fib(2 * k + bit) && f2k + f2k1 == fib(2 * k + bit + 1),
        bit == 0 ==> f2k == fib(2 * k + bit) && f2k1 == fib(2 * k + bit + 1),
{
    lemma_fib_double(k);
    lemma_mul_is_commutative(fib(k + 1) as int, fib(k + 1) as int);
    assert(fib(2 * k + 2) == fib(2 * k + 1) + fib(2 * k));
}

/// The leading zeros of a `u64` are 64 minus its bit count.
proof fn lemma_leading_zeros_bits(x: u64)
    ensures
        64 - vstd::std_specs::bits::u64_leading_zeros(x) == bits_of(x as nat),
    decreases x,
{
    reveal(vstd::std_specs::bits::u64_leading_zeros);
    if x > 0 {
        lemma_leading_zeros_bits(x / 2);
    }
}

/// A number is below 2 to the power of its bit count.
pub proof fn lemma_below_pow2_bits(v: nat)
    ensures
        v < pow2(bits_of(v)),
    decreases v,
{
    if v == 0 {
        assert(pow2(0) == 1) by { lemma2_to64(); }
    } else {
        lemma_below_pow2_bits(v / 2);
        lemma_pow2_unfold(bits_of(v));
    }
}

/// Number of significant bits of a `u64`, with n / 2^bits = 0.
pub fn bit_count(n: u64) -> (r: u32)
    ensures
        r <= 64,
        prefix(n as nat, r as nat) == 0,
        r == bits_of(n as nat),
{
    let lz = n.leading_zeros();
    proof {
        vstd::std_specs::bits::axiom_u64_leading_zeros(n);
        lemma_leading_zeros_bits(n);
        lemma_below_pow2_bits(n as nat);
        lemma_pow2_pos(bits_of(n as nat));
        lemma_basic_div(n as int, pow2(bits_of(n as nat)) as int);
    }
    64 - lz
}

/// One bit of the doubling loop: from (F(k), F(k+1)) to (F(2k + bit),
/// F(2k + bit + 1)). Products go through the transform from
/// `opts.fft_threshold` bits on, and run concurrently from
/// `opts.parallel_threshold` bits on.
fn doubling_bit(fk: &BigUint, fk1: &BigUint, bit: u64, opts: &Options, Ghost(k): Ghost<nat>)
    -> (r: (BigUint, BigUint))
    requires
        big_val(*fk) == fib(k),
        big_val(*fk1) == fib(k + 1),
        bit <= 1,
    ensures
        big_val(r.0) == fib(2 * k + bit as nat),
        big_val(r.1) == fib(2 * k + bit as nat + 1),
{
    proof {
        lemma_fib_monotonic(k, k + 1);
    }
    let a = big_bits(fk);
    let b = big_bits(fk1);
    let max_bits = if a >= b { a } else { b };
    let use_fft = max_bits >= opts.fft_threshold as u64;
    let parallel = max_bits >= opts.parallel_threshold as u64;
    let (f2k, f2k1) = doubling_products(fk, fk1, use_fft, parallel);
    proof {
        lemma_pair_after_step(k, bit as nat, big_val(f2k), big_val(f2k1));
    }
    if bit == 1 {
        let s = big_add(&f2k, &f2k1);
        (f2k1, s)
    } else {
        (f2k, f2k1)
    }
}

/// F(n) by the doubling loop, with no cancellation check and no progress
/// reports.
pub(crate) fn doubling_unchecked(n: u64, opts: &Options) -> (r: BigUint)
    ensures
        big_val(r) == fib(n as nat),
{
    let num_bits = bit_count(n);
    let mut fk = big_from_u64(0);
    let mut fk1 = big_from_u64(1);
    let mut i: u32 = num_bits;
    proof {
        assert(fib(0) == 0 && fib(1) == 1);
    }
    while i > 0
        invariant
            i <= num_bits <= 64,
            big_val(fk) == fib(prefix(n as nat, i as nat)),
            big_val(fk1) == fib(prefix(n as nat, i as nat) + 1),
        decreases i,
    {
        i -= 1;
        let ghost k = prefix(n as nat, (i + 1) as nat);
        proof {
            lemma_prefix_step(n as nat, i as nat);
        }
        let bit = (n >> i) & 1;
        proof {
            vstd::bits::lemma_u64_shr_is_div(n, i as u64);
            assert((n >> i) & 1 == (n >> i) % 2) by (bit_vector);
        }
        let (a, b) = doubling_bit(&fk, &fk1, bit, opts, Ghost(k));
        fk = a;
        fk1 = b;
    }
    proof {
        assert(pow2(0) == 1) by { lemma2_to64(); }
        assert((n as nat) / 1 == n);
        assert(prefix(n as nat, 0) == n);
    }
    fk
}

/// Optimized Fast Doubling calculator.
pub struct OptimizedFastDoubling;

impl OptimizedFastDoubling {
    /// A new calculator.
    pub fn new() -> (r: Self) {
        OptimizedFastDoubling
    }

    /// F(n) by fast doubling. Products go through the transform from
    /// `opts.fft_threshold` bits on, and the three products of a step run
    /// concurrently from `opts.parallel_threshold` bits on. `report` is told
    /// (bits done, bits in all) after each bit.
    pub fn calculate_core<F: Fn(u64, u64)>(&self, cancel: &CancellationToken, report: &F, n: u64,
        opts: &Options) -> (r: Result<BigUint, FibError>)
        requires
            accepts_progress(*report, n as nat),
        ensures
            r is Err ==> r == Err::<BigUint, FibError>(FibError::Cancelled),
            r is Ok ==> big_val(r->Ok_0) == fib(n as nat),
            n == 0 ==> r is Ok,
    {
        self.execute_doubling_loop(n, cancel, report, opts)
    }

    /// The doubling loop of `calculate_core`, with cancellation read from
    /// the token.
    fn execute_doubling_loop<F: Fn(u64, u64)>(&self, n: u64, cancel: &CancellationToken, report: &F,
        opts: &Options) -> (r: Result<BigUint, FibError>)
        requires
            accepts_progress(*report, n as nat),
        ensures
            r is Err ==> r == Err::<BigUint, FibError>(FibError::Cancelled),
            r is Ok ==> big_val(r->Ok_0) == fib(n as nat),
            n == 0 ==> r is Ok,
    {
        let cancelled = || cancel.is_cancelled();
        doubling_loop_with(n, &cancelled, report, opts)
    }
}

/// Fast doubling over the bits of n, from the most significant down,
/// asking `cancelled` before each bit whether to stop. It stops with
/// `Err(Cancelled)` only on a `true` answer, so a source that can never
/// answer `true` always lets it finish with F(n).
pub fn doubling_loop_with<F: Fn(u64, u64), C: Fn() -> bool>(n: u64, cancelled: &C, report: &F,
    opts: &Options) -> (r: Result<BigUint, FibError>)
    requires
        accepts_progress(*report, n as nat),
        cancelled.requires(()),
    ensures
        r is Err ==> r == Err::<BigUint, FibError>(FibError::Cancelled) && cancelled.ensures((), true),
        r is Ok ==> big_val(r->Ok_0) == fib(n as nat),
        !cancelled.ensures((), true) ==> r is Ok,
        n == 0 ==> r is Ok,
{
    let num_bits = bit_count(n);
    let mut fk = big_from_u64(0);
    let mut fk1 = big_from_u64(1);
    let mut i: u32 = num_bits;
    proof {
        assert(fib(0) == 0 && fib(1) == 1);
    }
    while i > 0
        invariant
            i <= num_bits <= 64,
            num_bits == bits_of(n as nat),
            accepts_progress(*report, n as nat),
            cancelled.requires(()),
            big_val(fk) == fib(prefix(n as nat, i as nat)),
            big_val(fk1) == fib(prefix(n as nat, i as nat) + 1),
        decreases i,
    {
        if cancelled() {
            return Err(FibError::Cancelled);
        }
        i -= 1;
        let ghost k = prefix(n as nat, (i + 1) as nat);
        proof {
            lemma_prefix_step(n as nat, i as nat);
        }
        let bit = (n >> i) & 1;
        proof {
            vstd::bits::lemma_u64_shr_is_div(n, i as u64);
            assert((n >> i) & 1 == (n >> i) % 2) by (bit_vector);
        }
        let (a, b) = doubling_bit(&fk, &fk1, bit, opts, Ghost(k));
        fk = a;
        fk1 = b;
        report((num_bits - i) as u64, num_bits as u64);
    }
    proof {
        assert(pow2(0) == 1) by { lemma2_to64(); }
        assert((n as nat) / 1 == n);
        assert(prefix(n as nat, 0) == n);
    }
    Ok(fk)
}

impl Default for OptimizedFastDoubling {
    fn default() -> (r: Self) {
        OptimizedFastDoubling
    }
}

} // verus!
