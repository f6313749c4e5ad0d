# fibcalc

A library that computes arbitrarily large Fibonacci numbers, written in
Verus: the algorithms carry `requires` / `ensures` contracts that Verus
proves.

## What is proved

- `fib` (src/fibonacci.rs) is the Fibonacci sequence; the lemmas there prove
  the sum rule, the doubling identities F(2k) = F(k)(2F(k+1) - F(k)) and
  F(2k+1) = F(k)^2 + F(k+1)^2, and that the built-in table holds F(0)..F(93).
- Every calculator returns F(n) when it returns `Ok`, and its only error is
  the cancellation error (for F(n) modulo 10^d, also the error for a missing
  digit count): Fast Doubling (src/fastdoubling.rs, and the
  generic loop over a doubling-step strategy in src/doubling_framework.rs),
  Matrix Exponentiation (src/matrix.rs), the FFT-based calculator
  (src/fft_based.rs), and F(n) modulo 10^d (src/modular.rs).
- Big products go through a number-theoretic transform modulo 2^s + 1
  (src/fft*.rs, src/fermat.rs). Every operation on residues has an exact
  contract; the bit-reversal permutation, the forward transform and the
  inverse transform compute the transform and its inverse (src/ntt.rs,
  `lemma_ntt_roundtrip`); the transform of a cyclic convolution is the
  pointwise product of the transforms (src/conv.rs); and `fft_multiply`,
  `fft_square`, `mul` and `sqr` return the exact product for all operands.
- `fibonacci(n)` always returns F(n): it has no cancellation token.
- Formatting, option normalisation, calibration profiles, memory limits and
  benchmark statistics have exact contracts over spec functions.

Calls into `num-bigint` and a few std functions stand behind small trusted
wrappers (src/big.rs, src/decimal.rs, src/progress.rs, src/runner.rs,
src/profile.rs, src/memory_budget.rs), each with a doc comment that says what
its contract claims.

There is no GMP-backed calculator: the calculators use `num-bigint`
throughout. The object pools and the cache of transform tables
(src/pool.rs, src/matrix.rs, src/fft_cache.rs) have one owner at a time
(`&mut self`) rather than an internal lock; their capacity and eviction
rules have exact contracts, and sharing them between threads is left to
the caller.

## Layout

- `src/`: the verified library.
- `tests/`: tests of the library.
- `app/`: the unverified rest: command-line presentation, file I/O, threads,
  floating-point estimates, and serde/clap/thiserror copies of library types.
