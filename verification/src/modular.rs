//! F(n) modulo m by fast doubling with every intermediate reduced modulo
//! m, for printing the last digits of huge Fibonacci numbers.

use crate::big::{bits_of, big_add, big_from_u64, big_ge, big_is_zero, big_mul, big_pow, big_rem, big_shl, big_sub, big_val};
use crate::calculator::FibError;
use crate::fastdoubling::{bit_count, lemma_prefix_step, prefix};
use crate::fibonacci::{fib, lemma_fib_double};
use crate::options::Options;
use crate::progress::{accepts_progress, CancellationToken};
use num_bigint::BigUint;
use vstd::arithmetic::div_mod::*;
use vstd::arithmetic::mul::*;
use vstd::arithmetic::power::pow;
use vstd::arithmetic::power2::*;
use vstd::prelude::*;

verus! {

/// Congruent factors give congruent products.
proof fn lemma_mod_mul_cong(a: int, x: int, b: int, y: int, m: int)
    requires
        m > 0,
        a % m == x % m,
        b % m == y % m,
    ensures
        (a * b) % m == (x * y) % m,
{
    lemma_mul_mod_noop_general(a, b, m);
    lemma_mul_mod_noop_general(x, y, m);
}

/// One modular doubling step from residues of (F(k), F(k+1)).
proof fn lemma_mod_doubling(k: nat, fk: nat, fk1: nat, m: nat, fk_sq: nat, fk1_sq: nat, cross: nat, dc: nat)
    requires
        m > 0,
        fk % m == fib(k) % m,
        fk1 % m == fib(k + 1) % m,
        fk_sq == (fk * fk) % m,
        fk1_sq == (fk1 * fk1) % m,
        cross == (fk * fk1) % m,
        dc == (cross * 2) % m,
    ensures
        (dc - fk_sq) % (m as int) == fib(2 * k) % m,
        (fk1_sq + fk_sq) % m == fib(2 * k + 1) % m,
        fk_sq < m,
        dc < m,
{
    let p = fib(k) as int;
    let q = fib(k + 1) as int;
    let mi = m as int;
    lemma_fib_double(k);
    lemma_mod_mul_cong(fk as int, p, fk as int, p, mi);
    lemma_mod_mul_cong(fk1 as int, q, fk1 as int, q, mi);
    lemma_mod_mul_cong(fk as int, p, fk1 as int, q, mi);
    lemma_mod_bound((fk * fk1) as int, mi);
    lemma_mod_bound((fk * fk) as int, mi);
    lemma_mod_bound((cross * 2) as int, mi);
    lemma_mod_twice((p * q) as int, mi);
    lemma_mod_mul_cong(cross as int, p * q, 2, 2, mi);
    lemma_sub_mod_noop(2 * (p * q), p * p, mi);
    lemma_mul_is_commutative(p * q, 2);
    lemma_mod_twice(2 * (p * q), mi);
    lemma_mod_twice(p * p, mi);
    assert(p * (2 * q - p) == 2 * (p * q) - p * p) by (nonlinear_arith);
    lemma_add_mod_noop(q * q, p * p, mi);
    lemma_mod_twice(q * q, mi);
}

/// Fast doubling for F(n) mod m.
pub struct FastDoublingMod;

impl FastDoublingMod {
    /// A new calculator.
    pub fn new() -> (r: Self) {
        FastDoublingMod
    }

    /// F(n) mod `modulus`, every intermediate kept below the modulus. A zero
    /// modulus is a configuration error. `report` is told (bits done, bits
    /// in all) after each bit. Cancellation is read from the token (see
    /// `fibonacci_mod_with`).
    pub fn fibonacci_mod<F: Fn(u64, u64)>(n: u64, modulus: &BigUint, cancel: &CancellationToken, report: &F)
        -> (r: Result<BigUint, FibError>)
        requires
            accepts_progress(*report, n as nat),
        ensures
            big_val(*modulus) == 0 ==> (r matches Err(FibError::Config(s)) && s@ == "modulus cannot be zero"@),
            big_val(*modulus) != 0 && r is Err ==> r == Err::<BigUint, FibError>(FibError::Cancelled),
            r is Ok ==> big_val(*modulus) != 0 && big_val(r->Ok_0) == fib(n as nat) % big_val(*modulus),
            n == 0 && big_val(*modulus) != 0 ==> r is Ok,
    {
        let cancelled = || cancel.is_cancelled();
        Self::fibonacci_mod_with(n, modulus, &cancelled, report)
    }

    /// F(n) mod `modulus`, every intermediate kept below the modulus, asking
    /// `cancelled` before each bit whether to stop. A zero modulus is a
    /// configuration error; otherwise it stops with `Err(Cancelled)` only on
    /// a `true` answer, so a source that can never answer `true` always lets
    /// it finish with F(n) mod `modulus`. `report` is told (bits done, bits
    /// in all) after each bit.
    pub fn fibonacci_mod_with<F: Fn(u64, u64), C: Fn() -> bool>(n: u64, modulus: &BigUint, cancelled: &C,
        report: &F) -> (r: Result<BigUint, FibError>)
        requires
            accepts_progress(*report, n as nat),
            cancelled.requires(()),
        ensures
            big_val(*modulus) == 0 ==> (r matches Err(FibError::Config(s)) && s@ == "modulus cannot be zero"@),
            big_val(*modulus) != 0 && r is Err ==> r == Err::<BigUint, FibError>(FibError::Cancelled)
                && cancelled.ensures((), true),
            r is Ok ==> big_val(*modulus) != 0 && big_val(r->Ok_0) == fib(n as nat) % big_val(*modulus),
            big_val(*modulus) != 0 && !cancelled.ensures((), true) ==> r is Ok,
            n == 0 && big_val(*modulus) != 0 ==> r is Ok,
    {
        if big_is_zero(modulus) {
            return Err(FibError::Config(String::from_str("modulus cannot be zero")));
        }
        let ghost m = big_val(*modulus);
        let num_bits = bit_count(n);
        let mut fk = big_from_u64(0);
        let mut fk1 = big_from_u64(1);
        let mut i: u32 = num_bits;
        proof {
            assert(fib(0) == 0 && fib(1) == 1);
        }
        while i > 0
            invariant
                i <= num_bits <= 64,
                num_bits == bits_of(n as nat),
                m == big_val(*modulus),
                m > 0,
                accepts_progress(*report, n as nat),
                cancelled.requires(()),
                big_val(fk) % m == fib(prefix(n as nat, i as nat)) % m,
                big_val(fk1) % m == fib(prefix(n as nat, i as nat) + 1) % m,
                i < num_bits ==> big_val(fk) < m,
                i == num_bits ==> big_val(fk) == 0,
            decreases i,
        {
            if cancelled() {
                return Err(FibError::Cancelled);
            }
            i -= 1;
            let ghost k = prefix(n as nat, (i + 1) as nat);
            let sq0 = big_mul(&fk, &fk);
            let fk_sq = big_rem(&sq0, modulus);
            let sq1 = big_mul(&fk1, &fk1);
            let fk1_sq = big_rem(&sq1, modulus);
            let cr = big_mul(&fk, &fk1);
            let cross = big_rem(&cr, modulus);
            let cross2 = big_shl(&cross, 1);
            let double_cross = big_rem(&cross2, modulus);
            proof {
                assert(pow2(1) == 2) by { lemma2_to64(); }
                lemma_mod_doubling(k, big_val(fk), big_val(fk1), m, big_val(fk_sq), big_val(fk1_sq),
                    big_val(cross), big_val(double_cross));
                lemma_prefix_step(n as nat, i as nat);
            }
            let f2k = if big_ge(&double_cross, &fk_sq) {
                let d = big_sub(&double_cross, &fk_sq);
                big_rem(&d, modulus)
            } else {
                let d0 = big_sub(modulus, &fk_sq);
                let d = big_add(&d0, &double_cross);
                proof {
                    lemma_mod_add_multiples_vanish(big_val(double_cross) - big_val(fk_sq), m as int);
                }
                big_rem(&d, modulus)
            };
            let s1 = big_add(&fk1_sq, &fk_sq);
            let f2k1 = big_rem(&s1, modulus);
            proof {
                let t = big_val(double_cross) - big_val(fk_sq);
                assert(big_val(f2k) == t % (m as int));
                lemma_mod_twice(t, m as int);
                lemma_mod_twice((big_val(fk1_sq) + big_val(fk_sq)) as int, m as int);
                assert(big_val(f2k) % m == fib(2 * k) % m);
                assert(big_val(f2k1) % m == fib(2 * k + 1) % m);
                lemma_mod_bound(t, m as int);
            }
            fk = f2k;
            fk1 = f2k1;
            let bit = (n >> i) & 1;
            proof {
                vstd::bits::lemma_u64_shr_is_div(n, i as u64);
                assert((n >> i) & 1 == (n >> i) % 2) by (bit_vector);
                lemma_mod_bound(big_val(fk1) as int, m as int);
            }
            if bit == 1 {
                let s = big_add(&fk, &fk1);
                let sum = big_rem(&s, modulus);
                proof {
                    lemma_add_mod_noop(big_val(fk) as int, big_val(fk1) as int, m as int);
                    lemma_add_mod_noop(fib(2 * k) as int, fib(2 * k + 1) as int, m as int);
                    assert(fib(2 * k + 2) == fib(2 * k + 1) + fib(2 * k));
                    lemma_mod_bound(big_val(s) as int, m as int);
                    lemma_mod_twice(big_val(s) as int, m as int);
                }
                fk = fk1;
                fk1 = sum;
                proof {
                    assert(prefix(n as nat, i as nat) == 2 * k + 1);
                }
            } else {
                proof {
                    assert(prefix(n as nat, i as nat) == 2 * k);
                }
            }
            proof {
                lemma_mod_bound(big_val(fk) as int, m as int);
            }
            report((num_bits - i) as u64, num_bits as u64);
        }
        proof {
            assert(pow2(0) == 1) by { lemma2_to64(); }
            assert((n as nat) / 1 == n);
            if num_bits == 0 {
                lemma_small_mod(0, m);
            } else {
                lemma_small_mod(big_val(fk), m);
            }
        }
        Ok(fk)
    }

    /// F(n) mod 10^d for the `d = opts.last_digits` last digits; a missing or
    /// zero digit count is a configuration error.
    pub fn calculate_core<F: Fn(u64, u64)>(&self, cancel: &CancellationToken, report: &F, n: u64, opts: &Options)
        -> (r: Result<BigUint, FibError>)
        requires
            accepts_progress(*report, n as nat),
        ensures
            (opts.last_digits is None || opts.last_digits == Some(0u32)) ==> (r matches Err(FibError::Config(s))
                && s@ == "FastDoublingMod requires last_digits > 0"@),
            r is Ok ==> (opts.last_digits matches Some(d) && big_val(r->Ok_0) == fib(n as nat) % (pow(10, d as nat) as nat)),
            r is Err && (opts.last_digits matches Some(d) && d > 0) ==> r == Err::<BigUint, FibError>(FibError::Cancelled),
            n == 0 && (opts.last_digits matches Some(d) && d > 0) ==> r is Ok,
    {
        let digits = match opts.last_digits {
            Some(d) => {
                if d > 0 {
                    d
                } else {
                    return Err(FibError::Config(String::from_str("FastDoublingMod requires last_digits > 0")));
                }
            },
            None => {
                return Err(FibError::Config(String::from_str("FastDoublingMod requires last_digits > 0")));
            },
        };
        let ten = big_from_u64(10);
        let modulus = big_pow(&ten, digits);
        proof {
            vstd::arithmetic::power::lemma_pow_positive(10, digits as nat);
        }
        Self::fibonacci_mod(n, &modulus, cancel, report)
    }
}

impl Default for FastDoublingMod {
    fn default() -> (r: Self) {
        FastDoublingMod
    }
}

} // verus!
