//! The Fibonacci numbers and the identities the algorithms rest on.

use crate::constants::{table_recurrence_from, FIB_TABLE};
use vstd::arithmetic::mul::*;
use vstd::prelude::*;

verus! {

/// The Fibonacci numbers: F(0) = 0, F(1) = 1, F(n + 2) = F(n + 1) + F(n).
pub open spec fn fib(n: nat) -> nat
    decreases n,
{
    if n == 0 {
        0
    } else if n == 1 {
        1
    } else {
        fib((n - 1) as nat) + fib((n - 2) as nat)
    }
}

/// The recurrence holds for every entry from `k` on, given it from the third.
proof fn lemma_table_recurrence(k: nat)
    requires
        2 <= k <= 94,
    ensures
        table_recurrence_from(k),
    decreases k,
{
    if k == 2 {
        reveal_with_fuel(table_recurrence_from, 93);
    } else {
        lemma_table_recurrence((k - 1) as nat);
    }
}

/// The table holds the Fibonacci numbers.
pub proof fn lemma_fib_table(i: nat)
    requires
        i < 94,
    ensures
        FIB_TABLE@[i as int] == fib(i),
    decreases i,
{
    if i >= 2 {
        lemma_fib_table((i - 1) as nat);
        lemma_fib_table((i - 2) as nat);
        lemma_table_recurrence(i);
    }
}

/// The sum rule: F(m + n + 1) = F(m + 1) F(n + 1) + F(m) F(n).
pub proof fn lemma_fib_add(m: nat, n: nat)
    ensures
        fib(m + n + 1) == fib(m + 1) * fib(n + 1) + fib(m) * fib(n),
    decreases n,
{
    reveal_with_fuel(fib, 3);
    if n == 0 {
        assert(fib(1) == 1);
        lemma_mul_basics(fib(m + 1) as int);
        lemma_mul_basics(fib(m) as int);
    } else if n == 1 {
        assert(fib(2) == 1);
        assert(fib(m + 2) == fib(m + 1) + fib(m));
        lemma_mul_basics(fib(m + 1) as int);
        lemma_mul_basics(fib(m) as int);
    } else {
        lemma_fib_add(m, (n - 1) as nat);
        lemma_fib_add(m, (n - 2) as nat);
        assert(fib(m + n + 1) == fib(m + n) + fib((m + n - 1) as nat));
        assert(fib(n + 1) == fib(n) + fib((n - 1) as nat));
        assert(fib(n) == fib((n - 1) as nat) + fib((n - 2) as nat));
        lemma_mul_is_distributive_add(fib(m + 1) as int, fib(n) as int, fib((n - 1) as nat) as int);
        lemma_mul_is_distributive_add(fib(m) as int, fib((n - 1) as nat) as int, fib((n - 2) as nat) as int);
        assert((m + (n - 1) as nat + 1) == m + n);
        assert((m + (n - 2) as nat + 1) == m + n - 1);
    }
}

/// The doubling rules: F(2k) = F(k) (2 F(k + 1) - F(k)) and
/// F(2k + 1) = F(k + 1)^2 + F(k)^2.
pub proof fn lemma_fib_double(k: nat)
    ensures
        fib(k) <= 2 * fib(k + 1),
        fib(2 * k) == fib(k) * (2 * fib(k + 1) - fib(k)),
        fib(2 * k + 1) == fib(k + 1) * fib(k + 1) + fib(k) * fib(k),
{
    lemma_fib_add(k, k);
    lemma_fib_monotonic(k, k + 1);
    if k == 0 {
        assert(fib(0) == 0);
    } else {
        lemma_fib_add(k, (k - 1) as nat);
        assert(fib(k + 1) == fib(k) + fib((k - 1) as nat));
        assert((k + (k - 1) as nat + 1) == 2 * k);
        lemma_mul_is_commutative(fib(k + 1) as int, fib(k) as int);
        lemma_mul_is_commutative(fib((k - 1) as nat) as int, fib(k) as int);
        lemma_mul_is_distributive_add(fib(k) as int, fib(k + 1) as int, fib((k - 1) as nat) as int);
        assert(2 * fib(k + 1) - fib(k) == fib(k + 1) + fib((k - 1) as nat));
    }
}

/// The Fibonacci numbers do not decrease.
pub proof fn lemma_fib_monotonic(i: nat, j: nat)
    requires
        i <= j,
    ensures
        fib(i) <= fib(j),
    decreases j - i,
{
    if i < j {
        lemma_fib_monotonic(i, (j - 1) as nat);
        if j >= 2 {
            assert(fib(j) == fib((j - 1) as nat) + fib((j - 2) as nat));
        }
    }
}

/// Fibonacci addition law: each number is the sum of the two before it.
pub proof fn lemma_fib_step(n: nat)
    ensures
        fib(n + 2) == fib(n + 1) + fib(n),
{
}

} // verus!
