//! A stepping source of Fibonacci numbers, and F(n), F(n+1) by doubling.

use crate::big::{big_add, big_from_u64, big_mul, big_shl, big_sub, big_val};
use crate::fastdoubling::{bit_count, lemma_pair_after_step, lemma_prefix_step, prefix};
use crate::fibonacci::{fib, lemma_fib_double};
use num_bigint::BigUint;
use vstd::arithmetic::mul::*;
use vstd::arithmetic::power2::*;
use vstd::prelude::*;

verus! {

/// (F(n), F(n+1)) by fast doubling over the bits of n.
pub fn fib_pair(n: u64) -> (r: (BigUint, BigUint))
    ensures
        big_val(r.0) == fib(n as nat),
        big_val(r.1) == fib(n as nat + 1),
{
    let mut a = big_from_u64(0);
    let mut b = big_from_u64(1);
    let num_bits = bit_count(n);
    let mut i: u32 = num_bits;
    proof {
        assert(fib(0) == 0 && fib(1) == 1);
    }
    while i > 0
        invariant
            i <= num_bits <= 64,
            big_val(a) == fib(prefix(n as nat, i as nat)),
            big_val(b) == fib(prefix(n as nat, i as nat) + 1),
        decreases i,
    {
        i -= 1;
        let ghost k = prefix(n as nat, (i + 1) as nat);
        proof {
            lemma_fib_double(k);
            lemma_prefix_step(n as nat, i as nat);
            assert(pow2(1) == 2) by { lemma2_to64(); }
        }
        let two_b = big_shl(&b, 1);
        proof {
            lemma_mul_is_commutative(big_val(b) as int, 2);
        }
        let t = big_sub(&two_b, &a);
        let f2k = big_mul(&a, &t);
        let aa = big_mul(&a, &a);
        let bb = big_mul(&b, &b);
        let f2k1 = big_add(&aa, &bb);
        let bit = (n >> i) & 1;
        proof {
            vstd::bits::lemma_u64_shr_is_div(n, i as u64);
            assert((n >> i) & 1 == (n >> i) % 2) by (bit_vector);
            lemma_pair_after_step(k, bit as nat, big_val(f2k), big_val(f2k1));
        }
        if bit == 0 {
            a = f2k;
            b = f2k1;
        } else {
            a = f2k1.clone();
            b = big_add(&f2k, &f2k1);
        }
    }
    proof {
        assert(pow2(0) == 1) by { lemma2_to64(); }
        assert((n as nat) / 1 == n);
    }
    (a, b)
}

/// The Fibonacci numbers F(index), F(index + 1), ... one at a time.
pub struct FibIterator {
    a: BigUint,
    b: BigUint,
    index: u64,
}

impl FibIterator {
    /// The iterator is at `index` with the pair (F(index), F(index + 1)).
    pub closed spec fn at(&self, index: nat) -> bool {
        &&& self.index == index
        &&& big_val(self.a) == fib(index)
        &&& big_val(self.b) == fib(index + 1)
    }

    /// The index of the next number.
    pub closed spec fn position(&self) -> nat {
        self.index as nat
    }

    /// An iterator at `k` is at position `k`.
    pub proof fn lemma_at_position(&self, k: nat)
        requires
            self.at(k),
        ensures
            self.position() == k,
    {
    }

    /// An iterator starting at F(0).
    pub fn new() -> (r: Self)
        ensures
            r.at(0),
            r.position() == 0,
    {
        proof {
            assert(fib(0) == 0 && fib(1) == 1);
        }
        FibIterator { a: big_from_u64(0), b: big_from_u64(1), index: 0 }
    }

    /// An iterator starting at F(n).
    pub fn from_index(n: u64) -> (r: Self)
        ensures
            r.at(n as nat),
            r.position() == n,
    {
        if n == 0 {
            return Self::new();
        }
        let (a, b) = fib_pair(n);
        FibIterator { a, b, index: n }
    }

    /// The next pair (index, F(index)), moving one step on.
    pub fn next(&mut self) -> (r: Option<(u64, BigUint)>)
        requires
            old(self).position() < u64::MAX,
            exists|k: nat| old(self).at(k),
        ensures
            r matches Some(p) && p.0 == old(self).position() && big_val(p.1) == fib(old(self).position())
                && final(self).at(old(self).position() + 1),
            final(self).position() == old(self).position() + 1,
    {
        let val = self.a.clone();
        let idx = self.index;
        let next = big_add(&self.a, &self.b);
        proof {
            assert(fib(self.index as nat + 2) == fib(self.index as nat + 1) + fib(self.index as nat));
        }
        self.a = self.b.clone();
        self.b = next;
        self.index += 1;
        Some((idx, val))
    }

    /// The next `k` pairs, as `k` calls of `next` give them: (p + i,
    /// F(p + i)) for i < k, p the position; the iterator moves k steps on.
    pub fn take(&mut self, k: u64) -> (r: Vec<(u64, BigUint)>)
        requires
            old(self).position() + k <= u64::MAX,
            exists|j: nat| old(self).at(j),
        ensures
            r@.len() == k,
            forall|i: int| 0 <= i < k ==> (#[trigger] r@[i]).0 == old(self).position() + i
                && big_val(r@[i].1) == fib((old(self).position() + i) as nat),
            final(self).at(old(self).position() + k as nat),
            final(self).position() == old(self).position() + k,
    {
        let ghost p = self.position();
        let mut out: Vec<(u64, BigUint)> = Vec::new();
        let mut i: u64 = 0;
        proof {
            assert(self.at(p));
        }
        while i < k
            invariant
                i <= k,
                p + k <= u64::MAX,
                out@.len() == i,
                self.at(p + i as nat),
                self.position() == p + i,
                forall|j: int| 0 <= j < i ==> (#[trigger] out@[j]).0 == p + j
                    && big_val(out@[j].1) == fib((p + j) as nat),
            decreases k - i,
        {
            let item = self.next();
            match item {
                Some(pair) => {
                    out.push(pair);
                },
                None => {},
            }
            i += 1;
        }
        out
    }
}

impl Default for FibIterator {
    fn default() -> (r: Self)
        ensures
            r.at(0),
            r.position() == 0,
    {
        Self::new()
    }
}

} // verus!
