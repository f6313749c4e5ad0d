//! Fibonacci numbers as powers of the Q matrix [[1, 1], [1, 0]]:
//! Q^k = [[F(k+1), F(k)], [F(k), F(k-1)]], raised by square-and-multiply.

use crate::big::{bits_of, big_add, big_eq, big_from_u64, big_mul, big_val, big_zero};
use crate::calculator::FibError;
use crate::fastdoubling::{bit_count, lemma_prefix_step, prefix};
use crate::fibonacci::{fib, lemma_fib_add, lemma_fib_double};
use crate::progress::{accepts_progress, CancellationToken};
use num_bigint::BigUint;
use vstd::arithmetic::mul::*;
use vstd::arithmetic::power2::*;
use vstd::prelude::*;

verus! {

/// F(k - 1), with F(-1) = 1 so that Q^0 is the identity.
pub open spec fn fib_before(k: nat) -> nat {
    if k == 0 { 1 } else { fib((k - 1) as nat) }
}

/// A 2x2 matrix of big numbers [[a, b], [c, d]].
#[derive(Debug, Clone)]
pub struct Matrix {
    /// Entry [0][0].
    pub a: BigUint,
    /// Entry [0][1].
    pub b: BigUint,
    /// Entry [1][0].
    pub c: BigUint,
    /// Entry [1][1].
    pub d: BigUint,
}

impl Matrix {
    /// The matrix is Q^k.
    pub open spec fn is_q_power(&self, k: nat) -> bool {
        &&& big_val(self.a) == fib(k + 1)
        &&& big_val(self.b) == fib(k)
        &&& big_val(self.c) == fib(k)
        &&& big_val(self.d) == fib_before(k)
    }

    /// The identity matrix.
    pub fn identity() -> (r: Self)
        ensures
            big_val(r.a) == 1 && big_val(r.b) == 0 && big_val(r.c) == 0 && big_val(r.d) == 1,
            r.is_q_power(0),
    {
        Matrix { a: big_from_u64(1), b: big_zero(), c: big_zero(), d: big_from_u64(1) }
    }

    /// The Fibonacci Q matrix [[1, 1], [1, 0]].
    pub fn fibonacci_q() -> (r: Self)
        ensures
            big_val(r.a) == 1 && big_val(r.b) == 1 && big_val(r.c) == 1 && big_val(r.d) == 0,
            r.is_q_power(1),
    {
        proof {
            reveal_with_fuel(fib, 3);
        }
        Matrix { a: big_from_u64(1), b: big_from_u64(1), c: big_from_u64(1), d: big_zero() }
    }

    /// Whether the matrix is the identity.
    pub fn is_identity(&self) -> (r: bool)
        ensures
            r == (big_val(self.a) == 1 && big_val(self.b) == 0 && big_val(self.c) == 0 && big_val(self.d) == 1),
    {
        let one = big_from_u64(1);
        let zero = big_zero();
        big_eq(&self.a, &one) && big_eq(&self.b, &zero) && big_eq(&self.c, &zero) && big_eq(&self.d, &one)
    }

    /// Square of a symmetric matrix (b == c): [[a^2 + b^2, b (a + d)],
    /// [b (a + d), b^2 + d^2]].
    pub fn square_symmetric(&self) -> (r: Self)
        ensures
            big_val(r.a) == big_val(self.a) * big_val(self.a) + big_val(self.b) * big_val(self.b),
            big_val(r.b) == big_val(self.b) * (big_val(self.a) + big_val(self.d)),
            big_val(r.c) == big_val(r.b),
            big_val(r.d) == big_val(self.b) * big_val(self.b) + big_val(self.d) * big_val(self.d),
    {
        let b_sq = big_mul(&self.b, &self.b);
        let a_sq = big_mul(&self.a, &self.a);
        let new_a = big_add(&a_sq, &b_sq);
        let a_plus_d = big_add(&self.a, &self.d);
        let new_b = big_mul(&self.b, &a_plus_d);
        let d_sq = big_mul(&self.d, &self.d);
        let new_d = big_add(&b_sq, &d_sq);
        Matrix { a: new_a, b: new_b.clone(), c: new_b, d: new_d }
    }

    /// In-place `square_symmetric`.
    pub fn square_symmetric_into(&mut self)
        ensures
            big_val(final(self).a) == big_val(old(self).a) * big_val(old(self).a) + big_val(old(self).b) * big_val(old(self).b),
            big_val(final(self).b) == big_val(old(self).b) * (big_val(old(self).a) + big_val(old(self).d)),
            big_val(final(self).c) == big_val(final(self).b),
            big_val(final(self).d) == big_val(old(self).b) * big_val(old(self).b) + big_val(old(self).d) * big_val(old(self).d),
    {
        let r = self.square_symmetric();
        *self = r;
    }

    /// Product of symmetric matrices: [[a1 a2 + b1 b2, a1 b2 + b1 d2],
    /// [a1 b2 + b1 d2, b1 b2 + d1 d2]].
    pub fn multiply_symmetric(&self, other: &Self) -> (r: Self)
        ensures
            big_val(r.a) == big_val(self.a) * big_val(other.a) + big_val(self.b) * big_val(other.b),
            big_val(r.b) == big_val(self.a) * big_val(other.b) + big_val(self.b) * big_val(other.d),
            big_val(r.c) == big_val(r.b),
            big_val(r.d) == big_val(self.b) * big_val(other.b) + big_val(self.d) * big_val(other.d),
    {
        let b1_b2 = big_mul(&self.b, &other.b);
        let a1_a2 = big_mul(&self.a, &other.a);
        let new_a = big_add(&a1_a2, &b1_b2);
        let a1_b2 = big_mul(&self.a, &other.b);
        let b1_d2 = big_mul(&self.b, &other.d);
        let new_b = big_add(&a1_b2, &b1_d2);
        let d1_d2 = big_mul(&self.d, &other.d);
        let new_d = big_add(&b1_b2, &d1_d2);
        Matrix { a: new_a, b: new_b.clone(), c: new_b, d: new_d }
    }

    /// In-place `multiply_symmetric`.
    pub fn multiply_symmetric_into(&mut self, other: &Self)
        ensures
            big_val(final(self).a) == big_val(old(self).a) * big_val(other.a) + big_val(old(self).b) * big_val(other.b),
            big_val(final(self).b) == big_val(old(self).a) * big_val(other.b) + big_val(old(self).b) * big_val(other.d),
            big_val(final(self).c) == big_val(final(self).b),
            big_val(final(self).d) == big_val(old(self).b) * big_val(other.b) + big_val(old(self).d) * big_val(other.d),
    {
        let r = self.multiply_symmetric(other);
        *self = r;
    }
}

/// State of the matrix loop: the running power and the base Q.
pub struct MatrixState {
    /// The running power.
    pub result: Matrix,
    /// The base, Q.
    pub base: Matrix,
}

impl MatrixState {
    /// Identity result, base Q.
    pub fn new() -> (r: Self)
        ensures
            r.result.is_q_power(0),
            r.base.is_q_power(1),
    {
        MatrixState { result: Matrix::identity(), base: Matrix::fibonacci_q() }
    }

    /// Back to identity result and base Q.
    pub fn reset(&mut self)
        ensures
            final(self).result.is_q_power(0),
            final(self).base.is_q_power(1),
    {
        self.result = Matrix::identity();
        self.base = Matrix::fibonacci_q();
    }
}

/// A pool of idle matrix states, holding at most `max_size` of them. The
/// pool has one owner at a time (`&mut self`); sharing it between threads is
/// left to the caller.
pub struct MatrixStatePool {
    pool: Vec<MatrixState>,
    max_size: usize,
}

impl MatrixStatePool {
    /// The idle states, the last one taken first.
    pub closed spec fn idle(&self) -> Seq<MatrixState> {
        self.pool@
    }

    /// The most idle states the pool keeps.
    pub closed spec fn capacity(&self) -> nat {
        self.max_size as nat
    }

    /// The pool holds no more than its capacity.
    pub open spec fn wf(&self) -> bool {
        self.idle().len() <= self.capacity()
    }

    /// An empty pool that keeps up to `max_size` idle states.
    pub fn new(max_size: usize) -> (r: Self)
        ensures
            r.idle() == Seq::<MatrixState>::empty(),
            r.capacity() == max_size,
            r.wf(),
    {
        MatrixStatePool { pool: Vec::new(), max_size }
    }

    /// A state ready for use (identity result, base Q): the last idle one,
    /// reset, or a new one when none is idle.
    pub fn acquire(&mut self) -> (r: MatrixState)
        ensures
            r.result.is_q_power(0),
            r.base.is_q_power(1),
            final(self).capacity() == old(self).capacity(),
            old(self).wf() ==> final(self).wf(),
            old(self).idle().len() == 0 ==> final(self).idle() == old(self).idle(),
            old(self).idle().len() > 0 ==> final(self).idle() == old(self).idle().drop_last(),
    {
        match self.pool.pop() {
            Some(state) => {
                let mut state = state;
                state.reset();
                state
            },
            None => MatrixState::new(),
        }
    }

    /// Put a state back, unless the pool already holds its capacity (the
    /// state is then dropped).
    pub fn release(&mut self, state: MatrixState)
        ensures
            final(self).capacity() == old(self).capacity(),
            old(self).wf() ==> final(self).wf(),
            old(self).idle().len() < old(self).capacity() ==> final(self).idle() == old(self).idle().push(state),
            old(self).idle().len() >= old(self).capacity() ==> final(self).idle() == old(self).idle(),
    {
        if self.pool.len() < self.max_size {
            self.pool.push(state);
        }
    }

    /// The number of idle states.
    pub fn available(&self) -> (r: usize)
        ensures
            r == self.idle().len(),
    {
        self.pool.len()
    }
}

impl Default for MatrixStatePool {
    fn default() -> (r: Self)
        ensures
            r.idle() == Seq::<MatrixState>::empty(),
            r.capacity() == 4,
    {
        Self::new(4)
    }
}

/// Product of two symmetric matrices.
pub fn matrix_multiply(a: &Matrix, b: &Matrix) -> (r: Matrix)
    ensures
        big_val(r.a) == big_val(a.a) * big_val(b.a) + big_val(a.b) * big_val(b.b),
        big_val(r.b) == big_val(a.a) * big_val(b.b) + big_val(a.b) * big_val(b.d),
        big_val(r.c) == big_val(r.b),
        big_val(r.d) == big_val(a.b) * big_val(b.b) + big_val(a.d) * big_val(b.d),
{
    a.multiply_symmetric(b)
}

/// Square of a symmetric matrix.
pub fn matrix_square(m: &Matrix) -> (r: Matrix)
    ensures
        big_val(r.a) == big_val(m.a) * big_val(m.a) + big_val(m.b) * big_val(m.b),
        big_val(r.b) == big_val(m.b) * (big_val(m.a) + big_val(m.d)),
        big_val(r.c) == big_val(r.b),
        big_val(r.d) == big_val(m.b) * big_val(m.b) + big_val(m.d) * big_val(m.d),
{
    m.square_symmetric()
}

/// Product of two symmetric matrices; the Strassen scheme above
/// `threshold` bits is not provided, so both ways multiply directly.
pub fn matrix_multiply_strassen(a: &Matrix, b: &Matrix, threshold: usize) -> (r: Matrix)
    ensures
        big_val(r.a) == big_val(a.a) * big_val(b.a) + big_val(a.b) * big_val(b.b),
        big_val(r.b) == big_val(a.a) * big_val(b.b) + big_val(a.b) * big_val(b.d),
        big_val(r.c) == big_val(r.b),
        big_val(r.d) == big_val(a.b) * big_val(b.b) + big_val(a.d) * big_val(b.d),
{
    matrix_multiply(a, b)
}

/// Q^k squared is Q^(2k).
pub proof fn lemma_q_square(k: nat, a: nat, b: nat, d: nat)
    requires
        a == fib(k + 1),
        b == fib(k),
        d == fib_before(k),
    ensures
        a * a + b * b == fib(2 * k + 1),
        b * (a + d) == fib(2 * k),
        b * b + d * d == fib_before(2 * k),
{
    lemma_fib_double(k);
    lemma_mul_is_commutative(a as int, a as int);
    if k == 0 {
        reveal_with_fuel(fib, 2);
        lemma_mul_basics(d as int);
    } else {
        assert(fib(k + 1) == fib(k) + fib((k - 1) as nat));
        lemma_fib_add((k - 1) as nat, (k - 1) as nat);
        assert((k - 1) as nat + (k - 1) as nat + 1 == 2 * k - 1);
        assert((k - 1) as nat + 1 == k);
    }
}

/// Q^k times Q is Q^(k+1).
pub proof fn lemma_q_step(k: nat, a: nat, b: nat, d: nat)
    requires
        a == fib(k + 1),
        b == fib(k),
        d == fib_before(k),
    ensures
        a * 1 + b * 1 == fib(k + 2),
        a * 1 + b * 0 == fib(k + 1),
        b * 1 + d * 0 == fib_before(k + 1),
{
    lemma_mul_basics(a as int);
    lemma_mul_basics(b as int);
    lemma_mul_basics(d as int);
}

/// F(n) as the off-diagonal entry of Q^n, by square-and-multiply over the
/// bits of n, asking `cancelled` before each bit whether to stop. It stops
/// with `Err(Cancelled)` only on a `true` answer, so a source that can never
/// answer `true` always lets it finish with F(n). `report` is told (bits
/// done, bits in all) after each bit.
pub fn matrix_loop_with<F: Fn(u64, u64), C: Fn() -> bool>(n: u64, cancelled: &C, report: &F) -> (r: Result<
    BigUint,
    FibError,
>)
    requires
        accepts_progress(*report, n as nat),
        cancelled.requires(()),
    ensures
        r is Err ==> r == Err::<BigUint, FibError>(FibError::Cancelled) && cancelled.ensures((), true),
        r is Ok ==> big_val(r->Ok_0) == fib(n as nat),
        !cancelled.ensures((), true) ==> r is Ok,
        n == 0 ==> r is Ok,
{
    let num_bits = bit_count(n);
    let mut state = MatrixState::new();
    let mut i: u32 = num_bits;
    while i > 0
        invariant
            i <= num_bits <= 64,
            num_bits == bits_of(n as nat),
            accepts_progress(*report, n as nat),
            cancelled.requires(()),
            state.result.is_q_power(prefix(n as nat, i as nat)),
            state.base.is_q_power(1),
        decreases i,
    {
        if cancelled() {
            return Err(FibError::Cancelled);
        }
        i -= 1;
        let ghost k = prefix(n as nat, (i + 1) as nat);
        proof {
            lemma_q_square(k, big_val(state.result.a), big_val(state.result.b), big_val(state.result.d));
            lemma_prefix_step(n as nat, i as nat);
        }
        state.result = matrix_square(&state.result);
        let bit = (n >> i) & 1;
        proof {
            vstd::bits::lemma_u64_shr_is_div(n, i as u64);
            assert((n >> i) & 1 == (n >> i) % 2) by (bit_vector);
        }
        if bit == 1 {
            proof {
                reveal_with_fuel(fib, 3);
                lemma_q_step(2 * k, big_val(state.result.a), big_val(state.result.b), big_val(state.result.d));
            }
            state.result = matrix_multiply(&state.result, &state.base);
        }
        report((num_bits - i) as u64, num_bits as u64);
    }
    proof {
        assert(pow2(0) == 1) by { lemma2_to64(); }
        assert((n as nat) / 1 == n);
        assert(prefix(n as nat, 0) == n);
    }
    Ok(state.result.b)
}

/// F(n) as the off-diagonal entry of Q^n, by square-and-multiply over the
/// bits of n, with cancellation read from the token (see
/// `matrix_loop_with`). `report` is told (bits done, bits in all) after
/// each bit.
pub fn execute_matrix_loop<F: Fn(u64, u64)>(n: u64, cancel: &CancellationToken, report: &F) -> (r: Result<
    BigUint,
    FibError,
>)
    requires
        accepts_progress(*report, n as nat),
    ensures
        r is Err ==> r == Err::<BigUint, FibError>(FibError::Cancelled),
        r is Ok ==> big_val(r->Ok_0) == fib(n as nat),
        n == 0 ==> r is Ok,
{
    let cancelled = || cancel.is_cancelled();
    matrix_loop_with(n, &cancelled, report)
}

/// Fibonacci by powers of the Q matrix.
pub struct MatrixExponentiation;

impl MatrixExponentiation {
    /// A new calculator.
    pub fn new() -> (r: Self) {
        MatrixExponentiation
    }

    /// F(n) by powers of the Q matrix.
    pub fn calculate_core<F: Fn(u64, u64)>(&self, cancel: &CancellationToken, report: &F, n: u64) -> (r: Result<
        BigUint,
        FibError,
    >)
        requires
            accepts_progress(*report, n as nat),
        ensures
            r is Err ==> r == Err::<BigUint, FibError>(FibError::Cancelled),
            r is Ok ==> big_val(r->Ok_0) == fib(n as nat),
            n == 0 ==> r is Ok,
    {
        execute_matrix_loop(n, cancel, report)
    }
}

impl Default for MatrixExponentiation {
    fn default() -> (r: Self) {
        MatrixExponentiation
    }
}

} // verus!
