//! Timing of repeated runs of a closure, and the statistics of the times.

use std::time::{Duration, Instant};
use vstd::prelude::*;
use vstd::relations::{sorted_by, total_ordering};

verus! {

/// Nanoseconds in a second.
pub const NANOS_PER_SEC: u128 = 1_000_000_000;

/// The length of a duration in nanoseconds, as `Duration::as_nanos` gives it.
pub uninterp spec fn duration_nanos(d: Duration) -> nat;

/// `Duration::as_nanos`: the length in nanoseconds, at most
/// `Duration::MAX` (u64::MAX seconds and 999,999,999 nanoseconds).
#[verifier::external_body]
fn nanos_of(d: &Duration) -> (r: u128)
    ensures
        r == duration_nanos(*d),
        r <= u64::MAX as u128 * NANOS_PER_SEC + 999_999_999,
{
    d.as_nanos()
}

/// The length of `d` in nanoseconds.
pub fn duration_nanos_u128(d: &Duration) -> (r: u128)
    ensures
        r == duration_nanos(*d),
{
    nanos_of(d)
}

/// `Duration::new` with fewer than a billion nanoseconds: that length.
#[verifier::external_body]
fn duration_new(secs: u64, nanos: u32) -> (r: Duration)
    requires
        nanos < 1_000_000_000,
    ensures
        duration_nanos(r) == secs * NANOS_PER_SEC + nanos,
{
    Duration::new(secs, nanos)
}

/// `Clone::clone` on `Duration`, a `Copy` type: the same duration.
pub assume_specification[ <Duration as Clone>::clone ](d: &Duration) -> (r: Duration)
    ensures
        r == *d,
;

/// `Instant::elapsed`: the time since `start`.
#[verifier::external_body]
fn elapsed_since(start: &Instant) -> (r: Duration) {
    start.elapsed()
}

/// `Instant::now`: the current time.
#[verifier::external_body]
fn now() -> (r: Instant) {
    Instant::now()
}

/// The duration `d` divided by `n`, as `Duration / u32` gives it.
pub uninterp spec fn duration_quotient(d: Duration, n: u32) -> Duration;

/// `Duration / u32`, which panics on a zero divisor: the quotient, a
/// function of the two operands (its rounding is left unstated).
#[verifier::external_body]
fn duration_div(d: Duration, n: u32) -> (r: Duration)
    requires
        n > 0,
    ensures
        r == duration_quotient(d, n),
{
    d / n
}

/// The duration of `n` nanoseconds.
pub fn duration_from_nanos(n: u128) -> (r: Duration)
    requires
        n <= u64::MAX as u128 * NANOS_PER_SEC + 999_999_999,
    ensures
        duration_nanos(r) == n,
{
    let secs = n / NANOS_PER_SEC;
    let nanos = n % NANOS_PER_SEC;
    duration_new(secs as u64, nanos as u32)
}

/// The order of numbers, for sorting.
pub open spec fn leq_u128() -> spec_fn(u128, u128) -> bool {
    |x: u128, y: u128| x <= y
}

/// Sort in place, ascending.
pub fn sort_ascending(v: &mut Vec<u128>)
    ensures
        final(v)@.to_multiset() == old(v)@.to_multiset(),
        sorted_by(final(v)@, leq_u128()),
        final(v)@ == old(v)@.sort_by(leq_u128()),
{
    let n = v.len();
    let mut i: usize = 1;
    let ghost orig = v@;
    proof {
        broadcast use vstd::seq_lib::to_multiset_update;
    }
    while i < n
        invariant
            n == v@.len(),
            1 <= i || n == 0,
            i <= n || n == 0,
            v@.to_multiset() == orig.to_multiset(),
            forall|a: int, b: int| 0 <= a < b < i && b < n ==> #[trigger] v@[a] <= #[trigger] v@[b],
        decreases n - i,
    {
        let mut j: usize = i;
        while j > 0 && v[j - 1] > v[j]
            invariant
                n == v@.len(),
                1 <= i < n,
                j <= i,
                v@.to_multiset() == orig.to_multiset(),
                forall|a: int, b: int| 0 <= a < b <= i && a != j && b != j ==> #[trigger] v@[a] <= #[trigger] v@[b],
                forall|b: int| j < b <= i ==> v@[j as int] <= #[trigger] v@[b],
                forall|a: int, b: int| 0 <= a < j && j < b <= i ==> #[trigger] v@[a] <= #[trigger] v@[b],
            decreases j,
        {
            let x = v[j - 1];
            let y = v[j];
            let ghost before = v@;
            v.set(j - 1, y);
            v.set(j, x);
            proof {
                broadcast use vstd::seq_lib::to_multiset_update;
                broadcast use vstd::multiset::group_multiset_axioms;
                let m1 = before.update(j - 1, y);
                assert(v@ == m1.update(j as int, x));
                assert(m1.to_multiset() == before.to_multiset().insert(y).remove(x));
                assert(m1[j as int] == y);
                assert(v@.to_multiset() == m1.to_multiset().insert(x).remove(y));
                let ms = before.to_multiset();
                assert(ms.count(x) >= 1) by {
                    vstd::seq_lib::to_multiset_contains(before, x);
                    assert(before[j - 1] == x);
                }
                assert(ms.insert(y).remove(x).insert(x).remove(y) =~= ms);
            }
            j -= 1;
        }
        proof {
            assert forall|a: int, b: int| 0 <= a < b < i + 1 && b < n implies #[trigger] v@[a] <= #[trigger] v@[b] by {
                if a == j as int {
                } else if b == j as int {
                    if a < j - 1 {
                        assert(v@[a] <= v@[j - 1]);
                    }
                }
            }
        }
        i += 1;
    }
    proof {
        let leq = leq_u128();
        assert(total_ordering(leq));
        assert(sorted_by(v@, leq));
        orig.lemma_sort_by_ensures(leq);
        vstd::seq_lib::lemma_sorted_unique(v@, orig.sort_by(leq), leq);
    }
}

/// Largest length of a `Duration` in nanoseconds.
pub open spec fn max_duration_nanos() -> nat {
    u64::MAX as nat * NANOS_PER_SEC as nat + 999_999_999
}

/// Sum of a sequence of numbers.
pub open spec fn sum_of(s: Seq<u128>) -> nat
    decreases s.len(),
{
    if s.len() == 0 { 0 } else { sum_of(s.drop_last()) + (s.last() as nat) }
}

/// Median of a sorted nonempty sequence: the middle element, or the
/// rounded-down mean of the two middle elements.
pub open spec fn median_of(t: Seq<u128>) -> nat {
    if t.len() % 2 == 1 {
        t[(t.len() / 2) as int] as nat
    } else {
        ((t[(t.len() / 2 - 1) as int] + t[(t.len() / 2) as int]) / 2) as nat
    }
}

/// Statistics of a series of timed runs.
#[derive(Debug, Clone)]
pub struct BenchmarkResult {
    /// Name of the benchmark.
    pub name: String,
    /// Mean run time.
    pub mean: Duration,
    /// Median run time.
    pub median: Duration,
    /// Shortest run time.
    pub min: Duration,
    /// Longest run time.
    pub max: Duration,
    /// Number of timed runs.
    pub iterations: u32,
}

/// `r` holds the statistics of the run times `ns` (nanoseconds).
pub open spec fn stats_of(r: BenchmarkResult, ns: Seq<u128>) -> bool {
    let t = ns.sort_by(leq_u128());
    &&& r.iterations == ns.len()
    &&& duration_nanos(r.min) == t[0]
    &&& duration_nanos(r.max) == t[t.len() - 1]
    &&& duration_nanos(r.median) == median_of(t)
    &&& duration_nanos(r.mean) == sum_of(ns) / ns.len()
}

impl BenchmarkResult {
    /// The same result under another name.
    pub fn with_name(self, name: &str) -> (r: Self)
        ensures
            r.name@ == name@,
            r.mean == self.mean && r.median == self.median && r.min == self.min && r.max == self.max,
            r.iterations == self.iterations,
    {
        let mut r = self;
        r.name = String::from_str(name);
        r
    }
}

/// The statistics of run times given in nanoseconds, one per timed run.
pub fn summarize(name: String, ns: Vec<u128>, iterations: u32) -> (r: BenchmarkResult)
    requires
        ns@.len() == iterations,
        iterations > 0,
        forall|i: int| 0 <= i < ns@.len() ==> ns@[i] <= max_duration_nanos(),
    ensures
        r.name == name,
        stats_of(r, ns@),
{
    let mut total: u128 = 0;
    let mut k: usize = 0;
    proof {
        assert(ns@.take(0) =~= Seq::<u128>::empty());
    }
    while k < ns.len()
        invariant
            k <= ns@.len(),
            ns@.len() == iterations,
            forall|i: int| 0 <= i < ns@.len() ==> ns@[i] <= max_duration_nanos(),
            total == sum_of(ns@.take(k as int)),
            total <= k * max_duration_nanos(),
        decreases ns@.len() - k,
    {
        proof {
            assert(ns@.take(k as int + 1).drop_last() =~= ns@.take(k as int));
            assert(k * max_duration_nanos() + max_duration_nanos() <= 0x1_0000_0000 * max_duration_nanos())
                by (nonlinear_arith) requires k < 0x1_0000_0000;
            assert((k + 1) * max_duration_nanos() == k * max_duration_nanos() + max_duration_nanos())
                by (nonlinear_arith);
        }
        total = total + ns[k];
        k += 1;
    }
    proof {
        assert(ns@.take(ns@.len() as int) =~= ns@);
    }
    let mut sorted = ns.clone();
    let ghost orig = ns@;
    sort_ascending(&mut sorted);
    let len = sorted.len();
    proof {
        orig.lemma_sort_by_ensures(leq_u128());
        assert(sorted@.len() == orig.len()) by {
            vstd::seq_lib::to_multiset_len(sorted@);
            vstd::seq_lib::to_multiset_len(orig);
        }
        assert forall|i: int| 0 <= i < len implies sorted@[i] <= max_duration_nanos() by {
            vstd::seq_lib::to_multiset_contains(sorted@, sorted@[i]);
            vstd::seq_lib::to_multiset_contains(orig, sorted@[i]);
        }
    }
    let min = duration_from_nanos(sorted[0]);
    let max = duration_from_nanos(sorted[len - 1]);
    let median_ns = if len % 2 == 1 {
        sorted[len / 2]
    } else {
        let mid = len / 2;
        (sorted[mid - 1] + sorted[mid]) / 2
    };
    let median = duration_from_nanos(median_ns);
    proof {
        let mx = max_duration_nanos();
        assert((total as int) / (iterations as int) <= mx) by (nonlinear_arith)
            requires total <= iterations * mx, iterations > 0;
    }
    let mean = duration_from_nanos(total / iterations as u128);
    BenchmarkResult { name, mean, median, min, max, iterations }
}

/// Mean time of `iterations` runs of `f`, after one warm-up run: the time
/// that the runs took, divided by their number.
pub fn benchmark<F: Fn()>(iterations: u32, f: F) -> (r: Duration)
    requires
        iterations > 0,
        f.requires(()),
    ensures
        exists|total: Duration| r == #[trigger] duration_quotient(total, iterations),
{
    f();
    let start = now();
    let mut k: u32 = 0;
    while k < iterations
        invariant
            f.requires(()),
        decreases iterations - k,
    {
        f();
        k += 1;
    }
    duration_div(elapsed_since(&start), iterations)
}

/// Statistics of `measure_iters` timed runs of `f`, after `warmup_iters`
/// untimed runs.
pub fn benchmark_detailed<F: Fn()>(warmup_iters: u32, measure_iters: u32, f: F) -> (r: BenchmarkResult)
    requires
        measure_iters > 0,
        f.requires(()),
    ensures
        r.name@ == Seq::<char>::empty(),
        r.iterations == measure_iters,
        exists|ns: Seq<u128>| ns.len() == measure_iters && stats_of(r, ns),
{
    let mut k: u32 = 0;
    while k < warmup_iters
        invariant
            f.requires(()),
        decreases warmup_iters - k,
    {
        f();
        k += 1;
    }
    let mut ns: Vec<u128> = Vec::new();
    let mut m: u32 = 0;
    while m < measure_iters
        invariant
            f.requires(()),
            ns@.len() == m,
            m <= measure_iters,
            forall|i: int| 0 <= i < ns@.len() ==> ns@[i] <= max_duration_nanos(),
        decreases measure_iters - m,
    {
        let start = now();
        f();
        let d = elapsed_since(&start);
        ns.push(nanos_of(&d));
        m += 1;
    }
    let ghost measured = ns@;
    summarize(String::new(), ns, measure_iters)
}

} // verus!
