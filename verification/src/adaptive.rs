//! Estimation of the thresholds from timings on this machine.

use crate::constants::{DEFAULT_FFT_THRESHOLD, DEFAULT_PARALLEL_THRESHOLD, DEFAULT_STRASSEN_THRESHOLD};
use crate::microbench::{consistent_point, find_fft_crossover, CrossoverPoint};
use vstd::arithmetic::power2::*;
use vstd::prelude::*;

verus! {

/// Estimated thresholds (bits).
#[derive(Debug, Clone)]
pub struct EstimatedThresholds {
    /// Threshold for parallel multiplication.
    pub parallel_threshold: usize,
    /// Threshold for FFT multiplication.
    pub fft_threshold: usize,
    /// Threshold for Strassen multiplication.
    pub strassen_threshold: usize,
}

impl Default for EstimatedThresholds {
    fn default() -> (r: Self)
        ensures
            r.parallel_threshold == DEFAULT_PARALLEL_THRESHOLD,
            r.fft_threshold == DEFAULT_FFT_THRESHOLD,
            r.strassen_threshold == DEFAULT_STRASSEN_THRESHOLD,
    {
        EstimatedThresholds {
            parallel_threshold: DEFAULT_PARALLEL_THRESHOLD,
            fft_threshold: DEFAULT_FFT_THRESHOLD,
            strassen_threshold: DEFAULT_STRASSEN_THRESHOLD,
        }
    }
}

/// The Strassen threshold for an FFT threshold: three fifths of it, at
/// least the default, at most the FFT threshold itself.
pub open spec fn strassen_for(fft_threshold: nat) -> nat {
    let c = fft_threshold * 3 / 5;
    let c1 = if c >= DEFAULT_STRASSEN_THRESHOLD { c } else { DEFAULT_STRASSEN_THRESHOLD as nat };
    if c1 <= fft_threshold { c1 } else { fft_threshold }
}

/// The Strassen threshold for an FFT threshold (see `strassen_for`).
pub fn find_strassen_threshold(fft_threshold: usize) -> (r: usize)
    requires
        fft_threshold * 3 <= usize::MAX,
    ensures
        r == strassen_for(fft_threshold as nat),
{
    let candidate = fft_threshold * 3 / 5;
    let c1 = if candidate >= DEFAULT_STRASSEN_THRESHOLD { candidate } else { DEFAULT_STRASSEN_THRESHOLD };
    if c1 <= fft_threshold { c1 } else { fft_threshold }
}

/// `o` is what a timing at `bits` bits can say: nothing, or whether the
/// transform was faster at a point timed at that size.
pub open spec fn timing_outcome(o: Option<bool>, bits: nat) -> bool {
    o matches Some(f) ==> exists|p: CrossoverPoint| p.bit_length == bits && consistent_point(p)
        && f == #[trigger] p.fft_is_faster
}

/// Whether the transform is faster at `bits` bits, by one timing: always
/// an answer, that of the single point timed.
fn fft_faster_at(bits: usize) -> (r: Option<bool>)
    ensures
        r is Some,
        timing_outcome(r, bits as nat),
{
    let points = find_fft_crossover(&[bits]);
    if points.len() > 0 {
        Some(points[0].fft_is_faster)
    } else {
        None
    }
}

/// The midpoint of [lo, hi].
pub open spec fn midpoint(lo: nat, hi: nat) -> nat {
    (lo + (hi - lo) / 2) as nat
}

/// One step of the search on [lo, hi] by the outcome of the timing at its
/// midpoint: a win keeps the lower half, a loss the upper half, and no
/// outcome leaves the interval as it is.
pub open spec fn narrow_interval(lo: nat, hi: nat, faster: Option<bool>) -> (nat, nat) {
    match faster {
        Some(true) => (lo, midpoint(lo, hi)),
        Some(false) => (midpoint(lo, hi), hi),
        None => (lo, hi),
    }
}

/// The result of narrowing [lo, hi] by the timing outcomes `outs` (whether
/// the transform won at the midpoint; `None` when no timing came back), one
/// `narrow_interval` step each; the search stops when the outcomes run out
/// or the interval is under 1024 bits, at its midpoint.
pub open spec fn narrowed(lo: nat, hi: nat, outs: Seq<Option<bool>>) -> nat
    decreases outs.len(),
{
    if outs.len() == 0 || hi < lo + 1024 {
        midpoint(lo, hi)
    } else {
        let next = narrow_interval(lo, hi, outs[0]);
        narrowed(next.0, next.1, outs.drop_first())
    }
}

/// Each of the outcomes `outs` that the search uses, from [lo, hi] on, is
/// one of a timing at the midpoint of the interval of its step.
pub open spec fn timed_at_midpoints(lo: nat, hi: nat, outs: Seq<Option<bool>>) -> bool
    decreases outs.len(),
{
    if outs.len() == 0 || hi < lo + 1024 {
        true
    } else {
        let next = narrow_interval(lo, hi, outs[0]);
        timing_outcome(outs[0], midpoint(lo, hi)) && timed_at_midpoints(next.0, next.1, outs.drop_first())
    }
}

/// Outcomes that all say nothing leave the interval as it is.
proof fn lemma_narrowed_silent(lo: nat, hi: nat, j: nat)
    ensures
        narrowed(lo, hi, Seq::new(j, |i: int| None::<bool>)) == midpoint(lo, hi),
        timed_at_midpoints(lo, hi, Seq::new(j, |i: int| None::<bool>)),
    decreases j,
{
    if j > 0 {
        let f = Seq::new(j, |i: int| None::<bool>);
        assert(f.drop_first() =~= Seq::new((j - 1) as nat, |i: int| None::<bool>));
        lemma_narrowed_silent(lo, hi, (j - 1) as nat);
    }
}

/// The midpoint of [lo, hi], rounded down.
pub fn midpoint_of(lo: usize, hi: usize) -> (r: usize)
    requires
        lo <= hi,
    ensures
        r == midpoint(lo as nat, hi as nat),
        lo <= r <= hi,
{
    lo + (hi - lo) / 2
}

/// One step of the search (see `narrow_interval`).
pub fn narrow_step(lo: usize, hi: usize, faster: Option<bool>) -> (r: (usize, usize))
    requires
        lo <= hi,
    ensures
        (r.0 as nat, r.1 as nat) == narrow_interval(lo as nat, hi as nat, faster),
        lo <= r.0 <= r.1 <= hi,
{
    let mid = midpoint_of(lo, hi);
    match faster {
        Some(true) => (lo, mid),
        Some(false) => (mid, hi),
        None => (lo, hi),
    }
}

/// Narrow [low, high] around the size where the transform starts to win:
/// at most four steps of `narrow_step`, each by the timing at the midpoint
/// (`midpoint_of`), stopping once the interval is under 1024 bits; the
/// midpoint of the final interval. The outcomes come from timings, so the
/// result is `narrowed` for some four outcomes, each one that a timing at
/// the midpoint of its step can give (`timed_at_midpoints`).
pub fn binary_search_crossover(low: usize, high: usize) -> (r: usize)
    requires
        low <= high,
    ensures
        low <= r <= high,
        exists|outs: Seq<Option<bool>>| outs.len() == 4 && r == narrowed(low as nat, high as nat, outs)
            && timed_at_midpoints(low as nat, high as nat, outs),
{
    let mut lo = low;
    let mut hi = high;
    let mut k: u32 = 0;
    let ghost mut outs: Seq<Option<bool>> = Seq::empty();
    proof {
        assert(outs + Seq::new(4, |i: int| None::<bool>) =~= Seq::new(4, |i: int| None::<bool>));
    }
    while k < 4 && hi - lo >= 1024
        invariant
            forall|f: Seq<Option<bool>>| f.len() == 4 - k ==> #[trigger] narrowed(low as nat, high as nat, outs + f)
                == narrowed(lo as nat, hi as nat, f),
            forall|f: Seq<Option<bool>>| f.len() == 4 - k ==> #[trigger] timed_at_midpoints(low as nat, high as nat, outs + f)
                == timed_at_midpoints(lo as nat, hi as nat, f),
            outs.len() == k,
            low <= lo <= hi <= high,
            k <= 4,
        decreases 4 - k,
    {
        let mid = midpoint_of(lo, hi);
        let o = fft_faster_at(mid);
        let (next_lo, next_hi) = narrow_step(lo, hi, o);
        proof {
            let old_outs = outs;
            outs = outs.push(o);
            assert forall|f: Seq<Option<bool>>| f.len() == 4 - (k + 1) implies #[trigger] narrowed(low as nat, high as nat, outs + f)
                == narrowed(next_lo as nat, next_hi as nat, f) by {
                let g = seq![o] + f;
                assert(outs + f =~= old_outs + g);
                assert(g.drop_first() =~= f);
                assert(g[0] == o);
            }
            assert forall|f: Seq<Option<bool>>| f.len() == 4 - (k + 1) implies #[trigger] timed_at_midpoints(low as nat, high as nat, outs + f)
                == timed_at_midpoints(next_lo as nat, next_hi as nat, f) by {
                let g = seq![o] + f;
                assert(outs + f =~= old_outs + g);
                assert(g.drop_first() =~= f);
                assert(g[0] == o);
            }
        }
        lo = next_lo;
        hi = next_hi;
        k += 1;
    }
    proof {
        let f = Seq::new((4 - k) as nat, |i: int| None::<bool>);
        assert(narrowed(low as nat, high as nat, outs + f) == narrowed(lo as nat, hi as nat, f));
        assert(timed_at_midpoints(low as nat, high as nat, outs + f) == timed_at_midpoints(lo as nat, hi as nat, f));
        lemma_narrowed_silent(lo as nat, hi as nat, (4 - k) as nat);
        assert((outs + f).len() == 4);
    }
    midpoint_of(lo, hi)
}

/// The index of the first point at which the transform was faster.
pub open spec fn first_win_index(points: Seq<CrossoverPoint>) -> Option<nat>
    decreases points.len(),
{
    if points.len() == 0 {
        None
    } else if points[0].fft_is_faster {
        Some(0)
    } else {
        match first_win_index(points.drop_first()) {
            Some(i) => Some(i + 1),
            None => None,
        }
    }
}

/// The interval in which to search for the crossover: from the size of the
/// point before the first win (that of the first point when it wins at
/// once) to the size of the first win; none when the transform never won.
pub open spec fn crossover_interval(points: Seq<CrossoverPoint>) -> Option<(nat, nat)> {
    match first_win_index(points) {
        Some(i) => Some((
            (if i > 0 { points[i - 1].bit_length } else { points[0].bit_length }) as nat,
            points[i as int].bit_length as nat,
        )),
        None => None,
    }
}

/// No point before `i` is a win, and point `i` is: the first win is at `i`.
proof fn lemma_first_win_at(points: Seq<CrossoverPoint>, i: nat)
    requires
        i < points.len(),
        points[i as int].fft_is_faster,
        forall|j: int| 0 <= j < i ==> !(#[trigger] points[j]).fft_is_faster,
    ensures
        first_win_index(points) == Some(i),
    decreases i,
{
    if i > 0 {
        let rest = points.drop_first();
        assert forall|j: int| 0 <= j < i - 1 implies !(#[trigger] rest[j]).fft_is_faster by {
            assert(rest[j] == points[j + 1]);
        }
        lemma_first_win_at(rest, (i - 1) as nat);
    }
}

/// The first win is the index of a point.
proof fn lemma_first_win_in_range(points: Seq<CrossoverPoint>)
    ensures
        first_win_index(points) matches Some(i) ==> i < points.len(),
    decreases points.len(),
{
    if points.len() > 0 && !points[0].fft_is_faster {
        lemma_first_win_in_range(points.drop_first());
    }
}

/// No point is a win: there is no first win.
proof fn lemma_no_win(points: Seq<CrossoverPoint>)
    requires
        forall|j: int| 0 <= j < points.len() ==> !(#[trigger] points[j]).fft_is_faster,
    ensures
        first_win_index(points) is None,
    decreases points.len(),
{
    if points.len() > 0 {
        let rest = points.drop_first();
        assert forall|j: int| 0 <= j < rest.len() implies !(#[trigger] rest[j]).fft_is_faster by {
            assert(rest[j] == points[j + 1]);
        }
        lemma_no_win(rest);
    }
}

/// The interval in which to search for the crossover (see
/// `crossover_interval`).
pub fn crossover_bracket(points: &Vec<CrossoverPoint>) -> (r: Option<(usize, usize)>)
    ensures
        r is None <==> crossover_interval(points@) is None,
        r matches Some((lo, hi)) ==> crossover_interval(points@) == Some((lo as nat, hi as nat)),
{
    let mut i: usize = 0;
    while i < points.len()
        invariant
            i <= points@.len(),
            forall|j: int| 0 <= j < i ==> !(#[trigger] points@[j]).fft_is_faster,
        decreases points@.len() - i,
    {
        if points[i].fft_is_faster {
            proof {
                lemma_first_win_at(points@, i as nat);
            }
            let low = if i > 0 { points[i - 1].bit_length } else { points[0].bit_length };
            return Some((low, points[i].bit_length));
        }
        i += 1;
    }
    proof {
        lemma_no_win(points@);
    }
    None
}

/// The sizes at which the transform is timed: 2^10, 2^11, ... bits.
pub open spec fn sample_size(k: nat) -> nat {
    1024 * pow2(k)
}

/// The FFT threshold from timings at 2^10 to 2^20 bits: the default when
/// the transform never wins, 2^10 when it wins at once, else a binary
/// search between the last size where it lost and the first where it won,
/// twice as large (see `crossover_bracket` and `narrowed`).
pub fn find_fft_crossover_threshold() -> (r: usize)
    ensures
        r <= 0x10_0000 || r == DEFAULT_FFT_THRESHOLD,
        r == DEFAULT_FFT_THRESHOLD || r == 1024 || exists|k: nat, lo: nat, hi: nat, outs: Seq<Option<bool>>|
            #![trigger sample_size(k), narrowed(lo, hi, outs)]
            lo == sample_size(k) && hi == sample_size(k + 1) && hi <= 0x10_0000 && outs.len() == 4
                && r == narrowed(lo, hi, outs) && timed_at_midpoints(lo, hi, outs),
{
    let mut sample_points: Vec<usize> = Vec::new();
    let mut p: usize = 1024;
    proof {
        assert(pow2(0) == 1) by { lemma2_to64(); }
    }
    while p <= 0x10_0000
        invariant
            1024 <= p <= 0x20_0000,
            p == sample_size(sample_points@.len()),
            forall|k: int| 0 <= k < sample_points@.len() ==> #[trigger] sample_points@[k] == sample_size(k as nat),
            forall|k: int| 0 <= k < sample_points@.len() ==> 1024 <= #[trigger] sample_points@[k] <= 0x10_0000,
        decreases 0x20_0000 - p,
    {
        sample_points.push(p);
        proof {
            lemma_pow2_unfold(sample_points@.len());
        }
        p = p * 2;
    }
    let crossovers = find_fft_crossover(sample_points.as_slice());
    match crossover_bracket(&crossovers) {
        Some((low, high)) => {
            let ghost i = first_win_index(crossovers@)->Some_0;
            proof {
                lemma_first_win_in_range(crossovers@);
                assert(crossovers@[i as int].bit_length == sample_points@[i as int]);
                if i > 0 {
                    assert(crossovers@[i - 1].bit_length == sample_points@[i - 1]);
                }
                if i > 0 {
                    lemma_pow2_unfold(i);
                    assert(sample_size(i) == 2 * sample_size((i - 1) as nat));
                    assert(((i - 1) as nat) + 1 == i);
                } else {
                    assert(low == high);
                }
            }
            let r = binary_search_crossover(low, high);
            proof {
                if i == 0 {
                    let outs = choose|outs: Seq<Option<bool>>| outs.len() == 4 && r == narrowed(low as nat, high as nat, outs)
                        && timed_at_midpoints(low as nat, high as nat, outs);
                    assert(r == narrowed(1024, 1024, outs));
                } else {
                    let k = (i - 1) as nat;
                    let outs = choose|outs: Seq<Option<bool>>| outs.len() == 4 && r == narrowed(low as nat, high as nat, outs)
                        && timed_at_midpoints(low as nat, high as nat, outs);
                    assert(low == sample_size(k) && high == sample_size(k + 1));
                    assert(r == narrowed(sample_size(k), sample_size(k + 1), outs));
                }
            }
            r
        },
        None => DEFAULT_FFT_THRESHOLD,
    }
}

} // verus!
