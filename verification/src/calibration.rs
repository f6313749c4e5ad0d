//! Decisions of the calibration: which thresholds a run of timings gives,
//! and whether a stored profile can be used.

use crate::adaptive::{find_strassen_threshold, strassen_for, EstimatedThresholds};
use crate::constants::DEFAULT_FFT_THRESHOLD;
use crate::microbench::CrossoverPoint;
use crate::profile::{CalibrationProfile, PROFILE_VERSION};
use vstd::prelude::*;

verus! {

/// How thorough a calibration is.
#[derive(Debug, Clone, Copy)]
pub enum CalibrationMode {
    /// Time every candidate size.
    Full,
    /// A quick adaptive estimate.
    Auto,
    /// Use the stored profile when it fits this machine.
    Cached,
}

/// A step of a running calibration.
#[derive(Debug, Clone)]
pub struct CalibrationProgress {
    /// What is being done.
    pub step: String,
    /// Number of the step.
    pub current: usize,
    /// Number of steps.
    pub total: usize,
}

/// The first size at which the transform was faster, or the default FFT
/// threshold when it never was.
pub open spec fn first_fft_win(points: Seq<CrossoverPoint>) -> nat
    decreases points.len(),
{
    if points.len() == 0 {
        DEFAULT_FFT_THRESHOLD as nat
    } else if points[0].fft_is_faster {
        points[0].bit_length as nat
    } else {
        first_fft_win(points.drop_first())
    }
}

/// `first_fft_win` is the size of the first point at which the transform
/// was faster, and the default only when it was never faster.
pub proof fn lemma_first_fft_win_is_first(points: Seq<CrossoverPoint>)
    ensures
        forall|i: int| 0 <= i < points.len() && (#[trigger] points[i]).fft_is_faster
            && (forall|j: int| 0 <= j < i ==> !(#[trigger] points[j]).fft_is_faster)
            ==> first_fft_win(points) == points[i].bit_length,
        (forall|i: int| 0 <= i < points.len() ==> !(#[trigger] points[i]).fft_is_faster)
            ==> first_fft_win(points) == DEFAULT_FFT_THRESHOLD,
    decreases points.len(),
{
    if points.len() > 0 {
        let rest = points.drop_first();
        lemma_first_fft_win_is_first(rest);
        assert forall|i: int| 0 <= i < points.len() && (#[trigger] points[i]).fft_is_faster
            && (forall|j: int| 0 <= j < i ==> !(#[trigger] points[j]).fft_is_faster)
            implies first_fft_win(points) == points[i].bit_length by {
            if i > 0 {
                assert(!points[0].fft_is_faster);
                assert(rest[i - 1] == points[i]);
                assert forall|j: int| 0 <= j < i - 1 implies !(#[trigger] rest[j]).fft_is_faster by {
                    assert(rest[j] == points[j + 1]);
                }
            }
        }
        if forall|i: int| 0 <= i < points.len() ==> !(#[trigger] points[i]).fft_is_faster {
            assert(!points[0].fft_is_faster);
            assert forall|i: int| 0 <= i < rest.len() implies !(#[trigger] rest[i]).fft_is_faster by {
                assert(rest[i] == points[i + 1]);
            }
        }
    }
}

/// The FFT threshold of a full calibration: the first size at which the
/// transform was faster, or the default when it never was.
pub fn fft_threshold_from(points: &Vec<CrossoverPoint>) -> (r: usize)
    ensures
        r == first_fft_win(points@),
        forall|i: int| 0 <= i < points@.len() && (#[trigger] points@[i]).fft_is_faster
            && (forall|j: int| 0 <= j < i ==> !(#[trigger] points@[j]).fft_is_faster)
            ==> r == points@[i].bit_length,
        (forall|i: int| 0 <= i < points@.len() ==> !(#[trigger] points@[i]).fft_is_faster)
            ==> r == DEFAULT_FFT_THRESHOLD,
{
    let mut i: usize = 0;
    proof {
        assert(points@.skip(0) =~= points@);
    }
    while i < points.len()
        invariant
            i <= points@.len(),
            first_fft_win(points@) == first_fft_win(points@.skip(i as int)),
            forall|j: int| 0 <= j < i ==> !(#[trigger] points@[j]).fft_is_faster,
        decreases points@.len() - i,
    {
        proof {
            assert(points@.skip(i as int).drop_first() =~= points@.skip(i + 1));
        }
        if points[i].fft_is_faster {
            proof {
                assert forall|k: int| 0 <= k < points@.len() && (#[trigger] points@[k]).fft_is_faster
                    && (forall|j: int| 0 <= j < k ==> !(#[trigger] points@[j]).fft_is_faster)
                    implies points@[i as int].bit_length == points@[k].bit_length by {
                    if k > i {
                        assert(!points@[i as int].fft_is_faster);
                    }
                }
            }
            return points[i].bit_length;
        }
        i += 1;
    }
    proof {
        assert(points@.skip(i as int) =~= Seq::<CrossoverPoint>::empty());
    }
    DEFAULT_FFT_THRESHOLD
}

/// A profile made from measured thresholds and the machine's identity.
pub fn profile_from_estimate(est: &EstimatedThresholds, cpu_model: String, num_cores: usize,
    cpu_fingerprint: String, timestamp: String) -> (r: CalibrationProfile)
    ensures
        r.version == PROFILE_VERSION,
        r.parallel_threshold == est.parallel_threshold,
        r.fft_threshold == est.fft_threshold,
        r.strassen_threshold == est.strassen_threshold,
        r.cpu_model == cpu_model,
        r.num_cores == num_cores,
        r.cpu_fingerprint == cpu_fingerprint,
        r.timestamp == timestamp,
{
    CalibrationProfile {
        version: PROFILE_VERSION,
        parallel_threshold: est.parallel_threshold,
        fft_threshold: est.fft_threshold,
        strassen_threshold: est.strassen_threshold,
        cpu_model,
        num_cores,
        cpu_fingerprint,
        timestamp,
    }
}

/// The thresholds of a full calibration: the FFT threshold from the
/// timings, the given parallel threshold, and the Strassen threshold that
/// goes with the FFT threshold.
pub fn full_thresholds(points: &Vec<CrossoverPoint>, parallel_threshold: usize) -> (r: EstimatedThresholds)
    requires
        forall|i: int| 0 <= i < points@.len() ==> (#[trigger] points@[i]).bit_length * 3 <= usize::MAX,
    ensures
        r.fft_threshold == first_fft_win(points@),
        forall|i: int| 0 <= i < points@.len() && (#[trigger] points@[i]).fft_is_faster
            && (forall|j: int| 0 <= j < i ==> !(#[trigger] points@[j]).fft_is_faster)
            ==> r.fft_threshold == points@[i].bit_length,
        (forall|i: int| 0 <= i < points@.len() ==> !(#[trigger] points@[i]).fft_is_faster)
            ==> r.fft_threshold == DEFAULT_FFT_THRESHOLD,
        r.parallel_threshold == parallel_threshold,
        r.strassen_threshold == strassen_for(r.fft_threshold as nat),
{
    let fft_threshold = fft_threshold_from(points);
    proof {
        lemma_first_win_bound(points@);
    }
    let strassen_threshold = find_strassen_threshold(fft_threshold);
    EstimatedThresholds { parallel_threshold, fft_threshold, strassen_threshold }
}

/// The first win is the default or one of the sizes.
proof fn lemma_first_win_bound(points: Seq<CrossoverPoint>)
    requires
        forall|i: int| 0 <= i < points.len() ==> (#[trigger] points[i]).bit_length * 3 <= usize::MAX,
    ensures
        first_fft_win(points) * 3 <= usize::MAX,
    decreases points.len(),
{
    if points.len() > 0 && !points[0].fft_is_faster {
        assert forall|i: int| 0 <= i < points.drop_first().len() implies (#[trigger] points.drop_first()[i]).bit_length * 3 <= usize::MAX by {
            assert(points.drop_first()[i] == points[i + 1]);
        }
        lemma_first_win_bound(points.drop_first());
    }
}

/// Whether a stored profile can be used on a machine with this CPU
/// fingerprint: current version, valid thresholds, matching CPU.
pub open spec fn usable(p: CalibrationProfile, current_fingerprint: Seq<char>) -> bool {
    &&& p.version == PROFILE_VERSION
    &&& p.parallel_threshold > 0 && p.fft_threshold > 0 && p.strassen_threshold > 0
    &&& p.fft_threshold >= p.strassen_threshold
    &&& (p.cpu_fingerprint@.len() == 0 || current_fingerprint.len() == 0 || p.cpu_fingerprint@ == current_fingerprint)
}

/// The stored profile if it can be used here, else nothing.
pub fn validated_profile(loaded: Option<CalibrationProfile>, current_fingerprint: &str) -> (r: Option<
    CalibrationProfile,
>)
    ensures
        r == (match loaded {
            Some(p) => if usable(p, current_fingerprint@) { Some(p) } else { None },
            None => None,
        }),
{
    match loaded {
        Some(p) => {
            if !p.is_compatible() {
                return None;
            }
            if !p.is_valid() {
                return None;
            }
            if !p.matches_cpu(current_fingerprint) {
                return None;
            }
            Some(p)
        },
        None => None,
    }
}

/// The profile of a cached calibration: the stored one if it can be used
/// here, else the defaults.
pub fn cached_or_default(loaded: Option<CalibrationProfile>, current_fingerprint: &str,
    defaults: CalibrationProfile) -> (r: CalibrationProfile)
    ensures
        r == (match loaded {
            Some(p) => if usable(p, current_fingerprint@) { p } else { defaults },
            None => defaults,
        }),
{
    match validated_profile(loaded, current_fingerprint) {
        Some(p) => p,
        None => defaults,
    }
}

} // verus!
