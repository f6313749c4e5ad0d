//! Calibration profiles: the thresholds measured on a machine.

use crate::constants::{DEFAULT_FFT_THRESHOLD, DEFAULT_PARALLEL_THRESHOLD, DEFAULT_STRASSEN_THRESHOLD};
use crate::decimal::{decimal, u64_to_decimal, usize_to_decimal};
use crate::runner::duration_nanos;
use std::time::{Duration, SystemTime};
use vstd::prelude::*;

verus! {

/// Version of the profile format.
pub const PROFILE_VERSION: u32 = 1;

/// Thresholds measured on a machine, with what identifies the machine.
#[derive(Debug, Clone)]
pub struct CalibrationProfile {
    /// Version of the profile format.
    pub version: u32,
    /// Threshold (bits) for parallel multiplication.
    pub parallel_threshold: usize,
    /// Threshold (bits) for FFT multiplication.
    pub fft_threshold: usize,
    /// Threshold (bits) for Strassen multiplication.
    pub strassen_threshold: usize,
    /// CPU model name.
    pub cpu_model: String,
    /// Number of CPU cores.
    pub num_cores: usize,
    /// Fingerprint of the CPU.
    pub cpu_fingerprint: String,
    /// When the profile was made.
    pub timestamp: String,
}

impl CalibrationProfile {
    /// The default profile on a machine with `num_cores` cores: default
    /// thresholds, empty identification.
    pub fn defaults_for(num_cores: usize) -> (r: Self)
        ensures
            r.version == PROFILE_VERSION,
            r.parallel_threshold == DEFAULT_PARALLEL_THRESHOLD,
            r.fft_threshold == DEFAULT_FFT_THRESHOLD,
            r.strassen_threshold == DEFAULT_STRASSEN_THRESHOLD,
            r.cpu_model@ == Seq::<char>::empty(),
            r.num_cores == num_cores,
            r.cpu_fingerprint@ == Seq::<char>::empty(),
            r.timestamp@ == Seq::<char>::empty(),
    {
        CalibrationProfile {
            version: PROFILE_VERSION,
            parallel_threshold: DEFAULT_PARALLEL_THRESHOLD,
            fft_threshold: DEFAULT_FFT_THRESHOLD,
            strassen_threshold: DEFAULT_STRASSEN_THRESHOLD,
            cpu_model: String::new(),
            num_cores,
            cpu_fingerprint: String::new(),
            timestamp: String::new(),
        }
    }

    /// Whether the profile has the current format version.
    pub fn is_compatible(&self) -> (r: bool)
        ensures
            r == (self.version == PROFILE_VERSION),
    {
        self.version == PROFILE_VERSION
    }

    /// Whether the profile was made on a CPU with this fingerprint; an empty
    /// fingerprint on either side cannot be checked and matches.
    pub fn matches_cpu(&self, current_fingerprint: &str) -> (r: bool)
        ensures
            r == (self.cpu_fingerprint@.len() == 0 || current_fingerprint@.len() == 0
                || self.cpu_fingerprint@ == current_fingerprint@),
    {
        if self.cpu_fingerprint.as_str().is_empty() || current_fingerprint.is_empty() {
            return true;
        }
        let current = String::from_str(current_fingerprint);
        self.cpu_fingerprint == current
    }

    /// Whether the thresholds are positive and the FFT threshold is at least
    /// the Strassen threshold.
    pub fn is_valid(&self) -> (r: bool)
        ensures
            r == (self.parallel_threshold > 0 && self.fft_threshold > 0 && self.strassen_threshold > 0
                && self.fft_threshold >= self.strassen_threshold),
    {
        self.parallel_threshold > 0 && self.fft_threshold > 0 && self.strassen_threshold > 0
            && self.fft_threshold >= self.strassen_threshold
    }
}

/// Fingerprint of a CPU with `cores` cores: "cores=N".
pub fn fingerprint_for(cores: usize) -> (r: String)
    ensures
        r@ == "cores="@ + decimal(cores as nat),
{
    let mut r = String::from_str("cores=");
    let n = usize_to_decimal(cores);
    r.append(n.as_str());
    r
}

/// Timestamp of `secs` seconds after the Unix epoch: "unix:N".
pub fn timestamp_for(secs: u64) -> (r: String)
    ensures
        r@ == "unix:"@ + decimal(secs as nat),
{
    let mut r = String::from_str("unix:");
    let n = u64_to_decimal(secs);
    r.append(n.as_str());
    r
}

#[verifier::external_type_specification]
#[verifier::external_body]
pub struct ExSystemTime(SystemTime);

/// `SystemTime::now`: the current time of the system clock.
#[verifier::external_body]
fn system_now() -> (r: SystemTime) {
    SystemTime::now()
}

/// `SystemTime::duration_since(UNIX_EPOCH)`, zero for a time before the
/// epoch.
#[verifier::external_body]
fn since_unix_epoch(t: SystemTime) -> (r: Duration) {
    t.duration_since(std::time::UNIX_EPOCH).unwrap_or_default()
}

/// `Duration::as_secs`: the whole seconds of the duration.
#[verifier::external_body]
fn whole_seconds(d: &Duration) -> (r: u64)
    ensures
        r == duration_nanos(*d) / 1_000_000_000,
{
    d.as_secs()
}

/// The current time as "unix:N", N seconds since the Unix epoch.
pub fn current_timestamp() -> (r: String)
    ensures
        exists|secs: u64| r@ == "unix:"@ + decimal(secs as nat),
{
    let now = system_now();
    let d = since_unix_epoch(now);
    let secs = whole_seconds(&d);
    timestamp_for(secs)
}

} // verus!
