//! Cancellation of running calculations, by request or by deadline.

use crate::calculator::FibError;
use std::sync::atomic::AtomicU64;
use std::sync::atomic::Ordering;
use std::sync::Arc;
use std::time::{Duration, Instant};
use crate::big::bits_of;
use crate::runner::{duration_from_nanos, duration_nanos, max_duration_nanos, NANOS_PER_SEC};
use vstd::prelude::*;

verus! {

#[verifier::external_type_specification]
#[verifier::external_body]
pub struct ExInstant(Instant);

/// `Clone::clone` on `Instant`, a `Copy` type: the same instant.
pub assume_specification[ <Instant as Clone>::clone ](i: &Instant) -> (r: Instant)
    ensures
        r == *i,
;

/// `Instant::now`: the current time.
#[verifier::external_body]
fn instant_now() -> (r: Instant) {
    Instant::now()
}

/// `Instant::checked_add`: the instant `d` later than `t`, or `None` when
/// the platform cannot represent it.
#[verifier::external_body]
fn instant_checked_plus(t: Instant, d: Duration) -> (r: Option<Instant>) {
    t.checked_add(d)
}

/// `a >= b` on instants.
#[verifier::external_body]
fn instant_at_or_after(a: &Instant, b: &Instant) -> (r: bool) {
    *a >= *b
}

/// `Instant::saturating_duration_since`: the time from `earlier` to `t`, or
/// zero.
#[verifier::external_body]
fn saturating_since(t: &Instant, earlier: Instant) -> (r: Duration) {
    t.saturating_duration_since(earlier)
}

/// `report` accepts every progress report of a calculation of F(n) that
/// walks the bits of n: (bits done, bits in all) with
/// 1 <= bits done <= bits in all = the bit length of n.
pub open spec fn accepts_progress<F: Fn(u64, u64)>(report: F, n: nat) -> bool {
    forall|a: u64, b: u64| 1 <= a <= b && b == bits_of(n) ==> #[trigger] report.requires((a, b))
}

/// The result of a cancellation check once the flag has been read:
/// `Err(Cancelled)` when it is set, `Ok(())` otherwise.
pub open spec fn cancel_outcome(cancelled: bool) -> Result<(), FibError> {
    if cancelled {
        Err(FibError::Cancelled)
    } else {
        Ok(())
    }
}

/// `cancel_outcome` for executable code.
pub fn cancellation_status(cancelled: bool) -> (r: Result<(), FibError>)
    ensures
        r == cancel_outcome(cancelled),
{
    if cancelled {
        Err(FibError::Cancelled)
    } else {
        Ok(())
    }
}

/// The result of a check of a token with a deadline, once the flag has been
/// read and the clock compared with the deadline: `Err(Cancelled)` when the
/// flag is set, else `Err(Timeout("timeout reached"))` when the deadline has
/// passed, else `Ok(())`.
pub open spec fn deadline_outcome_ok(cancelled: bool, expired: bool, r: Result<(), FibError>) -> bool {
    if cancelled {
        r == Err::<(), FibError>(FibError::Cancelled)
    } else if expired {
        r matches Err(FibError::Timeout(s)) && s@ == "timeout reached"@
    } else {
        r == Ok::<(), FibError>(())
    }
}

/// `deadline_outcome_ok` for executable code.
pub fn deadline_status(cancelled: bool, expired: bool) -> (r: Result<(), FibError>)
    ensures
        deadline_outcome_ok(cancelled, expired, r),
{
    if cancelled {
        return Err(FibError::Cancelled);
    }
    if expired {
        return Err(FibError::Timeout(String::from_str("timeout reached")));
    }
    Ok(())
}

/// A flag shared by all clones of the token; any clone may set it.
#[derive(Clone)]
pub struct CancellationToken {
    cancelled: Arc<AtomicU64>,
}

impl CancellationToken {
    /// A token that is not cancelled.
    pub fn new() -> (r: Self) {
        CancellationToken { cancelled: Arc::new(AtomicU64::new(0)) }
    }

    /// Whether the token (or a clone of it) has been cancelled. Another
    /// thread may cancel it at any time, so nothing is promised of the
    /// answer.
    pub fn is_cancelled(&self) -> (r: bool) {
        self.cancelled.load(Ordering::Relaxed) != 0
    }

    /// Cancel the token and every clone of it.
    pub fn cancel(&self) {
        self.cancelled.store(1, Ordering::Relaxed);
    }

    /// `Err(Cancelled)` when the token is cancelled, `Ok(())` otherwise.
    /// The flag is read once; what it holds is up to the other clones.
    pub fn check_cancelled(&self) -> (r: Result<(), FibError>)
        ensures
            exists|b: bool| r == cancel_outcome(b),
    {
        let c = self.is_cancelled();
        cancellation_status(c)
    }
}

impl Default for CancellationToken {
    fn default() -> (r: Self) {
        Self::new()
    }
}

/// A cancellation token that also cancels itself at a deadline.
#[derive(Clone)]
pub struct TimeoutCancellationToken {
    inner: CancellationToken,
    deadline: Option<Instant>,
}

impl TimeoutCancellationToken {
    /// A token whose deadline is `timeout` from now; a timeout too long for
    /// the clock to represent means no deadline.
    pub fn new(timeout: Duration) -> (r: Self) {
        let now = instant_now();
        TimeoutCancellationToken { inner: CancellationToken::new(), deadline: instant_checked_plus(now, timeout) }
    }

    /// Whether the deadline has passed at `now` (never, without a deadline).
    fn expired_at(&self, now: &Instant) -> (r: bool)
        ensures
            self.deadline is None ==> !r,
    {
        match &self.deadline {
            Some(d) => instant_at_or_after(now, d),
            None => false,
        }
    }

    /// Whether the token has been cancelled or its deadline has passed.
    pub fn is_cancelled(&self) -> (r: bool) {
        if self.inner.is_cancelled() {
            return true;
        }
        let now = instant_now();
        self.expired_at(&now)
    }

    /// Cancel the token.
    pub fn cancel(&self) {
        self.inner.cancel();
    }

    /// `Err(Cancelled)` when cancelled, `Err(Timeout(..))` when the deadline
    /// has passed, `Ok(())` otherwise.
    /// The flag and the clock are read once each; what they give is up to
    /// the other clones and the time.
    pub fn check_cancelled(&self) -> (r: Result<(), FibError>)
        ensures
            exists|c: bool, e: bool| deadline_outcome_ok(c, e, r),
    {
        if self.inner.is_cancelled() {
            return deadline_status(true, false);
        }
        let now = instant_now();
        let expired = self.expired_at(&now);
        deadline_status(false, expired)
    }

    /// Time left before the deadline (zero once it has passed; the longest
    /// duration without a deadline).
    pub fn remaining(&self) -> (r: Duration)
        ensures
            !self.has_deadline() ==> duration_nanos(r) == max_duration_nanos(),
    {
        match &self.deadline {
            Some(d) => {
                let now = instant_now();
                saturating_since(d, now)
            },
            None => duration_from_nanos(u64::MAX as u128 * NANOS_PER_SEC + 999_999_999),
        }
    }

    /// Whether the token has a deadline (it has none when the timeout was
    /// too long for the clock).
    pub closed spec fn has_deadline(&self) -> bool {
        self.deadline is Some
    }

    /// The inner token, for code that does not handle deadlines.
    pub fn token(&self) -> (r: &CancellationToken)
        ensures
            *r == self.inner_token(),
    {
        &self.inner
    }

    /// The token that this one wraps.
    pub closed spec fn inner_token(&self) -> CancellationToken {
        self.inner
    }
}

/// Checkpoint of a calculation loop: `Err(Cancelled)` when the token is
/// cancelled.
pub fn check_cancellation(token: &CancellationToken) -> (r: Result<(), FibError>)
    ensures
        exists|b: bool| r == cancel_outcome(b),
{
    token.check_cancelled()
}

} // verus!
