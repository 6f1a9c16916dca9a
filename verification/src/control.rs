//! Cooperative cancellation and a wall-clock deadline shared by all analyses.
use std::sync::atomic::AtomicBool;
use std::sync::atomic::Ordering;
use std::sync::Arc;
use std::time::Duration;
use std::time::Instant;
use vstd::prelude::*;

verus! {

#[verifier::external_type_specification]
#[verifier::external_body]
pub struct ExInstant(Instant);

/// `Clone::clone` of an `Instant`; instants are opaque here, so nothing is stated.
pub assume_specification[ <Instant as Clone>::clone ](instant: &Instant) -> Instant;

/// `std::time::Instant::now`; the current time is not stated.
#[verifier::external_body]
fn instant_now() -> Instant {
    Instant::now()
}

/// `Instant::checked_add`: the instant `duration` after `start`, or `None` when it cannot
/// be represented; the resulting instant is not stated.
#[verifier::external_body]
fn instant_after(start: &Instant, duration: Duration) -> Option<Instant> {
    start.checked_add(duration)
}

/// `Duration::as_millis`: the whole milliseconds of a duration, which is opaque here, so
/// nothing is stated of the result.
#[verifier::external_body]
fn whole_millis(duration: &Duration) -> u128 {
    duration.as_millis()
}

/// `Duration::from_millis`; the duration is opaque here.
#[verifier::external_body]
fn millis(count: u64) -> Duration {
    Duration::from_millis(count)
}

/// `Instant >= Instant` (`PartialOrd::ge`); instants are opaque here, so nothing is
/// stated of the result.
#[verifier::external_body]
fn not_before(now: &Instant, deadline: &Instant) -> bool {
    *now >= *deadline
}

/// `AtomicBool::load` (relaxed); the value depends on other clones of the flag.
#[verifier::external_body]
fn flag_load(flag: &Arc<AtomicBool>) -> bool {
    flag.load(Ordering::Relaxed)
}

/// `AtomicBool::store` (relaxed).
#[verifier::external_body]
fn flag_set(flag: &Arc<AtomicBool>) {
    flag.store(true, Ordering::Relaxed)
}

/// `AtomicBool::new` behind a new `Arc`.
#[verifier::external_body]
fn flag_new() -> Arc<AtomicBool> {
    Arc::new(AtomicBool::new(false))
}

/// A shared cancellation flag plus a deadline at most sixty seconds away.
#[derive(Clone)]
pub struct AnalysisControl {
    deadline: Instant,
    cancelled: Arc<AtomicBool>,
    budget_millis: u64,
}

/// The longest time budget a control grants, in milliseconds.
pub const MAX_BUDGET_MILLIS: u64 = 60_000;

/// Whether an analysis must stop, given whether it was cancelled and whether its deadline
/// has passed.
pub fn stop_requested(cancelled: bool, past_deadline: bool) -> (r: bool)
    ensures
        r == (cancelled || past_deadline),
{
    cancelled || past_deadline
}

impl AnalysisControl {
    /// Starts a control whose deadline is `duration` (capped at sixty seconds) from now. A
    /// deadline the clock cannot represent counts as already reached.
    pub fn new(duration: Duration) -> (r: Self)
        ensures
            r.budget() <= MAX_BUDGET_MILLIS,
    {
        let requested = whole_millis(&duration);
        let granted: u64 = if requested >= MAX_BUDGET_MILLIS as u128 {
            MAX_BUDGET_MILLIS
        } else {
            requested as u64
        };
        let limit = if requested >= MAX_BUDGET_MILLIS as u128 {
            millis(MAX_BUDGET_MILLIS)
        } else {
            duration
        };
        let now = instant_now();
        let deadline = match instant_after(&now, limit) {
            Some(later) => later,
            None => now,
        };
        AnalysisControl { deadline, cancelled: flag_new(), budget_millis: granted }
    }

    /// The granted time budget, in whole milliseconds.
    pub closed spec fn budget(&self) -> u64 {
        self.budget_millis
    }

    /// The granted time budget, in whole milliseconds: the requested one, capped at sixty
    /// seconds.
    pub fn budget_millis(&self) -> (r: u64)
        ensures
            r == self.budget(),
    {
        self.budget_millis
    }

    /// Requests cancellation of every analysis sharing this control.
    pub fn cancel(&self) {
        flag_set(&self.cancelled)
    }

    /// Whether cancellation was requested.
    pub fn cancelled(&self) -> bool {
        flag_load(&self.cancelled)
    }

    /// Whether the deadline has passed.
    pub fn deadline_reached(&self) -> bool {
        let now = instant_now();
        not_before(&now, &self.deadline)
    }

    /// Whether the analysis must stop: cancelled or past its deadline.
    pub fn stopped(&self) -> (r: bool) {
        let c = self.cancelled();
        let d = self.deadline_reached();
        stop_requested(c, d)
    }
}

} // verus!
