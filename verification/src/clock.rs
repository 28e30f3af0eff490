//! The clock of the machine.
//!
//! Nothing can be said ahead of time of what a clock shows, so none of
//! these functions promises anything of its result.

use vstd::prelude::*;
use std::time::{Duration, Instant, SystemTime};

verus! {

/// Declares `std::time::Instant` as a type of which nothing is known but
/// that it can be passed on.
#[verifier::external_type_specification]
#[verifier::external_body]
pub struct ExInstant(Instant);

/// Declares `std::time::SystemTime` as a type of which nothing is known
/// but that it can be passed on.
#[verifier::external_type_specification]
#[verifier::external_body]
pub struct ExSystemTime(SystemTime);

/// Calls `Instant::now`. Trusted, and nothing is claimed of the result.
#[verifier::external_body]
pub(crate) fn now() -> Instant {
    Instant::now()
}

/// Calls `Instant::elapsed`. Trusted, and nothing is claimed of the result.
#[verifier::external_body]
pub(crate) fn elapsed_since(start: &Instant) -> Duration {
    start.elapsed()
}

/// Calls `SystemTime::now`. Trusted, and nothing is claimed of the result.
#[verifier::external_body]
pub(crate) fn wall_clock() -> SystemTime {
    SystemTime::now()
}

/// Calls `SystemTime::duration_since` with the Unix epoch. Trusted; the
/// result is `None` where the call fails, that is for a time before the epoch.
#[verifier::external_body]
pub(crate) fn since_epoch(time: &SystemTime) -> Option<Duration> {
    time.duration_since(std::time::UNIX_EPOCH).ok()
}

/// Calls `Duration::as_secs`. Trusted, and nothing is claimed of the result.
#[verifier::external_body]
pub(crate) fn whole_seconds(span: &Duration) -> u64 {
    span.as_secs()
}

/// Seconds since the Unix epoch as the clock shows them now, zero for a
/// clock that stands before the epoch.
pub(crate) fn unix_seconds() -> u64 {
    let time = wall_clock();
    match since_epoch(&time) {
        Some(span) => whole_seconds(&span),
        None => 0,
    }
}

} // verus!
