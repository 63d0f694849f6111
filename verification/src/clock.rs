use vstd::prelude::*;

use std::time::{Duration, Instant};

use crate::constants::TIME_LIMT;

verus! {

/// Relies on std's Instant being an opaque monotonic-clock reading; the
/// verifier sees nothing inside it.
#[verifier::external_type_specification]
#[verifier::external_body]
pub struct ExInstant(Instant);

/// Relies on std's Instant::now: an opaque reading of the monotonic clock.
/// Nothing is assumed of its value.
#[verifier::external_body]
pub(crate) fn instant_now() -> Instant {
    Instant::now()
}

/// Relies on std's Instant::elapsed: the time since the reading was taken.
/// Nothing is assumed of its value.
#[verifier::external_body]
fn elapsed_of(start: &Instant) -> Duration {
    start.elapsed()
}

/// Relies on std's Duration::as_micros: the duration in whole microseconds.
/// Nothing is assumed of its value.
#[verifier::external_body]
fn micros_of(d: &Duration) -> u128 {
    d.as_micros()
}

/// Whether the elapsed time plus the caller's reserved budget has passed the
/// fixed ceiling. The verdict depends on the clock, so nothing is promised of
/// it; every search copes with either answer.
pub(crate) fn time_exceeded(now: &Instant, rest_time: u128) -> bool {
    let elapsed: u128 = micros_of(&elapsed_of(now));
    if elapsed > TIME_LIMT {
        true
    } else {
        rest_time > TIME_LIMT - elapsed
    }
}

/// Whether the elapsed time plus the caller's reserved budget has reached the
/// fixed ceiling: the simulation loop stops one poll earlier than the depth
/// searches cut off. As above, nothing is promised of the verdict.
pub(crate) fn time_reached(now: &Instant, rest_time: u128) -> bool {
    let elapsed: u128 = micros_of(&elapsed_of(now));
    if elapsed >= TIME_LIMT {
        true
    } else {
        rest_time >= TIME_LIMT - elapsed
    }
}

} // verus!
