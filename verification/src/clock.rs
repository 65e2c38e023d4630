//! Wall-clock readings for the search's time budget.

use vstd::prelude::*;

verus! {

/// std's monotonic clock reading.  Opaque: the engine only compares
/// elapsed time against its budget, and its contracts never depend on what
/// the clock returns.
#[verifier::external_type_specification]
#[verifier::external_body]
pub struct ExInstant(std::time::Instant);

/// Relies on std's Instant::now: a reading of the monotonic clock.
/// Nothing is assumed of the value.
#[verifier::external_body]
pub(crate) fn clock_now() -> std::time::Instant {
    std::time::Instant::now()
}

/// Relies on std's Instant::elapsed: the time since the instant was taken.
/// Nothing is assumed of the value.
#[verifier::external_body]
pub(crate) fn clock_elapsed(start: &std::time::Instant) -> std::time::Duration {
    start.elapsed()
}

/// Relies on std's Duration::as_millis: the duration in whole
/// milliseconds.  Nothing is assumed of the value.
#[verifier::external_body]
pub(crate) fn duration_millis(d: &std::time::Duration) -> u128 {
    d.as_millis()
}

} // verus!
