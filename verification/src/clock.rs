//! Wall-clock readings for the search deadline. The clock is outside the
//! model: nothing is promised of the values read, only that reading them is
//! how the search decides when to stop.
use vstd::prelude::*;

verus! {

/// std::time::Instant, declared so that a reading of the clock can be held
/// and passed around; nothing of its inside is visible to the proofs.
#[verifier::external_type_specification]
#[verifier::external_body]
pub struct ExInstant(std::time::Instant);

/// Relies on std::time::Instant::now: an opaque reading of the clock.
#[verifier::external_body]
pub(crate) fn instant_now() -> std::time::Instant {
    std::time::Instant::now()
}

/// Relies on std::time::Instant::elapsed: the time since `start` was read.
#[verifier::external_body]
pub(crate) fn elapsed_since(start: &std::time::Instant) -> core::time::Duration {
    start.elapsed()
}

/// Relies on core::time::Duration::as_millis: the duration in milliseconds.
#[verifier::external_body]
pub(crate) fn duration_millis(d: &core::time::Duration) -> u128 {
    d.as_millis()
}

} // verus!
