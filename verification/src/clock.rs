//! The clock that the time budget is measured against.

use vstd::prelude::*;
use std::time::{Duration, Instant};

verus! {

/// A reading of the monotonic clock. Nothing inside it is visible here.
#[verifier::external_type_specification]
#[verifier::external_body]
pub struct ExInstant(std::time::Instant);

/// Calls `std::time::Instant::now`. The reading depends on when the call is
/// made, so nothing is claimed of it.
#[verifier::external_body]
pub(crate) fn now() -> Instant {
    Instant::now()
}

/// Calls `std::time::Instant::elapsed`: the time that has passed since
/// `start`. It depends on when the call is made, so nothing is claimed of it.
#[verifier::external_body]
pub(crate) fn elapsed(start: &Instant) -> Duration {
    start.elapsed()
}

/// Calls `std::time::Duration::as_nanos`: the whole span in nanoseconds. A
/// span is opaque here, so nothing is claimed of the number.
#[verifier::external_body]
pub(crate) fn nanos(span: &Duration) -> u128 {
    span.as_nanos()
}

} // verus!
