//! The clock that a search measures its time budget with.

use vstd::prelude::*;
use std::time::Duration;
use std::time::Instant;

verus! {

/// `std::time::Instant`, a reading of the monotonic clock. Nothing is
/// known of what a reading holds.
#[verifier::external_type_specification]
#[verifier::external_body]
pub struct ExInstant(Instant);

/// `Instant::now` reads the clock. Nothing is claimed of the reading: it
/// differs from call to call.
pub assume_specification[ Instant::now ]() -> (r: Instant);

/// `Instant::elapsed` gives the time that has passed since the reading was
/// taken. Nothing is claimed of it.
pub assume_specification[ Instant::elapsed ](start: &Instant) -> (r: Duration);

/// `Duration::as_nanos` gives a span of time as a whole number of
/// nanoseconds. Nothing is claimed of the number.
pub assume_specification[ Duration::as_nanos ](span: &Duration) -> (r: u128);

} // verus!
