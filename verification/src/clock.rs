//! The time that passes.

use std::time::Instant;
use vstd::prelude::*;

verus! {

/// `std::time::Instant`, a reading of the system's monotonic clock.
#[verifier::external_type_specification]
#[verifier::external_body]
pub struct ExInstant(Instant);

/// Reads the clock with `std::time::Instant::now`. Nothing is claimed of the reading.
#[verifier::external_body]
pub(crate) fn reading() -> Instant {
    Instant::now()
}

/// The nanoseconds since a reading, by `std::time::Instant::elapsed`. Nothing is claimed of their
/// number.
#[verifier::external_body]
pub(crate) fn nanoseconds_since(start: &Instant) -> u64 {
    start.elapsed().as_nanos() as u64
}

} // verus!
