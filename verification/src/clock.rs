//! The monotonic clock of the broker.
//!
//! Delivery times are counted in nanoseconds from the instant at which a queue
//! was made. Nothing is proved of a reading; the engine is verified for every
//! value that a reading can have.

use std::time::{Duration, Instant};
use vstd::prelude::*;

verus! {

/// `std::time::Instant`, a point on the monotonic clock of the machine. Values
/// of it are carried and never looked into.
#[verifier::external_type_specification]
#[verifier::external_body]
pub struct ExInstant(std::time::Instant);

/// Calls `std::time::Instant::now`. The reading depends on the moment of the
/// call, so nothing is claimed of it.
#[verifier::external_body]
pub(crate) fn clock_origin() -> (origin: Instant) {
    Instant::now()
}

/// Calls `std::time::Instant::elapsed`: the time that has passed since
/// `origin`. It depends on the moment of the call, so nothing is claimed of it.
#[verifier::external_body]
pub(crate) fn elapsed_since(origin: &Instant) -> (elapsed: Duration) {
    origin.elapsed()
}

/// Calls `std::time::Duration::as_nanos`: the duration in whole nanoseconds.
/// The contracts of the library hold for every number, so nothing is claimed
/// of this one.
#[verifier::external_body]
pub(crate) fn whole_nanos(elapsed: &Duration) -> (nanos: u128) {
    elapsed.as_nanos()
}

} // verus!
