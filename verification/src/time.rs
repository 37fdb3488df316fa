//! Monotonic wall-clock readings for the benchmark harness, carried as
//! opaque time stamps and plain nanosecond counts. Nothing is assumed of the
//! values the clock hands back.

use vstd::prelude::*;
use std::time::Instant;

verus! {

#[verifier::external_type_specification]
#[verifier::external_body]
pub struct ExInstant(Instant);

/// Relies on std::time::Instant::now: an opaque monotonic time stamp.
#[verifier::external_body]
pub(crate) fn clock_now() -> Instant {
    Instant::now()
}

/// Relies on std::time::Instant::elapsed and std::time::Duration::as_nanos:
/// the nanoseconds since `start`, truncated to 64 bits. Nothing is assumed
/// of the value.
#[verifier::external_body]
pub(crate) fn elapsed_nanos(start: &Instant) -> u64 {
    start.elapsed().as_nanos() as u64
}

} // verus!
