//! Trusted access to the monotonic clock. The searches time themselves with
//! `std::time::Instant`; a clock reading depends on the machine and the
//! moment, so nothing is promised about the values it yields.

use vstd::prelude::*;

verus! {

#[verifier::external_type_specification]
#[verifier::external_body]
pub struct ExInstant(std::time::Instant);

/// Relies on std::time::Instant::now: an opaque reading of the monotonic
/// clock. Nothing is promised about the value.
pub assume_specification[ std::time::Instant::now ]() -> std::time::Instant;

/// Relies on std::time::Instant::elapsed: the time since `start` as a
/// `Duration`. Nothing is promised about the value.
pub assume_specification[ std::time::Instant::elapsed ](
    start: &std::time::Instant,
) -> core::time::Duration;

/// Relies on core::time::Duration::as_nanos: the duration as a whole number
/// of nanoseconds. Nothing is promised about the value.
pub assume_specification[ core::time::Duration::as_nanos ](
    d: &core::time::Duration,
) -> u128;

} // verus!
