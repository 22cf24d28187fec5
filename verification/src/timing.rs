//! Wall-clock measurement of the protocol phases.
use std::time::{Duration, Instant};
use vstd::prelude::*;

verus! {

/// `std::time::Instant`, an opaque clock reading that the timing wrappers
/// pass around.
#[verifier::external_type_specification]
#[verifier::external_body]
pub struct ExInstant(Instant);

/// `std::time::Instant::now()`; the reading depends on the clock, so nothing
/// is stated of it.
#[verifier::external_body]
pub(crate) fn instant_now() -> Instant {
    Instant::now()
}

/// `std::time::Instant::elapsed()`; the span depends on the clock, so nothing
/// is stated of it.
#[verifier::external_body]
pub(crate) fn elapsed_since(start: &Instant) -> Duration {
    start.elapsed()
}

/// `std::time::Duration::ZERO`, an opaque constant.
#[verifier::external_body]
pub(crate) fn zero_duration() -> Duration {
    Duration::ZERO
}

} // verus!
