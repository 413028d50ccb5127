//! The monotonic clock. Times are kept as nanoseconds since an epoch instant.

use std::time::{Duration, Instant};
use vstd::prelude::*;

verus! {

#[verifier::external_type_specification]
#[verifier::external_body]
pub struct ExInstant(Instant);

/// `Instant::now`: the current reading of the monotonic clock. Nothing is
/// stated of it.
pub assume_specification[ std::time::Instant::now ]() -> (r: Instant);

/// `Instant::elapsed`: the time since the instant. It is a clock reading, so
/// nothing is stated of it.
pub assume_specification[ std::time::Instant::elapsed ](instant: &Instant) -> (r: Duration);

/// `Duration::as_nanos`: the whole nanoseconds of a duration. `Duration` is
/// opaque here, so nothing is stated of the number.
pub assume_specification[ core::time::Duration::as_nanos ](duration: &Duration) -> (r: u128);

/// The time since `epoch`, in nanoseconds.
pub(crate) fn nanos_since(epoch: &Instant) -> u128 {
    epoch.elapsed().as_nanos()
}

} // verus!
