use vstd::prelude::*;
use std::time::Instant;

verus! {

#[verifier::external_type_specification]
#[verifier::external_body]
pub struct ExInstant(Instant);

/// Relies on std::time::Instant::now: a reading of the monotonic clock.
/// Nothing can be promised of the reading itself.
#[verifier::external_body]
pub(crate) fn monotonic_now() -> (t: Instant) {
    Instant::now()
}

/// Relies on std::time::Instant::elapsed: the whole seconds since the
/// reading was taken. Nothing can be promised of the result.
#[verifier::external_body]
pub(crate) fn seconds_since(start: &Instant) -> (s: u64) {
    start.elapsed().as_secs()
}

} // verus!
