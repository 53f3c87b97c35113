//! The wall clock.
use vstd::prelude::*;

verus! {

/// Relies on `std::time::SystemTime::now`, measured from the Unix epoch, for the
/// current time in microseconds. Nothing is promised of the value: it is the time.
#[verifier::external_body]
pub(crate) fn now_micros() -> (r: u64) {
    std::time::SystemTime::now().duration_since(std::time::UNIX_EPOCH).unwrap_or_default().as_micros() as u64
}

} // verus!
