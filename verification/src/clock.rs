//! The time of day.

use vstd::prelude::*;

verus! {

/// The clock of the machine, by `SystemTime::now` of the standard library:
/// the milliseconds that have passed since the start of 1970, and zero for a
/// clock that stands before it. Two readings may differ in any way, so
/// nothing is claimed of the result.
#[verifier::external_body]
pub(crate) fn unix_millis() -> u128 {
    match std::time::SystemTime::now().duration_since(std::time::UNIX_EPOCH) {
        Ok(since) => since.as_millis(),
        Err(_) => 0,
    }
}

} // verus!
