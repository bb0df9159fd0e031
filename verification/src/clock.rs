//! The wall clock, read through an outside crate. The current time
//! depends on the machine, so nothing is promised of the value;
//! callers must hold for every outcome.

use vstd::prelude::*;

verus! {

/// Relies on chrono's `Utc::now` and `DateTime::timestamp_millis`: the
/// current time as milliseconds since the Unix epoch. The value
/// depends on the clock, so no ensures is stated.
#[verifier::external_body]
pub fn now_millis() -> i64 {
    chrono::Utc::now().timestamp_millis()
}

} // verus!
