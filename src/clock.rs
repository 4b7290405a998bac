//! The wall clock.

use vstd::prelude::*;

verus! {

/// Relies on chrono's `From<SystemTime> for DateTime<Utc>` and
/// `DateTime::timestamp_millis`: the system clock in milliseconds since the Unix
/// epoch, negative where the clock reads before it. Nothing is promised of its
/// value.
#[verifier::external_body]
fn timestamp_millis_now() -> (r: i64) {
    chrono::DateTime::<chrono::Utc>::from(std::time::SystemTime::now()).timestamp_millis()
}

/// The current time in milliseconds since the Unix epoch (0 before it).
pub fn current_millis() -> (r: u64) {
    let t = timestamp_millis_now();
    if t < 0 {
        0
    } else {
        t as u64
    }
}

} // verus!
