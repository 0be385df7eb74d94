//! The wall clock, as the lifecycle timestamps consume it: milliseconds
//! since the epoch, clamped to zero so a timestamp of zero always means
//! "not running".

use vstd::prelude::*;

verus! {

/// Relies on chrono::Utc::now().timestamp_millis(): the current instant;
/// nothing can be promised of its value.
#[verifier::external_body]
fn now_timestamp_millis() -> i64 {
    chrono::Utc::now().timestamp_millis()
}

/// The current instant in milliseconds since the epoch, clamped to at
/// least one so it is never mistaken for a cleared timestamp.
pub fn current_millis() -> (r: u64)
    ensures
        r > 0,
{
    let t = now_timestamp_millis();
    if t <= 0 {
        1
    } else {
        t as u64
    }
}

} // verus!
