//! The one place the library reads the clock.

use vstd::prelude::*;

verus! {

/// Relies on `chrono::Utc::now`: the current instant, converted to
/// milliseconds since the epoch. Nothing is assumed of the value; every
/// caller hands it to a function whose contract holds for any instant.
#[verifier::external_body]
pub fn now_millis() -> i64 {
    chrono::Utc::now().timestamp_millis()
}

} // verus!
