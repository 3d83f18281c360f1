//! The creation clock.

use vstd::prelude::*;

verus! {

/// Reads the current UTC time as microseconds since the Unix epoch.
///
/// Relies on `chrono::Utc::now` and `chrono::DateTime::timestamp_micros`.
/// The result depends on the wall clock, so nothing is promised of it.
#[verifier::external_body]
pub(crate) fn now_micros() -> i64 {
    chrono::Utc::now().timestamp_micros()
}

} // verus!
