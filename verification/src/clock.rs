//! Wall-clock time, in microseconds since the Unix epoch.
use vstd::prelude::*;

verus! {

/// Reads the current time through `chrono::Utc::now` and
/// `DateTime::timestamp_micros`. Nothing is claimed of the value: it is the
/// machine's clock.
#[verifier::external_body]
pub(crate) fn now_micros() -> (t: i64) {
    chrono::Utc::now().timestamp_micros()
}

} // verus!
