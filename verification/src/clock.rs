//! The wall clock.
use vstd::prelude::*;

verus! {

/// The current wall-clock time in milliseconds since the Unix epoch, from
/// `chrono::Local::now().timestamp_millis()`. Nothing is stated of the value:
/// it depends on the moment of the call.
#[verifier::external_body]
pub(crate) fn now_millis() -> (t: i64) {
    chrono::Local::now().timestamp_millis()
}

} // verus!
