//! The clock: the one place the library reads the outside world. Every
//! function that needs a timestamp takes it as a plain value, so all the
//! logic is verified for every possible reading of this wrapper.
use vstd::prelude::*;

verus! {

/// Relies on `time::OffsetDateTime::now_utc` and its `unix_timestamp`
/// conversion: the current moment as whole seconds since the Unix epoch.
/// Nothing is promised of the value; callers state what holds whatever it
/// is.
#[verifier::external_body]
pub fn now_unix_seconds() -> i64 {
    time::OffsetDateTime::now_utc().unix_timestamp()
}

} // verus!
