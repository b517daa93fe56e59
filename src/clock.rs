use vstd::prelude::*;

verus! {

/// Relies on `time::OffsetDateTime::now_utc` and `unix_timestamp`: the current
/// wall-clock time in whole seconds since the Unix epoch. Nothing is promised
/// of the value, which depends on the machine's clock.
#[verifier::external_body]
pub fn now_seconds() -> (r: i64) {
    time::OffsetDateTime::now_utc().unix_timestamp()
}

} // verus!
