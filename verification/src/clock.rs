use vstd::prelude::*;

verus! {

/// Relies on chrono::Utc::now: the current wall-clock time, reduced to whole
/// seconds since the Unix epoch. The result depends on the clock, so nothing
/// is promised of it.
#[verifier::external_body]
pub(crate) fn now_unix_seconds() -> u64 {
    chrono::Utc::now().timestamp() as u64
}

} // verus!
