use vstd::prelude::*;

verus! {

/// Relies on `chrono::Utc::now`: the current wall-clock time as seconds since
/// the Unix epoch. Nothing can be promised of a clock reading, so callers
/// state what holds whatever value comes back.
#[verifier::external_body]
pub(crate) fn now_utc() -> u64 {
    chrono::Utc::now().timestamp() as u64
}

} // verus!
