use vstd::prelude::*;
use std::time::SystemTime;
use std::time::UNIX_EPOCH;

verus! {

/// Relies on std::time::SystemTime::now (read through duration_since and
/// as_secs): the wall clock in whole seconds since the epoch. Nothing can
/// be promised of a clock reading.
#[verifier::external_body]
pub(crate) fn now_seconds() -> u64 {
    SystemTime::now().duration_since(UNIX_EPOCH).unwrap_or_default().as_secs()
}

} // verus!
