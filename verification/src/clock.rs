//! The process clock, behind a contract-free boundary: nothing can be
//! promised of the current time.
use vstd::prelude::*;

verus! {

/// Relies on std::time::SystemTime::now: seconds since the Unix epoch, or 0
/// when the clock sits before it. No two calls need agree.
#[verifier::external_body]
pub fn now_epoch_seconds() -> u64 {
    match std::time::SystemTime::now().duration_since(std::time::SystemTime::UNIX_EPOCH) {
        Ok(d) => d.as_secs(),
        Err(_) => 0,
    }
}

} // verus!
