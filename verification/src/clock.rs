//! Access to the ambient wall clock.

use std::time::SystemTime;
use std::time::UNIX_EPOCH;
use vstd::prelude::*;

verus! {

/// Relies on `std::time::SystemTime::now`: the wall-clock time, reported here
/// as whole seconds since the Unix epoch (or 0 if the clock reads earlier than
/// the epoch). The clock is ambient state, so nothing is promised of the
/// result; callers must cope with every value that can come back.
#[verifier::external_body]
pub(crate) fn timestamp() -> u64 {
    match SystemTime::now().duration_since(UNIX_EPOCH) {
        Ok(d) => d.as_secs(),
        Err(_) => 0,
    }
}

} // verus!
