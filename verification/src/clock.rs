//! The wall clock that stamps orders and trades.

use std::time::SystemTime;
use std::time::UNIX_EPOCH;
use vstd::prelude::*;

verus! {

/// The time by the system clock, in nanoseconds since the Unix epoch.
///
/// This reads [`SystemTime::now`] and is not verified. Nothing is promised
/// of the value, not even that a later reading is larger; a clock set before
/// the epoch reads as zero.
#[verifier::external_body]
pub(crate) fn get_timestamp() -> u64 {
    SystemTime::now().duration_since(UNIX_EPOCH).unwrap_or_default().as_nanos() as u64
}

} // verus!
