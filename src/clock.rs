//! Wall-clock time in milliseconds.

use vstd::prelude::*;

verus! {

/// Used when the clock reads earlier than the Unix epoch.
pub const FALLBACK_TIMESTAMP: u64 = 1754316069547;

/// Relies on `std::time::SystemTime::now` and `SystemTime::duration_since`:
/// milliseconds since the Unix epoch, or `None` when the clock reads
/// earlier than the epoch. Nothing is promised of the value.
#[verifier::external_body]
fn wall_clock_millis() -> Option<u64> {
    std::time::SystemTime::now().duration_since(std::time::UNIX_EPOCH).ok().map(|d| d.as_millis() as u64)
}

/// The current time in milliseconds since the Unix epoch.
pub fn current_timestamp() -> u64 {
    match wall_clock_millis() {
        Some(t) => t,
        None => FALLBACK_TIMESTAMP,
    }
}

} // verus!
