//! Wall-clock milliseconds, read from the system clock.
use std::time::{Duration, SystemTime, SystemTimeError};
use vstd::prelude::*;

verus! {

#[verifier::external_type_specification]
#[verifier::external_body]
pub struct ExSystemTime(SystemTime);

#[verifier::external_type_specification]
#[verifier::external_body]
pub struct ExSystemTimeError(SystemTimeError);

/// Relies on `SystemTime::now`: the current system time; nothing is promised of it.
pub assume_specification[ SystemTime::now ]() -> SystemTime;

/// Relies on `Duration::as_millis`: the whole milliseconds of a duration.
pub assume_specification[ Duration::as_millis ](d: &Duration) -> u128;

/// Relies on `SystemTime::duration_since` with `SystemTime::UNIX_EPOCH`: the
/// time passed since the Unix epoch, or an error for a time before it.
#[verifier::external_body]
fn since_unix_epoch(t: &SystemTime) -> Result<Duration, SystemTimeError> {
    t.duration_since(SystemTime::UNIX_EPOCH)
}

/// Milliseconds since the Unix epoch, truncated to 64 bits; zero if the system
/// clock reads a time before the epoch.
pub fn unix_millis() -> u64 {
    let now = SystemTime::now();
    match since_unix_epoch(&now) {
        Ok(d) => {
            let ms: u128 = d.as_millis();
            (ms % 0x1_0000_0000_0000_0000) as u64
        },
        Err(_) => 0,
    }
}

} // verus!
