//! The wall clock, read once per new comment.

use std::time::{Duration, SystemTime, SystemTimeError, UNIX_EPOCH};
use vstd::prelude::*;

verus! {

/// A moment of the system clock.
#[verifier::external_type_specification]
#[verifier::external_body]
pub struct ExSystemTime(SystemTime);

/// The failure of measuring a moment against a later one.
#[verifier::external_type_specification]
#[verifier::external_body]
pub struct ExSystemTimeError(SystemTimeError);

/// `SystemTime::now` reads the system clock; nothing is claimed of the
/// moment it returns.
pub assume_specification[ SystemTime::now ]() -> (now: SystemTime)
;

/// `SystemTime::duration_since` measures the time from `earlier` to the
/// moment, and fails when `earlier` is the later of the two; nothing is
/// claimed of the measure.
pub assume_specification[ SystemTime::duration_since ](
    moment: &SystemTime,
    earlier: SystemTime,
) -> (elapsed: Result<Duration, SystemTimeError>)
;

/// `Duration::as_secs` gives the whole seconds of a duration; nothing is
/// claimed of their number.
pub assume_specification[ Duration::as_secs ](elapsed: &Duration) -> (seconds: u64)
;

/// Hands out the constant `UNIX_EPOCH`, the moment from which timestamps
/// count.
#[verifier::external_body]
fn unix_epoch() -> (epoch: SystemTime) {
    UNIX_EPOCH
}

/// The whole seconds from the epoch to now; `None` when the clock stands
/// before the epoch.
pub(crate) fn seconds_since_epoch() -> (now: Option<u64>) {
    match SystemTime::now().duration_since(unix_epoch()) {
        Ok(elapsed) => Some(elapsed.as_secs()),
        Err(_) => None,
    }
}

} // verus!
