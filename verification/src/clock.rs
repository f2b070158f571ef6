//! The wall clock, read through `std::time`.
//!
//! Nothing is promised of what the clock says: a timestamp is advice for
//! the reader of a page, never a means to order pages.

use std::time::{Duration, SystemTime, SystemTimeError, UNIX_EPOCH};
use vstd::prelude::*;

verus! {

/// A point in time as `std` measures it.
#[verifier::external_type_specification]
#[verifier::external_body]
pub struct ExSystemTime(SystemTime);

/// What `std` answers when one point in time is asked to come after a
/// later one.
#[verifier::external_type_specification]
#[verifier::external_body]
pub struct ExSystemTimeError(SystemTimeError);

/// The present time, by `SystemTime::now`. It is whatever the clock of the
/// machine says.
#[verifier::external_body]
fn now() -> SystemTime {
    SystemTime::now()
}

/// The time that has passed from the Unix epoch to `time`, by
/// `SystemTime::duration_since`, which gives an error where `time` stands
/// before the epoch.
#[verifier::external_body]
fn since_epoch(time: &SystemTime) -> Result<Duration, SystemTimeError> {
    time.duration_since(UNIX_EPOCH)
}

/// The whole milliseconds of a span of time, by `Duration::as_millis`.
#[verifier::external_body]
fn whole_millis(span: &Duration) -> u128 {
    span.as_millis()
}

/// The timestamp for the time that has passed since the Unix epoch: its
/// whole milliseconds cut to their low 64 bits, and 0 where the clock
/// stands before the epoch and no such time is known.
pub fn timestamp_of(elapsed: Option<u128>) -> (timestamp: u64)
    ensures
        match elapsed {
            Some(millis) => timestamp == millis % 0x1_0000_0000_0000_0000,
            None => timestamp == 0,
        },
{
    match elapsed {
        Some(millis) => {
            let timestamp = #[verifier::truncate]
            (millis as u64);
            assert(timestamp == millis % 0x1_0000_0000_0000_0000) by (bit_vector)
                requires
                    timestamp == millis as u64,
            ;
            timestamp
        },
        None => 0,
    }
}

/// The present time in milliseconds since the Unix epoch, as
/// [`timestamp_of`] gives it for what the clock says.
pub fn unix_millis() -> u64 {
    let time = now();
    let elapsed = match since_epoch(&time) {
        Ok(span) => Some(whole_millis(&span)),
        Err(_) => None,
    };
    timestamp_of(elapsed)
}

} // verus!
