//! The system clock, as the native methods of `java.lang.System` read it.
use std::time::{Duration, SystemTime, SystemTimeError, UNIX_EPOCH};
use vstd::prelude::*;

verus! {

#[verifier::external_type_specification]
#[verifier::external_body]
pub struct ExSystemTime(SystemTime);

#[verifier::external_type_specification]
#[verifier::external_body]
pub struct ExSystemTimeError(SystemTimeError);

/// `SystemTime::now`: the current time of the system clock. Nothing is claimed of it: it
/// depends on the clock.
#[verifier::external_body]
fn system_time_now() -> (res: SystemTime) {
    SystemTime::now()
}

/// `SystemTime::duration_since`, from the Unix epoch: the time elapsed since then, or an
/// error when the time is earlier. Nothing is claimed of it: it depends on the time
/// given.
#[verifier::external_body]
fn duration_since_epoch(time: &SystemTime) -> (res: Result<Duration, SystemTimeError>) {
    time.duration_since(UNIX_EPOCH)
}

/// `Duration::as_nanos`: the whole number of nanoseconds of a duration. Nothing is
/// claimed of it: durations are opaque here.
#[verifier::external_body]
fn duration_as_nanos(duration: &Duration) -> (res: u128) {
    duration.as_nanos()
}

/// `Duration::as_millis`: the whole number of milliseconds of a duration. Nothing is
/// claimed of it: durations are opaque here.
#[verifier::external_body]
fn duration_as_millis(duration: &Duration) -> (res: u128) {
    duration.as_millis()
}

/// The time elapsed since the Unix epoch; `None` when the clock is set earlier.
pub fn time_since_epoch() -> (res: Option<Duration>) {
    let now = system_time_now();
    match duration_since_epoch(&now) {
        Ok(duration) => Some(duration),
        Err(_) => None,
    }
}

/// A count of nanoseconds as a Java `long`: its low 64 bits, as `System.nanoTime`
/// gives them.
pub fn nanos_to_long(nanos: u128) -> (r: i64)
    ensures
        r == nanos as i64,
{
    nanos as i64
}

/// A count of milliseconds as a Java `long`: its low 64 bits, as
/// `System.currentTimeMillis` gives them.
pub fn millis_to_long(millis: u128) -> (r: i64)
    ensures
        r == millis as i64,
{
    millis as i64
}

/// The time since the Unix epoch in nanoseconds, truncated to 64 bits; `None` when the
/// clock is set earlier.
pub fn get_nano_time() -> (res: Option<i64>) {
    match time_since_epoch() {
        Some(duration) => Some(nanos_to_long(duration_as_nanos(&duration))),
        None => None,
    }
}

/// The time since the Unix epoch in milliseconds, truncated to 64 bits; `None` when the
/// clock is set earlier.
pub fn get_current_time_millis() -> (res: Option<i64>) {
    match time_since_epoch() {
        Some(duration) => Some(millis_to_long(duration_as_millis(&duration))),
        None => None,
    }
}

} // verus!
