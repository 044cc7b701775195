//! The system clock, in milliseconds since the Unix epoch.

use vstd::prelude::*;

verus! {

/// `std::time::SystemTime`, of which nothing is known but that it is a time.
#[verifier::external_type_specification]
#[verifier::external_body]
pub struct ExSystemTime(std::time::SystemTime);

/// `std::time::SystemTimeError`: a time lies before the one it is measured from.
#[verifier::external_type_specification]
#[verifier::external_body]
pub struct ExSystemTimeError(std::time::SystemTimeError);

/// `SystemTime::now`: what the system clock shows. Nothing is promised of it.
#[verifier::external_body]
fn clock_now() -> (now: std::time::SystemTime) {
    std::time::SystemTime::now()
}

/// `SystemTime::duration_since` against `UNIX_EPOCH`: the time that has
/// passed since the epoch, or an error for a clock that is set before it.
#[verifier::external_body]
fn since_epoch(time: &std::time::SystemTime) -> (elapsed: Result<
    core::time::Duration,
    std::time::SystemTimeError,
>) {
    time.duration_since(std::time::UNIX_EPOCH)
}

/// `Duration::as_millis`: the whole milliseconds of a duration.
#[verifier::external_body]
fn whole_millis(elapsed: &core::time::Duration) -> (millis: u128) {
    elapsed.as_millis()
}

/// `Duration::as_nanos`: the whole nanoseconds of a duration.
#[verifier::external_body]
fn whole_nanos(elapsed: &core::time::Duration) -> (nanos: u128) {
    elapsed.as_nanos()
}

/// The nanoseconds since the Unix epoch that the system clock shows, and 0
/// for a clock that is set before it.
pub fn now_nanos() -> (nanos: u128) {
    let now = clock_now();
    match since_epoch(&now) {
        Ok(elapsed) => whole_nanos(&elapsed),
        Err(_) => 0,
    }
}

/// What a reading of the clock means as a timestamp: the milliseconds since
/// the epoch, cut to 64 bits, and 0 for a clock that is set before it.
pub fn millis_of(elapsed: Result<u128, ()>) -> (millis: u64)
    ensures
        millis == match elapsed {
            Ok(m) => (m % 0x1_0000_0000_0000_0000) as u64,
            Err(_) => 0,
        },
{
    match elapsed {
        Ok(m) => (m % 0x1_0000_0000_0000_0000) as u64,
        Err(_) => 0,
    }
}

/// The milliseconds since the Unix epoch that the system clock shows.
pub fn now_millis() -> (millis: u64) {
    let now = clock_now();
    match since_epoch(&now) {
        Ok(elapsed) => millis_of(Ok(whole_millis(&elapsed))),
        Err(_) => millis_of(Err(())),
    }
}

} // verus!
