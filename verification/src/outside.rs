//! The calls that leave the verified code: the random number generator and
//! the system clock. Nothing is proved of them; each contract states what is
//! assumed.

use vstd::prelude::*;

verus! {

/// The system clock's point in time, opaque to the verifier.
#[verifier::external_type_specification]
#[verifier::external_body]
pub struct ExSystemTime(std::time::SystemTime);

/// The error of a clock that stands before the reference point, opaque to
/// the verifier.
#[verifier::external_type_specification]
#[verifier::external_body]
pub struct ExSystemTimeError(std::time::SystemTimeError);

/// Calls `rand::random::<u128>()`, which draws 128 bits from the generator of
/// the current thread. Nothing is assumed of the number returned.
#[verifier::external_body]
pub(crate) fn random_u128() -> u128 {
    rand::random::<u128>()
}

/// Calls `std::time::SystemTime::now()`. Nothing is assumed of the time
/// returned.
#[verifier::external_body]
pub(crate) fn system_time_now() -> std::time::SystemTime {
    std::time::SystemTime::now()
}

/// Calls `std::time::SystemTime::duration_since` with the Unix epoch, which
/// fails when the time lies before the epoch. Nothing is assumed of the
/// result.
#[verifier::external_body]
pub(crate) fn duration_since_epoch(time: &std::time::SystemTime) -> Result<
    std::time::Duration,
    std::time::SystemTimeError,
> {
    time.duration_since(std::time::UNIX_EPOCH)
}

/// Calls `std::time::Duration::as_secs`, the whole seconds of a duration.
/// Nothing is assumed of the number returned.
#[verifier::external_body]
pub(crate) fn duration_as_secs(duration: &std::time::Duration) -> u64 {
    duration.as_secs()
}

/// The random number generator of the current thread.
pub struct ThreadRandom {}

impl ThreadRandom {
    /// The generator of the current thread.
    pub fn new() -> ThreadRandom {
        ThreadRandom {}
    }
}

impl crate::types::RandomSource for ThreadRandom {
    fn next_u128(&mut self) -> u128 {
        random_u128()
    }
}

/// The seconds since the Unix epoch by the system clock; zero for a clock
/// that stands before the epoch.
pub fn current_timestamp() -> u64 {
    let now = system_time_now();
    match duration_since_epoch(&now) {
        Ok(duration) => duration_as_secs(&duration),
        Err(_) => 0,
    }
}

} // verus!
