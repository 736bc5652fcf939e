use std::time::{Duration, SystemTime, SystemTimeError, UNIX_EPOCH};
use vstd::prelude::*;

verus! {

/// `std::time::SystemTime`, carried through as an opaque value.
#[verifier::external_type_specification]
#[verifier::external_body]
pub struct ExSystemTime(SystemTime);

/// `std::time::SystemTimeError`, carried through as an opaque value.
#[verifier::external_type_specification]
#[verifier::external_body]
pub struct ExSystemTimeError(SystemTimeError);

/// `SystemTime::now` reads the system clock; nothing is claimed of what it returns.
pub assume_specification[ SystemTime::now ]() -> SystemTime;

/// `SystemTime::duration_since` measures the time from `earlier` to `t`, or fails when
/// `earlier` is later; nothing is claimed of which.
pub assume_specification[ SystemTime::duration_since ](
    t: &SystemTime,
    earlier: SystemTime,
) -> Result<Duration, SystemTimeError>;

/// The whole milliseconds of a duration, as `Duration::as_millis` computes them.
pub uninterp spec fn duration_millis(d: Duration) -> u128;

/// `Duration::as_millis` gives the whole milliseconds of a duration: its result depends on the
/// duration alone, and is named `duration_millis`.
pub assume_specification[ Duration::as_millis ](d: &Duration) -> (r: u128)
    ensures
        r == duration_millis(*d),
;

/// Hands out `std::time::UNIX_EPOCH`, the system time of 1970-01-01 00:00:00 UTC; nothing
/// more is claimed of the opaque value.
#[verifier::external_body]
fn unix_epoch() -> SystemTime {
    UNIX_EPOCH
}

/// The whole milliseconds of a time since the epoch, truncated to 64 bits; zero when that time
/// could not be measured (the clock stood before the epoch).
pub fn millis_or_zero(since_epoch: Result<Duration, SystemTimeError>) -> (r: u64)
    ensures
        since_epoch matches Ok(d) ==> r == #[verifier::truncate] (duration_millis(d) as u64),
        since_epoch is Err ==> r == 0,
{
    match since_epoch {
        Ok(d) => #[verifier::truncate] (d.as_millis() as u64),
        Err(_) => 0,
    }
}

/// Milliseconds since the Unix epoch by the system clock, truncated to 64 bits; zero when the
/// clock stands before the epoch.
pub fn now_millis() -> u64 {
    millis_or_zero(SystemTime::now().duration_since(unix_epoch()))
}

} // verus!
