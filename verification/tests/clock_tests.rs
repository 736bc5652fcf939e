use exchange_engine::clock::{millis_or_zero, now_millis};
use std::time::{Duration, UNIX_EPOCH};

#[test]
fn millis_of_a_measured_duration() {
    assert_eq!(millis_or_zero(Ok(Duration::from_millis(1234))), 1234);
    assert_eq!(millis_or_zero(Ok(Duration::new(2, 999_999))), 2000);
    assert_eq!(millis_or_zero(Ok(Duration::from_secs(1_700_000_000))), 1_700_000_000_000);
}

#[test]
fn millis_zero_when_clock_before_epoch() {
    let later = UNIX_EPOCH + Duration::from_secs(10);
    let err = UNIX_EPOCH.duration_since(later);
    assert!(err.is_err());
    assert_eq!(millis_or_zero(err), 0);
}

#[test]
fn now_is_after_2020() {
    assert!(now_millis() > 1_577_836_800_000);
}
