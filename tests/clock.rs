use sensor_processor::utils::{current_timestamp_ms, timestamp_from_elapsed};

#[test]
fn timestamp_before_epoch_is_none() {
    assert_eq!(timestamp_from_elapsed(None), None);
}

#[test]
fn timestamp_keeps_milliseconds() {
    assert_eq!(timestamp_from_elapsed(Some(1_700_000_000_123)), Some(1_700_000_000_123));
    assert_eq!(timestamp_from_elapsed(Some(0)), Some(0));
    assert_eq!(timestamp_from_elapsed(Some(u64::MAX as u128)), Some(u64::MAX));
}

#[test]
fn timestamp_wraps_like_a_cast() {
    let big: u128 = (1u128 << 64) + 5;
    assert_eq!(timestamp_from_elapsed(Some(big)), Some(big as u64));
    assert_eq!(timestamp_from_elapsed(Some(big)), Some(5));
}

#[test]
fn current_timestamp_is_after_2020() {
    let t = current_timestamp_ms();
    assert!(matches!(t, Some(ms) if ms > 1_577_836_800_000));
}
