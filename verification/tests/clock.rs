use foyer_core::clock::{timestamp_of, unix_millis};

#[test]
fn clock_gives_milliseconds_since_the_epoch() {
    let first = unix_millis();
    // later than 2020-01-01 and earlier than 2200-01-01, in milliseconds
    assert!(first > 1_577_836_800_000);
    assert!(first < 7_258_118_400_000);
}

#[test]
fn timestamp_is_cut_to_its_low_bits() {
    assert_eq!(timestamp_of(None), 0);
    assert_eq!(timestamp_of(Some(0)), 0);
    assert_eq!(timestamp_of(Some(1_700_000_000_123)), 1_700_000_000_123);
    assert_eq!(timestamp_of(Some(u64::MAX as u128)), u64::MAX);
    assert_eq!(timestamp_of(Some(u64::MAX as u128 + 1)), 0);
    assert_eq!(timestamp_of(Some((7u128 << 64) + 42)), 42);
    assert_eq!(timestamp_of(Some(u128::MAX)), u64::MAX);
}
