use btclib::error::BtcError;
use btclib::time::Timestamp;

#[test]
fn seconds_since_drops_fractions_towards_zero() {
    let start = Timestamp::new(100, 900_000_000);
    let end = Timestamp::new(103, 100_000_000);
    assert_eq!(end.seconds_since(&start), 2);
    assert_eq!(start.seconds_since(&end), -2);
    assert_eq!(end.seconds_since(&end), 0);
    assert_eq!(Timestamp::new(490, 0).seconds_since(&Timestamp::new(0, 0)), 490);
}

#[test]
fn seconds_since_stays_in_range() {
    let early = Timestamp::new(i64::MIN, 0);
    let late = Timestamp::new(i64::MAX, 999_999_999);
    assert_eq!(late.seconds_since(&early), i64::MAX);
    assert_eq!(early.seconds_since(&late), i64::MIN);
}

#[test]
fn order_in_time() {
    let a = Timestamp::new(5, 1);
    let b = Timestamp::new(5, 2);
    assert!(a.is_before(&b));
    assert!(!b.is_before(&a));
    assert!(!a.is_before(&a));
    assert!(Timestamp::new(-1, 999_999_999).is_before(&Timestamp::new(0, 0)));
}

#[test]
fn age_is_strict() {
    let admitted = Timestamp::new(1_000, 0);
    assert!(!admitted.is_older_than(&Timestamp::new(1_600, 0), 600));
    assert!(admitted.is_older_than(&Timestamp::new(1_600, 1), 600));
    assert!(!admitted.is_older_than(&Timestamp::new(900, 0), 600));
}

#[test]
fn errors_have_a_message() {
    assert_eq!(BtcError::InvalidTransaction.message(), "Invalid transaction");
    assert_eq!(BtcError::InvalidBlock.message(), "Invalid block");
    assert_ne!(BtcError::InvalidBlock, BtcError::InvalidTransaction);
}
