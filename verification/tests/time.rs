use trace_engine::time::{MAX_SECONDS, MIN_SECONDS};
use trace_engine::Timestamp;

#[test]
fn the_calendar_ends_where_the_bounds_say() {
    assert!(Timestamp::from_unix(MIN_SECONDS, 0).is_some());
    assert!(Timestamp::from_unix(MIN_SECONDS - 1, 0).is_none());
    assert!(Timestamp::from_unix(MIN_SECONDS - 1, 999_999_999).is_none());
    assert!(Timestamp::from_unix(MAX_SECONDS, 999_999_999).is_some());
    assert!(Timestamp::from_unix(MAX_SECONDS + 1, 0).is_none());
    assert!(Timestamp::from_unix(i64::MIN, 0).is_none());
    assert!(Timestamp::from_unix(i64::MAX, 0).is_none());
}

#[test]
fn nanoseconds_stay_below_one_second() {
    assert!(Timestamp::from_unix(0, 999_999_999).is_some());
    assert!(Timestamp::from_unix(0, 1_000_000_000).is_none());
    assert!(Timestamp::from_unix(59, 1_000_000_000).is_none());
    assert!(Timestamp::from_unix(59, 1_999_999_999).is_none());
    assert!(Timestamp::from_unix(0, u32::MAX).is_none());
}

#[test]
fn a_time_reports_the_parts_it_was_made_from() {
    let t = Timestamp::from_unix(-1, 5).unwrap();
    assert_eq!(t.seconds(), -1);
    assert_eq!(t.subsec_nanos(), 5);
    let t = Timestamp::from_unix(1_431_648_000, 123_456_789).unwrap();
    assert_eq!(t.seconds(), 1_431_648_000);
    assert_eq!(t.subsec_nanos(), 123_456_789);
    let t = Timestamp::from_unix_nanos(1_000_000_001).unwrap();
    assert_eq!((t.seconds(), t.subsec_nanos()), (1, 1));
    assert_eq!(Timestamp::default(), Timestamp::from_unix(0, 0).unwrap());
}

#[test]
fn microseconds_since_the_epoch() {
    let t = Timestamp::from_unix(1, 444_999).unwrap();
    assert_eq!(t.unix_micros(), 1_000_444);
    let t = Timestamp::from_unix(-1, 999_999_999).unwrap();
    assert_eq!(t.unix_micros(), -1);
    let t = Timestamp::from_unix(-2, 500).unwrap();
    assert_eq!(t.unix_micros(), -2_000_000);
    let t = Timestamp::from_unix(MAX_SECONDS, 999_999_999).unwrap();
    assert_eq!(t.unix_micros(), 8_210_266_876_799_999_999);
    let t = Timestamp::from_unix(MIN_SECONDS, 0).unwrap();
    assert_eq!(t.unix_micros(), -8_334_601_228_800_000_000);
}

#[test]
fn differences_round_towards_zero() {
    let zero = Timestamp::from_unix(0, 0).unwrap();
    let a = Timestamp::from_unix(0, 1_999).unwrap();
    assert_eq!(a.micros_since(&zero), Some(1));
    assert_eq!(zero.micros_since(&a), Some(-1));
    let b = Timestamp::from_unix(0, 999).unwrap();
    assert_eq!(b.micros_since(&zero), Some(0));
    assert_eq!(zero.micros_since(&b), Some(0));
    let c = Timestamp::from_unix(-1, 999_998_500).unwrap();
    assert_eq!(c.micros_since(&zero), Some(-1));
    assert_eq!(zero.micros_since(&c), Some(1));
    let d = Timestamp::from_unix(2, 500_000_000).unwrap();
    let e = Timestamp::from_unix(1, 750_000_000).unwrap();
    assert_eq!(d.micros_since(&e), Some(750_000));
    assert_eq!(e.micros_since(&d), Some(-750_000));
    assert_eq!(d.elapsed_since(&e), 750_000);
}

#[test]
fn a_difference_beyond_64_bits_counts_as_zero() {
    let first = Timestamp::from_unix(MIN_SECONDS, 0).unwrap();
    let last = Timestamp::from_unix(MAX_SECONDS, 999_999_999).unwrap();
    assert_eq!(last.micros_since(&first), None);
    assert_eq!(first.micros_since(&last), None);
    assert_eq!(last.elapsed_since(&first), 0);
    assert_eq!(first.elapsed_since(&last), 0);
    let base = Timestamp::from_unix(-2_000_000_000_000, 0).unwrap();
    let edge = Timestamp::from_unix(7_223_372_036_854, 775_807_999).unwrap();
    assert_eq!(edge.micros_since(&base), Some(i64::MAX));
    let beyond = Timestamp::from_unix(7_223_372_036_854, 775_808_000).unwrap();
    assert_eq!(beyond.micros_since(&base), None);
    assert_eq!(base.micros_since(&beyond), Some(i64::MIN));
    let further = Timestamp::from_unix(7_223_372_036_854, 775_809_000).unwrap();
    assert_eq!(base.micros_since(&further), None);
}

#[test]
fn times_are_ordered_by_seconds_then_nanoseconds() {
    let a = Timestamp::from_unix(1, 0).unwrap();
    let b = Timestamp::from_unix(0, 999_999_999).unwrap();
    let c = Timestamp::from_unix(-1, 5).unwrap();
    let d = Timestamp::from_unix(-1, 4).unwrap();
    assert!(a.is_after(&b));
    assert!(!b.is_after(&a));
    assert!(b.is_after(&c));
    assert!(c.is_after(&d));
    assert!(!d.is_after(&c));
    assert!(!a.is_after(&a));
}
