//! Instants.

use loom::clock::{Timestamp, FIRST_SECOND, LAST_SECOND};

fn ts(s: &str) -> Timestamp {
    Timestamp::parse(s).unwrap()
}

#[test]
fn instants_are_those_that_chrono_has() {
    assert!(Timestamp::new(FIRST_SECOND, 0).is_some());
    assert!(Timestamp::new(FIRST_SECOND - 1, 0).is_none());
    assert!(Timestamp::new(LAST_SECOND, 999_999_999).is_some());
    assert!(Timestamp::new(LAST_SECOND + 1, 0).is_none());
    // a leap second only at the end of a minute
    assert!(Timestamp::new(59, 1_500_000_000).is_some());
    assert!(Timestamp::new(58, 1_500_000_000).is_none());
    assert!(Timestamp::new(59, 2_000_000_000).is_none());
    assert!(Timestamp::new(-1, 1_999_999_999).is_some());
}

#[test]
fn parsing_and_writing() {
    let t = ts("2026-07-01T02:03:04.5+02:00");
    assert_eq!(t.secs(), 1_782_864_184);
    assert_eq!(t.nanos(), 500_000_000);
    assert_eq!(t.rfc3339(), "2026-07-01T00:03:04.500Z");
    assert_eq!(t.display(), "2026-07-01 00:03:04.500 UTC");
    assert_eq!(ts("2026-07-01T00:00:00Z").rfc3339(), "2026-07-01T00:00:00Z");
    assert_eq!(ts("2026-07-01T00:00:00Z").display(), "2026-07-01 00:00:00 UTC");
    assert!(Timestamp::parse("yesterday").is_err());
    assert!(!Timestamp::parse("").unwrap_err().is_empty());
}

#[test]
fn minutes_round_toward_zero() {
    let a = ts("2026-07-01T00:00:00Z");
    assert_eq!(ts("2026-07-01T00:00:59.999Z").minutes_since(&a), 0);
    assert_eq!(ts("2026-07-01T00:01:00Z").minutes_since(&a), 1);
    assert_eq!(a.minutes_since(&ts("2026-07-01T00:00:59Z")), 0);
    assert_eq!(a.minutes_since(&ts("2026-07-01T00:01:30Z")), -1);
    assert_eq!(a.minutes_since(&ts("2026-07-01T00:02:00Z")), -2);
}

#[test]
fn leap_seconds_count_in_a_difference() {
    // twenty seconds into a leap second of day one, seen from later that day
    let leap = Timestamp::new(59, 1_000_000_000).unwrap();
    let later = Timestamp::new(119, 0).unwrap();
    assert_eq!(later.minutes_since(&leap), 1);
    let plain = Timestamp::new(60, 0).unwrap();
    assert_eq!(later.minutes_since(&plain), 0);
    assert_eq!(leap.minutes_since(&later), -1);
    let ends = Timestamp::new(59, 1_999_999_999).unwrap();
    assert_eq!(ends.minutes_since(&Timestamp::new(0, 0).unwrap()), 1);
}

#[test]
fn the_extremes_can_be_subtracted() {
    let first = Timestamp::new(FIRST_SECOND, 0).unwrap();
    let last = Timestamp::new(LAST_SECOND, 999_999_999).unwrap();
    assert_eq!(last.minutes_since(&first), (LAST_SECOND - FIRST_SECOND) / 60);
    assert_eq!(first.minutes_since(&last), -((LAST_SECOND - FIRST_SECOND) / 60));
}

#[test]
fn keys_order_instants_as_time_does() {
    let all = [
        ts("1969-12-31T23:59:59.9Z"),
        ts("1970-01-01T00:00:00Z"),
        ts("2026-07-01T00:00:00.000000001Z"),
        ts("2026-07-01T00:00:01Z"),
    ];
    for (i, a) in all.iter().enumerate() {
        for (j, b) in all.iter().enumerate() {
            assert_eq!(a.key() < b.key(), i < j);
            assert_eq!(a.at_or_after(b), i >= j);
        }
    }
}
