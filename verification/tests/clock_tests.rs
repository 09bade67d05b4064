use fraud_detector::clock::{minutes_since_last_tx, Timestamp};

#[test]
fn calendar_of_known_instants() {
    // 2024-01-01T00:00:00Z, a Monday.
    let t = Timestamp::new(1_704_067_200, 0).unwrap();
    assert_eq!(t.hour_of_day(), 0);
    assert_eq!(t.day_of_week(), 0);
    // 2024-01-07T23:30:00Z, a Sunday.
    let t = Timestamp::new(1_704_670_200, 0).unwrap();
    assert_eq!(t.hour_of_day(), 23);
    assert_eq!(t.day_of_week(), 6);
    // 1969-12-31T23:00:00Z, a Wednesday.
    let t = Timestamp::new(-3600, 0).unwrap();
    assert_eq!(t.hour_of_day(), 23);
    assert_eq!(t.day_of_week(), 2);
}

#[test]
fn instants_out_of_range_are_refused() {
    assert!(Timestamp::new(i64::MAX, 0).is_none());
    assert!(Timestamp::new(0, 1_000_000_000).is_none());
    assert!(Timestamp::new(59, 1_500_000_000).is_some());
    assert!(Timestamp::new(8_210_266_876_799, 999_999_999).is_some());
    assert!(Timestamp::new(8_210_266_876_800, 0).is_none());
    assert!(Timestamp::new(-8_334_601_228_800, 0).is_some());
    assert!(Timestamp::new(-8_334_601_228_801, 0).is_none());
}

#[test]
fn minutes_round_toward_zero() {
    let later = Timestamp::new(1_000_000, 500_000_000).unwrap();
    let earlier = Timestamp::new(1_000_000 - 119, 600_000_000).unwrap();
    // 118.9 seconds: one whole minute.
    assert_eq!(later.minutes_since(&earlier), 1);
    // -118.9 seconds: minus one whole minute.
    assert_eq!(earlier.minutes_since(&later), -1);
    assert_eq!(minutes_since_last_tx(&later, Some(&earlier)), Some(1));
    assert_eq!(minutes_since_last_tx(&later, None), None);
}

#[test]
fn minutes_over_a_day() {
    let a = Timestamp::new(1_704_067_200, 0).unwrap();
    let b = Timestamp::new(1_704_067_200 + 86_400, 0).unwrap();
    assert_eq!(b.minutes_since(&a), 1440);
}

#[test]
fn instants_at_the_ends_of_the_range() {
    let first = Timestamp::new(-8_334_601_228_800, 0).unwrap();
    let next = Timestamp::new(-8_334_601_228_800 + 60, 0).unwrap();
    assert_eq!(next.minutes_since(&first), 1);
    assert_eq!(first.hour_of_day(), 0);
    let last = Timestamp::new(8_210_266_876_799, 0).unwrap();
    assert_eq!(last.hour_of_day(), 23);
    let before_last = Timestamp::new(8_210_266_876_799 - 120, 0).unwrap();
    assert_eq!(last.minutes_since(&before_last), 2);
}

#[test]
fn leap_second_instants() {
    // 2016-12-31T23:59:60.5Z.
    let leap = Timestamp::new(1_483_228_799, 1_500_000_000).unwrap();
    assert_eq!(leap.hour_of_day(), 23);
    assert_eq!(leap.day_of_week(), 5);
}

#[test]
fn minutes_across_a_leap_second() {
    // 2016-12-31T23:59:60.5Z and 2017-01-01T00:00:59.6Z: chrono counts
    // 59.1 seconds between them, as the leap second lies before both times
    // of day that it compares.
    let leap = Timestamp::new(1_483_228_799, 1_500_000_000).unwrap();
    let after = Timestamp::new(1_483_228_859, 600_000_000).unwrap();
    assert_eq!(after.minutes_since(&leap), 0);
    assert_eq!(leap.minutes_since(&after), 0);
    let later = Timestamp::new(1_483_228_860, 600_000_000).unwrap();
    assert_eq!(later.minutes_since(&leap), 1);
    // 2016-12-31T23:58:59.9Z to the leap second.
    let before = Timestamp::new(1_483_228_739, 900_000_000).unwrap();
    assert_eq!(leap.minutes_since(&before), 1);
}

#[test]
fn later_last_transactions_give_no_minutes() {
    let now = Timestamp::new(1_704_067_200, 0).unwrap();
    let future = Timestamp::new(1_704_067_200 + 3600, 0).unwrap();
    assert_eq!(minutes_since_last_tx(&now, Some(&future)), Some(-60));
    assert_eq!(minutes_since_last_tx(&now, Some(&now)), Some(0));
}
