use busy::time::{
    complete_datetime_input, get_period, get_period_at, has_space, parse_datetime,
    settle_typed_time, DateTimeInterval, ParseFailure, Period, Timestamp, MAX_INSTANT,
};

fn at(millis: i64) -> Timestamp {
    Timestamp::new(millis, 0).unwrap()
}

fn formatted(t: &Timestamp, pattern: &str) -> String {
    let offset = chrono::FixedOffset::east_opt(t.offset_seconds()).unwrap();
    chrono::DateTime::from_timestamp_millis(t.timestamp_millis())
        .unwrap()
        .with_timezone(&offset)
        .format(pattern)
        .to_string()
}

#[test]
fn test_parse_datetime() {
    let datetime = parse_datetime("2020-01-01 00:00");
    assert!(formatted(&datetime.unwrap(), "%Y-%m-%d %H:%M:%S") == "2020-01-01 00:00:00");
}

#[test]
fn test_parse_time() {
    let datetime = parse_datetime("11:00");
    assert!(datetime.is_ok());

    assert_eq!(
        formatted(&datetime.unwrap(), "%Y-%m-%d %H:%M"),
        format!("{} {}", chrono::Local::now().format("%Y-%m-%d"), "11:00")
    );
}

#[test]
fn parse_datetime_reports_why_it_failed() {
    assert_eq!(parse_datetime("not a time"), Err(ParseFailure::Invalid));
    assert_eq!(parse_datetime("2020-01-01 00"), Err(ParseFailure::TooShort));
    assert_eq!(parse_datetime("2020-01-01 00:00:00"), Err(ParseFailure::TooLong));
    assert_eq!(parse_datetime("2020-13-01 00:00"), Err(ParseFailure::OutOfRange));
}

#[test]
fn timestamp_new_checks_its_range() {
    assert!(Timestamp::new(0, 0).is_some());
    assert!(Timestamp::new(MAX_INSTANT, 86_399).is_some());
    assert!(Timestamp::new(-MAX_INSTANT, -86_399).is_some());
    assert!(Timestamp::new(MAX_INSTANT + 1, 0).is_none());
    assert!(Timestamp::new(-MAX_INSTANT - 1, 0).is_none());
    assert!(Timestamp::new(0, 86_400).is_none());
    assert!(Timestamp::new(0, -86_400).is_none());
    let t = Timestamp::new(1_577_836_800_000, 3_600).unwrap();
    assert_eq!(t.timestamp_millis(), 1_577_836_800_000);
    assert_eq!(t.offset_seconds(), 3_600);
}

#[test]
fn timestamps_are_the_same_only_with_the_same_offset() {
    let a = Timestamp::new(5, 0).unwrap();
    let b = Timestamp::new(5, 60).unwrap();
    assert!(a.same(&a));
    assert!(!a.same(&b));
    assert_eq!(b.millis_since(&a), 0);
    assert_eq!(at(1_500).millis_since(&at(2_000)), -500);
}

#[test]
fn duration_of_a_closed_interval_is_its_length() {
    let interval = DateTimeInterval { start_time: at(1_000), stop_time: Some(at(61_000)) };
    assert_eq!(interval.duration_at(&at(999_999)), 60_000);
    assert_eq!(interval.duration(), 60_000);
}

#[test]
fn duration_of_an_open_interval_runs_to_now() {
    let interval = DateTimeInterval { start_time: at(1_000), stop_time: None };
    assert_eq!(interval.duration_at(&at(4_000)), 3_000);
    assert_eq!(interval.duration_at(&at(0)), -1_000);
    let since_epoch = DateTimeInterval { start_time: at(0), stop_time: None };
    assert!(since_epoch.duration() > 1_600_000_000_000);
}

#[test]
fn input_without_a_date_gets_todays() {
    assert!(has_space("2020-01-01 11:00"));
    assert!(!has_space("11:00"));
    assert_eq!(complete_datetime_input("11:00", "2024-02-29"), "2024-02-29 11:00");
    assert_eq!(complete_datetime_input("2020-01-01 11:00", "2024-02-29"), "2020-01-01 11:00");
    assert_eq!(complete_datetime_input("", "2024-02-29"), "2024-02-29 ");
}

#[test]
fn period_of_today_starts_at_midnight() {
    let now = Timestamp::new(1_000_000_000, 7_200).unwrap();
    let period = get_period_at(Some(3), true, now, 3_661, 2).unwrap();
    assert_eq!(period.from.timestamp_millis(), 1_000_000_000 - 3_661_000);
    assert_eq!(period.from.offset_seconds(), 7_200);
    assert!(period.to.same(&now));
}

#[test]
fn period_of_days_reaches_back_that_many_midnights() {
    let now = at(1_000_000_000);
    let period = get_period_at(Some(3), false, now, 3_661, 2).unwrap();
    assert_eq!(period.from.timestamp_millis(), 1_000_000_000 - (3 * 86_400 + 3_661) * 1_000);
    let ahead = get_period_at(Some(-1), false, now, 0, 2).unwrap();
    assert_eq!(ahead.from.timestamp_millis(), 1_000_000_000 + 86_400_000);
}

#[test]
fn period_of_the_week_starts_on_monday() {
    let now = at(1_000_000_000);
    let period = get_period_at(None, false, now, 3_661, 2).unwrap();
    assert_eq!(period.from.timestamp_millis(), 1_000_000_000 - (2 * 86_400 + 3_661) * 1_000);
}

#[test]
fn period_out_of_range_is_none() {
    let now = at(0);
    assert!(get_period_at(Some(i64::MAX), false, now, 0, 0).is_none());
    assert!(get_period_at(Some(i64::MIN), false, now, 0, 0).is_none());
    let edge = MAX_INSTANT / 86_400_000;
    assert!(get_period_at(Some(edge), false, now, 0, 0).is_some());
    assert!(get_period_at(Some(edge + 1), false, now, 0, 0).is_none());
}

#[test]
fn period_read_from_the_clock_ends_now() {
    let today = get_period(None, true).unwrap();
    let length = today.to.millis_since(&today.from);
    assert!(length >= 0 && length < 86_400_000);
    let week = get_period(None, false).unwrap();
    let week_length = week.to.millis_since(&week.from);
    assert!(week_length >= length - 1_000 && week_length < 7 * 86_400_000);
    let two_days = get_period(Some(2), false).unwrap();
    let two = two_days.to.millis_since(&two_days.from);
    assert!(two >= 2 * 86_400_000 && two < 3 * 86_400_000);
}

#[test]
fn period_contains_its_ends() {
    let period = Period { from: at(10), to: at(20) };
    assert!(period.contains(&at(10)));
    assert!(period.contains(&at(20)));
    assert!(period.contains(&at(15)));
    assert!(!period.contains(&at(9)));
    assert!(!period.contains(&at(21)));
    let open = Period::new_to_now(at(0));
    assert!(open.contains(&at(1_600_000_000_000)));
}

#[test]
fn local_reading_is_the_instant_moved_by_the_offset() {
    assert_eq!(Timestamp::new(1_000, 2).unwrap().local_millis(), 3_000);
    assert_eq!(Timestamp::new(1_000, -2).unwrap().local_millis(), -1_000);
    assert_eq!(at(5).local_millis(), 5);
    assert_eq!(
        Timestamp::new(MAX_INSTANT, 86_399).unwrap().local_millis(),
        MAX_INSTANT + 86_399_000
    );
}

#[test]
fn typed_time_comes_back_only_where_its_clock_shows_what_was_typed() {
    let t = Timestamp::new(1_577_833_200_000, 3_600).unwrap();
    assert_eq!(settle_typed_time(Some(1_577_836_800_000), Ok(t)), Ok(t));
    assert_eq!(settle_typed_time(Some(1_577_836_800_001), Ok(t)), Err(ParseFailure::Impossible));
    assert_eq!(settle_typed_time(Some(1_577_833_200_000), Ok(t)), Err(ParseFailure::Impossible));
    assert_eq!(settle_typed_time(None, Ok(t)), Err(ParseFailure::Invalid));
    assert_eq!(
        settle_typed_time(Some(1_577_836_800_000), Err(ParseFailure::NotEnough)),
        Err(ParseFailure::NotEnough)
    );
    assert_eq!(settle_typed_time(None, Err(ParseFailure::TooShort)), Err(ParseFailure::TooShort));
}

#[test]
fn parsed_time_shows_what_was_typed_at_its_own_offset() {
    let t = parse_datetime("2020-01-01 00:00").unwrap();
    assert_eq!(t.local_millis(), 1_577_836_800_000);
    assert_eq!(t.timestamp_millis(), 1_577_836_800_000 - 1_000 * t.offset_seconds() as i64);
    let later = parse_datetime("2020-01-01 00:01").unwrap();
    assert_eq!(later.local_millis() - t.local_millis(), 60_000);
}
