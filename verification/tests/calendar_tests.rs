use timber::calendar::{
    civil_from_days, civil_from_timestamp, current_day_range, current_month_range,
    current_week_range, days_from_civil, days_in_month, is_leap_year, timestamp_from_civil,
};
use timber::time::{Timestamp, split_minutes};
use timber::wire::{format_timestamp, parse_timestamp};

#[test]
fn split_minutes_divides_into_hours_and_minutes() {
    assert_eq!(split_minutes(0), (0, 0));
    assert_eq!(split_minutes(59), (0, 59));
    assert_eq!(split_minutes(60), (1, 0));
    assert_eq!(split_minutes(105), (1, 45));
    assert_eq!(split_minutes(1441), (24, 1));
}

#[test]
fn leap_years_follow_the_gregorian_rule() {
    assert!(is_leap_year(2024));
    assert!(!is_leap_year(2023));
    assert!(!is_leap_year(1900));
    assert!(is_leap_year(2000));
    assert_eq!(days_in_month(2024, 2), 29);
    assert_eq!(days_in_month(2023, 2), 28);
    assert_eq!(days_in_month(2023, 12), 31);
    assert_eq!(days_in_month(2024, 6), 30);
}

#[test]
fn civil_and_day_numbers_round_trip() {
    assert_eq!(days_from_civil(1970, 1, 1), 0);
    assert_eq!(days_from_civil(2024, 6, 11), 19885);
    assert_eq!(civil_from_days(0), (1970, 1, 1));
    assert_eq!(civil_from_days(19885), (2024, 6, 11));
    // The last representable day.
    assert_eq!(civil_from_days(2932896), (9999, 12, 31));
    assert_eq!(days_from_civil(9999, 12, 31), 2932896);
}

#[test]
fn civil_timestamps_carry_time_of_day() {
    let t = timestamp_from_civil(2024, 6, 11, 12, 0, 0);
    assert_eq!(t.seconds, 1718107200);
    assert_eq!(civil_from_timestamp(t), (2024, 6, 11, 12, 0, 0));
}

#[test]
fn day_range_runs_midnight_to_midnight() {
    let noon_tuesday = Timestamp::new(1718107200);
    let (start, end) = current_day_range(noon_tuesday);
    assert_eq!(start.seconds, 1718064000); // 2024-06-11T00:00:00Z
    assert_eq!(end.seconds, 1718150400); // 2024-06-12T00:00:00Z
}

#[test]
fn pay_week_of_a_tuesday_runs_saturday_through_friday() {
    // 2024-06-11 was a Tuesday; the pay week around it runs from Saturday
    // 2024-06-08 00:00:00 UTC through Friday 2024-06-14 23:59:59 UTC.
    let noon_tuesday = Timestamp::new(1718107200);
    let (start, end) = current_week_range(noon_tuesday);
    assert_eq!(start.seconds, 1717804800);
    assert_eq!(end.seconds, 1718409599);
    assert_eq!(format_timestamp(start).as_str(), "2024-06-08T00:00:00Z");
    assert_eq!(format_timestamp(end).as_str(), "2024-06-14T23:59:59Z");
}

#[test]
fn pay_week_of_a_saturday_starts_that_day() {
    let saturday_morning = Timestamp::new(1717804800 + 3600);
    let (start, end) = current_week_range(saturday_morning);
    assert_eq!(start.seconds, 1717804800);
    assert_eq!(end.seconds, 1718409599);
}

#[test]
fn month_range_handles_lengths_and_rollover() {
    // An ordinary 30-day month.
    let june = Timestamp::new(1718107200);
    let (start, end) = current_month_range(june);
    assert_eq!(start.seconds, 1717200000); // 2024-06-01T00:00:00Z
    assert_eq!(end.seconds, 1719791999); // 2024-06-30T23:59:59Z

    // December: the next month is January of the following year.
    let december = Timestamp::new(1702627200);
    let (start, end) = current_month_range(december);
    assert_eq!(start.seconds, 1701388800); // 2023-12-01T00:00:00Z
    assert_eq!(end.seconds, 1704067199); // 2023-12-31T23:59:59Z

    // February of a leap year runs through the 29th.
    let february = Timestamp::new(1707523200);
    let (start, end) = current_month_range(february);
    assert_eq!(start.seconds, 1706745600); // 2024-02-01T00:00:00Z
    assert_eq!(end.seconds, 1709251199); // 2024-02-29T23:59:59Z
}

#[test]
fn timestamps_format_as_fixed_width_utc_text() {
    assert_eq!(
        format_timestamp(Timestamp::new(0)).as_str(),
        "1970-01-01T00:00:00Z"
    );
    assert_eq!(
        format_timestamp(Timestamp::new(1718107200)).as_str(),
        "2024-06-11T12:00:00Z"
    );
    assert_eq!(
        format_timestamp(Timestamp::new(253402300799)).as_str(),
        "9999-12-31T23:59:59Z"
    );
}

#[test]
fn formatted_timestamps_parse_back() {
    for seconds in [0, 1, 86399, 86400, 1718107200, 253402300799] {
        let t = Timestamp::new(seconds);
        let text = format_timestamp(t);
        assert_eq!(parse_timestamp(text.as_str()), Some(t));
    }
}

#[test]
fn malformed_timestamps_are_rejected() {
    assert_eq!(parse_timestamp(""), None);
    assert_eq!(parse_timestamp("2024-06-11"), None);
    assert_eq!(parse_timestamp("2024-06-11 12:00:00Z"), None);
    assert_eq!(parse_timestamp("2024-13-01T00:00:00Z"), None); // no month 13
    assert_eq!(parse_timestamp("2024-02-30T00:00:00Z"), None); // no Feb 30
    assert_eq!(parse_timestamp("2023-02-29T00:00:00Z"), None); // not a leap year
    assert_eq!(parse_timestamp("2024-06-11T24:00:00Z"), None); // no hour 24
    assert_eq!(parse_timestamp("2024-06-11T12:60:00Z"), None);
    assert_eq!(parse_timestamp("1969-12-31T23:59:59Z"), None); // before the span
    assert_eq!(parse_timestamp("2024-06-11T12:00:0xZ"), None);
}

#[test]
fn lexicographic_order_of_the_text_matches_time_order() {
    let a = format_timestamp(Timestamp::new(1718107200));
    let b = format_timestamp(Timestamp::new(1718107201));
    let c = format_timestamp(Timestamp::new(1719791999));
    assert!(a.as_str() < b.as_str());
    assert!(b.as_str() < c.as_str());
}
