use chrono::TimeZone;
use chrono::Utc;

// The span from `now` to `then` as the library takes it: whole seconds and
// nanoseconds, both rounded toward zero.
fn display_relative_time(now: chrono::DateTime<Utc>, then: chrono::DateTime<Utc>) -> String {
    let d = then - now;
    todo::time_format::display_relative_time(d.num_seconds(), d.subsec_nanos()).unwrap()
}

#[test]
fn relative_time_in_one_second() {
    let now = Utc.with_ymd_and_hms(2021, 3, 19, 10, 0, 0).unwrap();
    let then = Utc.with_ymd_and_hms(2021, 3, 19, 10, 0, 1).unwrap();
    let expected = "in 1 second";
    let actual = display_relative_time(now, then);
    assert_eq!(actual, expected);
}

#[test]
fn relative_time_in_one_minute() {
    let now = Utc.with_ymd_and_hms(2021, 3, 19, 10, 0, 0).unwrap();
    let then = Utc.with_ymd_and_hms(2021, 3, 19, 10, 1, 0).unwrap();
    let expected = "in 1 minute";
    let actual = display_relative_time(now, then);
    assert_eq!(actual, expected);
}

#[test]
fn relative_time_in_one_hour() {
    let now = Utc.with_ymd_and_hms(2021, 3, 19, 10, 0, 0).unwrap();
    let then = Utc.with_ymd_and_hms(2021, 3, 19, 11, 0, 0).unwrap();
    let expected = "in 1 hour";
    let actual = display_relative_time(now, then);
    assert_eq!(actual, expected);
}

#[test]
fn relative_time_in_five_minutes() {
    let now = Utc.with_ymd_and_hms(2021, 3, 19, 10, 0, 0).unwrap();
    let then = Utc.with_ymd_and_hms(2021, 3, 19, 10, 5, 0).unwrap();
    let expected = "in 5 minutes";
    let actual = display_relative_time(now, then);
    assert_eq!(actual, expected);
}

#[test]
fn relative_time_minute_level_precision() {
    let now = Utc.with_ymd_and_hms(2021, 3, 19, 10, 0, 0).unwrap();
    let then = Utc.with_ymd_and_hms(2021, 3, 19, 10, 5, 30).unwrap();
    let expected = "in 5 minutes";
    let actual = display_relative_time(now, then);
    assert_eq!(actual, expected);
}

#[test]
fn relative_time_minute_level_precision_limit() {
    let now = Utc.with_ymd_and_hms(2021, 3, 19, 10, 0, 0).unwrap();
    let then = Utc.with_ymd_and_hms(2021, 3, 19, 10, 6, 59).unwrap();
    let expected = "in 6 minutes";
    let actual = display_relative_time(now, then);
    assert_eq!(actual, expected);
}

#[test]
fn relative_time_five_minutes_ago() {
    let now = Utc.with_ymd_and_hms(2021, 3, 19, 10, 0, 0).unwrap();
    let then = Utc.with_ymd_and_hms(2021, 3, 19, 9, 55, 0).unwrap();
    let expected = "5 minutes ago";
    let actual = display_relative_time(now, then);
    assert_eq!(actual, expected);
}

#[test]
fn relative_time_in_five_days() {
    let now = Utc.with_ymd_and_hms(2021, 3, 19, 10, 0, 0).unwrap();
    let then = Utc.with_ymd_and_hms(2021, 3, 24, 23, 59, 59).unwrap();
    let expected = "in 5 days";
    let actual = display_relative_time(now, then);
    assert_eq!(actual, expected);
}

#[test]
fn relative_time_in_eight_days() {
    let now = Utc.with_ymd_and_hms(2021, 3, 19, 10, 0, 0).unwrap();
    let then = Utc.with_ymd_and_hms(2021, 3, 27, 23, 59, 59).unwrap();
    let expected = "in 8 days";
    let actual = display_relative_time(now, then);
    assert_eq!(actual, expected);
}

#[test]
fn relative_time_in_a_month() {
    let now = Utc.with_ymd_and_hms(2021, 3, 19, 10, 0, 0).unwrap();
    let then = Utc.with_ymd_and_hms(2021, 4, 27, 23, 59, 59).unwrap();
    let expected = "in 1 month";
    let actual = display_relative_time(now, then);
    assert_eq!(actual, expected);
}

#[test]
fn relative_time_in_11_months() {
    let now = Utc.with_ymd_and_hms(2021, 3, 19, 10, 0, 0).unwrap();
    let then = Utc.with_ymd_and_hms(2022, 3, 18, 23, 59, 59).unwrap();
    let expected = "in 11 months";
    let actual = display_relative_time(now, then);
    assert_eq!(actual, expected);
}
