use todo::model::focus::Weekday;
use todo::time_reading::{read_time, TimeSpec};

#[test]
fn reads_spans_from_now() {
    assert_eq!(read_time("5 min"), Some(Ok(TimeSpec::After { secs: 300, nanos: 0 })));
    assert_eq!(read_time("2h 37min"), Some(Ok(TimeSpec::After { secs: 9420, nanos: 0 })));
}

#[test]
fn reads_days() {
    assert_eq!(read_time("wed"), Some(Ok(TimeSpec::NextWeekday(Weekday::Wed))));
    assert_eq!(read_time("Friday"), Some(Ok(TimeSpec::NextWeekday(Weekday::Fri))));
    assert_eq!(read_time("today"), Some(Ok(TimeSpec::Today)));
    assert_eq!(read_time("tomorrow"), Some(Ok(TimeSpec::Tomorrow)));
    assert_eq!(read_time("last fri"), Some(Ok(TimeSpec::LastWeekday(Weekday::Fri))));
    assert_eq!(read_time("  last   monday "), Some(Ok(TimeSpec::LastWeekday(Weekday::Mon))));
}

#[test]
fn reads_calendar_dates() {
    assert_eq!(read_time("jan 5"), Some(Ok(TimeSpec::MonthDay { month: 1, day: Some(5) })));
    assert_eq!(read_time("march"), Some(Ok(TimeSpec::MonthDay { month: 3, day: None })));
    assert_eq!(read_time("2021"), Some(Ok(TimeSpec::YearMonthDay { year: 2021, month_in_year: None, day: None })));
    assert_eq!(read_time("2021 feb"), Some(Ok(TimeSpec::YearMonthDay { year: 2021, month_in_year: Some(2), day: None })));
    assert_eq!(
        read_time("2021 dec 25"),
        Some(Ok(TimeSpec::YearMonthDay { year: 2021, month_in_year: Some(12), day: Some(25) }))
    );
}

#[test]
fn falls_back_to_time_of_day() {
    assert_eq!(read_time("5pm"), Some(Ok(TimeSpec::TimeOfDay { hour: 17, minute: 0 })));
    assert_eq!(read_time("10:30am"), Some(Ok(TimeSpec::TimeOfDay { hour: 10, minute: 30 })));
    // A month whose day is not a number, and "last" without a day, read as times of day.
    assert!(matches!(read_time("jan x"), Some(Err(_))));
    assert!(matches!(read_time("last"), Some(Err(_))));
    assert!(matches!(read_time("2021 foo"), Some(Err(_))));
}

#[test]
fn words_are_split_at_unicode_white_space() {
    assert_eq!(read_time("last\u{2003}fri"), Some(Ok(TimeSpec::LastWeekday(Weekday::Fri))));
    assert_eq!(read_time("jan\u{a0}5"), Some(Ok(TimeSpec::MonthDay { month: 1, day: Some(5) })));
}

#[test]
fn reads_signed_years_and_days() {
    assert_eq!(read_time("-44"), Some(Ok(TimeSpec::YearMonthDay { year: -44, month_in_year: None, day: None })));
    assert_eq!(
        read_time("+2021 jan +5"),
        Some(Ok(TimeSpec::YearMonthDay { year: 2021, month_in_year: Some(1), day: Some(5) }))
    );
    assert!(matches!(read_time("99999999999"), Some(Err(_))));
}
