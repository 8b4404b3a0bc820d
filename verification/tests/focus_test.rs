use todo::model::focus::{FocusPredicate, TimeOfDay, Weekday, WeekdaySet};
use todo::time_format::{parse_focus_predicate, parse_naive_time, ParseFocusError};

fn days(ds: &[Weekday]) -> FocusPredicate {
    FocusPredicate::Weekdays(WeekdaySet::of(ds))
}

fn time(hour: u32, minute: u32, second: u32) -> TimeOfDay {
    TimeOfDay { hour, minute, second, nano: 0 }
}

fn span(start: TimeOfDay, end: TimeOfDay) -> FocusPredicate {
    FocusPredicate::TimeOfDayRange { start, end }
}

#[test]
fn named_day_sets() {
    assert_eq!(parse_focus_predicate("weekdays"), Ok(days(&[Weekday::Mon, Weekday::Tue, Weekday::Wed, Weekday::Thu, Weekday::Fri])));
    assert_eq!(parse_focus_predicate("Weekends"), Ok(days(&[Weekday::Sat, Weekday::Sun])));
}

#[test]
fn weekday_abbreviations() {
    assert_eq!(parse_focus_predicate("mwf"), Ok(days(&[Weekday::Mon, Weekday::Wed, Weekday::Fri])));
    assert_eq!(parse_focus_predicate("tue"), Ok(days(&[Weekday::Tue])));
    assert_eq!(parse_focus_predicate("satsun"), Ok(days(&[Weekday::Sat, Weekday::Sun])));
    // "t" comes before "th", and "h" alone is no abbreviation; "mt" is Monday and Tuesday.
    assert_eq!(parse_focus_predicate("MT"), Ok(days(&[Weekday::Mon, Weekday::Tue])));
}

#[test]
fn longest_abbreviation_is_read() {
    assert_eq!(parse_focus_predicate("monday"), Ok(days(&[Weekday::Mon])));
    assert_eq!(parse_focus_predicate("tuesday"), Ok(days(&[Weekday::Tue])));
    assert_eq!(parse_focus_predicate("friday"), Ok(days(&[Weekday::Fri])));
    assert_eq!(parse_focus_predicate("th"), Ok(days(&[Weekday::Thu])));
    assert_eq!(parse_focus_predicate("tth"), Ok(days(&[Weekday::Tue, Weekday::Thu])));
    assert_eq!(parse_focus_predicate("mondayfri"), Ok(days(&[Weekday::Mon, Weekday::Fri])));
    assert_eq!(
        parse_focus_predicate("sat sun"),
        Err(ParseFocusError::InvalidWeekdaySequence(
            "Unexpected character sequence starting at index 3 in 'sat sun'".to_string()
        ))
    );
}

#[test]
fn spans_of_the_day() {
    assert_eq!(parse_focus_predicate("after 5:00pm"), Ok(span(time(17, 0, 0), time(23, 59, 59))));
    assert_eq!(parse_focus_predicate("before 9:30am"), Ok(span(time(0, 0, 0), time(9, 30, 0))));
    assert_eq!(parse_focus_predicate("9:00am-5:00pm"), Ok(span(time(9, 0, 0), time(17, 0, 0))));
    assert_eq!(parse_focus_predicate(" After 14:30 "), Ok(span(time(14, 30, 0), time(23, 59, 59))));
    assert_eq!(parse_focus_predicate("22:00-6:00"), Ok(span(time(22, 0, 0), time(6, 0, 0))));
}

#[test]
fn focus_errors() {
    assert_eq!(parse_focus_predicate("xyz"), Err(ParseFocusError::UnknownPredicateType("xyz".to_string())));
    assert_eq!(parse_focus_predicate("after noon"), Err(ParseFocusError::InvalidTime("noon".to_string())));
    assert_eq!(parse_focus_predicate("9:00am-later"), Err(ParseFocusError::InvalidTime("later".to_string())));
    assert_eq!(parse_focus_predicate("after 5pm"), Ok(span(time(17, 0, 0), time(23, 59, 59))));
}

#[test]
fn naive_times() {
    assert_eq!(parse_naive_time("14:30"), Ok(time(14, 30, 0)));
    assert_eq!(parse_naive_time(" 02:30pm "), Ok(time(14, 30, 0)));
    assert_eq!(parse_naive_time("14"), Ok(time(14, 0, 0)));
    assert_eq!(parse_naive_time("2pm"), Ok(time(14, 0, 0)));
    assert_eq!(parse_naive_time("2 pm"), Ok(time(14, 0, 0)));
    assert_eq!(parse_naive_time("9 AM"), Ok(time(9, 0, 0)));
    assert_eq!(parse_naive_time(" soon "), Err(ParseFocusError::InvalidTime("soon".to_string())));
}
