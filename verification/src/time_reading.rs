use vstd::prelude::*;
use crate::model::focus::Weekday;
use crate::time_format::{
    chars_of, is_digit_char, is_whitespace, kept_chars, read_time_of_day, steps_defined, time_of_day_outcome,
    white_space, ParseTimeError,
};

verus! {

/// What a time that a user typed reads as, before it is placed on the
/// calendar of a time zone.
#[derive(Debug, PartialEq, Eq, Clone, Copy, Structural)]
pub enum TimeSpec {
    /// A span from now, in seconds and nanoseconds.
    After { secs: u64, nanos: u32 },
    /// The next such day after today.
    NextWeekday(Weekday),
    Today,
    Tomorrow,
    /// Such a day in the week before the next one.
    LastWeekday(Weekday),
    /// A month (1 to 12) from now on, and maybe a day of it. Where that day
    /// does not exist in that month, the text reads as a time of day instead.
    MonthDay { month: u32, day: Option<u32> },
    /// A year, and maybe a month (1 to 12) of it and, when there is a month,
    /// maybe a day of that month. Where that day does not exist, the text
    /// reads as a time of day instead.
    YearMonthDay { year: i32, month_in_year: Option<u32>, day: Option<u32> },
    /// A time of day, on a 24-hour clock.
    TimeOfDay { hour: u8, minute: u8 },
}

/// What `humantime::parse_duration` reads from `s`: the seconds and
/// nanoseconds of the span, if `s` writes one.
pub uninterp spec fn parsed_duration(s: Seq<char>) -> Option<(u64, u32)>;

/// `humantime::parse_duration`, its span taken apart into seconds and
/// nanoseconds (named `parsed_duration`).
#[verifier::external_body]
fn parse_duration_text(s: &str) -> (res: Option<(u64, u32)>)
    ensures
        res == parsed_duration(s@),
{
    match humantime::parse_duration(s) {
        Ok(d) => Some((d.as_secs(), d.subsec_nanos())),
        Err(_) => None,
    }
}

/// The day of the week that chrono's `Weekday::from_str` reads from `s`.
pub uninterp spec fn weekday_named(s: Seq<char>) -> Option<Weekday>;

/// chrono's `Weekday::from_str` on the text of `cs` (named `weekday_named`).
#[verifier::external_body]
fn weekday_of(cs: &Vec<char>) -> (res: Option<Weekday>)
    ensures
        res == weekday_named(cs@),
{
    let s: String = cs.iter().collect();
    match s.parse::<chrono::Weekday>() {
        Ok(chrono::Weekday::Mon) => Some(Weekday::Mon),
        Ok(chrono::Weekday::Tue) => Some(Weekday::Tue),
        Ok(chrono::Weekday::Wed) => Some(Weekday::Wed),
        Ok(chrono::Weekday::Thu) => Some(Weekday::Thu),
        Ok(chrono::Weekday::Fri) => Some(Weekday::Fri),
        Ok(chrono::Weekday::Sat) => Some(Weekday::Sat),
        Ok(chrono::Weekday::Sun) => Some(Weekday::Sun),
        Err(_) => None,
    }
}

/// The number (1 to 12) of the month that chrono's `Month::from_str` reads
/// from `s`.
pub uninterp spec fn month_named(s: Seq<char>) -> Option<u32>;

/// chrono's `Month::from_str` on the text of `cs`, the month given by its
/// number (named `month_named`).
#[verifier::external_body]
fn month_of(cs: &Vec<char>) -> (res: Option<u32>)
    ensures
        res == month_named(cs@),
{
    let s: String = cs.iter().collect();
    match s.parse::<chrono::Month>() {
        Ok(m) => Some(m.number_from_month()),
        Err(_) => None,
    }
}

/// `ds` is one or more ASCII decimal digits.
pub open spec fn all_digits(ds: Seq<char>) -> bool {
    ds.len() > 0 && forall|i: int| 0 <= i < ds.len() ==> is_digit_char(#[trigger] ds[i])
}

/// The number that the ASCII digits `ds` write.
pub open spec fn digit_chars_value(ds: Seq<char>) -> nat
    decreases ds.len(),
{
    if ds.len() == 0 {
        0
    } else {
        digit_chars_value(ds.drop_last()) * 10 + (ds.last() as int - 48) as nat
    }
}

/// What std's `u32::from_str` reads from `s`: an optional `+`, then one or
/// more ASCII digits whose value fits in a `u32`; anything else is refused.
pub open spec fn parsed_u32(s: Seq<char>) -> Option<u32> {
    let ds = if s.len() > 0 && s[0] == '+' { s.drop_first() } else { s };
    if all_digits(ds) && digit_chars_value(ds) <= u32::MAX {
        Some(digit_chars_value(ds) as u32)
    } else {
        None
    }
}

/// std's `u32::from_str` on the text of `cs`: std documents that it takes an
/// optional `+` sign followed by decimal digits, and fails on anything else
/// or on a value that does not fit.
#[verifier::external_body]
fn u32_of(cs: &Vec<char>) -> (res: Option<u32>)
    ensures
        res == parsed_u32(cs@),
{
    let s: String = cs.iter().collect();
    s.parse::<u32>().ok()
}

/// What std's `i32::from_str` reads from `s`: an optional `+` or `-`, then
/// one or more ASCII digits whose signed value fits in an `i32`; anything
/// else is refused.
pub open spec fn parsed_i32(s: Seq<char>) -> Option<i32> {
    if s.len() > 0 && s[0] == '-' {
        let ds = s.drop_first();
        if all_digits(ds) && digit_chars_value(ds) <= 2147483648 {
            Some((0 - digit_chars_value(ds)) as i32)
        } else {
            None
        }
    } else {
        let ds = if s.len() > 0 && s[0] == '+' { s.drop_first() } else { s };
        if all_digits(ds) && digit_chars_value(ds) <= i32::MAX {
            Some(digit_chars_value(ds) as i32)
        } else {
            None
        }
    }
}

/// std's `i32::from_str` on the text of `cs`: std documents that it takes an
/// optional `+` or `-` sign followed by decimal digits, and fails on
/// anything else or on a value that does not fit.
#[verifier::external_body]
fn i32_of(cs: &Vec<char>) -> (res: Option<i32>)
    ensures
        res == parsed_i32(cs@),
{
    let s: String = cs.iter().collect();
    s.parse::<i32>().ok()
}

/// `cs` without the white space it starts with.
pub open spec fn skip_space(cs: Seq<char>) -> Seq<char>
    decreases cs.len(),
{
    if cs.len() > 0 && white_space(cs[0]) {
        skip_space(cs.drop_first())
    } else {
        cs
    }
}

/// How many characters that are not white space `cs` starts with.
pub open spec fn word_len(cs: Seq<char>) -> nat
    decreases cs.len(),
{
    if cs.len() > 0 && !white_space(cs[0]) {
        1 + word_len(cs.drop_first())
    } else {
        0
    }
}

/// The first word of `cs` (as `split_whitespace` splits it) and what
/// follows it, or none when `cs` is all white space.
pub open spec fn next_word(cs: Seq<char>) -> Option<(Seq<char>, Seq<char>)> {
    let t = skip_space(cs);
    if t.len() == 0 {
        None
    } else {
        Some((t.take(word_len(t) as int), t.skip(word_len(t) as int)))
    }
}

/// A year, then maybe a month and a day, read from the words `w` and `rest`.
pub open spec fn year_reading(w: Seq<char>, rest: Seq<char>) -> Option<TimeSpec> {
    match parsed_i32(w) {
        None => None,
        Some(year) => match next_word(rest) {
            None => Some(TimeSpec::YearMonthDay { year, month_in_year: None, day: None }),
            Some((w2, rest2)) => match month_named(w2) {
                None => None,
                Some(month) => match next_word(rest2) {
                    None => Some(TimeSpec::YearMonthDay { year, month_in_year: Some(month), day: None }),
                    Some((w3, _)) => match parsed_u32(w3) {
                        Some(day) => Some(TimeSpec::YearMonthDay { year, month_in_year: Some(month), day: Some(day) }),
                        None => None,
                    },
                },
            },
        },
    }
}

/// What the words of `s` read as: `last` and a day of the week; a month and
/// maybe a day; or a year, maybe a month and a day. A month whose day does
/// not read as a number leaves the year reading of the same first word.
pub open spec fn words_reading(s: Seq<char>) -> Option<TimeSpec> {
    match next_word(s) {
        None => None,
        Some((w1, rest1)) => if w1 == "last"@ {
            match next_word(rest1) {
                Some((w2, _)) => match weekday_named(w2) {
                    Some(d) => Some(TimeSpec::LastWeekday(d)),
                    None => None,
                },
                None => None,
            }
        } else {
            match month_named(w1) {
                Some(month) => match next_word(rest1) {
                    None => Some(TimeSpec::MonthDay { month, day: None }),
                    Some((w2, rest2)) => match parsed_u32(w2) {
                        Some(day) => Some(TimeSpec::MonthDay { month, day: Some(day) }),
                        None => year_reading(w1, rest2),
                    },
                },
                None => year_reading(w1, rest1),
            }
        },
    }
}

/// What `s` reads as, tried in this order: a span from now, a day of the
/// week, `today`, `tomorrow`, then its words; none when `s` is none of
/// these (it is then read as a time of day).
pub open spec fn date_reading(s: Seq<char>) -> Option<TimeSpec> {
    if parsed_duration(s) is Some {
        Some(TimeSpec::After { secs: parsed_duration(s)->Some_0.0, nanos: parsed_duration(s)->Some_0.1 })
    } else if weekday_named(s) is Some {
        Some(TimeSpec::NextWeekday(weekday_named(s)->Some_0))
    } else if s == "today"@ {
        Some(TimeSpec::Today)
    } else if s == "tomorrow"@ {
        Some(TimeSpec::Tomorrow)
    } else {
        words_reading(s)
    }
}

/// The characters of `cs` from `a` to `b`.
fn slice_chars(cs: &Vec<char>, a: usize, b: usize) -> (res: Vec<char>)
    requires
        a <= b <= cs@.len(),
    ensures
        res@ == cs@.subrange(a as int, b as int),
{
    let mut res: Vec<char> = Vec::new();
    let mut i: usize = a;
    while i < b
        invariant
            a <= i <= b <= cs@.len(),
            res@ == cs@.subrange(a as int, i as int),
        decreases b - i,
    {
        res.push(cs[i]);
        proof {
            assert(cs@.subrange(a as int, i + 1) =~= cs@.subrange(a as int, i as int).push(cs@[i as int]));
        }
        i += 1;
    }
    res
}

/// The first word of `cs` from index `i` on: where it starts and ends.
fn next_word_at(cs: &Vec<char>, i: usize) -> (res: Option<(usize, usize)>)
    requires
        i <= cs@.len(),
    ensures
        match next_word(cs@.skip(i as int)) {
            None => res is None,
            Some((w, r)) => res matches Some((a, b)) && i <= a < b <= cs@.len()
                && w == cs@.subrange(a as int, b as int) && r == cs@.skip(b as int),
        },
{
    let n = cs.len();
    let mut j: usize = i;
    while j < n && is_whitespace(cs[j])
        invariant
            i <= j <= n == cs@.len(),
            skip_space(cs@.skip(i as int)) == skip_space(cs@.skip(j as int)),
        decreases n - j,
    {
        proof {
            assert(cs@.skip(j as int).drop_first() =~= cs@.skip(j + 1));
        }
        j += 1;
    }
    proof {
        if j < n {
            assert(cs@.skip(j as int)[0] == cs@[j as int]);
        }
        assert(skip_space(cs@.skip(j as int)) == cs@.skip(j as int));
    }
    if j == n {
        proof {
            assert(cs@.skip(j as int).len() == 0);
        }
        return None;
    }
    let mut k: usize = j;
    while k < n && !is_whitespace(cs[k])
        invariant
            j <= k <= n == cs@.len(),
            word_len(cs@.skip(j as int)) == (k - j) + word_len(cs@.skip(k as int)),
        decreases n - k,
    {
        proof {
            assert(cs@.skip(k as int).drop_first() =~= cs@.skip(k + 1));
            assert(cs@.skip(k as int)[0] == cs@[k as int]);
        }
        k += 1;
    }
    proof {
        if k < n {
            assert(cs@.skip(k as int)[0] == cs@[k as int]);
        }
        assert(word_len(cs@.skip(k as int)) == 0);
        assert(cs@.skip(j as int)[0] == cs@[j as int]);
        assert(k > j);
        let t = cs@.skip(j as int);
        assert(t.take((k - j) as int) =~= cs@.subrange(j as int, k as int));
        assert(t.skip((k - j) as int) =~= cs@.skip(k as int));
    }
    Some((j, k))
}

/// A year, then maybe a month and a day, read from the word `w` and the
/// characters of `cs` from `from` on.
fn read_year(w: &Vec<char>, cs: &Vec<char>, from: usize) -> (res: Option<TimeSpec>)
    requires
        from <= cs@.len(),
    ensures
        res == year_reading(w@, cs@.skip(from as int)),
{
    let year = match i32_of(w) {
        Some(y) => y,
        None => return None,
    };
    let (a2, b2) = match next_word_at(cs, from) {
        Some(p) => p,
        None => return Some(TimeSpec::YearMonthDay { year, month_in_year: None, day: None }),
    };
    let w2 = slice_chars(cs, a2, b2);
    let month = match month_of(&w2) {
        Some(m) => m,
        None => return None,
    };
    let (a3, b3) = match next_word_at(cs, b2) {
        Some(p) => p,
        None => return Some(TimeSpec::YearMonthDay { year, month_in_year: Some(month), day: None }),
    };
    let w3 = slice_chars(cs, a3, b3);
    match u32_of(&w3) {
        Some(day) => Some(TimeSpec::YearMonthDay { year, month_in_year: Some(month), day: Some(day) }),
        None => None,
    }
}

/// What the words of `cs` read as (see `words_reading`).
fn read_words(cs: &Vec<char>) -> (res: Option<TimeSpec>)
    ensures
        res == words_reading(cs@),
{
    proof {
        assert(cs@.skip(0) =~= cs@);
    }
    let (a1, b1) = match next_word_at(cs, 0) {
        Some(p) => p,
        None => return None,
    };
    let w1 = slice_chars(cs, a1, b1);
    let last = chars_of("last");
    if same_text(&w1, &last) {
        let (a2, b2) = match next_word_at(cs, b1) {
            Some(p) => p,
            None => return None,
        };
        let w2 = slice_chars(cs, a2, b2);
        return match weekday_of(&w2) {
            Some(d) => Some(TimeSpec::LastWeekday(d)),
            None => None,
        };
    }
    match month_of(&w1) {
        Some(month) => {
            match next_word_at(cs, b1) {
                None => Some(TimeSpec::MonthDay { month, day: None }),
                Some((a2, b2)) => {
                    let w2 = slice_chars(cs, a2, b2);
                    match u32_of(&w2) {
                        Some(day) => Some(TimeSpec::MonthDay { month, day: Some(day) }),
                        None => read_year(&w1, cs, b2),
                    }
                },
            }
        },
        None => read_year(&w1, cs, b1),
    }
}

/// Whether `a` and `b` hold the same characters.
fn same_text(a: &Vec<char>, b: &Vec<char>) -> (res: bool)
    ensures
        res == (a@ == b@),
{
    if a.len() != b.len() {
        return false;
    }
    let mut i: usize = 0;
    while i < a.len()
        invariant
            a@.len() == b@.len(),
            0 <= i <= a@.len(),
            forall|j: int| 0 <= j < i ==> a@[j] == b@[j],
        decreases a@.len() - i,
    {
        if a[i] != b[i] {
            return false;
        }
        i += 1;
    }
    assert(a@ =~= b@);
    true
}

/// Reads a time that a user typed (see `date_reading`), else a time of day
/// (see `read_time_of_day`, whose `None` it passes on).
pub fn read_time(s: &str) -> (res: Option<Result<TimeSpec, ParseTimeError>>)
    ensures
        match date_reading(s@) {
            Some(t) => res == Some(Ok::<TimeSpec, ParseTimeError>(t)),
            None => {
                &&& res is None <==> !steps_defined(s, kept_chars(s@))
                &&& res matches Some(r) ==> match r {
                    Ok(TimeSpec::TimeOfDay { hour, minute }) => time_of_day_outcome(s, Ok((hour, minute))),
                    Ok(_) => false,
                    Err(e) => time_of_day_outcome(s, Err(e)),
                }
            },
        },
{
    if let Some((secs, nanos)) = parse_duration_text(s) {
        return Some(Ok(TimeSpec::After { secs, nanos }));
    }
    let cs = chars_of(s);
    if let Some(d) = weekday_of(&cs) {
        return Some(Ok(TimeSpec::NextWeekday(d)));
    }
    let today = chars_of("today");
    if same_text(&cs, &today) {
        return Some(Ok(TimeSpec::Today));
    }
    let tomorrow = chars_of("tomorrow");
    if same_text(&cs, &tomorrow) {
        return Some(Ok(TimeSpec::Tomorrow));
    }
    if let Some(t) = read_words(&cs) {
        return Some(Ok(t));
    }
    match read_time_of_day(s) {
        Some(Ok((hour, minute))) => Some(Ok(TimeSpec::TimeOfDay { hour, minute })),
        Some(Err(e)) => Some(Err(e)),
        None => None,
    }
}

} // verus!
