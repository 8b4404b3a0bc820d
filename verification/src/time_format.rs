use vstd::prelude::*;
use chrono::Timelike;
use vstd::utf8::is_char_boundary;
use vstd::string::StringSliceAdditionalSpecFns;
use vstd::string::StrSliceExecFns;
use crate::model::focus::{FocusPredicate, TimeOfDay, Weekday, WeekdaySet};
use crate::printing::{concat, decimal, decimal_text};

verus! {

#[verifier::external_type_specification]
#[verifier::external_body]
pub struct ExParseIntError(std::num::ParseIntError);

/// Before or after noon.
#[derive(Debug, PartialEq, Eq, Clone, Copy, Structural)]
pub enum Midi {
    Am,
    Pm,
}

/// How far a time of day such as `5:30pm` has been read. Ranges are byte
/// offsets into the text being read.
#[derive(Debug, PartialEq, Eq, Clone, Copy)]
pub enum ParseTimeOfDayState {
    ParsingNumber { number_so_far: (usize, usize) },
    ParsingTimeOClock { hour: u8, minute_so_far: (usize, usize) },
    ExpectingAm { hour: u8, minute: u8 },
    ExpectingPm { hour: u8, minute: u8 },
    FullInfo { hour: u8, minute: u8, midi: Midi },
}

/// Whether a time read from text is taken at the start or the end of the
/// period it names.
#[derive(Debug, PartialEq, Eq, Clone, Copy, Structural)]
pub enum Snap {
    ToStart,
    ToEnd,
}

/// Why a time of day could not be read.
#[derive(Debug, PartialEq, Eq)]
pub enum ParseTimeError {
    InvalidHour(std::num::ParseIntError),
    InvalidMinute(std::num::ParseIntError),
    UnexpectedChar(char),
    InvalidTimeOfDay(u8, Midi),
    IncompleteTimeOfDay(ParseTimeOfDayState),
}

/// `b` is an ASCII decimal digit.
pub open spec fn is_digit_byte(b: u8) -> bool {
    48 <= b <= 57
}

/// The number that the ASCII digits `ds` write.
pub open spec fn digits_value(ds: Seq<u8>) -> nat
    decreases ds.len(),
{
    if ds.len() == 0 {
        0
    } else {
        digits_value(ds.drop_last()) * 10 + (ds.last() - 48) as nat
    }
}

/// What `u8::from_str` gives for the text with bytes `bs`: an optional
/// `+`, then one or more ASCII digits whose value fits in a `u8`.
pub open spec fn u8_parses(bs: Seq<u8>) -> Option<u8> {
    let ds = if bs.len() > 0 && bs[0] == 43 { bs.drop_first() } else { bs };
    if ds.len() > 0 && (forall|i: int| 0 <= i < ds.len() ==> is_digit_byte(#[trigger] ds[i])) && digits_value(ds) <= 255 {
        Some(digits_value(ds) as u8)
    } else {
        None
    }
}

/// `u8::from_str` (`str::parse::<u8>`): std documents that it accepts an
/// optional `+` followed by decimal digits whose value fits in a `u8`, and
/// fails otherwise.
#[verifier::external_body]
fn parse_u8(s: &str) -> (res: Result<u8, std::num::ParseIntError>)
    ensures
        match res {
            Ok(v) => u8_parses(s.spec_bytes()) == Some(v),
            Err(_) => u8_parses(s.spec_bytes()) is None,
        },
{
    s.parse::<u8>()
}

/// `start..end` is a range of whole characters of `s`: `start` is a
/// character boundary of `s`, and `end` one of what follows `start`.
pub open spec fn slice_ok(s: &str, start: usize, end: usize) -> bool {
    &&& start <= end <= s.spec_bytes().len()
    &&& is_char_boundary(s.spec_bytes(), start as int)
    &&& is_char_boundary(s.spec_bytes().subrange(start as int, s.spec_bytes().len() as int), end - start)
}

/// Reads the number at bytes `start..end` of `s`.
fn parse_u8_range(s: &str, start: usize, end: usize) -> (res: Result<u8, std::num::ParseIntError>)
    requires
        slice_ok(s, start, end),
    ensures
        match res {
            Ok(v) => u8_parses(s.spec_bytes().subrange(start as int, end as int)) == Some(v),
            Err(_) => u8_parses(s.spec_bytes().subrange(start as int, end as int)) is None,
        },
{
    let (_, rest) = s.split_at(start);
    proof {
        assert(rest.spec_bytes() =~= s.spec_bytes().subrange(start as int, s.spec_bytes().len() as int));
    }
    let (mid, _) = rest.split_at(end - start);
    proof {
        assert(mid.spec_bytes() =~= s.spec_bytes().subrange(start as int, end as int));
    }
    parse_u8(mid)
}

/// `c` is an ASCII decimal digit.
pub open spec fn is_digit_char(c: char) -> bool {
    '0' <= c <= '9'
}

/// A step can be taken from `state` on `c` without a slice of `s` that is
/// not a range of whole characters, and without overflowing an offset.
pub open spec fn step_defined(s: &str, state: ParseTimeOfDayState, c: char) -> bool {
    match state {
        ParseTimeOfDayState::ParsingNumber { number_so_far: (a, b) } => {
            &&& (is_digit_char(c) || c == ':') ==> b < usize::MAX
            &&& (c == ':' || c == 'a' || c == 'p') ==> slice_ok(s, a, b)
        },
        ParseTimeOfDayState::ParsingTimeOClock { hour, minute_so_far: (a, b) } => {
            &&& is_digit_char(c) ==> b < usize::MAX
            &&& (c == 'a' || c == 'p') ==> slice_ok(s, a, b)
        },
        _ => true,
    }
}

/// How a step of reading a time of day can fail: the hour or the minute
/// is not a `u8`, or a character is unexpected.
#[derive(Debug, PartialEq, Eq, Clone, Copy, Structural)]
pub enum StepFailure {
    Hour,
    Minute,
    Char(char),
}

/// The state after reading `n` as the number that ends at `c` from `state`
/// (the hour, or the minute after `:`).
pub open spec fn number_read(state: ParseTimeOfDayState, c: char, n: u8) -> ParseTimeOfDayState {
    match state {
        ParseTimeOfDayState::ParsingNumber { number_so_far: (a, b) } => {
            if c == ':' {
                ParseTimeOfDayState::ParsingTimeOClock { hour: n, minute_so_far: ((b + 1) as usize, (b + 1) as usize) }
            } else if c == 'a' {
                ParseTimeOfDayState::ExpectingAm { hour: n, minute: 0 }
            } else {
                ParseTimeOfDayState::ExpectingPm { hour: n, minute: 0 }
            }
        },
        ParseTimeOfDayState::ParsingTimeOClock { hour, minute_so_far: _ } => {
            if c == 'a' {
                ParseTimeOfDayState::ExpectingAm { hour, minute: n }
            } else {
                ParseTimeOfDayState::ExpectingPm { hour, minute: n }
            }
        },
        _ => state,
    }
}

/// What one step of reading a time of day does on `c`, for the text with
/// bytes `bs`: digits extend the number being read; `:` ends the hour; `a`
/// or `p` ends the number (the hour, or the minute after `:`) and expects
/// `m`; `m` completes the time. A number that is not a `u8` fails as the
/// hour or the minute; any other character is unexpected.
pub open spec fn step_result(bs: Seq<u8>, state: ParseTimeOfDayState, c: char) -> Result<ParseTimeOfDayState, StepFailure> {
    match state {
        ParseTimeOfDayState::ParsingNumber { number_so_far: (a, b) } => {
            if is_digit_char(c) {
                Ok(ParseTimeOfDayState::ParsingNumber { number_so_far: (a, (b + 1) as usize) })
            } else if c == ':' || c == 'a' || c == 'p' {
                match u8_parses(bs.subrange(a as int, b as int)) {
                    Some(h) => Ok(number_read(state, c, h)),
                    None => Err(StepFailure::Hour),
                }
            } else {
                Err(StepFailure::Char(c))
            }
        },
        ParseTimeOfDayState::ParsingTimeOClock { hour, minute_so_far: (a, b) } => {
            if is_digit_char(c) {
                Ok(ParseTimeOfDayState::ParsingTimeOClock { hour, minute_so_far: (a, (b + 1) as usize) })
            } else if c == 'a' || c == 'p' {
                match u8_parses(bs.subrange(a as int, b as int)) {
                    Some(m) => Ok(number_read(state, c, m)),
                    None => Err(StepFailure::Minute),
                }
            } else {
                Err(StepFailure::Char(c))
            }
        },
        ParseTimeOfDayState::ExpectingAm { hour, minute } => {
            if c == 'm' {
                Ok(ParseTimeOfDayState::FullInfo { hour, minute, midi: Midi::Am })
            } else {
                Err(StepFailure::Char(c))
            }
        },
        ParseTimeOfDayState::ExpectingPm { hour, minute } => {
            if c == 'm' {
                Ok(ParseTimeOfDayState::FullInfo { hour, minute, midi: Midi::Pm })
            } else {
                Err(StepFailure::Char(c))
            }
        },
        ParseTimeOfDayState::FullInfo { .. } => Err(StepFailure::Char(c)),
    }
}

/// The error `e` is the failure `f`.
pub open spec fn fails_as(e: ParseTimeError, f: StepFailure) -> bool {
    match f {
        StepFailure::Hour => e matches ParseTimeError::InvalidHour(_),
        StepFailure::Minute => e matches ParseTimeError::InvalidMinute(_),
        StepFailure::Char(c) => e == ParseTimeError::UnexpectedChar(c),
    }
}

/// `res` is what a step gives when `step_result` is `expected`.
pub open spec fn step_outcome(bs: Seq<u8>, state: ParseTimeOfDayState, c: char, res: Result<ParseTimeOfDayState, ParseTimeError>) -> bool {
    match step_result(bs, state, c) {
        Ok(next) => res == Ok::<ParseTimeOfDayState, ParseTimeError>(next),
        Err(f) => res matches Err(e) && fails_as(e, f),
    }
}

/// One step of reading a time of day from `s` (see `step_outcome`).
pub fn parse_time_of_day_step(s: &str, state: ParseTimeOfDayState, c: char) -> (res: Result<ParseTimeOfDayState, ParseTimeError>)
    requires
        step_defined(s, state, c),
    ensures
        step_outcome(s.spec_bytes(), state, c, res),
{
    let is_digit = '0' <= c && c <= '9';
    match state {
        ParseTimeOfDayState::ParsingNumber { number_so_far } => {
            let (start, end) = number_so_far;
            if is_digit {
                Ok(ParseTimeOfDayState::ParsingNumber { number_so_far: (start, end + 1) })
            } else if c == ':' || c == 'a' || c == 'p' {
                match parse_u8_range(s, start, end) {
                    Ok(hour) => {
                        if c == ':' {
                            Ok(ParseTimeOfDayState::ParsingTimeOClock { hour, minute_so_far: (end + 1, end + 1) })
                        } else if c == 'a' {
                            Ok(ParseTimeOfDayState::ExpectingAm { hour, minute: 0 })
                        } else {
                            Ok(ParseTimeOfDayState::ExpectingPm { hour, minute: 0 })
                        }
                    },
                    Err(e) => Err(ParseTimeError::InvalidHour(e)),
                }
            } else {
                Err(ParseTimeError::UnexpectedChar(c))
            }
        },
        ParseTimeOfDayState::ParsingTimeOClock { hour, minute_so_far } => {
            let (start, end) = minute_so_far;
            if is_digit {
                Ok(ParseTimeOfDayState::ParsingTimeOClock { hour, minute_so_far: (start, end + 1) })
            } else if c == 'a' || c == 'p' {
                match parse_u8_range(s, start, end) {
                    Ok(minute) => {
                        if c == 'a' {
                            Ok(ParseTimeOfDayState::ExpectingAm { hour, minute })
                        } else {
                            Ok(ParseTimeOfDayState::ExpectingPm { hour, minute })
                        }
                    },
                    Err(e) => Err(ParseTimeError::InvalidMinute(e)),
                }
            } else {
                Err(ParseTimeError::UnexpectedChar(c))
            }
        },
        ParseTimeOfDayState::ExpectingAm { hour, minute } => {
            if c == 'm' {
                Ok(ParseTimeOfDayState::FullInfo { hour, minute, midi: Midi::Am })
            } else {
                Err(ParseTimeError::UnexpectedChar(c))
            }
        },
        ParseTimeOfDayState::ExpectingPm { hour, minute } => {
            if c == 'm' {
                Ok(ParseTimeOfDayState::FullInfo { hour, minute, midi: Midi::Pm })
            } else {
                Err(ParseTimeError::UnexpectedChar(c))
            }
        },
        ParseTimeOfDayState::FullInfo { .. } => Err(ParseTimeError::UnexpectedChar(c)),
    }
}

/// The hour on a 24-hour clock that `hour` with `midi` names: 12am is 0,
/// 12pm is 12, and hours from 0 to 11 count from midnight or noon. Other
/// hours are invalid.
pub fn hour_of_day(hour: u8, midi: Midi) -> (res: Result<u8, ParseTimeError>)
    ensures
        res == if hour <= 11 {
            Ok::<u8, ParseTimeError>(if midi == Midi::Am { hour } else { (hour + 12) as u8 })
        } else if hour == 12 {
            Ok::<u8, ParseTimeError>(if midi == Midi::Am { 0u8 } else { 12u8 })
        } else {
            Err::<u8, ParseTimeError>(ParseTimeError::InvalidTimeOfDay(hour, midi))
        },
{
    match midi {
        Midi::Am => {
            if hour <= 11 {
                Ok(hour)
            } else if hour == 12 {
                Ok(0)
            } else {
                Err(ParseTimeError::InvalidTimeOfDay(hour, midi))
            }
        },
        Midi::Pm => {
            if hour <= 11 {
                Ok(hour + 12)
            } else if hour == 12 {
                Ok(12)
            } else {
                Err(ParseTimeError::InvalidTimeOfDay(hour, midi))
            }
        },
    }
}

/// Whether `c` has Unicode's White_Space property (the code points that
/// std's `char::is_whitespace` documents).
pub open spec fn white_space(c: char) -> bool {
    let u = c as u32;
    ||| 0x09 <= u <= 0x0D
    ||| u == 0x20
    ||| u == 0x85
    ||| u == 0xA0
    ||| u == 0x1680
    ||| 0x2000 <= u <= 0x200A
    ||| u == 0x2028
    ||| u == 0x2029
    ||| u == 0x202F
    ||| u == 0x205F
    ||| u == 0x3000
}

/// Whether `c` has Unicode's White_Space property.
pub(crate) fn is_whitespace(c: char) -> (res: bool)
    ensures
        res == white_space(c),
{
    let u = c as u32;
    (0x09 <= u && u <= 0x0D) || u == 0x20 || u == 0x85 || u == 0xA0 || u == 0x1680
        || (0x2000 <= u && u <= 0x200A) || u == 0x2028 || u == 0x2029 || u == 0x202F || u == 0x205F
        || u == 0x3000
}

/// The characters of `cs` that are not whitespace, in order.
pub open spec fn kept_chars(cs: Seq<char>) -> Seq<char>
    decreases cs.len(),
{
    if cs.len() == 0 {
        Seq::empty()
    } else if white_space(cs.last()) {
        kept_chars(cs.drop_last())
    } else {
        kept_chars(cs.drop_last()).push(cs.last())
    }
}

/// The state that reading a time of day starts in.
pub open spec fn start_state() -> ParseTimeOfDayState {
    ParseTimeOfDayState::ParsingNumber { number_so_far: (0, 0) }
}

/// Where reading the characters `cs` of a time of day from the text with
/// bytes `bs` ends, or how it first fails.
pub open spec fn steps_result(bs: Seq<u8>, cs: Seq<char>) -> Result<ParseTimeOfDayState, StepFailure>
    decreases cs.len(),
{
    if cs.len() == 0 {
        Ok(start_state())
    } else {
        match steps_result(bs, cs.drop_last()) {
            Ok(state) => step_result(bs, state, cs.last()),
            Err(f) => Err(f),
        }
    }
}

/// Reading the characters `cs` of a time of day from `s` takes no step that
/// is not defined (see `step_defined`) before it ends or fails.
pub open spec fn steps_defined(s: &str, cs: Seq<char>) -> bool
    decreases cs.len(),
{
    if cs.len() == 0 {
        true
    } else {
        &&& steps_defined(s, cs.drop_last())
        &&& steps_result(s.spec_bytes(), cs.drop_last()) matches Ok(state) ==> step_defined(s, state, cs.last())
    }
}

/// The hour on a 24-hour clock that `hour` with `midi` names, if it names one.
pub open spec fn clock_hour(hour: u8, midi: Midi) -> Option<u8> {
    if hour <= 11 {
        Some(if midi == Midi::Am { hour } else { (hour + 12) as u8 })
    } else if hour == 12 {
        Some(if midi == Midi::Am { 0u8 } else { 12u8 })
    } else {
        None
    }
}

/// `res` is what reading a time of day from `s` gives: the hour on a 24-hour
/// clock and the minute when the characters that are not whitespace read as
/// a complete, valid time; else the error of the first failing step, that
/// the hour is out of range, or that the time is incomplete.
pub open spec fn time_of_day_outcome(s: &str, res: Result<(u8, u8), ParseTimeError>) -> bool {
    match steps_result(s.spec_bytes(), kept_chars(s@)) {
        Ok(ParseTimeOfDayState::FullInfo { hour, minute, midi }) => match clock_hour(hour, midi) {
            Some(h) => res == Ok::<(u8, u8), ParseTimeError>((h, minute)),
            None => res == Err::<(u8, u8), ParseTimeError>(ParseTimeError::InvalidTimeOfDay(hour, midi)),
        },
        Ok(state) => res == Err::<(u8, u8), ParseTimeError>(ParseTimeError::IncompleteTimeOfDay(state)),
        Err(f) => res matches Err(e) && fails_as(e, f),
    }
}

/// Once reading fails, what follows changes neither where it ends nor
/// whether its steps are defined.
proof fn lemma_steps_after_failure(s: &str, p: Seq<char>, q: Seq<char>)
    requires
        steps_result(s.spec_bytes(), p) is Err,
    ensures
        steps_result(s.spec_bytes(), p + q) == steps_result(s.spec_bytes(), p),
        steps_defined(s, p + q) == steps_defined(s, p),
    decreases q.len(),
{
    if q.len() > 0 {
        let q2 = q.drop_last();
        lemma_steps_after_failure(s, p, q2);
        assert((p + q).drop_last() =~= p + q2);
    } else {
        assert(p + q =~= p);
    }
}

/// The kept characters of a longer text extend those of a prefix: by `q`.
proof fn lemma_kept_chars_extend(cs: Seq<char>, i: int) -> (q: Seq<char>)
    requires
        0 <= i <= cs.len(),
    ensures
        kept_chars(cs) == kept_chars(cs.take(i)) + q,
    decreases cs.len() - i,
{
    if i == cs.len() {
        assert(cs.take(i) =~= cs);
        assert(kept_chars(cs.take(i)) + Seq::<char>::empty() =~= kept_chars(cs.take(i)));
        Seq::<char>::empty()
    } else {
        let q = lemma_kept_chars_extend(cs, i + 1);
        assert(cs.take(i + 1).drop_last() =~= cs.take(i));
        if white_space(cs[i]) {
            q
        } else {
            assert(kept_chars(cs.take(i)).push(cs[i]) + q =~= kept_chars(cs.take(i)) + seq![cs[i]].add(q));
            seq![cs[i]].add(q)
        }
    }
}

/// Reads a time of day such as `5pm` or `10:30am` from `s`, ignoring
/// whitespace (see `time_of_day_outcome`). `None` where a step is not
/// defined: where reading would take a slice of `s` that is not a range of
/// whole characters, or overflow an offset.
pub fn read_time_of_day(s: &str) -> (res: Option<Result<(u8, u8), ParseTimeError>>)
    ensures
        res is None <==> !steps_defined(s, kept_chars(s@)),
        res matches Some(r) ==> time_of_day_outcome(s, r),
{
    let n = s.unicode_len();
    let ghost bs = s.spec_bytes();
    let mut state = ParseTimeOfDayState::ParsingNumber { number_so_far: (0, 0) };
    let mut i: usize = 0;
    while i < n
        invariant
            n == s@.len(),
            bs == s.spec_bytes(),
            0 <= i <= n,
            steps_defined(s, kept_chars(s@.take(i as int))),
            steps_result(bs, kept_chars(s@.take(i as int))) == Ok::<ParseTimeOfDayState, StepFailure>(state),
        decreases n - i,
    {
        let c = s.get_char(i);
        let ghost pre = kept_chars(s@.take(i as int));
        proof {
            assert(s@.take(i + 1).drop_last() =~= s@.take(i as int));
            assert(s@.take(i + 1).last() == c);
        }
        if !is_whitespace(c) {
            proof {
                assert(kept_chars(s@.take(i + 1)) == pre.push(c));
                assert(pre.push(c).drop_last() =~= pre);
            }
            if !step_is_defined(s, state, c) {
                proof {
                    let q = lemma_kept_chars_extend(s@, i + 1);
                    assert(!steps_defined(s, pre.push(c)));
                    lemma_steps_defined_prefix(s, pre.push(c), q);
                }
                return None;
            }
            match parse_time_of_day_step(s, state, c) {
                Ok(next) => {
                    state = next;
                },
                Err(e) => {
                    proof {
                        let q = lemma_kept_chars_extend(s@, i + 1);
                        assert(steps_result(bs, pre.push(c)) is Err);
                        lemma_steps_after_failure(s, pre.push(c), q);
                    }
                    return Some(Err(e));
                },
            }
        } else {
            proof {
                assert(kept_chars(s@.take(i + 1)) == pre);
            }
        }
        i += 1;
    }
    proof {
        assert(s@.take(n as int) =~= s@);
    }
    match state {
        ParseTimeOfDayState::FullInfo { hour, minute, midi } => match hour_of_day(hour, midi) {
            Ok(h) => Some(Ok((h, minute))),
            Err(e) => Some(Err(e)),
        },
        other => Some(Err(ParseTimeError::IncompleteTimeOfDay(other))),
    }
}

/// Whether a step from `state` on `c` is defined (see `step_defined`).
fn step_is_defined(s: &str, state: ParseTimeOfDayState, c: char) -> (res: bool)
    ensures
        res == step_defined(s, state, c),
{
    let digit = '0' <= c && c <= '9';
    match state {
        ParseTimeOfDayState::ParsingNumber { number_so_far: (a, b) } => {
            ((!digit && c != ':') || b < usize::MAX) && ((c != ':' && c != 'a' && c != 'p') || slice_is_ok(s, a, b))
        },
        ParseTimeOfDayState::ParsingTimeOClock { hour: _, minute_so_far: (a, b) } => {
            (!digit || b < usize::MAX) && ((c != 'a' && c != 'p') || slice_is_ok(s, a, b))
        },
        _ => true,
    }
}

/// Whether `start..end` is a range of whole characters of `s` (see `slice_ok`).
fn slice_is_ok(s: &str, start: usize, end: usize) -> (res: bool)
    ensures
        res == slice_ok(s, start, end),
{
    let len = s.as_bytes().len();
    if start <= end && end <= len && s.is_char_boundary(start) {
        let (_, rest) = s.split_at(start);
        proof {
            assert(rest.spec_bytes() =~= s.spec_bytes().subrange(start as int, s.spec_bytes().len() as int));
        }
        rest.is_char_boundary(end - start)
    } else {
        false
    }
}

/// A text whose reading takes an undefined step keeps doing so whatever follows.
proof fn lemma_steps_defined_prefix(s: &str, p: Seq<char>, q: Seq<char>)
    requires
        !steps_defined(s, p),
    ensures
        !steps_defined(s, p + q),
    decreases q.len(),
{
    if q.len() > 0 {
        lemma_steps_defined_prefix(s, p, q.drop_last());
        assert((p + q).drop_last() =~= p + q.drop_last());
    } else {
        assert(p + q =~= p);
    }
}

/// Declares chrono's error for text that is not a date or time.
#[verifier::external_type_specification]
#[verifier::external_body]
pub struct ExChronoParseError(chrono::format::ParseError);

/// Declares chrono's error for text that is not a day of the week.
#[verifier::external_type_specification]
#[verifier::external_body]
pub struct ExParseWeekdayError(chrono::ParseWeekdayError);

/// Why a focus could not be read.
#[derive(Debug, PartialEq, Eq)]
pub enum ParseFocusError {
    UnknownPredicateType(String),
    InvalidWeekdaySequence(String),
    InvalidTimeRangeFormat(String),
    ChronoParseError(chrono::format::ParseError),
    InvalidTime(String),
    MissingPart(String),
    ChronoParseWeekdayError(chrono::ParseWeekdayError),
}

/// What `str::to_lowercase` gives for `s`.
pub uninterp spec fn lowercase(s: Seq<char>) -> Seq<char>;

/// `str::to_lowercase`: `s` with each character mapped to its lowercase
/// (named `lowercase`).
#[verifier::external_body]
fn to_lowercase(s: &str) -> (res: String)
    ensures
        res@ == lowercase(s@),
{
    s.to_lowercase()
}

/// `s` without its leading whitespace.
pub open spec fn trim_front(s: Seq<char>) -> Seq<char>
    decreases s.len(),
{
    if s.len() > 0 && white_space(s[0]) {
        trim_front(s.drop_first())
    } else {
        s
    }
}

/// `s` without its trailing whitespace.
pub open spec fn trim_back(s: Seq<char>) -> Seq<char>
    decreases s.len(),
{
    if s.len() > 0 && white_space(s.last()) {
        trim_back(s.drop_last())
    } else {
        s
    }
}

/// `s` without leading and trailing whitespace.
pub open spec fn trimmed(s: Seq<char>) -> Seq<char> {
    trim_back(trim_front(s))
}

/// `str::trim`: std documents that it removes the leading and trailing
/// characters with the White_Space property.
#[verifier::external_body]
fn trim(s: &str) -> (res: &str)
    ensures
        res@ == trimmed(s@),
{
    s.trim()
}

/// What chrono's `NaiveTime::parse_from_str(s, fmt)` gives: the time of day
/// that `s` writes in the format `fmt`, if it writes one.
pub uninterp spec fn parsed_time(s: Seq<char>, fmt: Seq<char>) -> Option<TimeOfDay>;

/// `chrono::NaiveTime::parse_from_str`, its time taken apart into hour,
/// minute, second and nanosecond (named `parsed_time`).
#[verifier::external_body]
fn parse_naive(s: &str, fmt: &str) -> (res: Option<TimeOfDay>)
    ensures
        res == parsed_time(s@, fmt@),
{
    match chrono::NaiveTime::parse_from_str(s, fmt) {
        Ok(t) => Some(TimeOfDay { hour: t.hour(), minute: t.minute(), second: t.second(), nano: t.nanosecond() }),
        Err(_) => None,
    }
}

/// The message for a weekday sequence that cannot be read past index `i` of `s`.
pub open spec fn sequence_message(i: int, s: Seq<char>) -> Seq<char> {
    "Unexpected character sequence starting at index "@ + decimal(i) + " in '"@ + s + "'"@
}

/// The message for a weekday sequence that cannot be read past index `i` of
/// `s`.
fn weekday_sequence_message(i: usize, s: &str) -> (res: String)
    ensures
        res@ == sequence_message(i as int, s@),
{
    let index = decimal_text(i as i128);
    let a = concat("Unexpected character sequence starting at index ", index.as_str());
    let b = concat(a.as_str(), " in '");
    let c = concat(b.as_str(), s);
    concat(c.as_str(), "'")
}

/// The characters of `s`.
pub(crate) fn chars_of(s: &str) -> (res: Vec<char>)
    ensures
        res@ == s@,
{
    let n = s.unicode_len();
    let mut res: Vec<char> = Vec::new();
    let mut i: usize = 0;
    while i < n
        invariant
            n == s@.len(),
            0 <= i <= n,
            res@ == s@.take(i as int),
        decreases n - i,
    {
        res.push(s.get_char(i));
        proof {
            assert(s@.take(i + 1) =~= s@.take(i as int).push(s@[i as int]));
        }
        i += 1;
    }
    assert(s@.take(n as int) =~= s@);
    res
}

/// `pat` is written in `cs` at index `i`.
pub open spec fn occurs_at(cs: Seq<char>, i: int, pat: Seq<char>) -> bool {
    0 <= i && i + pat.len() <= cs.len() && cs.subrange(i, i + pat.len()) == pat
}

/// Whether `pat` is written in `cs` at index `i`.
fn occurs_at_exec(cs: &Vec<char>, i: usize, pat: &Vec<char>) -> (res: bool)
    ensures
        res == occurs_at(cs@, i as int, pat@),
{
    if i > cs.len() || pat.len() > cs.len() - i {
        return false;
    }
    let mut k: usize = 0;
    while k < pat.len()
        invariant
            i + pat@.len() <= cs@.len(),
            cs@.len() == cs.len(),
            0 <= k <= pat@.len(),
            forall|j: int| 0 <= j < k ==> cs@[i + j] == pat@[j],
        decreases pat@.len() - k,
    {
        if cs[i + k] != pat[k] {
            proof {
                assert(cs@.subrange(i as int, i + pat@.len())[k as int] != pat@[k as int]);
            }
            return false;
        }
        k += 1;
    }
    assert(cs@.subrange(i as int, i + pat@.len()) =~= pat@);
    true
}

/// The first index at or after `from` where `pat` is written in `cs`.
pub open spec fn first_occurrence(cs: Seq<char>, pat: Seq<char>, from: int) -> Option<int>
    decreases cs.len() + 1 - from,
{
    if from < 0 || from + pat.len() > cs.len() {
        None
    } else if occurs_at(cs, from, pat) {
        Some(from)
    } else {
        first_occurrence(cs, pat, from + 1)
    }
}

/// The first index where `pat` is written in `cs` (as `str::find` finds it).
fn find(cs: &Vec<char>, pat: &Vec<char>) -> (res: Option<usize>)
    ensures
        match res {
            Some(i) => first_occurrence(cs@, pat@, 0) == Some(i as int),
            None => first_occurrence(cs@, pat@, 0) is None,
        },
{
    if pat.len() > cs.len() {
        return None;
    }
    let last = cs.len() - pat.len();
    let mut i: usize = 0;
    loop
        invariant
            last == cs@.len() - pat@.len(),
            0 <= i <= last,
            first_occurrence(cs@, pat@, 0) == first_occurrence(cs@, pat@, i as int),
        decreases last - i,
    {
        if occurs_at_exec(cs, i, pat) {
            return Some(i);
        }
        if i == last {
            assert(first_occurrence(cs@, pat@, i + 1) is None);
            return None;
        }
        i += 1;
    }
}

/// What `first_occurrence` finds is an occurrence, and none comes before it.
pub proof fn lemma_first_occurrence(cs: Seq<char>, pat: Seq<char>, from: int)
    requires
        0 <= from,
    ensures
        match first_occurrence(cs, pat, from) {
            Some(i) => from <= i && occurs_at(cs, i, pat)
                && forall|j: int| from <= j < i ==> !occurs_at(cs, j, pat),
            None => forall|j: int| from <= j ==> !occurs_at(cs, j, pat),
        },
    decreases cs.len() + 1 - from,
{
    if from + pat.len() <= cs.len() && !occurs_at(cs, from, pat) {
        lemma_first_occurrence(cs, pat, from + 1);
    }
}

/// The weekday abbreviations, in the order in which they are tried, the
/// longest first: the `k`-th and its day, for `k` below `abbreviation_count()`.
pub open spec fn abbreviation(k: int) -> (Seq<char>, Weekday) {
    if k == 0 { ("wednesday"@, Weekday::Wed) } else if k == 1 { ("thursday"@, Weekday::Thu) }
    else if k == 2 { ("saturday"@, Weekday::Sat) } else if k == 3 { ("tuesday"@, Weekday::Tue) }
    else if k == 4 { ("monday"@, Weekday::Mon) } else if k == 5 { ("friday"@, Weekday::Fri) }
    else if k == 6 { ("sunday"@, Weekday::Sun) } else if k == 7 { ("mon"@, Weekday::Mon) }
    else if k == 8 { ("tue"@, Weekday::Tue) } else if k == 9 { ("wed"@, Weekday::Wed) }
    else if k == 10 { ("thu"@, Weekday::Thu) } else if k == 11 { ("fri"@, Weekday::Fri) }
    else if k == 12 { ("sat"@, Weekday::Sat) } else if k == 13 { ("sun"@, Weekday::Sun) }
    else if k == 14 { ("th"@, Weekday::Thu) } else if k == 15 { ("t"@, Weekday::Tue) }
    else if k == 16 { ("w"@, Weekday::Wed) } else if k == 17 { ("m"@, Weekday::Mon) }
    else if k == 18 { ("f"@, Weekday::Fri) } else { ("s"@, Weekday::Sat) }
}

pub open spec fn abbreviation_count() -> int {
    20
}

fn abbreviation_exec(k: usize) -> (res: (Vec<char>, Weekday))
    requires
        k < abbreviation_count(),
    ensures
        res.0@ == abbreviation(k as int).0,
        res.1 == abbreviation(k as int).1,
{
    let (text, day) = if k == 0 { ("wednesday", Weekday::Wed) } else if k == 1 { ("thursday", Weekday::Thu) }
    else if k == 2 { ("saturday", Weekday::Sat) } else if k == 3 { ("tuesday", Weekday::Tue) }
    else if k == 4 { ("monday", Weekday::Mon) } else if k == 5 { ("friday", Weekday::Fri) }
    else if k == 6 { ("sunday", Weekday::Sun) } else if k == 7 { ("mon", Weekday::Mon) }
    else if k == 8 { ("tue", Weekday::Tue) } else if k == 9 { ("wed", Weekday::Wed) }
    else if k == 10 { ("thu", Weekday::Thu) } else if k == 11 { ("fri", Weekday::Fri) }
    else if k == 12 { ("sat", Weekday::Sat) } else if k == 13 { ("sun", Weekday::Sun) }
    else if k == 14 { ("th", Weekday::Thu) } else if k == 15 { ("t", Weekday::Tue) }
    else if k == 16 { ("w", Weekday::Wed) } else if k == 17 { ("m", Weekday::Mon) }
    else if k == 18 { ("f", Weekday::Fri) } else { ("s", Weekday::Sat) };
    (chars_of(text), day)
}

/// The first abbreviation, from the `k`-th on, written at index `i` of `cs`:
/// its day and its length.
pub open spec fn abbreviation_from(cs: Seq<char>, i: int, k: int) -> Option<(Weekday, nat)>
    decreases abbreviation_count() - k,
{
    if k < 0 || k >= abbreviation_count() {
        None
    } else if occurs_at(cs, i, abbreviation(k).0) {
        Some((abbreviation(k).1, abbreviation(k).0.len()))
    } else {
        abbreviation_from(cs, i, k + 1)
    }
}

/// The length of the `k`-th abbreviation.
pub open spec fn abbreviation_len(k: int) -> int {
    if k < 1 { 9 } else if k < 3 { 8 } else if k < 4 { 7 } else if k < 7 { 6 } else if k < 14 { 3 } else if k < 15 { 2 } else { 1 }
}

/// The abbreviations come longest first.
proof fn lemma_abbreviations_longest_first()
    ensures
        forall|k: int| 0 <= k < abbreviation_count() ==> #[trigger] abbreviation(k).0.len() == abbreviation_len(k),
{
    reveal_strlit("monday");
    reveal_strlit("tuesday");
    reveal_strlit("wednesday");
    reveal_strlit("thursday");
    reveal_strlit("friday");
    reveal_strlit("saturday");
    reveal_strlit("sunday");
    reveal_strlit("mon");
    reveal_strlit("tue");
    reveal_strlit("wed");
    reveal_strlit("thu");
    reveal_strlit("fri");
    reveal_strlit("sat");
    reveal_strlit("sun");
    reveal_strlit("th");
    reveal_strlit("t");
    reveal_strlit("w");
    reveal_strlit("m");
    reveal_strlit("f");
    reveal_strlit("s");
}

/// The English name of day `d`, in lower case.
pub open spec fn day_name(d: Weekday) -> Seq<char> {
    match d {
        Weekday::Mon => seq!['m', 'o', 'n', 'd', 'a', 'y'],
        Weekday::Tue => seq!['t', 'u', 'e', 's', 'd', 'a', 'y'],
        Weekday::Wed => seq!['w', 'e', 'd', 'n', 'e', 's', 'd', 'a', 'y'],
        Weekday::Thu => seq!['t', 'h', 'u', 'r', 's', 'd', 'a', 'y'],
        Weekday::Fri => seq!['f', 'r', 'i', 'd', 'a', 'y'],
        Weekday::Sat => seq!['s', 'a', 't', 'u', 'r', 'd', 'a', 'y'],
        Weekday::Sun => seq!['s', 'u', 'n', 'd', 'a', 'y'],
    }
}

/// `a` abbreviates the name of day `d`: it is a start of that name, not empty.
pub open spec fn abbreviates(a: Seq<char>, d: Weekday) -> bool {
    0 < a.len() <= day_name(d).len() && day_name(d).take(a.len() as int) == a
}

/// The place of day `d` in the week, Monday first.
pub open spec fn day_index(d: Weekday) -> int {
    match d {
        Weekday::Mon => 0,
        Weekday::Tue => 1,
        Weekday::Wed => 2,
        Weekday::Thu => 3,
        Weekday::Fri => 4,
        Weekday::Sat => 5,
        Weekday::Sun => 6,
    }
}

/// No abbreviation abbreviates a day of the week earlier than its own.
proof fn lemma_abbreviations_first_day()
    ensures
        forall|k: int, d: Weekday| 0 <= k < abbreviation_count() && #[trigger] abbreviates(abbreviation(k).0, d)
            ==> day_index(abbreviation(k).1) <= day_index(d),
{
    assert forall|d: Weekday| #[trigger] abbreviates(abbreviation(0).0, d)
        implies day_index(abbreviation(0).1) <= day_index(d) by {
        reveal_strlit("wednesday");
        if day_index(d) < day_index(Weekday::Wed) {
            assert(day_name(d).take(9)[0] == "wednesday"@[0]);
            assert(day_name(d).take(9)[1] == "wednesday"@[1]);
            assert(day_name(d).take(9)[2] == "wednesday"@[2]);
        }
    }
    assert forall|d: Weekday| #[trigger] abbreviates(abbreviation(1).0, d)
        implies day_index(abbreviation(1).1) <= day_index(d) by {
        reveal_strlit("thursday");
        if day_index(d) < day_index(Weekday::Thu) {
            assert(day_name(d).take(8)[0] == "thursday"@[0]);
            assert(day_name(d).take(8)[1] == "thursday"@[1]);
            assert(day_name(d).take(8)[2] == "thursday"@[2]);
        }
    }
    assert forall|d: Weekday| #[trigger] abbreviates(abbreviation(2).0, d)
        implies day_index(abbreviation(2).1) <= day_index(d) by {
        reveal_strlit("saturday");
        if day_index(d) < day_index(Weekday::Sat) {
            assert(day_name(d).take(8)[0] == "saturday"@[0]);
            assert(day_name(d).take(8)[1] == "saturday"@[1]);
            assert(day_name(d).take(8)[2] == "saturday"@[2]);
        }
    }
    assert forall|d: Weekday| #[trigger] abbreviates(abbreviation(3).0, d)
        implies day_index(abbreviation(3).1) <= day_index(d) by {
        reveal_strlit("tuesday");
        if day_index(d) < day_index(Weekday::Tue) {
            assert(day_name(d).take(7)[0] == "tuesday"@[0]);
            assert(day_name(d).take(7)[1] == "tuesday"@[1]);
            assert(day_name(d).take(7)[2] == "tuesday"@[2]);
        }
    }
    assert forall|d: Weekday| #[trigger] abbreviates(abbreviation(4).0, d)
        implies day_index(abbreviation(4).1) <= day_index(d) by {
        reveal_strlit("monday");
        if day_index(d) < day_index(Weekday::Mon) {
            assert(day_name(d).take(6)[0] == "monday"@[0]);
            assert(day_name(d).take(6)[1] == "monday"@[1]);
            assert(day_name(d).take(6)[2] == "monday"@[2]);
        }
    }
    assert forall|d: Weekday| #[trigger] abbreviates(abbreviation(5).0, d)
        implies day_index(abbreviation(5).1) <= day_index(d) by {
        reveal_strlit("friday");
        if day_index(d) < day_index(Weekday::Fri) {
            assert(day_name(d).take(6)[0] == "friday"@[0]);
            assert(day_name(d).take(6)[1] == "friday"@[1]);
            assert(day_name(d).take(6)[2] == "friday"@[2]);
        }
    }
    assert forall|d: Weekday| #[trigger] abbreviates(abbreviation(6).0, d)
        implies day_index(abbreviation(6).1) <= day_index(d) by {
        reveal_strlit("sunday");
        if day_index(d) < day_index(Weekday::Sun) {
            assert(day_name(d).take(6)[0] == "sunday"@[0]);
            assert(day_name(d).take(6)[1] == "sunday"@[1]);
            assert(day_name(d).take(6)[2] == "sunday"@[2]);
        }
    }
    assert forall|d: Weekday| #[trigger] abbreviates(abbreviation(7).0, d)
        implies day_index(abbreviation(7).1) <= day_index(d) by {
        reveal_strlit("mon");
        if day_index(d) < day_index(Weekday::Mon) {
            assert(day_name(d).take(3)[0] == "mon"@[0]);
            assert(day_name(d).take(3)[1] == "mon"@[1]);
            assert(day_name(d).take(3)[2] == "mon"@[2]);
        }
    }
    assert forall|d: Weekday| #[trigger] abbreviates(abbreviation(8).0, d)
        implies day_index(abbreviation(8).1) <= day_index(d) by {
        reveal_strlit("tue");
        if day_index(d) < day_index(Weekday::Tue) {
            assert(day_name(d).take(3)[0] == "tue"@[0]);
            assert(day_name(d).take(3)[1] == "tue"@[1]);
            assert(day_name(d).take(3)[2] == "tue"@[2]);
        }
    }
    assert forall|d: Weekday| #[trigger] abbreviates(abbreviation(9).0, d)
        implies day_index(abbreviation(9).1) <= day_index(d) by {
        reveal_strlit("wed");
        if day_index(d) < day_index(Weekday::Wed) {
            assert(day_name(d).take(3)[0] == "wed"@[0]);
            assert(day_name(d).take(3)[1] == "wed"@[1]);
            assert(day_name(d).take(3)[2] == "wed"@[2]);
        }
    }
    assert forall|d: Weekday| #[trigger] abbreviates(abbreviation(10).0, d)
        implies day_index(abbreviation(10).1) <= day_index(d) by {
        reveal_strlit("thu");
        if day_index(d) < day_index(Weekday::Thu) {
            assert(day_name(d).take(3)[0] == "thu"@[0]);
            assert(day_name(d).take(3)[1] == "thu"@[1]);
            assert(day_name(d).take(3)[2] == "thu"@[2]);
        }
    }
    assert forall|d: Weekday| #[trigger] abbreviates(abbreviation(11).0, d)
        implies day_index(abbreviation(11).1) <= day_index(d) by {
        reveal_strlit("fri");
        if day_index(d) < day_index(Weekday::Fri) {
            assert(day_name(d).take(3)[0] == "fri"@[0]);
            assert(day_name(d).take(3)[1] == "fri"@[1]);
            assert(day_name(d).take(3)[2] == "fri"@[2]);
        }
    }
    assert forall|d: Weekday| #[trigger] abbreviates(abbreviation(12).0, d)
        implies day_index(abbreviation(12).1) <= day_index(d) by {
        reveal_strlit("sat");
        if day_index(d) < day_index(Weekday::Sat) {
            assert(day_name(d).take(3)[0] == "sat"@[0]);
            assert(day_name(d).take(3)[1] == "sat"@[1]);
            assert(day_name(d).take(3)[2] == "sat"@[2]);
        }
    }
    assert forall|d: Weekday| #[trigger] abbreviates(abbreviation(13).0, d)
        implies day_index(abbreviation(13).1) <= day_index(d) by {
        reveal_strlit("sun");
        if day_index(d) < day_index(Weekday::Sun) {
            assert(day_name(d).take(3)[0] == "sun"@[0]);
            assert(day_name(d).take(3)[1] == "sun"@[1]);
            assert(day_name(d).take(3)[2] == "sun"@[2]);
        }
    }
    assert forall|d: Weekday| #[trigger] abbreviates(abbreviation(14).0, d)
        implies day_index(abbreviation(14).1) <= day_index(d) by {
        reveal_strlit("th");
        if day_index(d) < day_index(Weekday::Thu) {
            assert(day_name(d).take(2)[0] == "th"@[0]);
            assert(day_name(d).take(2)[1] == "th"@[1]);
        }
    }
    assert forall|d: Weekday| #[trigger] abbreviates(abbreviation(15).0, d)
        implies day_index(abbreviation(15).1) <= day_index(d) by {
        reveal_strlit("t");
        if day_index(d) < day_index(Weekday::Tue) {
            assert(day_name(d).take(1)[0] == "t"@[0]);
        }
    }
    assert forall|d: Weekday| #[trigger] abbreviates(abbreviation(16).0, d)
        implies day_index(abbreviation(16).1) <= day_index(d) by {
        reveal_strlit("w");
        if day_index(d) < day_index(Weekday::Wed) {
            assert(day_name(d).take(1)[0] == "w"@[0]);
        }
    }
    assert forall|d: Weekday| #[trigger] abbreviates(abbreviation(17).0, d)
        implies day_index(abbreviation(17).1) <= day_index(d) by {
        reveal_strlit("m");
        if day_index(d) < day_index(Weekday::Mon) {
            assert(day_name(d).take(1)[0] == "m"@[0]);
        }
    }
    assert forall|d: Weekday| #[trigger] abbreviates(abbreviation(18).0, d)
        implies day_index(abbreviation(18).1) <= day_index(d) by {
        reveal_strlit("f");
        if day_index(d) < day_index(Weekday::Fri) {
            assert(day_name(d).take(1)[0] == "f"@[0]);
        }
    }
    assert forall|d: Weekday| #[trigger] abbreviates(abbreviation(19).0, d)
        implies day_index(abbreviation(19).1) <= day_index(d) by {
        reveal_strlit("s");
        if day_index(d) < day_index(Weekday::Sat) {
            assert(day_name(d).take(1)[0] == "s"@[0]);
        }
    }
    assert forall|k: int, d: Weekday| 0 <= k < abbreviation_count() && #[trigger] abbreviates(abbreviation(k).0, d)
        implies day_index(abbreviation(k).1) <= day_index(d) by {
        if k == 0 { assert(abbreviates(abbreviation(0).0, d)); }
        if k == 1 { assert(abbreviates(abbreviation(1).0, d)); }
        if k == 2 { assert(abbreviates(abbreviation(2).0, d)); }
        if k == 3 { assert(abbreviates(abbreviation(3).0, d)); }
        if k == 4 { assert(abbreviates(abbreviation(4).0, d)); }
        if k == 5 { assert(abbreviates(abbreviation(5).0, d)); }
        if k == 6 { assert(abbreviates(abbreviation(6).0, d)); }
        if k == 7 { assert(abbreviates(abbreviation(7).0, d)); }
        if k == 8 { assert(abbreviates(abbreviation(8).0, d)); }
        if k == 9 { assert(abbreviates(abbreviation(9).0, d)); }
        if k == 10 { assert(abbreviates(abbreviation(10).0, d)); }
        if k == 11 { assert(abbreviates(abbreviation(11).0, d)); }
        if k == 12 { assert(abbreviates(abbreviation(12).0, d)); }
        if k == 13 { assert(abbreviates(abbreviation(13).0, d)); }
        if k == 14 { assert(abbreviates(abbreviation(14).0, d)); }
        if k == 15 { assert(abbreviates(abbreviation(15).0, d)); }
        if k == 16 { assert(abbreviates(abbreviation(16).0, d)); }
        if k == 17 { assert(abbreviates(abbreviation(17).0, d)); }
        if k == 18 { assert(abbreviates(abbreviation(18).0, d)); }
        if k == 19 { assert(abbreviates(abbreviation(19).0, d)); }
    }
}

/// Every weekday abbreviation reads as a day whose name it abbreviates: the
/// first such day of the week, Monday first, when it abbreviates more than
/// one (`t` reads as Tuesday, `s` as Saturday).
pub proof fn law_abbreviations_name_their_days()
    ensures
        forall|k: int| 0 <= k < abbreviation_count() ==> #[trigger] abbreviates(abbreviation(k).0, abbreviation(k).1),
        forall|k: int, d: Weekday| 0 <= k < abbreviation_count() && #[trigger] abbreviates(abbreviation(k).0, d)
            ==> day_index(abbreviation(k).1) <= day_index(d),
{
    lemma_abbreviations_first_day();
    assert(abbreviates(abbreviation(0).0, abbreviation(0).1)) by {
        reveal_strlit("wednesday");
        assert(day_name(Weekday::Wed).take(9) =~= "wednesday"@);
    }
    assert(abbreviates(abbreviation(1).0, abbreviation(1).1)) by {
        reveal_strlit("thursday");
        assert(day_name(Weekday::Thu).take(8) =~= "thursday"@);
    }
    assert(abbreviates(abbreviation(2).0, abbreviation(2).1)) by {
        reveal_strlit("saturday");
        assert(day_name(Weekday::Sat).take(8) =~= "saturday"@);
    }
    assert(abbreviates(abbreviation(3).0, abbreviation(3).1)) by {
        reveal_strlit("tuesday");
        assert(day_name(Weekday::Tue).take(7) =~= "tuesday"@);
    }
    assert(abbreviates(abbreviation(4).0, abbreviation(4).1)) by {
        reveal_strlit("monday");
        assert(day_name(Weekday::Mon).take(6) =~= "monday"@);
    }
    assert(abbreviates(abbreviation(5).0, abbreviation(5).1)) by {
        reveal_strlit("friday");
        assert(day_name(Weekday::Fri).take(6) =~= "friday"@);
    }
    assert(abbreviates(abbreviation(6).0, abbreviation(6).1)) by {
        reveal_strlit("sunday");
        assert(day_name(Weekday::Sun).take(6) =~= "sunday"@);
    }
    assert(abbreviates(abbreviation(7).0, abbreviation(7).1)) by {
        reveal_strlit("mon");
        assert(day_name(Weekday::Mon).take(3) =~= "mon"@);
    }
    assert(abbreviates(abbreviation(8).0, abbreviation(8).1)) by {
        reveal_strlit("tue");
        assert(day_name(Weekday::Tue).take(3) =~= "tue"@);
    }
    assert(abbreviates(abbreviation(9).0, abbreviation(9).1)) by {
        reveal_strlit("wed");
        assert(day_name(Weekday::Wed).take(3) =~= "wed"@);
    }
    assert(abbreviates(abbreviation(10).0, abbreviation(10).1)) by {
        reveal_strlit("thu");
        assert(day_name(Weekday::Thu).take(3) =~= "thu"@);
    }
    assert(abbreviates(abbreviation(11).0, abbreviation(11).1)) by {
        reveal_strlit("fri");
        assert(day_name(Weekday::Fri).take(3) =~= "fri"@);
    }
    assert(abbreviates(abbreviation(12).0, abbreviation(12).1)) by {
        reveal_strlit("sat");
        assert(day_name(Weekday::Sat).take(3) =~= "sat"@);
    }
    assert(abbreviates(abbreviation(13).0, abbreviation(13).1)) by {
        reveal_strlit("sun");
        assert(day_name(Weekday::Sun).take(3) =~= "sun"@);
    }
    assert(abbreviates(abbreviation(14).0, abbreviation(14).1)) by {
        reveal_strlit("th");
        assert(day_name(Weekday::Thu).take(2) =~= "th"@);
    }
    assert(abbreviates(abbreviation(15).0, abbreviation(15).1)) by {
        reveal_strlit("t");
        assert(day_name(Weekday::Tue).take(1) =~= "t"@);
    }
    assert(abbreviates(abbreviation(16).0, abbreviation(16).1)) by {
        reveal_strlit("w");
        assert(day_name(Weekday::Wed).take(1) =~= "w"@);
    }
    assert(abbreviates(abbreviation(17).0, abbreviation(17).1)) by {
        reveal_strlit("m");
        assert(day_name(Weekday::Mon).take(1) =~= "m"@);
    }
    assert(abbreviates(abbreviation(18).0, abbreviation(18).1)) by {
        reveal_strlit("f");
        assert(day_name(Weekday::Fri).take(1) =~= "f"@);
    }
    assert(abbreviates(abbreviation(19).0, abbreviation(19).1)) by {
        reveal_strlit("s");
        assert(day_name(Weekday::Sat).take(1) =~= "s"@);
    }
}

/// What is read at index `i` of `cs` as a weekday abbreviation is a start of
/// the name of the day it reads as.
pub proof fn law_read_abbreviation_names_day(cs: Seq<char>, i: int, k: int)
    requires
        0 <= k,
    ensures
        abbreviation_from(cs, i, k) matches Some((d, n)) ==> {
            &&& 0 <= i && i + n <= cs.len()
            &&& abbreviates(cs.subrange(i, i + n), d)
        },
    decreases abbreviation_count() - k,
{
    law_abbreviations_name_their_days();
    if k < abbreviation_count() {
        law_read_abbreviation_names_day(cs, i, k + 1);
        assert(abbreviates(abbreviation(k).0, abbreviation(k).1));
    }
}

/// The abbreviation read at index `i` of `cs` is the longest one written
/// there: every abbreviation from the `k`-th on that is written at `i` is no
/// longer, and when none is read, none from the `k`-th on is written there.
pub proof fn law_longest_abbreviation(cs: Seq<char>, i: int, k: int)
    requires
        0 <= k,
    ensures
        match abbreviation_from(cs, i, k) {
            Some((d, n)) => forall|j: int| k <= j < abbreviation_count() && #[trigger] occurs_at(cs, i, abbreviation(j).0)
                ==> abbreviation(j).0.len() <= n,
            None => forall|j: int| k <= j < abbreviation_count() ==> !#[trigger] occurs_at(cs, i, abbreviation(j).0),
        },
    decreases abbreviation_count() - k,
{
    lemma_abbreviations_longest_first();
    if k < abbreviation_count() {
        law_longest_abbreviation(cs, i, k + 1);
        if occurs_at(cs, i, abbreviation(k).0) {
            assert forall|j: int| k <= j < abbreviation_count() && #[trigger] occurs_at(cs, i, abbreviation(j).0)
                implies abbreviation(j).0.len() <= abbreviation(k).0.len() by {
                assert(abbreviation_len(k) >= abbreviation_len(j));
            }
        }
    }
}

/// Reads weekday abbreviations from index `i` of `cs`, adding their days to
/// `days`: the days read, and the index at which no abbreviation is written
/// (`None` if reading reached the end).
pub open spec fn scan_days(cs: Seq<char>, i: int, days: Set<Weekday>) -> (Set<Weekday>, Option<int>)
    decreases cs.len() - i,
{
    if i < 0 || i >= cs.len() {
        (days, None)
    } else {
        match abbreviation_from(cs, i, 0) {
            Some((d, n)) => if n > 0 && i + n <= cs.len() {
                scan_days(cs, i + n, days.insert(d))
            } else {
                (days, Some(i))
            },
            None => (days, Some(i)),
        }
    }
}

/// `t` with `:00` put before its last two characters (the `am` or `pm` of
/// an hour such as `2pm`).
pub open spec fn with_zero_minutes(t: Seq<char>) -> Seq<char> {
    if t.len() >= 2 {
        t.take(t.len() - 2) + ":00"@ + t.skip(t.len() - 2)
    } else {
        t
    }
}

/// The time of day that `x` writes (as `parse_naive_time` reads it):
/// trimmed, in one of the forms `14:30`, `14`, `2pm`, `02:30pm`, or as an
/// hour followed by ` am` or ` pm`. chrono reads a time of day only with its
/// minutes, so an hour alone is read with `:00` added.
pub open spec fn naive_time(x: Seq<char>) -> Option<TimeOfDay> {
    let t = trimmed(x);
    let l = lowercase(t);
    if parsed_time(t, "%H:%M"@) is Some {
        parsed_time(t, "%H:%M"@)
    } else if parsed_time(t + ":00"@, "%H:%M"@) is Some {
        parsed_time(t + ":00"@, "%H:%M"@)
    } else if parsed_time(with_zero_minutes(t), "%I:%M%p"@) is Some {
        parsed_time(with_zero_minutes(t), "%I:%M%p"@)
    } else if parsed_time(t, "%I:%M%p"@) is Some {
        parsed_time(t, "%I:%M%p"@)
    } else if suffixed_time(l, " am"@, "am"@) is Some {
        suffixed_time(l, " am"@, "am"@)
    } else {
        suffixed_time(l, " pm"@, "pm"@)
    }
}

/// The time that the trimmed text before the first `pat` in `l`, an hour,
/// followed by `suffix`, writes (as `%I:%M%p` with `:00` for the minutes).
pub open spec fn suffixed_time(l: Seq<char>, pat: Seq<char>, suffix: Seq<char>) -> Option<TimeOfDay> {
    match first_occurrence(l, pat, 0) {
        Some(i) => parsed_time(trimmed(l.take(i)) + ":00"@ + suffix, "%I:%M%p"@),
        None => None,
    }
}

/// `res` is what `parse_naive_time(x)` gives: the time `naive_time(x)`, or
/// an invalid time holding the trimmed text.
pub open spec fn naive_time_outcome(x: Seq<char>, res: Result<TimeOfDay, ParseFocusError>) -> bool {
    match naive_time(x) {
        Some(t) => res == Ok::<TimeOfDay, ParseFocusError>(t),
        None => res matches Err(ParseFocusError::InvalidTime(m)) && m@ == trimmed(x),
    }
}

/// Reads a time of day such as `14:30`, `2pm` or `2 pm` (see `naive_time`).
pub fn parse_naive_time(time_str: &str) -> (res: Result<TimeOfDay, ParseFocusError>)
    ensures
        naive_time_outcome(time_str@, res),
{
    let t = trim(time_str);
    if let Some(time) = parse_naive(t, "%H:%M") {
        return Ok(time);
    }
    let hour_only = concat(t, ":00");
    if let Some(time) = parse_naive(hour_only.as_str(), "%H:%M") {
        return Ok(time);
    }
    let n = t.unicode_len();
    let twelve_hour = if n >= 2 {
        let head = concat(t.substring_char(0, n - 2), ":00");
        concat(head.as_str(), t.substring_char(n - 2, n))
    } else {
        concat(t, "")
    };
    proof {
        reveal_strlit("");
        assert(twelve_hour@ =~= with_zero_minutes(t@));
    }
    if let Some(time) = parse_naive(twelve_hour.as_str(), "%I:%M%p") {
        return Ok(time);
    }
    if let Some(time) = parse_naive(t, "%I:%M%p") {
        return Ok(time);
    }
    let lower = to_lowercase(t);
    let cs = chars_of(lower.as_str());
    let am = chars_of(" am");
    if let Some(i) = find(&cs, &am) {
        proof {
            lemma_first_occurrence(cs@, am@, 0);
        }
        let before = lower.as_str().substring_char(0, i);
        let candidate = concat(trim(before), ":00am");
        proof {
            assert(before@ == lower@.take(i as int));
            reveal_strlit(":00am");
            reveal_strlit(":00");
            reveal_strlit("am");
            assert(candidate@ =~= trimmed(lower@.take(i as int)) + ":00"@ + "am"@);
        }
        if let Some(time) = parse_naive(candidate.as_str(), "%I:%M%p") {
            return Ok(time);
        }
    }
    let pm = chars_of(" pm");
    if let Some(i) = find(&cs, &pm) {
        proof {
            lemma_first_occurrence(cs@, pm@, 0);
        }
        let before = lower.as_str().substring_char(0, i);
        let candidate = concat(trim(before), ":00pm");
        proof {
            assert(before@ == lower@.take(i as int));
            reveal_strlit(":00pm");
            reveal_strlit(":00");
            reveal_strlit("pm");
            assert(candidate@ =~= trimmed(lower@.take(i as int)) + ":00"@ + "pm"@);
        }
        if let Some(time) = parse_naive(candidate.as_str(), "%I:%M%p") {
            return Ok(time);
        }
    }
    Err(ParseFocusError::InvalidTime(t.to_owned()))
}

/// Whether `a` and `b` hold the same characters.
fn same_chars(a: &Vec<char>, b: &Vec<char>) -> (res: bool)
    ensures
        res == (a@ == b@),
{
    if a.len() != b.len() {
        return false;
    }
    let mut i: usize = 0;
    while i < a.len()
        invariant
            a@.len() == b@.len(),
            0 <= i <= a@.len(),
            forall|j: int| 0 <= j < i ==> a@[j] == b@[j],
        decreases a@.len() - i,
    {
        if a[i] != b[i] {
            return false;
        }
        i += 1;
    }
    assert(a@ =~= b@);
    true
}

/// The first weekday abbreviation written at index `i` of `cs`, with its
/// length (see `abbreviation_from`).
fn abbreviation_at(cs: &Vec<char>, i: usize) -> (res: Option<(Weekday, usize)>)
    ensures
        match res {
            Some((d, n)) => abbreviation_from(cs@, i as int, 0) == Some((d, n as nat)),
            None => abbreviation_from(cs@, i as int, 0) is None,
        },
{
    let mut k: usize = 0;
    while k < 20
        invariant
            0 <= k <= abbreviation_count(),
            abbreviation_from(cs@, i as int, 0) == abbreviation_from(cs@, i as int, k as int),
        decreases abbreviation_count() - k,
    {
        let (text, day) = abbreviation_exec(k);
        if occurs_at_exec(cs, i, &text) {
            return Some((day, text.len()));
        }
        k += 1;
    }
    None
}

/// Reads weekday abbreviations from the start of `cs` (see `scan_days`).
fn scan_weekdays(cs: &Vec<char>) -> (res: (WeekdaySet, Option<usize>))
    ensures
        scan_days(cs@, 0, Set::empty()) == (res.0.days(), match res.1 {
            Some(i) => Some(i as int),
            None => None::<int>,
        }),
{
    let mut days = WeekdaySet::new();
    let mut i: usize = 0;
    while i < cs.len()
        invariant
            0 <= i <= cs@.len(),
            scan_days(cs@, 0, Set::empty()) == scan_days(cs@, i as int, days.days()),
        decreases cs@.len() - i,
    {
        match abbreviation_at(cs, i) {
            Some((day, n)) => {
                if n > 0 && n <= cs.len() - i {
                    days.insert(day);
                    i += n;
                } else {
                    return (days, Some(i));
                }
            },
            None => {
                return (days, Some(i));
            },
        }
    }
    (days, None)
}

/// The days Monday to Friday.
pub open spec fn working_days() -> Set<Weekday> {
    set![Weekday::Mon, Weekday::Tue, Weekday::Wed, Weekday::Thu, Weekday::Fri]
}

/// Saturday and Sunday.
pub open spec fn weekend_days() -> Set<Weekday> {
    set![Weekday::Sat, Weekday::Sun]
}

/// The start of the day.
pub open spec fn day_start() -> TimeOfDay {
    TimeOfDay { hour: 0, minute: 0, second: 0, nano: 0 }
}

/// The last second of the day.
pub open spec fn day_end() -> TimeOfDay {
    TimeOfDay { hour: 23, minute: 59, second: 59, nano: 0 }
}

/// `res` is the time read from `x` by `parse_naive_time`, as the start or
/// the end of a span whose other end is `other`.
pub open spec fn span_outcome(x: Seq<char>, other: TimeOfDay, x_is_start: bool, res: Result<FocusPredicate, ParseFocusError>) -> bool {
    match naive_time(x) {
        Some(t) => res == Ok::<FocusPredicate, ParseFocusError>(
            if x_is_start {
                FocusPredicate::TimeOfDayRange { start: t, end: other }
            } else {
                FocusPredicate::TimeOfDayRange { start: other, end: t }
            }),
        None => res matches Err(ParseFocusError::InvalidTime(m)) && m@ == trimmed(x),
    }
}

/// `res` is what reading `s` as a span of the day gives, where `t` is `s`
/// trimmed, then lowercased: `after X` is the span from the time `X` to
/// the end of the day; `before X` the span from the start of the day to
/// `X`; `X-Y`, split at the first `-`, the span from `X` to `Y`. A time
/// that cannot be read is an invalid time; any other text is unknown.
pub open spec fn span_of_day_outcome(s: Seq<char>, res: Result<FocusPredicate, ParseFocusError>) -> bool {
    let t = lowercase(trimmed(s));
    if occurs_at(t, 0, "after "@) {
        span_outcome(t.skip("after "@.len() as int), day_end(), true, res)
    } else if occurs_at(t, 0, "before "@) {
        span_outcome(t.skip("before "@.len() as int), day_start(), false, res)
    } else {
        match first_occurrence(t, "-"@, 0) {
            Some(k) => match naive_time(t.take(k)) {
                Some(start) => span_outcome(t.skip(k + 1), start, false, res),
                None => res matches Err(ParseFocusError::InvalidTime(m)) && m@ == trimmed(t.take(k)),
            },
            None => res matches Err(ParseFocusError::UnknownPredicateType(m)) && m@ == s,
        }
    }
}

/// `res` is what `parse_focus_predicate(s)` gives. With `s` lowercased:
/// `weekdays` is Monday to Friday, `weekends` Saturday and Sunday; else the
/// text is read as weekday abbreviations (see `scan_days`): if some were
/// read, the days read when reading reaches the end, or an invalid weekday
/// sequence where it stops; if none were, `s` is read as a span of the day.
pub open spec fn focus_outcome(s: Seq<char>, res: Result<FocusPredicate, ParseFocusError>) -> bool {
    let lower = lowercase(s);
    let scanned = scan_days(lower, 0, Set::empty());
    if lower == "weekdays"@ {
        res matches Ok(FocusPredicate::Weekdays(w)) && w.days() == working_days()
    } else if lower == "weekends"@ {
        res matches Ok(FocusPredicate::Weekdays(w)) && w.days() == weekend_days()
    } else if scanned.0 != Set::<Weekday>::empty() {
        match scanned.1 {
            None => res matches Ok(FocusPredicate::Weekdays(w)) && w.days() == scanned.0,
            Some(i) => res matches Err(ParseFocusError::InvalidWeekdaySequence(m)) && m@ == sequence_message(i, s),
        }
    } else {
        span_of_day_outcome(s, res)
    }
}

/// Reads the time `x` as one end of a span whose other end is `other`.
fn read_span(x: &str, other: TimeOfDay, x_is_start: bool) -> (res: Result<FocusPredicate, ParseFocusError>)
    ensures
        span_outcome(x@, other, x_is_start, res),
{
    match parse_naive_time(x) {
        Ok(t) => {
            if x_is_start {
                Ok(FocusPredicate::TimeOfDayRange { start: t, end: other })
            } else {
                Ok(FocusPredicate::TimeOfDayRange { start: other, end: t })
            }
        },
        Err(e) => Err(e),
    }
}

/// Reads what a focus is limited to (see `focus_outcome`): `weekdays`,
/// `weekends`, weekday abbreviations such as `mwf` or `tue`, or a span of
/// the day such as `after 5pm`, `before 9:30am` or `9am-5pm`.
pub fn parse_focus_predicate(s: &str) -> (res: Result<FocusPredicate, ParseFocusError>)
    ensures
        focus_outcome(s@, res),
{
    let lower = to_lowercase(s);
    let cs = chars_of(lower.as_str());
    if same_chars(&cs, &chars_of("weekdays")) {
        let w = WeekdaySet::of(&[Weekday::Mon, Weekday::Tue, Weekday::Wed, Weekday::Thu, Weekday::Fri]);
        proof {
            assert(w.days() =~= working_days()) by {
                assert forall|d: Weekday| w.days().contains(d) <==> working_days().contains(d) by {
                    let a = seq![Weekday::Mon, Weekday::Tue, Weekday::Wed, Weekday::Thu, Weekday::Fri];
                    if working_days().contains(d) {
                        assert(a[0] == Weekday::Mon && a[1] == Weekday::Tue && a[2] == Weekday::Wed && a[3] == Weekday::Thu && a[4] == Weekday::Fri);
                    }
                }
            }
        }
        return Ok(FocusPredicate::Weekdays(w));
    }
    if same_chars(&cs, &chars_of("weekends")) {
        let w = WeekdaySet::of(&[Weekday::Sat, Weekday::Sun]);
        proof {
            assert(w.days() =~= weekend_days()) by {
                assert forall|d: Weekday| w.days().contains(d) <==> weekend_days().contains(d) by {
                    let a = seq![Weekday::Sat, Weekday::Sun];
                    if weekend_days().contains(d) {
                        assert(a[0] == Weekday::Sat && a[1] == Weekday::Sun);
                    }
                }
            }
        }
        return Ok(FocusPredicate::Weekdays(w));
    }
    let (days, stuck) = scan_weekdays(&cs);
    if !days.is_empty() {
        return match stuck {
            None => Ok(FocusPredicate::Weekdays(days)),
            Some(i) => Err(ParseFocusError::InvalidWeekdaySequence(weekday_sequence_message(i, s))),
        };
    }
    let t_str = to_lowercase(trim(s));
    let t = chars_of(t_str.as_str());
    let after = chars_of("after ");
    if occurs_at_exec(&t, 0, &after) {
        let x = t_str.as_str().substring_char(after.len(), t.len());
        return read_span(x, TimeOfDay { hour: 23, minute: 59, second: 59, nano: 0 }, true);
    }
    let before = chars_of("before ");
    if occurs_at_exec(&t, 0, &before) {
        let x = t_str.as_str().substring_char(before.len(), t.len());
        return read_span(x, TimeOfDay { hour: 0, minute: 0, second: 0, nano: 0 }, false);
    }
    let dash = chars_of("-");
    match find(&t, &dash) {
        Some(k) => {
            proof {
                reveal_strlit("-");
                lemma_first_occurrence(t@, dash@, 0);
                assert(k + 1 <= t@.len());
                assert(t@.len() == t.len());
            }
            let first = t_str.as_str().substring_char(0, k);
            let rest = t_str.as_str().substring_char(k + 1, t.len());
            match parse_naive_time(first) {
                Ok(start) => read_span(rest, start, false),
                Err(e) => Err(e),
            }
        },
        None => Err(ParseFocusError::UnknownPredicateType(s.to_owned())),
    }
}

/// What humantime's `format_duration` writes for the duration of `secs`
/// seconds and `nanos` nanoseconds, such as `2h 37m`.
pub uninterp spec fn humantime_text(secs: u64, nanos: u32) -> Seq<char>;

/// `humantime::format_duration` of `std::time::Duration::new(secs, nanos)`,
/// written out (named `humantime_text`). `Duration::new` panics only when
/// the nanoseconds carry over past `u64::MAX` seconds, which they cannot do
/// below one second.
#[verifier::external_body]
fn format_std_duration(secs: u64, nanos: u32) -> (res: String)
    requires
        nanos < 1_000_000_000,
    ensures
        res@ == humantime_text(secs, nanos),
{
    humantime::format_duration(std::time::Duration::new(secs, nanos)).to_string()
}

/// The number of ASCII digits at the start of `cs`.
pub open spec fn leading_digits(cs: Seq<char>) -> nat
    decreases cs.len(),
{
    if cs.len() > 0 && is_digit_char(cs[0]) {
        1 + leading_digits(cs.drop_first())
    } else {
        0
    }
}

/// The number that the ASCII digits `cs` write.
pub open spec fn digits_number(cs: Seq<char>) -> nat
    decreases cs.len(),
{
    if cs.len() == 0 {
        0
    } else {
        digits_number(cs.drop_last()) * 10 + ((cs.last() as int) - 48) as nat
    }
}

/// The unit `u` written out for the count `n`: `s`, `m` and `h` become
/// seconds, minutes and hours (singular for one); other units stay.
pub open spec fn unit_name(u: Seq<char>, one: bool) -> Seq<char> {
    if u == "s"@ {
        if one { "second"@ } else { "seconds"@ }
    } else if u == "m"@ {
        if one { "minute"@ } else { "minutes"@ }
    } else if u == "h"@ {
        if one { "hour"@ } else { "hours"@ }
    } else {
        u
    }
}

/// What comes before the first space of `f` (all of `f` if it has none).
pub open spec fn first_word(f: Seq<char>) -> Seq<char> {
    match first_occurrence(f, " "@, 0) {
        Some(k) => f.take(k),
        None => f,
    }
}

/// The first word of a duration such as `2h 37m`, as `5 minutes` or
/// `1 hour`: its count, a space, and its unit written out. `None` when the
/// word does not start with a count that is an `i32`.
pub open spec fn laconic(f: Seq<char>) -> Option<Seq<char>> {
    let chunk = first_word(f);
    let len = leading_digits(chunk);
    let n = chunk.take(len as int);
    if len == 0 || digits_number(n) > i32::MAX {
        None
    } else {
        Some(n + " "@ + unit_name(chunk.skip(len as int), digits_number(n) == 1))
    }
}

/// The first word of the duration `f` (see `laconic`).
fn laconic_text(f: &str) -> (res: Option<String>)
    ensures
        match res {
            Some(t) => laconic(f@) == Some(t@),
            None => laconic(f@) is None,
        },
{
    let cs = chars_of(f);
    let space = chars_of(" ");
    let end = match find(&cs, &space) {
        Some(k) => {
            proof {
                lemma_first_occurrence(cs@, space@, 0);
            }
            k
        },
        None => cs.len(),
    };
    let ghost chunk = cs@.take(end as int);
    proof {
        assert(chunk == first_word(f@)) by {
            if first_occurrence(cs@, space@, 0) is None {
                assert(cs@.take(cs@.len() as int) =~= cs@);
            }
        }
        lemma_leading_digits_facts(chunk);
    }
    let mut len: usize = 0;
    let mut value: u64 = 0;
    while len < end && '0' <= cs[len] && cs[len] <= '9'
        invariant
            end <= cs@.len(),
            chunk == cs@.take(end as int),
            chunk == first_word(f@),
            leading_digits(chunk) <= chunk.len(),
            forall|j: int| 0 <= j < leading_digits(chunk) ==> is_digit_char(#[trigger] chunk[j]),
            leading_digits(chunk) < chunk.len() ==> !is_digit_char(chunk[leading_digits(chunk) as int]),
            0 <= len <= end,
            forall|j: int| 0 <= j < len ==> is_digit_char(#[trigger] cs@[j]),
            value == digits_number(cs@.take(len as int)),
            value <= i32::MAX,
        decreases end - len,
    {
        let d = cs[len];
        proof {
            assert(cs@.take(len + 1).drop_last() =~= cs@.take(len as int));
            assert(cs@.take(len + 1).last() == d);
        }
        let next = value * 10 + ((d as u32) - 48) as u64;
        if next > 2147483647 {
            proof {
                assert forall|j: int| 0 <= j < len + 1 implies is_digit_char(#[trigger] chunk[j]) by {
                    assert(chunk[j] == cs@[j]);
                }
                lemma_leading_digits_at_least(chunk, len as int + 1);
                lemma_digits_number_prefix(chunk, len as int + 1, leading_digits(chunk) as int);
                assert(chunk.take(len + 1) =~= cs@.take(len + 1));
            }
            return None;
        }
        value = next;
        len += 1;
    }
    proof {
        lemma_leading_digits_exact(chunk, len as int);
        assert(chunk.take(len as int) =~= cs@.take(len as int));
    }
    if len == 0 {
        return None;
    }
    let n = f.substring_char(0, len);
    let unit = f.substring_char(len, end);
    proof {
        assert(unit@ =~= chunk.skip(len as int));
        assert(n@ =~= chunk.take(len as int));
    }
    let one = value == 1;
    let unit_cs = chars_of(unit);
    let name = if same_chars(&unit_cs, &chars_of("s")) {
        if one { "second" } else { "seconds" }
    } else if same_chars(&unit_cs, &chars_of("m")) {
        if one { "minute" } else { "minutes" }
    } else if same_chars(&unit_cs, &chars_of("h")) {
        if one { "hour" } else { "hours" }
    } else {
        unit
    };
    let with_space = concat(n, " ");
    Some(concat(with_space.as_str(), name))
}

/// The leading digits of `cs` are digits, and the character after them is not.
proof fn lemma_leading_digits_facts(cs: Seq<char>)
    ensures
        leading_digits(cs) <= cs.len(),
        forall|j: int| 0 <= j < leading_digits(cs) ==> is_digit_char(#[trigger] cs[j]),
        leading_digits(cs) < cs.len() ==> !is_digit_char(cs[leading_digits(cs) as int]),
    decreases cs.len(),
{
    if cs.len() > 0 && is_digit_char(cs[0]) {
        let t = cs.drop_first();
        lemma_leading_digits_facts(t);
        assert forall|j: int| 0 <= j < leading_digits(cs) implies is_digit_char(#[trigger] cs[j]) by {
            if j > 0 {
                assert(cs[j] == t[j - 1]);
            }
        }
        if leading_digits(cs) < cs.len() {
            assert(cs[leading_digits(cs) as int] == t[leading_digits(t) as int]);
        }
    }
}

/// `cs` starts with at least `k` ASCII digits when its first `k` characters are digits.
proof fn lemma_leading_digits_at_least(cs: Seq<char>, k: int)
    requires
        0 <= k <= cs.len(),
        forall|j: int| 0 <= j < k ==> is_digit_char(#[trigger] cs[j]),
    ensures
        leading_digits(cs) >= k,
    decreases k,
{
    if k > 0 {
        lemma_leading_digits_at_least(cs.drop_first(), k - 1);
    }
}

/// `cs` starts with exactly `k` ASCII digits when its first `k` characters
/// are digits and the next is not (or there is none).
proof fn lemma_leading_digits_exact(cs: Seq<char>, k: int)
    requires
        0 <= k <= cs.len(),
        forall|j: int| 0 <= j < k ==> is_digit_char(#[trigger] cs[j]),
        k < cs.len() ==> !is_digit_char(cs[k]),
    ensures
        leading_digits(cs) == k,
    decreases k,
{
    if k > 0 {
        lemma_leading_digits_exact(cs.drop_first(), k - 1);
    }
}

/// A longer run of digits writes a number at least as large.
proof fn lemma_digits_number_prefix(cs: Seq<char>, i: int, j: int)
    requires
        0 <= i <= j <= cs.len(),
        forall|k: int| 0 <= k < j ==> is_digit_char(#[trigger] cs[k]),
    ensures
        digits_number(cs.take(i)) <= digits_number(cs.take(j)),
    decreases j - i,
{
    if i < j {
        lemma_digits_number_prefix(cs, i, j - 1);
        assert(cs.take(j).drop_last() =~= cs.take(j - 1));
        assert(is_digit_char(cs[j - 1]));
    }
}

/// The duration of `secs` seconds and `nanos` nanoseconds to its largest
/// unit, as `5 minutes` or `1 hour` (see `laconic`); `None` when the count
/// is not an `i32`.
pub fn format_duration_laconic(secs: u64, nanos: u32) -> (res: Option<String>)
    requires
        nanos < 1_000_000_000,
    ensures
        match res {
            Some(t) => laconic(humantime_text(secs, nanos)) == Some(t@),
            None => laconic(humantime_text(secs, nanos)) is None,
        },
{
    let formatted = format_std_duration(secs, nanos);
    laconic_text(formatted.as_str())
}

/// How a duration from now to a time is shown: `in ...` for a time not in
/// the past, `... ago` for one in the past, with the duration to its
/// largest unit (see `laconic`).
pub open spec fn relative_text(secs: i64, nanos: i32) -> Option<Seq<char>> {
    if secs < 0 || nanos < 0 {
        match laconic(humantime_text((-secs) as u64, (-nanos) as u32)) {
            Some(t) => Some(t + " ago"@),
            None => None,
        }
    } else {
        match laconic(humantime_text(secs as u64, nanos as u32)) {
            Some(t) => Some("in "@ + t),
            None => None,
        }
    }
}

/// Shows the time that is `secs` seconds and `nanos` nanoseconds from now
/// (both of the same sign, as chrono's `Duration` gives them) relative to
/// now (see `relative_text`); `None` when the count is not an `i32`.
pub fn display_relative_time(secs: i64, nanos: i32) -> (res: Option<String>)
    requires
        (secs >= 0 && 0 <= nanos < 1_000_000_000) || (secs <= 0 && -1_000_000_000 < nanos <= 0),
        secs > i64::MIN,
    ensures
        match res {
            Some(t) => relative_text(secs, nanos) == Some(t@),
            None => relative_text(secs, nanos) is None,
        },
{
    if secs < 0 || nanos < 0 {
        let text = format_duration_laconic((-secs) as u64, (-nanos) as u32);
        match text {
            Some(t) => Some(concat(t.as_str(), " ago")),
            None => None,
        }
    } else {
        let text = format_duration_laconic(secs as u64, nanos as u32);
        match text {
            Some(t) => Some(concat("in ", t.as_str())),
            None => None,
        }
    }
}

} // verus!
