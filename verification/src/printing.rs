use vstd::prelude::*;
use vstd::string::StringExecFns;
use crate::model::task::{DurationInSeconds, Timestamp, NANOS_PER_SECOND};
use crate::time_format::{display_relative_time, format_duration_laconic, humantime_text, laconic, relative_text};
use crate::time_reading::{all_digits, digit_chars_value};

verus! {

/// How a task is shown: by the state it is in, or as removed.
#[derive(Debug, PartialEq, Eq, Clone, Copy, Structural)]
pub enum Status {
    Complete,
    Incomplete,
    Blocked,
    Removed,
}

/// What was just done to a task, shown beside it.
#[derive(Debug, PartialEq, Eq, Clone, Copy, Structural)]
pub enum Action {
    NoAction,
    New,
    Delete,
    Check,
    Uncheck,
    Lock,
    Unlock,
    Select,
    Punt,
    Snooze,
    Unsnooze,
}

/// The date shown beside a task in a log, if any.
#[derive(Debug, PartialEq, Eq, Clone, Copy, Structural)]
pub enum LogDate {
    Invisible,
    YearMonthDay(u16, u8, u8),
}

/// Why a date cannot be shown.
#[derive(Debug, PartialEq, Eq, Clone, Copy, Structural)]
pub enum InvalidDate {
    YearOutOfRange(u16),
    MonthOutOfRange(u8),
    DayOutOfRange(u8),
}

impl LogDate {
    /// The date `y`-`m`-`d`: the year has four digits, the month is 1 to 12,
    /// the day 1 to 31. The first field out of range is the error.
    pub fn ymd(y: u16, m: u8, d: u8) -> (res: Result<LogDate, InvalidDate>)
        ensures
            res == if !(1000 <= y <= 9999) {
                Err(InvalidDate::YearOutOfRange(y))
            } else if m == 0 || m > 12 {
                Err(InvalidDate::MonthOutOfRange(m))
            } else if d == 0 || d > 31 {
                Err(InvalidDate::DayOutOfRange(d))
            } else {
                Ok(LogDate::YearMonthDay(y, m, d))
            },
    {
        if y < 1000 || y > 9999 {
            return Err(InvalidDate::YearOutOfRange(y));
        }
        if m == 0 || m > 12 {
            return Err(InvalidDate::MonthOutOfRange(m));
        }
        if d == 0 || d > 31 {
            return Err(InvalidDate::DayOutOfRange(d));
        }
        Ok(LogDate::YearMonthDay(y, m, d))
    }
}

/// A task shown by its number alone.
#[derive(Debug, PartialEq, Eq, Clone, Copy, Structural)]
pub struct BriefPrintableTask {
    pub number: i32,
    pub status: Status,
}

impl BriefPrintableTask {
    pub fn new(number: i32, status: Status) -> (res: BriefPrintableTask)
        ensures
            res == (BriefPrintableTask { number, status }),
    {
        BriefPrintableTask { number, status }
    }
}

/// Prints only the numbers of tasks, for scripts.
pub struct ScriptingTodoPrinter;

/// The terminal colors that task numbers are shown in.
#[derive(Debug, PartialEq, Eq, Clone, Copy, Structural)]
pub enum TermColor {
    Black,
    Red,
    Green,
    Yellow,
    Blue,
    Purple,
    Cyan,
    White,
}

/// The color a number of a task in `status` is shown in.
pub open spec fn status_color(status: Status) -> TermColor {
    match status {
        Status::Complete => TermColor::Green,
        Status::Incomplete => TermColor::Yellow,
        Status::Blocked => TermColor::Red,
        Status::Removed => TermColor::White,
    }
}

/// The digit of the foreground code of `c` after its leading 3.
pub open spec fn color_digit(c: TermColor) -> char {
    match c {
        TermColor::Black => '0',
        TermColor::Red => '1',
        TermColor::Green => '2',
        TermColor::Yellow => '3',
        TermColor::Blue => '4',
        TermColor::Purple => '5',
        TermColor::Cyan => '6',
        TermColor::White => '7',
    }
}

/// `text` in color `c` on a terminal: the escape code that sets the
/// foreground, the text, and the escape code that resets the style.
pub open spec fn painted(c: TermColor, text: Seq<char>) -> Seq<char> {
    seq!['\x1b', '[', '3', color_digit(c), 'm'] + text + seq!['\x1b', '[', '0', 'm']
}

/// `text` in bold and color `c` on a terminal.
pub open spec fn painted_bold(c: TermColor, text: Seq<char>) -> Seq<char> {
    seq!['\x1b', '[', '1', ';', '3', color_digit(c), 'm'] + text + seq!['\x1b', '[', '0', 'm']
}

/// `text` in bold, dimmed, and color `c` on a terminal.
pub open spec fn painted_bold_dimmed(c: TermColor, text: Seq<char>) -> Seq<char> {
    seq!['\x1b', '[', '1', ';', '2', ';', '3', color_digit(c), 'm'] + text + seq!['\x1b', '[', '0', 'm']
}

/// The decimal digit `d`.
pub open spec fn digit_char(d: nat) -> char {
    if d == 0 { '0' } else if d == 1 { '1' } else if d == 2 { '2' } else if d == 3 { '3' }
    else if d == 4 { '4' } else if d == 5 { '5' } else if d == 6 { '6' } else if d == 7 { '7' }
    else if d == 8 { '8' } else { '9' }
}

/// The decimal digits of `n`, without leading zeros.
pub open spec fn digits_of(n: nat) -> Seq<char>
    decreases n,
{
    if n < 10 {
        seq![digit_char(n)]
    } else {
        digits_of(n / 10).push(digit_char(n % 10))
    }
}

/// `n` written in decimal, with a minus sign when negative.
pub open spec fn decimal(n: int) -> Seq<char> {
    if n < 0 { seq!['-'] + digits_of((-n) as nat) } else { digits_of(n as nat) }
}

/// The parts joined with `sep` between each two.
pub open spec fn joined(parts: Seq<Seq<char>>, sep: Seq<char>) -> Seq<char>
    decreases parts.len(),
{
    if parts.len() == 0 {
        Seq::empty()
    } else if parts.len() == 1 {
        parts[0]
    } else {
        joined(parts.drop_last(), sep) + sep + parts.last()
    }
}

/// Writes `n` in decimal, followed by `)`, with std's formatting.
fn number_label(n: i32) -> (res: String)
    ensures
        res@ == decimal(n as int).push(')'),
{
    let d = decimal_text(n as i128);
    let res = concat(d.as_str(), ")");
    proof {
        reveal_strlit(")");
        assert(res@ =~= decimal(n as int).push(')'));
    }
    res
}

/// Writes `text` in color `c` with ansi_term's `Colour::normal().paint`;
/// the escape codes are those that ansi_term writes for a foreground color
/// alone (its `write_prefix`, `write_foreground_code` and `RESET`).
#[verifier::external_body]
fn paint_normal(c: TermColor, text: &str) -> (res: String)
    ensures
        res@ == painted(c, text@),
{
    let colour = match c {
        TermColor::Black => ansi_term::Colour::Black,
        TermColor::Red => ansi_term::Colour::Red,
        TermColor::Green => ansi_term::Colour::Green,
        TermColor::Yellow => ansi_term::Colour::Yellow,
        TermColor::Blue => ansi_term::Colour::Blue,
        TermColor::Purple => ansi_term::Colour::Purple,
        TermColor::Cyan => ansi_term::Colour::Cyan,
        TermColor::White => ansi_term::Colour::White,
    };
    format!("{}", colour.normal().paint(text))
}

/// Writes `text` in bold and color `c` with ansi_term's
/// `Colour::bold().paint`; the escape codes are those that ansi_term writes
/// for bold (`1`) and a foreground color.
#[verifier::external_body]
fn paint_bold(c: TermColor, text: &str) -> (res: String)
    ensures
        res@ == painted_bold(c, text@),
{
    let colour = match c {
        TermColor::Black => ansi_term::Colour::Black,
        TermColor::Red => ansi_term::Colour::Red,
        TermColor::Green => ansi_term::Colour::Green,
        TermColor::Yellow => ansi_term::Colour::Yellow,
        TermColor::Blue => ansi_term::Colour::Blue,
        TermColor::Purple => ansi_term::Colour::Purple,
        TermColor::Cyan => ansi_term::Colour::Cyan,
        TermColor::White => ansi_term::Colour::White,
    };
    format!("{}", colour.bold().paint(text))
}

/// Writes `text` in bold, dimmed, and color `c` with ansi_term's
/// `Colour::bold().dimmed().paint`; the escape codes are those that
/// ansi_term writes for bold (`1`), dimmed (`2`) and a foreground color.
#[verifier::external_body]
fn paint_bold_dimmed(c: TermColor, text: &str) -> (res: String)
    ensures
        res@ == painted_bold_dimmed(c, text@),
{
    let colour = match c {
        TermColor::Black => ansi_term::Colour::Black,
        TermColor::Red => ansi_term::Colour::Red,
        TermColor::Green => ansi_term::Colour::Green,
        TermColor::Yellow => ansi_term::Colour::Yellow,
        TermColor::Blue => ansi_term::Colour::Blue,
        TermColor::Purple => ansi_term::Colour::Purple,
        TermColor::Cyan => ansi_term::Colour::Cyan,
        TermColor::White => ansi_term::Colour::White,
    };
    format!("{}", colour.bold().dimmed().paint(text))
}


/// `a` followed by `b`.
pub(crate) fn concat(a: &str, b: &str) -> (res: String)
    ensures
        res@ == a@ + b@,
{
    let mut res = String::from_str(a);
    res.append(b);
    res
}

fn color_of(status: Status) -> (res: TermColor)
    ensures
        res == status_color(status),
{
    match status {
        Status::Complete => TermColor::Green,
        Status::Incomplete => TermColor::Yellow,
        Status::Blocked => TermColor::Red,
        Status::Removed => TermColor::White,
    }
}

/// The number of a task followed by `)`, in the color of its status.
pub fn format_number(number: i32, status: Status) -> (res: String)
    ensures
        res@ == painted(status_color(status), decimal(number as int).push(')')),
{
    let label = number_label(number);
    paint_normal(color_of(status), label.as_str())
}

/// How each task is shown in `format_numbers`.
pub open spec fn formatted_numbers(numbers: Seq<BriefPrintableTask>) -> Seq<Seq<char>> {
    numbers.map_values(|t: BriefPrintableTask| painted(status_color(t.status), decimal(t.number as int).push(')')))
}

/// The numbers of the tasks, each as `format_number` shows it, separated by
/// commas.
pub fn format_numbers(numbers: &[BriefPrintableTask]) -> (res: String)
    ensures
        res@ == joined(formatted_numbers(numbers@), seq![',', ' ']),
{
    let mut res = String::new();
    let mut i: usize = 0;
    while i < numbers.len()
        invariant
            0 <= i <= numbers@.len(),
            res@ == joined(formatted_numbers(numbers@.take(i as int)), seq![',', ' ']),
        decreases numbers@.len() - i,
    {
        let t = numbers[i];
        let part = format_number(t.number, t.status);
        let ghost prev = numbers@.take(i as int);
        let ghost next = numbers@.take(i + 1);
        proof {
            assert(next.drop_last() =~= prev);
            assert(formatted_numbers(next).drop_last() =~= formatted_numbers(prev));
            assert(formatted_numbers(next).last() == part@);
        }
        if i == 0 {
            res = part;
            proof {
                assert(formatted_numbers(next).len() == 1);
            }
        } else {
            let with_sep = concat(res.as_str(), ", ");
            proof {
                reveal_strlit(", ");
                assert(", "@ =~= seq![',', ' ']);
            }
            res = concat(with_sep.as_str(), part.as_str());
        }
        i += 1;
    }
    assert(numbers@.take(numbers@.len() as int) =~= numbers@);
    res
}


/// How close a due date is.
#[derive(Debug, PartialEq, Eq, Clone, Copy, Structural)]
pub enum Urgency {
    Meh,
    Moderate,
    Urgent,
}

/// A task due at `then` is urgent once it is overdue, moderately urgent
/// when it is due within a day of `now`, and not urgent otherwise.
pub fn calculate_urgency(now: Timestamp, then: Timestamp) -> (res: Urgency)
    ensures
        res == if then.nanos - now.nanos < 0 {
            Urgency::Urgent
        } else if then.nanos - now.nanos < 86400 * NANOS_PER_SECOND {
            Urgency::Moderate
        } else {
            Urgency::Meh
        },
{
    let day: i128 = 86400 * NANOS_PER_SECOND;
    if then.nanos < now.nanos {
        Urgency::Urgent
    } else if now.nanos > i128::MAX - day || then.nanos < now.nanos + day {
        Urgency::Moderate
    } else {
        Urgency::Meh
    }
}

/// Writes `n` in decimal, with std's formatting.
pub(crate) fn decimal_text(n: i128) -> (res: String)
    ensures
        res@ == decimal(n as int),
{
    if n < 0 {
        let m: u128 = ((-(n + 1)) as u128) + 1;
        let digits = digits_text(m);
        let res = concat("-", digits.as_str());
        proof {
            reveal_strlit("-");
            assert(res@ =~= seq!['-'] + digits_of((-n) as nat));
        }
        res
    } else {
        digits_text(n as u128)
    }
}

/// The digit `d` as text.
fn digit_text(d: u128) -> (res: &'static str)
    requires
        d < 10,
    ensures
        res@ == seq![digit_char(d as nat)],
{
    proof {
        reveal_strlit("0");
        reveal_strlit("1");
        reveal_strlit("2");
        reveal_strlit("3");
        reveal_strlit("4");
        reveal_strlit("5");
        reveal_strlit("6");
        reveal_strlit("7");
        reveal_strlit("8");
        reveal_strlit("9");
    }
    let res = if d == 0 { "0" } else if d == 1 { "1" } else if d == 2 { "2" } else if d == 3 { "3" }
        else if d == 4 { "4" } else if d == 5 { "5" } else if d == 6 { "6" } else if d == 7 { "7" }
        else if d == 8 { "8" } else { "9" };
    assert(res@ =~= seq![digit_char(d as nat)]);
    res
}

/// The decimal digits of `n`.
fn digits_text(n: u128) -> (res: String)
    ensures
        res@ == digits_of(n as nat),
    decreases n,
{
    if n < 10 {
        String::from_str(digit_text(n))
    } else {
        let head = digits_text(n / 10);
        concat(head.as_str(), digit_text(n % 10))
    }
}

/// `n` in decimal, with zeros in front up to `w` digits.
fn zero_padded_text(n: u128, w: usize) -> (res: String)
    ensures
        res@ == zero_padded(n as nat, w as nat),
{
    let digits = digits_text(n);
    let len = digits.as_str().unicode_len();
    if len >= w {
        return digits;
    }
    let mut res = String::new();
    let mut i: usize = 0;
    while i < w - len
        invariant
            len < w,
            0 <= i <= w - len,
            res@ == Seq::new(i as nat, |k: int| '0'),
        decreases w - len - i,
    {
        res = concat(res.as_str(), "0");
        proof {
            reveal_strlit("0");
            assert(Seq::new(i as nat, |k: int| '0') + "0"@ =~= Seq::new((i + 1) as nat, |k: int| '0'));
        }
        i += 1;
    }
    concat(res.as_str(), digits.as_str())
}

/// How a user names tasks: by number, by name, or by a range of numbers.
#[derive(Debug, Clone, PartialEq, Eq)]
pub enum Key {
    ByNumber(i32),
    ByName(String),
    ByRange(i32, i32),
}

/// How a key is shown: a number or a name in double quotes, or a range as
/// `range(a..b)`.
pub open spec fn key_text(key: Key) -> Seq<char> {
    match key {
        Key::ByNumber(n) => "\""@ + decimal(n as int) + "\""@,
        Key::ByName(name) => "\""@ + name@ + "\""@,
        Key::ByRange(a, b) => "range("@ + decimal(a as int) + ".."@ + decimal(b as int) + ")"@,
    }
}

/// Shows a key (see `key_text`).
pub fn format_key(key: &Key) -> (res: String)
    ensures
        res@ == key_text(*key),
{
    match key {
        Key::ByNumber(n) => {
            let d = decimal_text(*n as i128);
            concat(concat("\"", d.as_str()).as_str(), "\"")
        },
        Key::ByName(name) => concat(concat("\"", name.as_str()).as_str(), "\""),
        Key::ByRange(a, b) => {
            let da = decimal_text(*a as i128);
            let db = decimal_text(*b as i128);
            let head = concat(concat("range(", da.as_str()).as_str(), "..");
            concat(concat(head.as_str(), db.as_str()).as_str(), ")")
        },
    }
}

/// The keys, each as `format_key` shows it, separated by commas.
pub fn format_keys(keys: &[Key]) -> (res: String)
    ensures
        res@ == joined(keys@.map_values(|k: Key| key_text(k)), ", "@),
{
    let mut res = String::new();
    let mut i: usize = 0;
    while i < keys.len()
        invariant
            0 <= i <= keys@.len(),
            res@ == joined(keys@.take(i as int).map_values(|k: Key| key_text(k)), ", "@),
        decreases keys@.len() - i,
    {
        let part = format_key(&keys[i]);
        let ghost prev = keys@.take(i as int).map_values(|k: Key| key_text(k));
        let ghost next = keys@.take(i + 1).map_values(|k: Key| key_text(k));
        proof {
            assert(next.drop_last() =~= prev);
            assert(next.last() == part@);
        }
        if i == 0 {
            res = part;
        } else {
            res = concat(concat(res.as_str(), ", ").as_str(), part.as_str());
        }
        i += 1;
    }
    assert(keys@.take(keys@.len() as int) =~= keys@);
    res
}

/// A task number as `format_number` shows it.
pub open spec fn brief_text(t: BriefPrintableTask) -> Seq<char> {
    painted(status_color(t.status), decimal(t.number as int).push(')'))
}

/// Shows a task by its number (what `Display` shows of it).
pub fn brief_text_exec(t: &BriefPrintableTask) -> (res: String)
    ensures
        res@ == brief_text(*t),
{
    format_number(t.number, t.status)
}

/// `a`, then `b`, then `c`.
fn concat3(a: &str, b: &str, c: &str) -> (res: String)
    ensures
        res@ == a@ + b@ + c@,
{
    concat(concat(a, b).as_str(), c)
}

/// What can go wrong in a way the user is told of, without stopping.
#[derive(Debug, Clone, PartialEq, Eq)]
pub enum PrintableWarning {
    NoMatchFoundForKey { requested_key: Key },
    CannotCheckBecauseAlreadyComplete { cannot_check: BriefPrintableTask },
    CannotRestoreBecauseAlreadyIncomplete { cannot_restore: BriefPrintableTask },
    CannotUnblockBecauseTaskIsNotBlocked { cannot_unblock: BriefPrintableTask, requested_unblock_from: BriefPrintableTask },
    CannotPuntBecauseComplete { cannot_punt: BriefPrintableTask },
    CannotSnoozeBecauseComplete { cannot_snooze: BriefPrintableTask },
    SnoozedAfterDueDate { snoozed_task: BriefPrintableTask, due_date: Timestamp, snooze_date: Timestamp },
    AmbiguousKey { key: Key, matches: Vec<BriefPrintableTask> },
    NoPathFoundBetween(BriefPrintableTask, BriefPrintableTask),
}

/// What chrono's `DateTime<Utc>` shows (its `Display`) of the instant
/// `secs` seconds and `nanos` nanoseconds after the epoch, if it holds that
/// instant.
pub uninterp spec fn utc_text(secs: i64, nanos: u32) -> Option<Seq<char>>;

/// `chrono::DateTime::from_timestamp(secs, nanos)`, shown with its
/// `Display` (named `utc_text`); `None` where chrono holds no such instant.
#[verifier::external_body]
fn show_utc(secs: i64, nanos: u32) -> (res: Option<String>)
    ensures
        match res {
            Some(t) => utc_text(secs, nanos) == Some(t@),
            None => utc_text(secs, nanos) is None,
        },
{
    match chrono::DateTime::from_timestamp(secs, nanos) {
        Some(d) => Some(d.to_string()),
        None => None,
    }
}

/// The whole seconds of `t` (rounded down) and the nanoseconds past them.
pub open spec fn ts_parts(t: Timestamp) -> (int, int) {
    ((t.nanos as int) / (NANOS_PER_SECOND as int), (t.nanos as int) % (NANOS_PER_SECOND as int))
}

/// What chrono shows of the instant `t`, if the seconds fit an `i64` and
/// chrono holds the instant.
pub open spec fn timestamp_text(t: Timestamp) -> Option<Seq<char>> {
    let (secs, nanos) = ts_parts(t);
    if i64::MIN <= secs <= i64::MAX {
        utc_text(secs as i64, nanos as u32)
    } else {
        None
    }
}

/// Shows the instant `t` as chrono does (see `timestamp_text`).
fn show_timestamp(t: Timestamp) -> (res: Option<String>)
    ensures
        match res {
            Some(s) => timestamp_text(t) == Some(s@),
            None => timestamp_text(t) is None,
        },
{
    let n: u128 = 1_000_000_000;
    let (secs, nanos): (i128, i128) = if t.nanos >= 0 {
        let m = t.nanos as u128;
        ((m / n) as i128, (m % n) as i128)
    } else {
        // `-(t + 1)` cannot overflow; `t = -(m + 1)`.
        let m = (-(t.nanos + 1)) as u128;
        (-((m / n) as i128) - 1, (n - 1 - m % n) as i128)
    };
    proof {
        let (s0, r0) = ts_parts(t);
        if t.nanos >= 0 {
            assert(t.nanos == secs * 1_000_000_000 + nanos && 0 <= nanos < 1_000_000_000) by (nonlinear_arith)
                requires
                    secs == (t.nanos as u128) / 1_000_000_000u128,
                    nanos == (t.nanos as u128) % 1_000_000_000u128,
                    t.nanos >= 0;
        } else {
            let m = (-(t.nanos + 1)) as u128;
            assert(t.nanos == secs * 1_000_000_000 + nanos && 0 <= nanos < 1_000_000_000) by (nonlinear_arith)
                requires
                    m == -(t.nanos + 1),
                    secs == -((m / 1_000_000_000u128) as int) - 1,
                    nanos == 1_000_000_000 - 1 - m % 1_000_000_000u128;
        }
        vstd::arithmetic::div_mod::lemma_fundamental_div_mod_converse(t.nanos as int, 1_000_000_000, secs as int, nanos as int);
        assert(secs == s0 && nanos == r0);
    }
    if secs < -9223372036854775808i128 || secs > 9223372036854775807i128 {
        return None;
    }
    show_utc(secs as i64, nanos as u32)
}

/// The label that starts a warning.
pub open spec fn warning_label() -> Seq<char> {
    painted_bold(TermColor::Yellow, "warning"@) + ": "@
}

/// What is shown of a warning: `warning: ` in bold yellow, then the message.
/// `None` only when a date of the warning cannot be shown.
pub open spec fn warning_text(w: PrintableWarning) -> Option<Seq<char>> {
    let message = match w {
        PrintableWarning::NoMatchFoundForKey { requested_key } =>
            Some("No match found for "@ + key_text(requested_key)),
        PrintableWarning::CannotCheckBecauseAlreadyComplete { cannot_check } =>
            Some("Task "@ + brief_text(cannot_check) + " is already complete"@),
        PrintableWarning::CannotRestoreBecauseAlreadyIncomplete { cannot_restore } =>
            Some("Task "@ + brief_text(cannot_restore) + " is already incomplete"@),
        PrintableWarning::CannotUnblockBecauseTaskIsNotBlocked { cannot_unblock, requested_unblock_from } =>
            Some("Task "@ + brief_text(cannot_unblock) + " is not blocked by "@ + brief_text(requested_unblock_from)),
        PrintableWarning::CannotPuntBecauseComplete { cannot_punt } =>
            Some("Cannot punt "@ + brief_text(cannot_punt) + " because it is complete"@),
        PrintableWarning::CannotSnoozeBecauseComplete { cannot_snooze } =>
            Some("Cannot snooze "@ + brief_text(cannot_snooze) + " because it is complete"@),
        PrintableWarning::SnoozedAfterDueDate { snoozed_task, due_date, snooze_date: _ } =>
            match timestamp_text(due_date) {
                Some(d) => Some("Snoozed "@ + brief_text(snoozed_task) + " until after its due date "@ + d),
                None => None,
            },
        PrintableWarning::AmbiguousKey { key, matches } =>
            Some("Ambiguous key "@ + key_text(key) + " matches "@ + joined(formatted_numbers(matches@), seq![',', ' '])),
        PrintableWarning::NoPathFoundBetween(from, to) =>
            Some("No path found between "@ + brief_text(from) + " and "@ + brief_text(to)),
    };
    match message {
        Some(m) => Some(warning_label() + m),
        None => None,
    }
}

impl PrintableWarning {
    /// What is shown of the warning (see `warning_text`).
    pub fn text(&self) -> (res: Option<String>)
        ensures
            match res {
                Some(t) => warning_text(*self) == Some(t@),
                None => warning_text(*self) is None,
            },
    {
        let message = match self {
            PrintableWarning::NoMatchFoundForKey { requested_key } =>
                concat("No match found for ", format_key(requested_key).as_str()),
            PrintableWarning::CannotCheckBecauseAlreadyComplete { cannot_check } =>
                concat3("Task ", brief_text_exec(cannot_check).as_str(), " is already complete"),
            PrintableWarning::CannotRestoreBecauseAlreadyIncomplete { cannot_restore } =>
                concat3("Task ", brief_text_exec(cannot_restore).as_str(), " is already incomplete"),
            PrintableWarning::CannotUnblockBecauseTaskIsNotBlocked { cannot_unblock, requested_unblock_from } => {
                let head = concat3("Task ", brief_text_exec(cannot_unblock).as_str(), " is not blocked by ");
                concat(head.as_str(), brief_text_exec(requested_unblock_from).as_str())
            },
            PrintableWarning::CannotPuntBecauseComplete { cannot_punt } =>
                concat3("Cannot punt ", brief_text_exec(cannot_punt).as_str(), " because it is complete"),
            PrintableWarning::CannotSnoozeBecauseComplete { cannot_snooze } =>
                concat3("Cannot snooze ", brief_text_exec(cannot_snooze).as_str(), " because it is complete"),
            PrintableWarning::SnoozedAfterDueDate { snoozed_task, due_date, snooze_date: _ } => {
                match show_timestamp(*due_date) {
                    Some(d) => {
                        let head = concat3("Snoozed ", brief_text_exec(snoozed_task).as_str(), " until after its due date ");
                        concat(head.as_str(), d.as_str())
                    },
                    None => {
                        return None;
                    },
                }
            },
            PrintableWarning::AmbiguousKey { key, matches } => {
                let head = concat3("Ambiguous key ", format_key(key).as_str(), " matches ");
                concat(head.as_str(), format_numbers(matches.as_slice()).as_str())
            },
            PrintableWarning::NoPathFoundBetween(from, to) => {
                let head = concat3("No path found between ", brief_text_exec(from).as_str(), " and ");
                concat(head.as_str(), brief_text_exec(to).as_str())
            },
        };
        let label = concat(paint_bold(TermColor::Yellow, "warning").as_str(), ": ");
        Some(concat(label.as_str(), message.as_str()))
    }
}

/// What stops a command, as the user is told of it.
#[derive(Debug, PartialEq, Eq)]
pub enum PrintableError {
    CannotCheckBecauseBlocked { cannot_check: BriefPrintableTask, blocked_by: Vec<BriefPrintableTask> },
    CannotRestoreBecauseAntidependencyIsComplete {
        cannot_restore: BriefPrintableTask,
        complete_antidependencies: Vec<BriefPrintableTask>,
    },
    CannotBlockBecauseWouldCauseCycle { cannot_block: BriefPrintableTask, requested_dependency: BriefPrintableTask },
    CannotEditBecauseUnexpectedNumber { requested: i32 },
    CannotEditBecauseNoTaskWithNumber { requested: i32 },
    CannotEditBecauseInvalidLine { malformed_line: String },
    FailedToUseTextEditor,
    NoMatchForKeys { keys: Vec<Key> },
    CannotParseDueDate { cannot_parse: String },
    CannotParseDuration { cannot_parse: String },
    DurationIsTooLong { duration: u64, string_repr: String },
    ConflictingArgs((String, String)),
    CannotMerge {
        cycle_through: Vec<BriefPrintableTask>,
        adeps_of: Vec<BriefPrintableTask>,
        deps_of: Vec<BriefPrintableTask>,
    },
}

/// The task numbers, each as `format_number` shows it, separated by commas.
pub open spec fn numbers_text(ts: Seq<BriefPrintableTask>) -> Seq<char> {
    joined(formatted_numbers(ts), seq![',', ' '])
}

/// What is shown of an error: `error: ` in bold red, then the message.
pub open spec fn error_text(e: PrintableError) -> Seq<char> {
    let white = |t: Seq<char>| painted_bold(TermColor::White, t);
    let message = match e {
        PrintableError::CannotCheckBecauseBlocked { cannot_check, blocked_by } =>
            "Cannot complete "@ + brief_text(cannot_check) + " because it is blocked by "@ + numbers_text(blocked_by@),
        PrintableError::CannotRestoreBecauseAntidependencyIsComplete { cannot_restore, complete_antidependencies } =>
            "Cannot restore "@ + brief_text(cannot_restore) + " because it blocks complete tasks "@
                + numbers_text(complete_antidependencies@),
        PrintableError::CannotBlockBecauseWouldCauseCycle { cannot_block, requested_dependency } =>
            "Cannot block "@ + brief_text(cannot_block) + " on "@ + brief_text(requested_dependency)
                + " because it would create a cycle"@,
        PrintableError::CannotEditBecauseUnexpectedNumber { requested } =>
            "Number "@ + decimal(requested as int) + ") doesn't correspond to any of requested tasks"@,
        PrintableError::CannotEditBecauseNoTaskWithNumber { requested } =>
            "No task with number "@ + decimal(requested as int) + ")"@,
        PrintableError::CannotEditBecauseInvalidLine { malformed_line } =>
            "Could not parse line: \""@ + malformed_line@ + "\""@,
        PrintableError::FailedToUseTextEditor => "Failed to open text editor"@,
        PrintableError::NoMatchForKeys { keys } =>
            "No match for keys "@ + joined(keys@.map_values(|k: Key| key_text(k)), ", "@),
        PrintableError::CannotParseDueDate { cannot_parse } => "Cannot parse due date: "@ + white(cannot_parse@),
        PrintableError::CannotParseDuration { cannot_parse } => "Cannot parse duration: "@ + white(cannot_parse@),
        PrintableError::DurationIsTooLong { duration, string_repr } =>
            "Time budget is too long: "@ + white(decimal(duration as int) + " secs"@) + " (from "@ + white(string_repr@)
                + ").\n"@ + painted_bold_dimmed(TermColor::White, "note"@) + ": "@
                + "Must be less than ~136 years, or 2^32 seconds."@,
        PrintableError::ConflictingArgs((a, b)) =>
            "Cannot pass "@ + white(a@) + " and "@ + white(b@) + " at the same time"@,
        PrintableError::CannotMerge { cycle_through, adeps_of, deps_of } =>
            "Cannot merge: tasks "@ + numbers_text(cycle_through@) + " are adeps of "@ + numbers_text(adeps_of@)
                + " but deps of "@ + numbers_text(deps_of@),
    };
    painted_bold(TermColor::Red, "error"@) + ": "@ + message
}

impl PrintableError {
    /// What is shown of the error (see `error_text`).
    pub fn text(&self) -> (res: String)
        ensures
            res@ == error_text(*self),
    {
        let message = match self {
            PrintableError::CannotCheckBecauseBlocked { cannot_check, blocked_by } => {
                let head = concat3("Cannot complete ", brief_text_exec(cannot_check).as_str(), " because it is blocked by ");
                concat(head.as_str(), format_numbers(blocked_by.as_slice()).as_str())
            },
            PrintableError::CannotRestoreBecauseAntidependencyIsComplete { cannot_restore, complete_antidependencies } => {
                let head = concat3(
                    "Cannot restore ",
                    brief_text_exec(cannot_restore).as_str(),
                    " because it blocks complete tasks ",
                );
                concat(head.as_str(), format_numbers(complete_antidependencies.as_slice()).as_str())
            },
            PrintableError::CannotBlockBecauseWouldCauseCycle { cannot_block, requested_dependency } => {
                let head = concat3("Cannot block ", brief_text_exec(cannot_block).as_str(), " on ");
                concat3(head.as_str(), brief_text_exec(requested_dependency).as_str(), " because it would create a cycle")
            },
            PrintableError::CannotEditBecauseUnexpectedNumber { requested } => {
                let d = decimal_text(*requested as i128);
                concat3("Number ", d.as_str(), ") doesn't correspond to any of requested tasks")
            },
            PrintableError::CannotEditBecauseNoTaskWithNumber { requested } => {
                let d = decimal_text(*requested as i128);
                concat3("No task with number ", d.as_str(), ")")
            },
            PrintableError::CannotEditBecauseInvalidLine { malformed_line } =>
                concat3("Could not parse line: \"", malformed_line.as_str(), "\""),
            PrintableError::FailedToUseTextEditor => "Failed to open text editor".to_owned(),
            PrintableError::NoMatchForKeys { keys } => concat("No match for keys ", format_keys(keys.as_slice()).as_str()),
            PrintableError::CannotParseDueDate { cannot_parse } =>
                concat("Cannot parse due date: ", paint_bold(TermColor::White, cannot_parse.as_str()).as_str()),
            PrintableError::CannotParseDuration { cannot_parse } =>
                concat("Cannot parse duration: ", paint_bold(TermColor::White, cannot_parse.as_str()).as_str()),
            PrintableError::DurationIsTooLong { duration, string_repr } => {
                let secs = concat(decimal_text(*duration as i128).as_str(), " secs");
                let head = concat3(
                    "Time budget is too long: ",
                    paint_bold(TermColor::White, secs.as_str()).as_str(),
                    " (from ",
                );
                let mid = concat3(head.as_str(), paint_bold(TermColor::White, string_repr.as_str()).as_str(), ").\n");
                let note = concat3(
                    mid.as_str(),
                    paint_bold_dimmed(TermColor::White, "note").as_str(),
                    ": ",
                );
                concat(note.as_str(), "Must be less than ~136 years, or 2^32 seconds.")
            },
            PrintableError::ConflictingArgs((a, b)) => {
                let head = concat3("Cannot pass ", paint_bold(TermColor::White, a.as_str()).as_str(), " and ");
                concat3(head.as_str(), paint_bold(TermColor::White, b.as_str()).as_str(), " at the same time")
            },
            PrintableError::CannotMerge { cycle_through, adeps_of, deps_of } => {
                let head = concat3("Cannot merge: tasks ", format_numbers(cycle_through.as_slice()).as_str(), " are adeps of ");
                let tail = concat3(head.as_str(), format_numbers(adeps_of.as_slice()).as_str(), " but deps of ");
                concat(tail.as_str(), format_numbers(deps_of.as_slice()).as_str())
            },
        };
        let label = concat(paint_bold(TermColor::Red, "error").as_str(), ": ");
        concat(label.as_str(), message.as_str())
    }
}

/// A task with what is shown of it.
#[derive(Debug, PartialEq, Eq)]
pub struct PrintableTask<'a> {
    pub desc: &'a str,
    pub number: i32,
    pub status: Status,
    pub action: Action,
    pub log_date: Option<LogDate>,
    pub priority: i32,
    pub due_date: Option<Timestamp>,
    pub budget: Option<DurationInSeconds>,
    pub start_date: Option<Timestamp>,
    pub dependent_tasks: (usize, usize),
}

impl<'a> PrintableTask<'a> {
    /// A task shown with its description, number and status alone.
    pub fn new(desc: &'a str, number: i32, status: Status) -> (res: Self)
        ensures
            res == (PrintableTask {
                desc,
                number,
                status,
                action: Action::NoAction,
                log_date: None,
                priority: 0,
                due_date: None,
                budget: None,
                start_date: None,
                dependent_tasks: (0, 0),
            }),
    {
        PrintableTask {
            desc,
            number,
            status,
            action: Action::NoAction,
            log_date: None,
            priority: 0,
            due_date: None,
            budget: None,
            start_date: None,
            dependent_tasks: (0, 0),
        }
    }

    pub fn action(self, action: Action) -> (res: Self)
        ensures
            res == (PrintableTask { action, ..self }),
    {
        PrintableTask { action, ..self }
    }

    pub fn log_date(self, log_date: LogDate) -> (res: Self)
        ensures
            res == (PrintableTask { log_date: Some(log_date), ..self }),
    {
        PrintableTask { log_date: Some(log_date), ..self }
    }

    pub fn priority(self, priority: i32) -> (res: Self)
        ensures
            res == (PrintableTask { priority, ..self }),
    {
        PrintableTask { priority, ..self }
    }

    pub fn due_date(self, due_date: Timestamp) -> (res: Self)
        ensures
            res == (PrintableTask { due_date: Some(due_date), ..self }),
    {
        PrintableTask { due_date: Some(due_date), ..self }
    }

    pub fn budget(self, budget: DurationInSeconds) -> (res: Self)
        ensures
            res == (PrintableTask { budget: Some(budget), ..self }),
    {
        PrintableTask { budget: Some(budget), ..self }
    }

    pub fn start_date(self, start_date: Timestamp) -> (res: Self)
        ensures
            res == (PrintableTask { start_date: Some(start_date), ..self }),
    {
        PrintableTask { start_date: Some(start_date), ..self }
    }

    pub fn dependent_tasks(self, immediate: usize, total: usize) -> (res: Self)
        ensures
            res == (PrintableTask { dependent_tasks: (immediate, total), ..self }),
    {
        PrintableTask { dependent_tasks: (immediate, total), ..self }
    }
}

/// What a task line is laid out against.
#[derive(Debug, PartialEq, Eq, Clone, Copy, Structural)]
pub struct PrintingContext {
    /// The number of digits that task numbers may have, including a minus sign.
    pub max_index_digits: usize,
    /// The number of columns to render task descriptions in.
    pub width: usize,
    /// The current time.
    pub now: Timestamp,
}

/// How an action is shown beside a task.
pub open spec fn action_text(a: Action) -> Seq<char> {
    match a {
        Action::NoAction => "   "@,
        Action::New => painted(TermColor::Green, "NEW"@),
        Action::Delete => painted(TermColor::Red, "DEL"@),
        Action::Check => painted(TermColor::Green, "[✓]"@),
        Action::Uncheck => painted(TermColor::Yellow, "[ ]"@),
        Action::Lock => " "@ + painted(TermColor::Red, "🔒"@),
        Action::Unlock => " "@ + painted(TermColor::Green, "🔓"@),
        Action::Select => " * "@,
        Action::Punt => " ⏎ "@,
        Action::Snooze => painted(TermColor::Blue, "ZZZ"@),
        Action::Unsnooze => " "@ + painted(TermColor::Purple, "⏰"@),
    }
}

impl Action {
    /// How the action is shown (what `Display` shows of it).
    pub fn text(&self) -> (res: String)
        ensures
            res@ == action_text(*self),
    {
        match self {
            Action::NoAction => "   ".to_owned(),
            Action::New => paint_normal(TermColor::Green, "NEW"),
            Action::Delete => paint_normal(TermColor::Red, "DEL"),
            Action::Check => paint_normal(TermColor::Green, "[✓]"),
            Action::Uncheck => paint_normal(TermColor::Yellow, "[ ]"),
            Action::Lock => concat(" ", paint_normal(TermColor::Red, "🔒").as_str()),
            Action::Unlock => concat(" ", paint_normal(TermColor::Green, "🔓").as_str()),
            Action::Select => " * ".to_owned(),
            Action::Punt => " ⏎ ".to_owned(),
            Action::Snooze => paint_normal(TermColor::Blue, "ZZZ"),
            Action::Unsnooze => concat(" ", paint_normal(TermColor::Purple, "⏰").as_str()),
        }
    }
}

/// `n` in decimal, with zeros before it to make `w` digits.
pub open spec fn zero_padded(n: nat, w: nat) -> Seq<char> {
    let d = digits_of(n);
    if d.len() >= w {
        d
    } else {
        Seq::new((w - d.len()) as nat, |i: int| '0') + d
    }
}

/// `n` spaces.
pub open spec fn spaces(n: nat) -> Seq<char> {
    Seq::new(n, |i: int| ' ')
}

/// How a log date is shown: ten spaces, or the date as `YYYY-MM-DD`.
pub open spec fn log_date_text(d: LogDate) -> Seq<char> {
    match d {
        LogDate::Invisible => spaces(10),
        LogDate::YearMonthDay(y, m, dd) => zero_padded(y as nat, 4) + "-"@ + zero_padded(m as nat, 2) + "-"@
            + zero_padded(dd as nat, 2),
    }
}

/// Writes the date as `YYYY-MM-DD` (`{:04}-{:02}-{:02}`), with std's formatting.
fn ymd_text(y: u16, m: u8, d: u8) -> (res: String)
    ensures
        res@ == zero_padded(y as nat, 4) + "-"@ + zero_padded(m as nat, 2) + "-"@ + zero_padded(d as nat, 2),
{
    let ys = zero_padded_text(y as u128, 4);
    let ms = zero_padded_text(m as u128, 2);
    let ds = zero_padded_text(d as u128, 2);
    let a = concat(ys.as_str(), "-");
    let b = concat(a.as_str(), ms.as_str());
    let c = concat(b.as_str(), "-");
    concat(c.as_str(), ds.as_str())
}

/// `n` spaces.
fn spaces_text(n: usize) -> (res: String)
    ensures
        res@ == spaces(n as nat),
{
    let mut res = String::new();
    let mut i: usize = 0;
    while i < n
        invariant
            0 <= i <= n,
            res@ == spaces(i as nat),
        decreases n - i,
    {
        res = concat(res.as_str(), " ");
        proof {
            reveal_strlit(" ");
            assert(spaces(i as nat) + " "@ =~= spaces((i + 1) as nat));
        }
        i += 1;
    }
    res
}

impl LogDate {
    /// How the log date is shown (what `Display` shows of it).
    pub fn text(&self) -> (res: String)
        ensures
            res@ == log_date_text(*self),
    {
        match self {
            LogDate::Invisible => spaces_text(10),
            LogDate::YearMonthDay(y, m, d) => ymd_text(*y, *m, *d),
        }
    }
}

/// `s` aligned right in `w` characters: spaces before it to make `w`
/// characters (what `{:>w$}` writes).
pub open spec fn pad_left(s: Seq<char>, w: nat) -> Seq<char> {
    if s.len() >= w {
        s
    } else {
        spaces((w - s.len()) as nat) + s
    }
}

/// `s` aligned right in `w` characters (see `pad_left`).
fn pad_left_text(s: &str, w: usize) -> (res: String)
    ensures
        res@ == pad_left(s@, w as nat),
{
    let len = s.unicode_len();
    if len >= w {
        s.to_owned()
    } else {
        concat(spaces_text(w - len).as_str(), s)
    }
}

/// The columns that the color codes of a task number take.
pub const ANSI_OFFSET: usize = 10;
/// The columns before a description that an action and a number take, past
/// the digits of the number.
pub const SELECTOR_OFFSET: usize = 6;
/// The columns that a log date takes.
pub const LOG_DATE_OFFSET: usize = 11;

/// What comes before the description on the first line of a task: its log
/// date if it has one, its action, and its number aligned right.
pub open spec fn initial_indent(task: PrintableTask, ctx: PrintingContext) -> Seq<char> {
    let number = pad_left(
        brief_text(BriefPrintableTask { number: task.number, status: task.status }),
        (ctx.max_index_digits + ANSI_OFFSET) as nat,
    );
    match task.log_date {
        Some(d) => log_date_text(d) + " "@ + action_text(task.action) + " "@ + number + " "@,
        None => action_text(task.action) + " "@ + number + " "@,
    }
}

/// What comes before the description on the next lines of a task.
pub open spec fn subsequent_indent(task: PrintableTask, ctx: PrintingContext) -> Seq<char> {
    spaces((ctx.max_index_digits + SELECTOR_OFFSET + if task.log_date is Some { LOG_DATE_OFFSET } else { 0 }) as nat)
}

/// The color of a priority whose absolute value is `a`.
pub open spec fn priority_color(a: int) -> TermColor {
    if a >= 6 { TermColor::Red } else if a == 5 { TermColor::Yellow } else if a == 4 { TermColor::Green }
    else if a == 3 { TermColor::Cyan } else if a == 2 { TermColor::Blue } else if a == 1 { TermColor::Purple }
    else { TermColor::Black }
}

/// How a priority other than 0 is shown: `P` and the number, in bold in the
/// color of its size, dimmed when negative, then a space.
pub open spec fn priority_part(p: i32) -> Seq<char> {
    if p == 0 {
        Seq::empty()
    } else {
        let a = if p >= 0 { p as int } else { -p };
        let text = "P"@ + decimal(p as int);
        (if p >= 0 { painted_bold(priority_color(a), text) } else { painted_bold_dimmed(priority_color(a), text) }) + " "@
    }
}

/// The number that `s` writes in decimal: an optional `-`, then one or more
/// ASCII digits; none for any other text.
pub open spec fn signed_value(s: Seq<char>) -> Option<int> {
    if s.len() > 0 && s[0] == '-' {
        if all_digits(s.drop_first()) { Some(-(digit_chars_value(s.drop_first()) as int)) } else { None }
    } else if all_digits(s) {
        Some(digit_chars_value(s) as int)
    } else {
        None
    }
}

/// A decimal digit is an ASCII digit of its value.
pub proof fn lemma_digit_char_value(d: nat)
    requires
        d < 10,
    ensures
        crate::time_format::is_digit_char(digit_char(d)),
        digit_char(d) as int - 48 == d,
{
}

/// The digits of `n` read back as `n`.
pub proof fn lemma_digits_read_back(n: nat)
    ensures
        all_digits(digits_of(n)),
        digit_chars_value(digits_of(n)) == n,
    decreases n,
{
    if n < 10 {
        lemma_digit_char_value(n);
        assert(digits_of(n).drop_last() =~= Seq::<char>::empty());
        assert(digit_chars_value(Seq::<char>::empty()) == 0);
        assert(digit_chars_value(digits_of(n)) == n);
    } else {
        lemma_digits_read_back(n / 10);
        lemma_digit_char_value(n % 10);
        let ds = digits_of(n);
        assert(ds.drop_last() =~= digits_of(n / 10));
        assert(ds.last() == digit_char(n % 10));
        assert(digit_chars_value(ds) == (n / 10) * 10 + n % 10);
        assert forall|i: int| 0 <= i < ds.len() implies crate::time_format::is_digit_char(#[trigger] ds[i]) by {
            if i < ds.len() - 1 {
                assert(ds[i] == digits_of(n / 10)[i]);
            }
        }
    }
}

/// Decimal text reads back as the number it writes.
pub proof fn law_decimal_reads_back(n: int)
    ensures
        signed_value(decimal(n)) == Some(n),
{
    if n < 0 {
        lemma_digits_read_back((-n) as nat);
        assert(decimal(n).drop_first() =~= digits_of((-n) as nat));
    } else {
        lemma_digits_read_back(n as nat);
        assert(digits_of(n as nat)[0] != '-');
    }
}

/// The priority label of a task is `P` followed by its priority, sign
/// included, between a terminal style and the reset code, then a space; a
/// task of priority 0 has none.
pub proof fn law_priority_label_reads_back(p: i32)
    ensures
        p == 0 ==> priority_part(p) == Seq::<char>::empty(),
        p != 0 ==> exists|style: Seq<char>, t: Seq<char>| {
            &&& priority_part(p) == style + seq!['P'] + t + seq!['\x1b', '[', '0', 'm', ' ']
            &&& signed_value(t) == Some(p as int)
            &&& style.len() > 0 && style[0] == '\x1b' && style.last() == 'm'
            &&& !style.contains('P')
        },
{
    if p != 0 {
        let a = if p >= 0 { p as int } else { -p };
        let t = decimal(p as int);
        law_decimal_reads_back(p as int);
        reveal_strlit("P");
        reveal_strlit(" ");
        let c = priority_color(a);
        let style = if p >= 0 {
            seq!['\x1b', '[', '1', ';', '3', color_digit(c), 'm']
        } else {
            seq!['\x1b', '[', '1', ';', '2', ';', '3', color_digit(c), 'm']
        };
        assert(priority_part(p) =~= style + seq!['P'] + t + seq!['\x1b', '[', '0', 'm', ' ']);
        assert(!style.contains('P')) by {
            if style.contains('P') {
                let i = choose|i: int| 0 <= i < style.len() && style[i] == 'P';
            }
        }
    }
}

/// The seconds and nanoseconds of a span of `d` nanoseconds, both rounded
/// toward zero (as chrono's `Duration` gives them).
pub open spec fn duration_parts(d: int) -> (int, int) {
    if d >= 0 {
        (d / NANOS_PER_SECOND as int, d % NANOS_PER_SECOND as int)
    } else {
        (-((-d) / NANOS_PER_SECOND as int), -((-d) % NANOS_PER_SECOND as int))
    }
}

/// How long a task is still snoozed, shown in bold purple, then a space;
/// nothing once its start date has come. `None` when the span cannot be shown.
pub open spec fn snooze_part(task: PrintableTask, ctx: PrintingContext) -> Option<Seq<char>> {
    match task.start_date {
        Some(start) => {
            let d = start.nanos - ctx.now.nanos;
            if d > 0 {
                let (secs, nanos) = duration_parts(d);
                match laconic(humantime_text(secs as u64, nanos as u32)) {
                    Some(t) => Some(painted_bold(TermColor::Purple, "Snoozed for "@ + t) + " "@),
                    None => None,
                }
            } else {
                Some(Seq::empty())
            }
        },
        None => Some(Seq::empty()),
    }
}

/// The urgency of a task due at `then` (see `calculate_urgency`).
pub open spec fn urgency_of(now: Timestamp, then: Timestamp) -> Urgency {
    if then.nanos - now.nanos < 0 {
        Urgency::Urgent
    } else if then.nanos - now.nanos < 86400 * NANOS_PER_SECOND {
        Urgency::Moderate
    } else {
        Urgency::Meh
    }
}

/// `text` in the style of `urgency`: bold red, bold yellow, or bold dimmed white.
pub open spec fn urgency_styled(urgency: Urgency, text: Seq<char>) -> Seq<char> {
    match urgency {
        Urgency::Urgent => painted_bold(TermColor::Red, text),
        Urgency::Moderate => painted_bold(TermColor::Yellow, text),
        Urgency::Meh => painted_bold_dimmed(TermColor::White, text),
    }
}

/// How the share of its budget a task should have used is shown, when it is
/// between 0 and 100 percent: a label, then the percentage in dimmed white
/// below 50, yellow below 80, red from 80 on.
pub open spec fn progress_part(p: i32) -> Seq<char> {
    if 0 <= p <= 100 {
        let pct = decimal(p as int) + "%"@;
        painted_bold(TermColor::White, "Target progress"@) + " "@
            + (if p < 50 { painted_bold_dimmed(TermColor::White, pct) } else if p < 80 {
                painted_bold(TermColor::Yellow, pct)
            } else {
                painted_bold(TermColor::Red, pct)
            }) + " "@
    } else {
        Seq::empty()
    }
}

/// When a task is due, relative to now and styled by its urgency, then how
/// much of its budget should be used (`progress`, when it has a budget).
/// `None` when the span cannot be shown.
pub open spec fn due_part(task: PrintableTask, ctx: PrintingContext, progress: Option<i32>) -> Option<Seq<char>> {
    match task.due_date {
        Some(due) => {
            let (secs, nanos) = duration_parts(due.nanos - ctx.now.nanos);
            match relative_text(secs as i64, nanos as i32) {
                Some(desc) => Some(urgency_styled(urgency_of(ctx.now, due), "Due "@ + desc) + " "@ + match (task.budget, progress) {
                    (Some(_), Some(p)) => progress_part(p),
                    _ => Seq::empty(),
                }),
                None => None,
            }
        },
        None => Some(Seq::empty()),
    }
}

/// How many tasks wait on a task, directly and in all, when some do.
pub open spec fn dependents_part(immediate: usize, total: usize) -> Seq<char> {
    if total > 0 {
        painted(TermColor::White, "🔓"@ + decimal(immediate as int) + "/"@ + decimal(total as int)) + " "@
    } else {
        Seq::empty()
    }
}

/// The text of a task before it is wrapped: what is shown of its snooze,
/// priority, due date and dependents, then its description.
pub open spec fn task_body(task: PrintableTask, ctx: PrintingContext, progress: Option<i32>) -> Option<Seq<char>> {
    match (snooze_part(task, ctx), due_part(task, ctx, progress)) {
        (Some(snooze), Some(due)) => Some(snooze + priority_part(task.priority) + due
            + dependents_part(task.dependent_tasks.0, task.dependent_tasks.1) + task.desc@),
        _ => None,
    }
}

/// What textwrap's `fill` gives for `text` wrapped at `width` columns with
/// these indents, without breaking words.
pub uninterp spec fn filled(text: Seq<char>, width: usize, initial: Seq<char>, subsequent: Seq<char>) -> Seq<char>;

/// `textwrap::fill` with `Options::new(width)`, the initial and subsequent
/// indents, and `break_words(false)` (named `filled`).
#[verifier::external_body]
fn fill(text: &str, width: usize, initial: &str, subsequent: &str) -> (res: String)
    ensures
        res@ == filled(text@, width, initial@, subsequent@),
{
    textwrap::fill(text, textwrap::Options::new(width).initial_indent(initial).break_words(false).subsequent_indent(subsequent))
}

/// An instant that chrono's `DateTime<Utc>` can hold, with room to spare.
pub open spec fn in_date_range(t: Timestamp) -> bool {
    -0x2000_0000_0000_0000_0000 < t.nanos < 0x2000_0000_0000_0000_0000
}

/// How a task is shown in a list: its indent, then its body wrapped to the
/// width of the context (see `task_body`). `progress` is the share of its
/// budget, in percent, that the task should have used by now, when it has a
/// budget and a due date. `None` when a span of time cannot be shown.
pub fn task_text(task: &PrintableTask, ctx: &PrintingContext, progress: Option<i32>) -> (res: Option<String>)
    requires
        task.priority != i32::MIN,
        in_date_range(ctx.now),
        task.due_date matches Some(d) ==> in_date_range(d),
        task.start_date matches Some(d) ==> in_date_range(d),
        ctx.max_index_digits + ANSI_OFFSET + SELECTOR_OFFSET + LOG_DATE_OFFSET <= usize::MAX,
    ensures
        match res {
            Some(t) => task_body(*task, *ctx, progress) matches Some(body)
                && t@ == filled(body, ctx.width, initial_indent(*task, *ctx), subsequent_indent(*task, *ctx)),
            None => task_body(*task, *ctx, progress) is None,
        },
{
    let number = pad_left_text(format_number(task.number, task.status).as_str(), ctx.max_index_digits + ANSI_OFFSET);
    let start = match task.log_date {
        Some(d) => {
            let head = concat3(d.text().as_str(), " ", task.action.text().as_str());
            concat3(head.as_str(), " ", concat(number.as_str(), " ").as_str())
        },
        None => concat3(task.action.text().as_str(), " ", concat(number.as_str(), " ").as_str()),
    };
    proof {
        match task.log_date {
            Some(d) => {
                assert(start@ =~= initial_indent(*task, *ctx));
            },
            None => {
                assert(start@ =~= initial_indent(*task, *ctx));
            },
        }
    }
    let sub = spaces_text(ctx.max_index_digits + SELECTOR_OFFSET + if task.log_date.is_some() { LOG_DATE_OFFSET } else { 0 });
    let body = match task_body_text(task, ctx, progress) {
        Some(b) => b,
        None => {
            return None;
        },
    };
    Some(fill(body.as_str(), ctx.width, start.as_str(), sub.as_str()))
}

/// The text of a task before it is wrapped (see `task_body`).
fn task_body_text(task: &PrintableTask, ctx: &PrintingContext, progress: Option<i32>) -> (res: Option<String>)
    requires
        task.priority != i32::MIN,
        in_date_range(ctx.now),
        task.due_date matches Some(d) ==> in_date_range(d),
        task.start_date matches Some(d) ==> in_date_range(d),
    ensures
        match res {
            Some(t) => task_body(*task, *ctx, progress) == Some(t@),
            None => task_body(*task, *ctx, progress) is None,
        },
{
    let snooze = match snooze_text(task, ctx) {
        Some(t) => t,
        None => {
            return None;
        },
    };
    let due = match due_text(task, ctx, progress) {
        Some(t) => t,
        None => {
            return None;
        },
    };
    let priority = priority_text(task.priority);
    let (immediate, total) = task.dependent_tasks;
    let dependents = dependents_text(immediate, total);
    let head = concat3(snooze.as_str(), priority.as_str(), due.as_str());
    let res = concat3(head.as_str(), dependents.as_str(), task.desc);
    proof {
        assert(res@ =~= snooze@ + priority_part(task.priority) + due@ + dependents_part(immediate, total) + task.desc@);
    }
    Some(res)
}

/// How long a task is still snoozed (see `snooze_part`).
fn snooze_text(task: &PrintableTask, ctx: &PrintingContext) -> (res: Option<String>)
    requires
        in_date_range(ctx.now),
        task.start_date matches Some(d) ==> in_date_range(d),
    ensures
        match res {
            Some(t) => snooze_part(*task, *ctx) == Some(t@),
            None => snooze_part(*task, *ctx) is None,
        },
{
    match task.start_date {
        Some(start) => {
            let d = start.nanos - ctx.now.nanos;
            if d > 0 {
                let (secs, nanos) = split_duration(d);
                match format_duration_laconic(secs as u64, nanos as u32) {
                    Some(t) => {
                        let text = concat("Snoozed for ", t.as_str());
                        Some(concat(paint_bold(TermColor::Purple, text.as_str()).as_str(), " "))
                    },
                    None => None,
                }
            } else {
                Some(String::new())
            }
        },
        None => Some(String::new()),
    }
}

/// When a task is due (see `due_part`).
fn due_text(task: &PrintableTask, ctx: &PrintingContext, progress: Option<i32>) -> (res: Option<String>)
    requires
        in_date_range(ctx.now),
        task.due_date matches Some(d) ==> in_date_range(d),
    ensures
        match res {
            Some(t) => due_part(*task, *ctx, progress) == Some(t@),
            None => due_part(*task, *ctx, progress) is None,
        },
{
    match task.due_date {
        Some(due) => {
            let (secs, nanos) = split_duration(due.nanos - ctx.now.nanos);
            match display_relative_time(secs as i64, nanos as i32) {
                Some(desc) => {
                    let styled = urgency_text(calculate_urgency(ctx.now, due), concat("Due ", desc.as_str()).as_str());
                    let progress_text = match (task.budget, progress) {
                        (Some(_), Some(p)) => progress_text(p),
                        _ => String::new(),
                    };
                    Some(concat3(styled.as_str(), " ", progress_text.as_str()))
                },
                None => None,
            }
        },
        None => Some(String::new()),
    }
}

/// How many tasks wait on a task (see `dependents_part`).
fn dependents_text(immediate: usize, total: usize) -> (res: String)
    ensures
        res@ == dependents_part(immediate, total),
{
    if total > 0 {
        let counts = concat3(decimal_text(immediate as i128).as_str(), "/", decimal_text(total as i128).as_str());
        concat(paint_normal(TermColor::White, concat("🔓", counts.as_str()).as_str()).as_str(), " ")
    } else {
        String::new()
    }
}

/// The seconds and nanoseconds of a span of `d` nanoseconds (see `duration_parts`).
fn split_duration(d: i128) -> (res: (i128, i128))
    requires
        -0x4000_0000_0000_0000_0000 < d < 0x4000_0000_0000_0000_0000,
    ensures
        res.0 == duration_parts(d as int).0,
        res.1 == duration_parts(d as int).1,
        -0x10_0000_0000_0000 < res.0 < 0x10_0000_0000_0000,
        d >= 0 ==> res.0 >= 0 && 0 <= res.1 < 1_000_000_000,
        d < 0 ==> res.0 <= 0 && -1_000_000_000 < res.1 <= 0,
{
    let n: u128 = 1_000_000_000;
    if d >= 0 {
        let m = d as u128;
        let q = m / n;
        assert(q < 0x10_0000_0000_0000) by (nonlinear_arith)
            requires
                q == m / 1_000_000_000u128,
                m < 0x4000_0000_0000_0000_0000u128;
        (q as i128, (m % n) as i128)
    } else {
        let m = (-d) as u128;
        let q = m / n;
        assert(q < 0x10_0000_0000_0000) by (nonlinear_arith)
            requires
                q == m / 1_000_000_000u128,
                m <= 0x4000_0000_0000_0000_0000u128;
        (-(q as i128), -((m % n) as i128))
    }
}

/// How a priority is shown (see `priority_part`).
fn priority_text(p: i32) -> (res: String)
    requires
        p != i32::MIN,
    ensures
        res@ == priority_part(p),
{
    if p == 0 {
        return String::new();
    }
    let a = if p >= 0 { p } else { -p };
    let color = if a >= 6 { TermColor::Red } else if a == 5 { TermColor::Yellow } else if a == 4 { TermColor::Green }
        else if a == 3 { TermColor::Cyan } else if a == 2 { TermColor::Blue } else if a == 1 { TermColor::Purple }
        else { TermColor::Black };
    let text = concat("P", decimal_text(p as i128).as_str());
    let styled = if p >= 0 { paint_bold(color, text.as_str()) } else { paint_bold_dimmed(color, text.as_str()) };
    concat(styled.as_str(), " ")
}

/// `text` in the style of `urgency` (see `urgency_styled`).
fn urgency_text(urgency: Urgency, text: &str) -> (res: String)
    ensures
        res@ == urgency_styled(urgency, text@),
{
    match urgency {
        Urgency::Urgent => paint_bold(TermColor::Red, text),
        Urgency::Moderate => paint_bold(TermColor::Yellow, text),
        Urgency::Meh => paint_bold_dimmed(TermColor::White, text),
    }
}

/// How the share of its budget a task should have used is shown (see `progress_part`).
fn progress_text(p: i32) -> (res: String)
    ensures
        res@ == progress_part(p),
{
    if 0 <= p && p <= 100 {
        let pct = concat(decimal_text(p as i128).as_str(), "%");
        let styled = if p < 50 {
            paint_bold_dimmed(TermColor::White, pct.as_str())
        } else if p < 80 {
            paint_bold(TermColor::Yellow, pct.as_str())
        } else {
            paint_bold(TermColor::Red, pct.as_str())
        };
        let label = concat(paint_bold(TermColor::White, "Target progress").as_str(), " ");
        concat3(label.as_str(), styled.as_str(), " ")
    } else {
        String::new()
    }
}

} // verus!
