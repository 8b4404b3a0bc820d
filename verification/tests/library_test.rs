use chrono::TimeZone;
use chrono::Utc;
use todo::model::task::{DurationInSeconds, NewOptions, TaskId, TaskStatus, Timestamp};
use todo::model::task_set::TaskSet;
use todo::model::todo_list::{
    BlockError, CheckError, CheckOptions, PuntError, RestoreError, SnoozeWarning, TodoList, UnblockError,
};
use todo::printing::{
    calculate_urgency, format_number, format_numbers, BriefPrintableTask, InvalidDate, LogDate, Status, Urgency,
};
use todo::time_format::{
    display_relative_time, format_duration_laconic, hour_of_day, parse_time_of_day_step, read_time_of_day, Midi,
    ParseTimeError, ParseTimeOfDayState,
};

fn ts(y: i32, mo: u32, d: u32, h: u32, mi: u32, s: u32) -> Timestamp {
    let t = Utc.with_ymd_and_hms(y, mo, d, h, mi, s).unwrap();
    Timestamp::from_secs_nanos(t.timestamp(), t.timestamp_subsec_nanos())
}

fn run_steps(s: &str) -> Result<ParseTimeOfDayState, ParseTimeError> {
    let mut state = ParseTimeOfDayState::ParsingNumber { number_so_far: (0, 0) };
    for c in s.chars() {
        state = parse_time_of_day_step(s, state, c)?;
    }
    Ok(state)
}

#[test]
fn number_then_lookup_gives_the_task_back() {
    let mut list = TodoList::new();
    let a = list.add("a");
    let b = list.add("b");
    let c = list.add("c");
    list.check(b).unwrap();
    for id in [a, b, c] {
        let n = list.position(id).unwrap();
        assert_eq!(list.lookup_by_number(n), Some(id));
    }
    assert_eq!(list.position(b), Some(0));
    assert_eq!(list.position(a), Some(1));
    assert_eq!(list.lookup_by_number(3), None);
    assert_eq!(list.lookup_by_number(-1), None);
}

#[test]
fn check_then_restore_gives_back_the_same_tasks() {
    let mut list = TodoList::new();
    let a = list.add("a");
    let b = list.add("b");
    list.check(a).unwrap();
    let before_complete: Vec<TaskId> = list.complete_tasks().collect();
    let before_incomplete: Vec<TaskId> = list.incomplete_tasks().collect();
    list.check(b).unwrap();
    list.restore(b).unwrap();
    assert_eq!(list.complete_tasks().collect::<Vec<_>>(), before_complete);
    assert_eq!(list.incomplete_tasks().collect::<Vec<_>>(), before_incomplete);
    assert_eq!(list.status(b), Some(TaskStatus::Incomplete));
}

#[test]
fn block_then_unblock_gives_back_the_same_deps() {
    let mut list = TodoList::new();
    let a = list.add("a");
    let b = list.add("b");
    list.block(b).on(a).unwrap();
    assert_eq!(list.deps(b).iter_sorted(&list).collect::<Vec<_>>(), vec![a]);
    list.unblock(b).from(a).unwrap();
    assert_eq!(list.deps(b).iter_sorted(&list).collect::<Vec<_>>(), Vec::<TaskId>::new());
    assert_eq!(list.status(b), Some(TaskStatus::Incomplete));
}

#[test]
fn block_fails_exactly_on_self_or_cycle() {
    let mut list = TodoList::new();
    let a = list.add("a");
    let b = list.add("b");
    let c = list.add("c");
    assert!(matches!(list.block(a).on(a), Err(BlockError::WouldBlockOnSelf)));
    list.block(b).on(a).unwrap();
    list.block(c).on(b).unwrap();
    assert!(matches!(list.block(a).on(c), Err(BlockError::WouldCycle(_))));
    // Blocking again on an existing dependency is no cycle.
    assert!(list.block(c).on(b).is_ok());
}

#[test]
fn unblock_errors() {
    let mut list = TodoList::new();
    let a = list.add("a");
    let b = list.add("b");
    assert_eq!(list.unblock(a).from(a).unwrap_err(), UnblockError::WouldUnblockFromSelf);
    assert_eq!(list.unblock(b).from(a).unwrap_err(), UnblockError::WasNotDirectlyBlocking);
}

#[test]
fn check_errors_and_blockers_in_list_order() {
    let mut list = TodoList::new();
    let a = list.add("a");
    let b = list.add("b");
    let c = list.add("c");
    list.block(c).on(b).unwrap();
    list.block(c).on(a).unwrap();
    assert_eq!(list.check(c), Err(CheckError::TaskIsBlockedBy(vec![a, b])));
    list.check(a).unwrap();
    assert_eq!(list.check(a), Err(CheckError::TaskIsAlreadyComplete));
    assert_eq!(list.check(c), Err(CheckError::TaskIsBlockedBy(vec![b])));
}

#[test]
fn checked_snoozed_task_starts_at_creation() {
    let mut list = TodoList::new();
    let created = ts(2021, 5, 25, 9, 0, 0);
    let a = list.add(NewOptions::new().desc("a").creation_time(created).start_date(ts(2021, 6, 1, 0, 0, 0)));
    list.check(CheckOptions { id: a, now: ts(2021, 5, 26, 0, 0, 0) }).unwrap();
    let task = list.get(a).unwrap();
    assert_eq!(task.completion_time, Some(ts(2021, 5, 26, 0, 0, 0)));
    assert_eq!(task.start_date, created);
}

#[test]
fn restore_errors() {
    let mut list = TodoList::new();
    let a = list.add("a");
    let b = list.add("b");
    assert_eq!(list.restore(a), Err(RestoreError::TaskIsAlreadyIncomplete));
    list.block(b).on(a).unwrap();
    list.check(a).unwrap();
    list.check(b).unwrap();
    assert_eq!(list.restore(a), Err(RestoreError::WouldRestore(TaskSet::of(b))));
    assert!(list.force_restore(a).is_ok());
    assert_eq!(list.status(a), Some(TaskStatus::Incomplete));
    assert_eq!(list.status(b), Some(TaskStatus::Blocked));
}

#[test]
fn force_check_of_complete_task_fails() {
    let mut list = TodoList::new();
    let a = list.add("a");
    list.check(a).unwrap();
    assert_eq!(list.force_check(a).unwrap_err(), CheckError::TaskIsAlreadyComplete);
}

#[test]
fn punt_and_snooze_of_complete_task_fail() {
    let mut list = TodoList::new();
    let a = list.add("a");
    list.check(a).unwrap();
    assert_eq!(list.punt(a), Err(PuntError::TaskIsComplete));
    assert_eq!(list.snooze(a, ts(2021, 6, 1, 0, 0, 0)), Err(vec![SnoozeWarning::TaskIsComplete]));
}

#[test]
fn transitive_deps_and_adeps() {
    let mut list = TodoList::new();
    let a = list.add("a");
    let b = list.add("b");
    let c = list.add("c");
    let d = list.add("d");
    list.block(b).on(a).unwrap();
    list.block(c).on(b).unwrap();
    list.block(d).on(a).unwrap();
    assert_eq!(list.transitive_deps(c).iter_sorted(&list).collect::<Vec<_>>(), vec![a, b]);
    assert_eq!(list.transitive_adeps(a).iter_sorted(&list).collect::<Vec<_>>(), vec![b, d, c]);
}

#[test]
fn set_budget_returns_the_task() {
    let mut list = TodoList::new();
    let a = list.add("a");
    let affected = list.set_budget(a, DurationInSeconds(60));
    assert_eq!(affected.iter_sorted(&list).collect::<Vec<_>>(), vec![a]);
    assert_eq!(list.get(a).unwrap().budget, DurationInSeconds(60));
}

#[test]
fn current_time_is_after_the_code_was_written() {
    assert!(Timestamp::now().nanos > ts(2021, 1, 1, 0, 0, 0).nanos);
}

#[test]
fn timestamp_moves_back_by_seconds() {
    assert_eq!(ts(2021, 1, 2, 0, 0, 0).minus_secs(86400), ts(2021, 1, 1, 0, 0, 0));
}

#[test]
fn log_date_fields_out_of_range() {
    assert_eq!(LogDate::ymd(999, 1, 1), Err(InvalidDate::YearOutOfRange(999)));
    assert_eq!(LogDate::ymd(2021, 13, 1), Err(InvalidDate::MonthOutOfRange(13)));
    assert_eq!(LogDate::ymd(2021, 0, 1), Err(InvalidDate::MonthOutOfRange(0)));
    assert_eq!(LogDate::ymd(2021, 1, 32), Err(InvalidDate::DayOutOfRange(32)));
    assert_eq!(LogDate::ymd(2021, 1, 31), Ok(LogDate::YearMonthDay(2021, 1, 31)));
}

#[test]
fn format_number_colors_by_status() {
    assert_eq!(format_number(-2, Status::Complete), "\u{1b}[32m-2)\u{1b}[0m");
    assert_eq!(format_number(1, Status::Incomplete), "\u{1b}[33m1)\u{1b}[0m");
    assert_eq!(format_number(10, Status::Blocked), "\u{1b}[31m10)\u{1b}[0m");
    assert_eq!(format_number(0, Status::Removed), "\u{1b}[37m0)\u{1b}[0m");
}

#[test]
fn format_numbers_joins_with_commas() {
    let numbers = vec![BriefPrintableTask::new(1, Status::Incomplete), BriefPrintableTask::new(2, Status::Blocked)];
    assert_eq!(format_numbers(&numbers), "\u{1b}[33m1)\u{1b}[0m, \u{1b}[31m2)\u{1b}[0m");
    assert_eq!(format_numbers(&[]), "");
}

#[test]
fn urgency_by_time_left() {
    let now = ts(2021, 4, 30, 12, 0, 0);
    assert_eq!(calculate_urgency(now, ts(2021, 4, 30, 11, 0, 0)), Urgency::Urgent);
    assert_eq!(calculate_urgency(now, ts(2021, 5, 1, 11, 0, 0)), Urgency::Moderate);
    assert_eq!(calculate_urgency(now, ts(2021, 5, 1, 12, 0, 0)), Urgency::Meh);
}

#[test]
fn time_of_day_steps() {
    assert_eq!(run_steps("5:30pm"), Ok(ParseTimeOfDayState::FullInfo { hour: 5, minute: 30, midi: Midi::Pm }));
    assert_eq!(run_steps("12am"), Ok(ParseTimeOfDayState::FullInfo { hour: 12, minute: 0, midi: Midi::Am }));
    assert_eq!(run_steps("9:1"), Ok(ParseTimeOfDayState::ParsingTimeOClock { hour: 9, minute_so_far: (2, 3) }));
    assert_eq!(run_steps("5x"), Err(ParseTimeError::UnexpectedChar('x')));
    assert!(matches!(run_steps("300a"), Err(ParseTimeError::InvalidHour(_))));
    assert!(matches!(run_steps("a"), Err(ParseTimeError::InvalidHour(_))));
    assert!(matches!(run_steps("1:999p"), Err(ParseTimeError::InvalidMinute(_))));
}

#[test]
fn hours_of_day() {
    assert_eq!(hour_of_day(12, Midi::Am), Ok(0));
    assert_eq!(hour_of_day(12, Midi::Pm), Ok(12));
    assert_eq!(hour_of_day(3, Midi::Pm), Ok(15));
    assert_eq!(hour_of_day(3, Midi::Am), Ok(3));
    assert_eq!(hour_of_day(13, Midi::Pm), Err(ParseTimeError::InvalidTimeOfDay(13, Midi::Pm)));
}

#[test]
fn check_returns_exactly_the_waiting_tasks_that_became_ready() {
    let mut list = TodoList::new();
    let a = list.add("a");
    let b = list.add("b");
    let c = list.add("c");
    let d = list.add("d");
    list.block(b).on(a).unwrap();
    list.block(c).on(a).unwrap();
    list.block(c).on(d).unwrap();
    let unblocked = list.check(a).unwrap();
    assert_eq!(unblocked.iter_sorted(&list).collect::<Vec<_>>(), vec![b]);
    assert_eq!(list.status(b), Some(TaskStatus::Incomplete));
    assert_eq!(list.status(c), Some(TaskStatus::Blocked));
}

#[test]
fn unsnoozed_tasks_are_ready() {
    let mut list = TodoList::new();
    let a = list.add("a");
    let b = list.add("b");
    list.block(b).on(a).unwrap();
    list.snooze(a, ts(2100, 1, 1, 0, 0, 0)).unwrap();
    assert_eq!(list.status(a), Some(TaskStatus::Blocked));
    let unsnoozed = list.unsnooze_up_to(ts(2100, 1, 2, 0, 0, 0));
    assert_eq!(unsnoozed.iter_sorted(&list).collect::<Vec<_>>(), vec![a]);
    assert_eq!(list.status(a), Some(TaskStatus::Incomplete));
    assert_eq!(list.status(b), Some(TaskStatus::Blocked));
}

#[test]
fn read_time_of_day_reads_hours_and_minutes() {
    assert_eq!(read_time_of_day("5pm"), Some(Ok((17, 0))));
    assert_eq!(read_time_of_day("10:30am"), Some(Ok((10, 30))));
    assert_eq!(read_time_of_day("12am"), Some(Ok((0, 0))));
    assert_eq!(read_time_of_day("12:05pm"), Some(Ok((12, 5))));
    assert_eq!(read_time_of_day("5 pm"), Some(Ok((17, 0))));
}

#[test]
fn read_time_of_day_errors() {
    assert_eq!(read_time_of_day("13pm"), Some(Err(ParseTimeError::InvalidTimeOfDay(13, Midi::Pm))));
    assert_eq!(
        read_time_of_day("5"),
        Some(Err(ParseTimeError::IncompleteTimeOfDay(ParseTimeOfDayState::ParsingNumber { number_so_far: (0, 1) })))
    );
    assert_eq!(read_time_of_day("5x"), Some(Err(ParseTimeError::UnexpectedChar('x'))));
    assert!(matches!(read_time_of_day("300pm"), Some(Err(ParseTimeError::InvalidHour(_)))));
    // The offsets count kept characters but slice the whole text, so leading
    // whitespace shifts what is read.
    assert!(matches!(read_time_of_day(" 5pm"), Some(Err(ParseTimeError::InvalidHour(_)))));
    // ... and a wide leading space would slice inside a character.
    assert_eq!(read_time_of_day("\u{3000}5pm"), None);
}

#[test]
fn laconic_durations() {
    assert_eq!(format_duration_laconic(9420, 0), Some("2 hours".to_string()));
    assert_eq!(format_duration_laconic(3600, 0), Some("1 hour".to_string()));
    assert_eq!(format_duration_laconic(60, 0), Some("1 minute".to_string()));
    assert_eq!(format_duration_laconic(125, 0), Some("2 minutes".to_string()));
    assert_eq!(format_duration_laconic(1, 0), Some("1 second".to_string()));
    assert_eq!(format_duration_laconic(0, 0), Some("0 seconds".to_string()));
    assert_eq!(format_duration_laconic(0, 32_000_000), Some("32 ms".to_string()));
    assert_eq!(format_duration_laconic(3 * 86400, 0), Some("3 days".to_string()));
}

#[test]
fn relative_times() {
    assert_eq!(display_relative_time(300, 0), Some("in 5 minutes".to_string()));
    assert_eq!(display_relative_time(-7200, 0), Some("2 hours ago".to_string()));
    assert_eq!(display_relative_time(0, -500_000_000), Some("500 ms ago".to_string()));
    assert_eq!(display_relative_time(0, 0), Some("in 0 seconds".to_string()));
}

#[test]
fn force_check_reports_the_last_dependency_it_completes() {
    let mut list = TodoList::new();
    let a = list.add("a");
    let b = list.add("b");
    let c = list.add("c");
    list.block(c).on(a).unwrap();
    list.block(c).on(b).unwrap();
    let result = list.force_check(c).unwrap();
    itertools::assert_equal(result.completed.iter_sorted(&list), vec![b, c]);
    itertools::assert_equal(result.unblocked.iter_sorted(&list), vec![]);
    assert_eq!(list.status(a), Some(TaskStatus::Complete));
}

#[test]
fn force_restore_reports_every_task_it_restores() {
    let mut list = TodoList::new();
    let a = list.add("a");
    let b = list.add("b");
    let c = list.add("c");
    list.block(b).on(a).unwrap();
    list.block(c).on(b).unwrap();
    list.check(a).unwrap();
    list.check(b).unwrap();
    list.check(c).unwrap();
    let result = list.force_restore(a).unwrap();
    itertools::assert_equal(result.restored.iter_sorted(&list), vec![a, b, c]);
    assert_eq!(list.status(a), Some(TaskStatus::Incomplete));
    assert_eq!(list.status(b), Some(TaskStatus::Blocked));
    assert_eq!(list.status(c), Some(TaskStatus::Blocked));
}

#[test]
fn check_then_restore_gives_back_statuses() {
    let mut list = TodoList::new();
    let a = list.add("a");
    let b = list.add("b");
    let c = list.add("c");
    list.block(b).on(a).unwrap();
    list.block(c).on(b).unwrap();
    let before: Vec<_> = [a, b, c].iter().map(|&t| list.status(t)).collect();
    let unblocked = list.check(a).unwrap();
    itertools::assert_equal(unblocked.iter_sorted(&list), vec![b]);
    let blocked = list.restore(a).unwrap();
    itertools::assert_equal(blocked.iter_sorted(&list), vec![b]);
    let after: Vec<_> = [a, b, c].iter().map(|&t| list.status(t)).collect();
    assert_eq!(before, after);
    assert_eq!(after, vec![Some(TaskStatus::Incomplete), Some(TaskStatus::Blocked), Some(TaskStatus::Blocked)]);
}

#[test]
fn unblocked_task_returns_to_layer_zero() {
    let mut list = TodoList::new();
    let a = list.add("a");
    let b = list.add("b");
    let c = list.add("c");
    list.block(c).on(a).unwrap();
    list.block(c).on(b).unwrap();
    list.unblock(c).from(a).unwrap();
    assert_eq!(list.status(c), Some(TaskStatus::Blocked));
    list.unblock(c).from(b).unwrap();
    assert_eq!(list.status(c), Some(TaskStatus::Incomplete));
}

#[test]
fn force_check_reports_a_task_it_readied_and_then_checked() {
    let mut list = TodoList::new();
    let a = list.add("a");
    let b = list.add("b");
    let c = list.add("c");
    let d = list.add("d");
    list.block(b).on(a).unwrap();
    list.block(c).on(a).unwrap();
    list.block(d).on(b).unwrap();
    list.block(d).on(c).unwrap();
    let result = list.force_check(d).unwrap();
    itertools::assert_equal(result.completed.iter_sorted(&list), vec![c, d]);
    itertools::assert_equal(result.unblocked.iter_sorted(&list), vec![c]);
    assert_eq!(list.status(b), Some(TaskStatus::Complete));
}

#[test]
fn force_check_with_readies_the_tasks_waiting_on_it() {
    let mut list = TodoList::new();
    let a = list.add("a");
    let b = list.add("b");
    let c = list.add("c");
    let d = list.add("d");
    list.block(b).on(a).unwrap();
    list.block(c).on(b).unwrap();
    list.block(d).on(b).unwrap();
    list.block(d).on(c).unwrap();
    let result = list.force_check_with(CheckOptions { id: b, now: Timestamp::now() }).unwrap();
    itertools::assert_equal(result.completed.iter_sorted(&list), vec![a, b]);
    itertools::assert_equal(result.unblocked.iter_sorted(&list), vec![c]);
    assert_eq!(list.status(c), Some(TaskStatus::Incomplete));
    assert_eq!(list.status(d), Some(TaskStatus::Blocked));
}

#[test]
fn force_restore_reports_every_task_it_moved_out_of_layer_zero() {
    let mut list = TodoList::new();
    let a = list.add("a");
    let b = list.add("b");
    let c = list.add("c");
    let d = list.add("d");
    list.block(b).on(a).unwrap();
    list.block(c).on(a).unwrap();
    list.block(d).on(b).unwrap();
    list.check(a).unwrap();
    list.check(b).unwrap();
    list.check(c).unwrap();
    list.check(d).unwrap();
    let result = list.force_restore(a).unwrap();
    itertools::assert_equal(result.restored.iter_sorted(&list), vec![a, b, c, d]);
    assert_eq!(result.blocked.len(), 3);
    assert!(result.blocked.contains(&b));
    assert!(result.blocked.contains(&c));
    assert!(result.blocked.contains(&d));
    assert!(!result.blocked.contains(&a));
    assert_eq!(list.status(a), Some(TaskStatus::Incomplete));
    assert_eq!(list.status(d), Some(TaskStatus::Blocked));
}

#[test]
fn force_restore_blocks_a_ready_task_waiting_on_it() {
    let mut list = TodoList::new();
    let a = list.add("a");
    let b = list.add("b");
    let c = list.add("c");
    list.block(b).on(a).unwrap();
    list.block(c).on(b).unwrap();
    list.check(a).unwrap();
    list.check(b).unwrap();
    assert_eq!(list.status(c), Some(TaskStatus::Incomplete));
    let result = list.force_restore(a).unwrap();
    itertools::assert_equal(result.restored.iter_sorted(&list), vec![a, b]);
    itertools::assert_equal(result.blocked.iter_sorted(&list), vec![b, c]);
    assert_eq!(list.status(c), Some(TaskStatus::Blocked));
}


#[test]
fn unblock_gives_back_implicit_priority_and_due_date() {
    let mut list = TodoList::new();
    let a = list.add("a");
    let due = ts(2030, 1, 1, 0, 0, 0);
    let b = list.add(NewOptions::new().desc("b").priority(2).due_date(due));
    list.block(b).on(a).unwrap();
    assert_eq!(list.implicit_priority(a), Some(2));
    assert_eq!(list.implicit_due_date(a), Some(Some(due)));
    list.unblock(b).from(a).unwrap();
    assert_eq!(list.implicit_priority(a), Some(0));
    assert_eq!(list.implicit_due_date(a), Some(None));
    assert_eq!(list.implicit_priority(b), Some(2));
}

