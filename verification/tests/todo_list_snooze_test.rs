#![allow(unused_imports, dead_code, unused_variables, unused_mut)]

use chrono::Duration;
use chrono::TimeZone;
use chrono::Utc;
use todo::model::task::{DurationInSeconds, NewOptions, Task, TaskId, TaskStatus, Timestamp};
use todo::model::task_set::TaskSet;
use todo::model::todo_list::{
    BlockError, CheckError, CheckOptions, ForceChecked, ForceRestored, PuntError, RestoreError,
    SnoozeWarning, TodoList, UnblockError,
};

/// The instant `y-mo-d h:mi:s` UTC.
fn ts(y: i32, mo: u32, d: u32, h: u32, mi: u32, s: u32) -> Timestamp {
    let t = Utc.with_ymd_and_hms(y, mo, d, h, mi, s).unwrap();
    Timestamp::from_secs_nanos(t.timestamp(), t.timestamp_subsec_nanos())
}

/// A duration in whole seconds.
fn secs(d: Duration) -> DurationInSeconds {
    DurationInSeconds(d.num_seconds() as u32)
}

#[test]
fn snooze_test_start_date_defaults_to_creation_time() {
    let mut list = TodoList::default();
    let a = list.add(NewOptions::new().desc("a"));
    assert_eq!(
        list.get(a).unwrap().start_date,
        list.get(a).unwrap().creation_time
    );
}

#[test]
fn snooze_test_set_start_date_in_new_options() {
    let mut list = TodoList::default();
    let start_date = ts(2021, 6, 1, 0, 0, 0);
    let a = list.add(NewOptions::new().desc("a").start_date(start_date));
    assert_eq!(list.get(a).unwrap().start_date, start_date);
}

#[test]
fn snooze_test_new_task_with_start_time_later_than_now_starts_out_snoozed() {
    let mut list = TodoList::default();
    let now = ts(2021, 5, 25, 9, 0, 0);
    let start_date = ts(2021, 6, 1, 0, 0, 0);
    let a = list.add(
        NewOptions::new()
            .desc("a")
            .creation_time(now)
            .start_date(start_date),
    );
    assert_eq!(list.status(a).unwrap(), TaskStatus::Blocked);
}

#[test]
fn snooze_test_unsnooze_up_to_before_snooze_date() {
    let mut list = TodoList::default();
    let now = ts(2021, 5, 25, 9, 0, 0);
    let start_date = ts(2021, 6, 1, 0, 0, 0);
    let a = list.add(
        NewOptions::new()
            .desc("a")
            .creation_time(now)
            .start_date(start_date),
    );
    let now = ts(2021, 5, 30, 9, 0, 0);
    let unsnoozed = list.unsnooze_up_to(now);
    assert_eq!(unsnoozed.len(), 0);
    assert_eq!(list.status(a).unwrap(), TaskStatus::Blocked);
}

#[test]
fn snooze_test_unsnooze_up_to_after_snooze_date() {
    let mut list = TodoList::default();
    let now = ts(2021, 5, 25, 9, 0, 0);
    let start_date = ts(2021, 6, 1, 0, 0, 0);
    let a = list.add(
        NewOptions::new()
            .desc("a")
            .creation_time(now)
            .start_date(start_date),
    );
    let now = ts(2021, 6, 1, 9, 0, 0);
    let unsnoozed = list.unsnooze_up_to(now);
    itertools::assert_equal(unsnoozed.iter_sorted(&list), vec![a]);
    assert_eq!(list.status(a).unwrap(), TaskStatus::Incomplete);
}

#[test]
fn snooze_test_unsnooze_up_to_unsnoozes_multiple_tasks() {
    let mut list = TodoList::default();
    let now = ts(2021, 6, 1, 0, 0, 0);
    let snooze_a = ts(2021, 6, 2, 0, 0, 0);
    let a = list.add(
        NewOptions::new()
            .desc("a")
            .creation_time(now)
            .start_date(snooze_a),
    );
    let snooze_b = ts(2021, 6, 3, 0, 0, 0);
    let b = list.add(
        NewOptions::new()
            .desc("b")
            .creation_time(now)
            .start_date(snooze_b),
    );
    let snooze_c = ts(2021, 6, 4, 0, 0, 0);
    let c = list.add(
        NewOptions::new()
            .desc("c")
            .creation_time(now)
            .start_date(snooze_c),
    );
    let now = snooze_b;
    let unsnoozed = list.unsnooze_up_to(now);
    itertools::assert_equal(unsnoozed.iter_sorted(&list), vec![a, b]);
    let now = snooze_c;
    let unsnoozed = list.unsnooze_up_to(now);
    itertools::assert_equal(unsnoozed.iter_sorted(&list), vec![c]);
}

#[test]
fn snooze_test_unsnooze_updates_depth_of_adeps() {
    let mut list = TodoList::default();
    let now = ts(2021, 5, 25, 10, 0, 0);
    let snooze_a = ts(2021, 5, 25, 11, 0, 0);
    let a = list.add(
        NewOptions::new()
            .desc("a")
            .creation_time(now)
            .start_date(snooze_a),
    );
    let b = list.add(NewOptions::new().desc("b").due_date(snooze_a));
    let c = list.add("c");
    let d = list.add("d");
    list.block(b).on(a).unwrap();
    list.block(d).on(c).unwrap();
    // c is first because it is unblocked an unsnoozed.
    // a is next because it's snoozed, but was added before d, which is blocked
    // by c.
    // b is blocked by a, and so appears in a deeper layer than a.
    itertools::assert_equal(list.incomplete_tasks(), vec![c, a, d, b]);
    let now = ts(2021, 5, 25, 12, 0, 0);
    list.unsnooze_up_to(now);
    // a and b now appear before c and d, respectively, because they are in
    // the same layer, and have a due date which sorts them earlier the other
    // tasks with no due date.
    itertools::assert_equal(list.incomplete_tasks(), vec![a, c, b, d]);
}

#[test]
fn snooze_test_check_snoozed_task() {
    let mut list = TodoList::default();
    let now = ts(2021, 5, 25, 13, 0, 0);
    let snooze_a = ts(2021, 5, 25, 14, 0, 0);
    let a = list.add(
        NewOptions::new()
            .desc("a")
            .creation_time(now)
            .start_date(snooze_a),
    );
    itertools::assert_equal(
        list.check(CheckOptions { id: a, now })
            .unwrap()
            .iter_sorted(&list),
        vec![],
    );
    itertools::assert_equal(list.incomplete_tasks(), vec![]);
    itertools::assert_equal(list.complete_tasks(), vec![a]);
}

#[test]
fn snooze_test_force_check_snoozed_task() {
    let mut list = TodoList::default();
    let now = ts(2021, 5, 25, 13, 0, 0);
    let snooze_a = ts(2021, 5, 25, 14, 0, 0);
    let a = list.add(
        NewOptions::new()
            .desc("a")
            .creation_time(now)
            .start_date(snooze_a),
    );
    itertools::assert_equal(
        list.force_check(CheckOptions { id: a, now })
            .unwrap()
            .completed
            .iter_sorted(&list),
        vec![a],
    );
    itertools::assert_equal(list.incomplete_tasks(), vec![]);
    itertools::assert_equal(list.complete_tasks(), vec![a]);
}

#[test]
fn snooze_test_snooze_incomplete_task() {
    let mut list = TodoList::default();
    let a = list.add("a");
    assert_eq!(
        list.snooze(a, ts(2021, 5, 25, 14, 0, 0)),
        Ok(())
    );
}

#[test]
fn snooze_test_snooze_complete_task() {
    let mut list = TodoList::default();
    let a = list.add("a");
    list.check(a).unwrap();
    assert_eq!(
        list.snooze(a, ts(2021, 5, 25, 15, 0, 0)),
        Err(vec![SnoozeWarning::TaskIsComplete])
    );
}

#[test]
fn snooze_test_snooze_blocked_task() {
    let mut list = TodoList::default();
    let a = list.add("a");
    let b = list.add("b");
    list.block(b).on(a).unwrap();
    assert_eq!(
        list.snooze(b, ts(2021, 5, 25, 15, 0, 0)),
        Ok(())
    );
    itertools::assert_equal(
        list.unsnooze_up_to(ts(2021, 5, 25, 16, 0, 0))
            .iter_sorted(&list),
        vec![],
    );
    assert_eq!(list.status(b), Some(TaskStatus::Blocked));
}

#[test]
fn snooze_test_snooze_task_until_after_due_date() {
    let mut list = TodoList::default();
    let due_date = ts(2021, 5, 25, 20, 0, 0);
    let snooze = ts(2021, 5, 26, 0, 0, 0);
    let a = list.add(NewOptions::new().desc("a").due_date(due_date));
    assert_eq!(
        list.snooze(a, snooze),
        Err(vec![SnoozeWarning::SnoozedUntilAfterDueDate {
            snoozed_until: snooze,
            due_date,
        }])
    );
}

#[test]
fn snooze_test_snooze_task_until_after_implicit_due_date() {
    let mut list = TodoList::default();
    let due_date = ts(2021, 5, 25, 20, 0, 0);
    let snooze = ts(2021, 5, 26, 0, 0, 0);
    let a = list.add("a");
    let b = list.add(NewOptions::new().desc("b").due_date(due_date));
    list.block(b).on(a).unwrap();
    assert_eq!(
        list.snooze(a, snooze),
        Err(vec![SnoozeWarning::SnoozedUntilAfterDueDate {
            snoozed_until: snooze,
            due_date,
        }])
    );
}

#[test]
fn snooze_test_snoozed_blocked_task_remains_snoozed_when_deps_completed() {
    let mut list = TodoList::default();
    let a = list.add("a");
    let b = list.add("b");
    list.block(b).on(a).unwrap();
    list.snooze(b, ts(2021, 5, 25, 16, 0, 0))
        .unwrap();
    itertools::assert_equal(
        list.check(CheckOptions {
            id: a,
            now: ts(2021, 5, 25, 15, 0, 0),
        })
        .unwrap()
        .iter_sorted(&list),
        vec![],
    );
    assert_eq!(list.status(b), Some(TaskStatus::Blocked));
}

#[test]
fn snooze_test_snoozed_blocked_task_unsnoozes_when_deps_completed_after_snooze_date() {
    let mut list = TodoList::default();
    let a = list.add("a");
    let b = list.add("b");
    list.block(b).on(a).unwrap();
    list.snooze(b, ts(2021, 5, 25, 16, 0, 0))
        .unwrap();
    itertools::assert_equal(
        list.check(CheckOptions {
            id: a,
            now: ts(2021, 5, 25, 17, 0, 0),
        })
        .unwrap()
        .iter_sorted(&list),
        vec![b],
    );
    assert_eq!(list.status(b), Some(TaskStatus::Incomplete));
}

#[test]
fn unblock_does_not_unsnooze() {
    let mut list = TodoList::default();
    let a = list.add("a");
    let b = list.add(
        NewOptions::new()
            .desc("b")
            .creation_time(ts(2021, 5, 25, 0, 0, 0))
            .start_date(ts(2021, 5, 26, 0, 0, 0)),
    );
    list.block(b).on(a).unwrap();
    list.unblock(b).from(a).unwrap();
    assert_eq!(list.status(b), Some(TaskStatus::Blocked));
}

#[test]
fn remove_does_not_unsnooze() {
    let mut list = TodoList::default();
    let a = list.add("a");
    let b = list.add(
        NewOptions::new()
            .desc("b")
            .creation_time(ts(2021, 5, 25, 0, 0, 0))
            .start_date(ts(2021, 5, 26, 0, 0, 0)),
    );
    list.block(b).on(a).unwrap();
    list.remove(a);
    assert_eq!(list.status(b), Some(TaskStatus::Blocked));
}

#[test]
fn block_does_not_unsnooze() {
    let mut list = TodoList::default();
    let a = list.add("a");
    let b = list.add(
        NewOptions::new()
            .desc("b")
            .creation_time(ts(2021, 5, 25, 0, 0, 0))
            .start_date(ts(2021, 5, 26, 0, 0, 0)),
    );
    list.check(a).unwrap();
    list.block(b).on(a).unwrap();
    assert_eq!(list.status(b), Some(TaskStatus::Blocked));
}

#[test]
fn check_snoozed_task_should_unsnooze() {
    let mut list = TodoList::default();
    let today = ts(2022, 2, 12, 0, 0, 0);
    let now = ts(2022, 2, 12, 12, 0, 0);
    let tomorrow = ts(2022, 2, 13, 0, 0, 0);
    let a = list.add(
        NewOptions::new()
            .desc("a")
            .creation_time(today)
            .start_date(tomorrow),
    );
    assert_eq!(list.get(a).unwrap().start_date, tomorrow);
    list.check(CheckOptions { id: a, now }).unwrap();
    assert_eq!(list.get(a).unwrap().start_date, today);
}
