#![allow(unused_imports, dead_code, unused_variables, unused_mut)]

use chrono::Duration;
use chrono::TimeZone;
use chrono::Utc;
use todo::model::task::{DurationInSeconds, NewOptions, Task, TaskId, TaskStatus, Timestamp};
use todo::model::task_set::TaskSet;
use todo::model::todo_list::{
    BlockError, CheckError, CheckOptions, ForceChecked, ForceRestored, PuntError, RestoreError,
    SnoozeWarning, TodoList, UnblockError,
};

/// The instant `y-mo-d h:mi:s` UTC.
fn ts(y: i32, mo: u32, d: u32, h: u32, mi: u32, s: u32) -> Timestamp {
    let t = Utc.with_ymd_and_hms(y, mo, d, h, mi, s).unwrap();
    Timestamp::from_secs_nanos(t.timestamp(), t.timestamp_subsec_nanos())
}

/// A duration in whole seconds.
fn secs(d: Duration) -> DurationInSeconds {
    DurationInSeconds(d.num_seconds() as u32)
}

#[test]
fn add_test_add_one_task() {
    let mut list = TodoList::default();
    let a = list.add("hello, world");
    let mut tasks = list.incomplete_tasks();
    assert_eq!(tasks.next(), Some(a));
    assert_eq!(tasks.next(), None);
}

#[test]
fn add_test_add_multiple_tasks() {
    let mut list = TodoList::default();
    let a = list.add("walk the dog");
    let b = list.add("do the dishes");
    let c = list.add("take out the trash");
    let mut tasks = list.incomplete_tasks();
    assert_eq!(tasks.next(), Some(a));
    assert_eq!(tasks.next(), Some(b));
    assert_eq!(tasks.next(), Some(c));
    assert_eq!(tasks.next(), None);
}
