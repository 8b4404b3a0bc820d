#![allow(unused_imports, dead_code, unused_variables, unused_mut)]

use chrono::Duration;
use chrono::TimeZone;
use chrono::Utc;
use todo::model::task::{DurationInSeconds, NewOptions, Task, TaskId, TaskStatus, Timestamp};
use todo::model::task_set::TaskSet;
use todo::model::todo_list::{
    BlockError, CheckError, CheckOptions, ForceChecked, ForceRestored, PuntError, RestoreError,
    SnoozeWarning, TodoList, UnblockError,
};

/// The instant `y-mo-d h:mi:s` UTC.
fn ts(y: i32, mo: u32, d: u32, h: u32, mi: u32, s: u32) -> Timestamp {
    let t = Utc.with_ymd_and_hms(y, mo, d, h, mi, s).unwrap();
    Timestamp::from_secs_nanos(t.timestamp(), t.timestamp_subsec_nanos())
}

/// A duration in whole seconds.
fn secs(d: Duration) -> DurationInSeconds {
    DurationInSeconds(d.num_seconds() as u32)
}

#[test]
fn set_desc_test_set_desc_existent() {
    let mut list = TodoList::default();
    let a = list.add("a");
    assert!(list.set_desc(a, "b"));
    assert_eq!(list.get(a).unwrap().desc, "b");
}

#[test]
fn set_desc_test_set_desc_nonexistent() {
    let mut list = TodoList::default();
    let a = list.add("a");
    list.remove(a);
    assert!(!list.set_desc(a, "b"));
    assert_eq!(list.get(a), None);
}
