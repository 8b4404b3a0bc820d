use vstd::prelude::*;

verus! {

/// Identifies a task in a `TodoList`. Identifiers stay valid while other
/// tasks are added and removed.
#[derive(Debug, PartialEq, Eq, Hash, Clone, Copy, Structural)]
pub struct TaskId(pub u32);

/// Whether a task is done, ready to be worked on, or waiting.
#[derive(Debug, PartialEq, Eq, Clone, Copy, Structural)]
pub enum TaskStatus {
    Complete,
    Incomplete,
    Blocked,
}

/// A point in time, in nanoseconds since the Unix epoch (UTC).
#[derive(Debug, PartialEq, Eq, Hash, Clone, Copy, Structural)]
pub struct Timestamp {
    pub nanos: i128,
}

pub const NANOS_PER_SECOND: i128 = 1_000_000_000;

/// `t` moved `secs` seconds into the past, clamped at the earliest representable instant.
pub open spec fn ts_minus_secs(t: Timestamp, secs: u32) -> Timestamp {
    if t.nanos - secs * NANOS_PER_SECOND < i128::MIN {
        Timestamp { nanos: i128::MIN }
    } else {
        Timestamp { nanos: (t.nanos - secs * NANOS_PER_SECOND) as i128 }
    }
}

impl Timestamp {
    /// The instant `secs` seconds and `subsec_nanos` nanoseconds after the epoch.
    pub fn from_secs_nanos(secs: i64, subsec_nanos: u32) -> (res: Timestamp)
        ensures
            res.nanos == secs * NANOS_PER_SECOND + subsec_nanos,
    {
        let s: i128 = secs as i128;
        let n: i128 = subsec_nanos as i128;
        Timestamp { nanos: s * NANOS_PER_SECOND + n }
    }

    /// The instant `secs` seconds after the epoch.
    pub fn from_secs(secs: i64) -> (res: Timestamp)
        ensures
            res.nanos == secs * NANOS_PER_SECOND,
    {
        Timestamp::from_secs_nanos(secs, 0)
    }

    /// This instant moved `secs` seconds into the past.
    pub fn minus_secs(self, secs: u32) -> (res: Timestamp)
        ensures
            res == ts_minus_secs(self, secs),
    {
        let d: i128 = (secs as i128) * NANOS_PER_SECOND;
        if self.nanos >= i128::MIN + d {
            Timestamp { nanos: self.nanos - d }
        } else {
            Timestamp { nanos: i128::MIN }
        }
    }

    /// Whether this instant is strictly later than `other`.
    pub fn is_after(&self, other: &Timestamp) -> (res: bool)
        ensures
            res == (self.nanos > other.nanos),
    {
        self.nanos > other.nanos
    }

    /// The current time.
    pub fn now() -> (res: Timestamp) {
        let (secs, subsec) = utc_now();
        Timestamp::from_secs_nanos(secs, subsec)
    }
}

/// Calls `chrono::Utc::now()` and returns the instant as whole seconds since
/// the epoch and the nanoseconds past that second. Nothing is claimed of the
/// result but that the nanosecond part is below two seconds, as chrono
/// documents for leap seconds.
#[verifier::external_body]
fn utc_now() -> (res: (i64, u32))
    ensures
        res.1 < 2_000_000_000,
{
    let now = chrono::Utc::now();
    (now.timestamp(), now.timestamp_subsec_nanos())
}

/// A span of time in whole seconds.
#[derive(Debug, PartialEq, Eq, Hash, Clone, Copy, Default, Structural)]
pub struct DurationInSeconds(pub u32);

/// A task of a todo list.
#[derive(Debug, Clone, PartialEq, Eq)]
pub struct Task {
    pub desc: String,
    pub creation_time: Timestamp,
    pub completion_time: Option<Timestamp>,
    pub priority: i32,
    pub implicit_priority: i32,
    pub due_date: Option<Timestamp>,
    pub implicit_due_date: Option<Timestamp>,
    pub budget: DurationInSeconds,
    pub start_date: Timestamp,
}

/// The options a new task is created with.
#[derive(Debug, Clone)]
pub struct NewOptions {
    pub desc: String,
    pub now: Timestamp,
    pub priority: i32,
    pub due_date: Option<Timestamp>,
    pub budget: DurationInSeconds,
    pub start_date: Option<Timestamp>,
}

impl NewOptions {
    /// Options for a task with an empty description, created now, with no
    /// priority, due date, budget or start date.
    pub fn new() -> (res: NewOptions)
        ensures
            res.desc@ == Seq::<char>::empty(),
            res.priority == 0,
            res.due_date is None,
            res.budget == DurationInSeconds(0),
            res.start_date is None,
    {
        NewOptions {
            desc: String::new(),
            now: Timestamp::now(),
            priority: 0,
            due_date: None,
            budget: DurationInSeconds(0),
            start_date: None,
        }
    }

    pub fn desc(self, desc: &str) -> (res: NewOptions)
        ensures
            res == (NewOptions { desc: res.desc, ..self }),
            res.desc@ == desc@,
    {
        NewOptions { desc: desc.to_owned(), ..self }
    }

    pub fn creation_time(self, now: Timestamp) -> (res: NewOptions)
        ensures
            res == (NewOptions { now, ..self }),
    {
        NewOptions { now, ..self }
    }

    pub fn priority(self, priority: i32) -> (res: NewOptions)
        ensures
            res == (NewOptions { priority, ..self }),
    {
        NewOptions { priority, ..self }
    }

    pub fn due_date(self, due_date: Timestamp) -> (res: NewOptions)
        ensures
            res == (NewOptions { due_date: Some(due_date), ..self }),
    {
        NewOptions { due_date: Some(due_date), ..self }
    }

    pub fn budget(self, budget: DurationInSeconds) -> (res: NewOptions)
        ensures
            res == (NewOptions { budget, ..self }),
    {
        NewOptions { budget, ..self }
    }

    pub fn start_date(self, start_date: Timestamp) -> (res: NewOptions)
        ensures
            res == (NewOptions { start_date: Some(start_date), ..self }),
    {
        NewOptions { start_date: Some(start_date), ..self }
    }
}

impl From<&str> for NewOptions {
    /// Options for a task described by `desc`, created now.
    fn from(desc: &str) -> (res: NewOptions)
        ensures
            res.desc@ == desc@,
            res.priority == 0,
            res.due_date is None,
            res.budget == DurationInSeconds(0),
            res.start_date is None,
    {
        NewOptions::new().desc(desc)
    }
}

impl vstd::std_specs::convert::FromSpecImpl<&str> for NewOptions {
    /// The creation time is the current time, so no function of the
    /// description alone gives the result.
    open spec fn obeys_from_spec() -> bool {
        false
    }

    open spec fn from_spec(v: &str) -> NewOptions {
        vstd::pervasive::arbitrary()
    }
}

/// The task that `options` describe, before it joins any list.
pub open spec fn new_task(options: NewOptions) -> Task {
    Task {
        desc: options.desc,
        creation_time: options.now,
        completion_time: None,
        priority: options.priority,
        implicit_priority: options.priority,
        due_date: options.due_date,
        implicit_due_date: options.due_date,
        budget: options.budget,
        start_date: match options.start_date {
            Some(d) => d,
            None => options.now,
        },
    }
}

impl Task {
    pub fn new(options: NewOptions) -> (res: Task)
        ensures
            res == new_task(options),
    {
        let start_date = match options.start_date {
            Some(d) => d,
            None => options.now,
        };
        Task {
            desc: options.desc,
            creation_time: options.now,
            completion_time: None,
            priority: options.priority,
            implicit_priority: options.priority,
            due_date: options.due_date,
            implicit_due_date: options.due_date,
            budget: options.budget,
            start_date,
        }
    }
}

} // verus!
