use vstd::prelude::*;
use crate::model::task::{Task, Timestamp};

verus! {

/// The ordering key of a task within its layer.
#[derive(Debug, Clone, Copy, PartialEq, Eq, Structural)]
pub struct SortKey {
    pub priority: i32,
    pub due: Option<Timestamp>,
}

pub open spec fn key_of(t: Task) -> SortKey {
    SortKey { priority: t.implicit_priority, due: t.implicit_due_date }
}

/// `p` sorts after `x`: lower implicit priority, or equal priority and a
/// later (or missing) implicit due date.
pub open spec fn key_less(p: SortKey, x: SortKey) -> bool {
    ||| p.priority < x.priority
    ||| p.priority == x.priority && match (p.due, x.due) {
        (Some(a), Some(b)) => b.nanos < a.nanos,
        (Some(_), None) => false,
        (None, Some(_)) => true,
        (None, None) => false,
    }
}

/// Compares the key of a task already in a layer with the key of the task
/// being placed: `Less` when the former sorts after the latter.
pub fn compare_keys(p: &SortKey, x: &SortKey) -> (res: std::cmp::Ordering)
    ensures
        (res == std::cmp::Ordering::Less) == key_less(*p, *x),
{
    if p.priority < x.priority {
        std::cmp::Ordering::Less
    } else if p.priority > x.priority {
        std::cmp::Ordering::Greater
    } else {
        match (p.due, x.due) {
            (Some(a), Some(b)) => {
                if b.nanos < a.nanos {
                    std::cmp::Ordering::Less
                } else if b.nanos > a.nanos {
                    std::cmp::Ordering::Greater
                } else {
                    std::cmp::Ordering::Equal
                }
            },
            (Some(_), None) => std::cmp::Ordering::Greater,
            (None, Some(_)) => std::cmp::Ordering::Less,
            (None, None) => std::cmp::Ordering::Equal,
        }
    }
}

/// `bisection::bisect_right_by` over `keys`, asking `compare_keys(p, x)` of
/// each probed key `p`. The crate's binary search moves its upper bound onto
/// a probe only when the comparison is `Less` and its lower bound past a
/// probe only when it is not, so the index returned is preceded by a key for
/// which the comparison is not `Less` (or is 0) and followed by one for which
/// it is (or is the end). On keys sorted by the comparison this is the index
/// after the last key that does not sort after `x`.
#[verifier::external_body]
pub(crate) fn bisect_keys(keys: &Vec<SortKey>, x: &SortKey) -> (res: usize)
    ensures
        res <= keys@.len(),
        res == 0 || !key_less(keys@[res - 1], *x),
        res == keys@.len() || key_less(keys@[res + 0], *x),
{
    bisection::bisect_right_by(keys.as_slice(), |p| compare_keys(p, x))
}

} // verus!
