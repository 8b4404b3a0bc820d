use todo::model::persist::ListParts;
use todo::model::task::{TaskId, TaskStatus};
use todo::model::todo_list::TodoList;

fn all_tasks_ordered(list: &TodoList) -> Vec<TaskId> {
    list.complete_tasks().chain(list.incomplete_tasks()).collect::<Vec<_>>()
}

fn reload(list: &TodoList) -> TodoList {
    let parts = list.to_parts();
    let reloaded = TodoList::from_parts(parts).unwrap();
    assert_eq!(all_tasks_ordered(list), all_tasks_ordered(&reloaded));
    for id in list.all_tasks() {
        assert_eq!(list.status(id), reloaded.status(id));
        assert_eq!(list.get(id), reloaded.get(id));
        assert_eq!(list.deps(id), reloaded.deps(id));
        assert_eq!(list.adeps(id), reloaded.adeps(id));
    }
    reloaded
}

#[test]
fn reload_empty() {
    let list = TodoList::default();
    reload(&list);
}

#[test]
fn reload_single_task() {
    let mut list = TodoList::default();
    list.add("pass this test");
    reload(&list);
}

#[test]
fn reload_three_tasks() {
    let mut list = TodoList::default();
    list.add("first");
    list.add("second");
    list.add("third");
    reload(&list);
}

#[test]
fn reload_keeps_dependencies_completions_and_removed_numbers() {
    let mut list = TodoList::default();
    let a = list.add("a");
    let b = list.add("b");
    let c = list.add("c");
    let d = list.add("d");
    let e = list.add("e");
    list.add("f");
    list.block(c).on(a).unwrap();
    list.block(d).on(c).unwrap();
    list.check(b).unwrap();
    list.remove(e);
    let mut reloaded = reload(&list);
    assert_eq!(reloaded.status(c), Some(TaskStatus::Blocked));
    assert_eq!(reloaded.status(b), Some(TaskStatus::Complete));
    assert_eq!(reloaded.get(e), None);
    // The reloaded list works like the one it was saved from.
    assert_eq!(reloaded.check(a).unwrap().iter_sorted(&reloaded).collect::<Vec<_>>(), vec![c]);
    list.check(a).unwrap();
    assert_eq!(all_tasks_ordered(&list), all_tasks_ordered(&reloaded));
}

#[test]
fn saved_parts_list_tasks_by_number() {
    let mut list = TodoList::default();
    let a = list.add("a");
    let b = list.add("b");
    list.block(b).on(a).unwrap();
    let parts = list.to_parts();
    assert_eq!(parts.nodes.len(), 2);
    assert_eq!(parts.nodes[0].as_ref().unwrap().desc, "a");
    assert_eq!(parts.edges, vec![(a, b)]);
    assert_eq!(parts.complete, vec![]);
    assert_eq!(parts.incomplete, vec![(a, 0), (b, 1)]);
}

fn two_task_parts() -> ListParts {
    let mut list = TodoList::default();
    list.add("a");
    list.add("b");
    list.to_parts()
}

#[test]
fn load_refuses_a_cycle() {
    let mut parts = two_task_parts();
    parts.edges = vec![(TaskId(0), TaskId(1)), (TaskId(1), TaskId(0))];
    parts.incomplete = vec![(TaskId(0), 1), (TaskId(1), 1)];
    assert!(TodoList::from_parts(parts).is_none());
}

#[test]
fn load_refuses_a_dependency_on_a_missing_task() {
    let mut parts = two_task_parts();
    parts.edges = vec![(TaskId(0), TaskId(5))];
    assert!(TodoList::from_parts(parts).is_none());
}

#[test]
fn load_refuses_a_task_listed_twice() {
    let mut parts = two_task_parts();
    parts.complete = vec![TaskId(0)];
    assert!(TodoList::from_parts(parts).is_none());
}

#[test]
fn load_refuses_an_unlisted_task() {
    let mut parts = two_task_parts();
    parts.incomplete = vec![(TaskId(0), 0)];
    assert!(TodoList::from_parts(parts).is_none());
}

#[test]
fn load_refuses_layers_out_of_order() {
    let mut parts = two_task_parts();
    parts.incomplete = vec![(TaskId(0), 1), (TaskId(1), 0)];
    assert!(TodoList::from_parts(parts).is_none());
}

#[test]
fn load_refuses_a_ready_task_that_waits() {
    let mut parts = two_task_parts();
    parts.edges = vec![(TaskId(0), TaskId(1))];
    assert!(TodoList::from_parts(parts).is_none());
}

#[test]
fn load_refuses_a_complete_task_that_waits_on_an_incomplete_one() {
    let mut parts = two_task_parts();
    parts.edges = vec![(TaskId(0), TaskId(1))];
    parts.complete = vec![TaskId(1)];
    parts.incomplete = vec![(TaskId(0), 0)];
    assert!(TodoList::from_parts(parts).is_none());
}

#[test]
fn load_accepts_a_removed_number() {
    let mut parts = two_task_parts();
    parts.nodes[0] = None;
    parts.incomplete = vec![(TaskId(1), 0)];
    let list = TodoList::from_parts(parts).unwrap();
    assert_eq!(list.get(TaskId(0)), None);
    assert_eq!(list.get(TaskId(1)).unwrap().desc, "b");
    assert_eq!(all_tasks_ordered(&list), vec![TaskId(1)]);
}
