use vstd::prelude::*;
use vstd::std_specs::iter::IteratorSpec;
use crate::model::graph::{
    graph_add_node, graph_children, graph_edges, graph_find_edge, graph_new, graph_node_weight, graph_nodes,
    graph_parents, graph_remove_edge, graph_remove_node, graph_set_node, graph_update_edge, graph_wf, TaskGraph,
};
use crate::model::graph_spec::{
    acyclic, ancestors, closed, descendants, has_edge, lemma_ancestors_shrink, lemma_descendants_shrink,
    no_parallel, reach_plus, reaches, EdgeMap,
};
use crate::model::implicit::{
    explicit_part, implicits_right, lemma_implicit_explicit, lemma_implicits_unique, lemma_right_same_links,
    without_implicits,
    is_implicit_due_date, is_implicit_priority, lemma_reaches_split, lemma_reaches_through_child,
    lemma_ts_minus_monotone, lemma_walk_due_prepend, lemma_walk_due_split, walk_due, walk_from,
    wrong_path, wrong_walk, lemma_leaf_right,
};
use crate::model::layering::{
    count_below, entry_ids, layers_sorted, lemma_depth_of_insert, lemma_depth_of_remove, lemma_entry_ids_insert,
    lemma_entry_ids_remove, lemma_seq_insert_contains, lemma_seq_remove_contains, Layering,
};
use crate::model::task::{new_task, ts_minus_secs, DurationInSeconds, NewOptions, Task, TaskId, TaskStatus, Timestamp};
use crate::model::task_set::TaskSet;
use crate::model::order::{bisect_keys, key_less, key_of, SortKey};

verus! {

/// The members of `s` that are in `set`, in the order of `s`.
pub open spec fn filter_in(s: Seq<TaskId>, set: Set<TaskId>) -> Seq<TaskId>
    decreases s.len(),
{
    if s.len() == 0 {
        Seq::empty()
    } else {
        let r = filter_in(s.drop_last(), set);
        if set.contains(s.last()) {
            r.push(s.last())
        } else {
            r
        }
    }
}

/// A todo list: tasks, the dependencies between them, and the order in
/// which they are shown. Complete tasks are kept in the order they were
/// completed; incomplete tasks are kept in layers. A task in layer 0 is
/// ready (it waits on no incomplete task); a task in layer 2 or deeper waits
/// on some incomplete task; layer 1 holds blocked tasks and snoozed ones.
/// Layers are rebuilt as tasks are added, checked, restored, blocked and
/// unblocked (`violates` states the rule that every operation keeps).
#[derive(Debug)]
pub struct TodoList {
    tasks: TaskGraph,
    complete: Vec<TaskId>,
    incomplete: Layering,
}

/// `id` is in `v`.
pub fn vec_contains(v: &Vec<TaskId>, id: &TaskId) -> (res: bool)
    ensures
        res == v@.contains(*id),
{
    let mut i: usize = 0;
    while i < v.len()
        invariant
            0 <= i <= v@.len(),
            forall|j: int| 0 <= j < i ==> v@[j] != *id,
        decreases v@.len() - i,
    {
        if v[i] == *id {
            assert(v@[i as int] == *id);
            return true;
        }
        i += 1;
    }
    false
}

/// Removes the first occurrence of `id` from `v`, if there is one.
pub fn remove_first_occurrence_from_vec(v: &mut Vec<TaskId>, id: &TaskId)
    ensures
        !old(v)@.contains(*id) ==> final(v)@ == old(v)@,
        old(v)@.contains(*id) ==> exists|i: int| 0 <= i < old(v)@.len() && old(v)@[i] == *id
            && (forall|j: int| 0 <= j < i ==> old(v)@[j] != *id) && final(v)@ == old(v)@.remove(i),
{
    let mut i: usize = 0;
    while i < v.len()
        invariant
            0 <= i <= v@.len(),
            v@ == old(v)@,
            forall|j: int| 0 <= j < i ==> v@[j] != *id,
        decreases v@.len() - i,
    {
        if v[i] == *id {
            v.remove(i);
            return;
        }
        i += 1;
    }
}

impl TodoList {
    /// The tasks: node index to task.
    pub closed spec fn nodes(self) -> Map<u32, Task> {
        graph_nodes(self.tasks)
    }

    /// The dependencies: an edge `(a, b)` means that `b` waits on `a`.
    pub closed spec fn edges(self) -> EdgeMap {
        graph_edges(self.tasks)
    }

    /// The complete tasks, in the order they were completed.
    pub closed spec fn complete_seq(self) -> Seq<TaskId> {
        self.complete@
    }

    /// The incomplete tasks with their layers, in order.
    pub closed spec fn layering(self) -> Layering {
        self.incomplete
    }

    pub open spec fn incomplete_seq(self) -> Seq<TaskId> {
        self.layering().ids()
    }

    pub open spec fn has(self, id: TaskId) -> bool {
        self.nodes().dom().contains(id.0)
    }

    pub open spec fn task(self, id: TaskId) -> Task {
        self.nodes()[id.0]
    }

    pub open spec fn is_complete(self, id: TaskId) -> bool {
        self.complete_seq().contains(id)
    }

    pub open spec fn is_incomplete(self, id: TaskId) -> bool {
        self.incomplete_seq().contains(id)
    }

    pub open spec fn depth_of(self, id: TaskId) -> Option<usize> {
        self.layering().depth_of(id)
    }

    /// Complete tasks in completion order, then incomplete tasks in order.
    pub open spec fn all_seq(self) -> Seq<TaskId> {
        self.complete_seq() + self.incomplete_seq()
    }

    pub open spec fn status_of(self, id: TaskId) -> Option<TaskStatus> {
        if self.is_complete(id) {
            Some(TaskStatus::Complete)
        } else {
            match self.depth_of(id) {
                Some(d) => if d == 0 { Some(TaskStatus::Incomplete) } else { Some(TaskStatus::Blocked) },
                None => None,
            }
        }
    }

    /// The tasks that `id` waits on.
    pub open spec fn dep_set(self, id: TaskId) -> Set<TaskId> {
        Set::new(|t: TaskId| has_edge(self.edges(), t.0, id.0))
    }

    /// The tasks that wait on `id`.
    pub open spec fn adep_set(self, id: TaskId) -> Set<TaskId> {
        Set::new(|t: TaskId| has_edge(self.edges(), id.0, t.0))
    }

    /// The invariant of a todo list: the graph is acyclic with no repeated
    /// edges; every task is either complete (listed once) or incomplete (in
    /// one layer); and there are fewer than `i32::MAX` tasks, so that every
    /// task has a number.
    pub open spec fn wf_shape(self) -> bool {
        &&& graph_wf(self.tasks_graph())
        &&& self.layering().valid()
        &&& acyclic(self.edges())
        &&& no_parallel(self.edges())
        &&& self.complete_seq().no_duplicates()
        &&& forall|id: TaskId| #![trigger self.is_complete(id)] #![trigger self.is_incomplete(id)]
            !(self.is_complete(id) && self.is_incomplete(id))
        &&& forall|id: TaskId| #![trigger self.has(id)] self.has(id) <==> (self.is_complete(id) || self.is_incomplete(id))
        &&& self.nodes().dom().len() < i32::MAX
        &&& self.edges().dom().len() < u32::MAX
    }

    /// `id` is out of place: it is complete but waits on an incomplete task;
    /// or it is in layer 0 but waits on an incomplete task; or it is in a
    /// layer of 2 or more but waits on no incomplete task.
    pub open spec fn violates(self, id: TaskId) -> bool {
        ||| self.is_complete(id) && self.has_incomplete_dep(id)
        ||| (self.depth_of(id) == Some(0usize) && self.has_incomplete_dep(id))
        ||| (self.depth_of(id) matches Some(d) && d >= 2 && !self.has_incomplete_dep(id))
    }

    /// `id` waits on some incomplete task.
    pub open spec fn has_incomplete_dep(self, id: TaskId) -> bool {
        exists|t: TaskId| #[trigger] self.dep_set(id).contains(t) && self.is_incomplete(t)
    }

    /// No task is out of place.
    pub open spec fn consistent(self) -> bool {
        forall|t: TaskId| !#[trigger] self.violates(t)
    }

    /// The invariant of a todo list: its shape, and no task out of place.
    pub open spec fn wf(self) -> bool {
        self.wf_shape() && self.consistent()
    }

    pub closed spec fn tasks_graph(self) -> TaskGraph {
        self.tasks
    }

    /// The tasks and dependencies of the list are those of its graph.
    pub proof fn lemma_graph_views(self)
        ensures
            self.nodes() == graph_nodes(self.tasks_graph()),
            self.edges() == graph_edges(self.tasks_graph()),
    {
    }

    /// What follows from the invariant.
    pub proof fn lemma_wf(self)
        requires
            self.wf_shape(),
        ensures
            self.incomplete_seq().no_duplicates(),
            self.complete_seq().len() + self.incomplete_seq().len() == self.nodes().dom().len(),
            self.nodes().dom().finite(),
            self.edges().dom().finite(),
    {
        self.layering().lemma_valid();
        let c = self.complete_seq();
        let inc = self.incomplete_seq();
        c.unique_seq_to_set();
        inc.unique_seq_to_set();
        let dom_ids = self.nodes().dom().map(|n: u32| TaskId(n));
        assert forall|id: TaskId| !(c.to_set().contains(id) && inc.to_set().contains(id)) by {
            assert(!(self.is_complete(id) && self.is_incomplete(id)));
        }
        assert(c.to_set().disjoint(inc.to_set()));
        assert forall|id: TaskId| c.to_set().union(inc.to_set()).contains(id) <==> dom_ids.contains(id) by {
            if self.has(id) {
                assert(dom_ids.contains(id));
            }
            if dom_ids.contains(id) {
                let n = choose|n: u32| self.nodes().dom().contains(n) && TaskId(n) == id;
                assert(self.has(id));
            }
            if self.is_complete(id) || self.is_incomplete(id) {
                assert(self.has(id));
            }
        }
        assert(c.to_set().union(inc.to_set()) =~= dom_ids);
        vstd::set_lib::lemma_set_disjoint_lens(c.to_set(), inc.to_set());
        lemma_task_id_map_len(self.nodes().dom());
    }

    /// Every task stores the implicit priority and due date that the
    /// priorities, due dates and budgets of the list give it: its implicit
    /// priority is the highest priority among it and the tasks that wait on
    /// it, directly or not, and its implicit due date the earliest due date
    /// that it or a task waiting on it imposes, less the budgets between.
    pub open spec fn implicits_all_right(self) -> bool {
        forall|t: u32| #[trigger] self.nodes().dom().contains(t) ==> implicits_right(self.nodes(), self.edges(), t)
    }

    /// After repairs from `mid`, every task is right when every task was
    /// right in `r`, `mid` differs from `r` only at `roots`, and the repairs
    /// kept what was right and made right every task with a walk of wrong
    /// tasks to a root.
    pub proof fn lemma_all_right_after_repair(r: TodoList, mid: TodoList, after: TodoList, roots: Set<u32>)
        requires
            r.wf_shape(),
            mid.wf_shape(),
            r.implicits_all_right(),
            r.nodes().dom().subset_of(mid.nodes().dom()),
            forall|a: u32| #[trigger] mid.nodes().dom().contains(a) && !r.nodes().dom().contains(a) ==> roots.contains(a),
            forall|a: u32| #[trigger] r.nodes().dom().contains(a) ==> r.nodes()[a].implicit_priority == mid.nodes()[a].implicit_priority
                && r.nodes()[a].implicit_due_date == mid.nodes()[a].implicit_due_date,
            forall|a: u32| #[trigger] r.nodes().dom().contains(a) && !roots.contains(a) ==> {
                &&& r.nodes()[a].priority == mid.nodes()[a].priority
                &&& r.nodes()[a].due_date == mid.nodes()[a].due_date
                &&& forall|c: u32| #[trigger] has_edge(r.edges(), a, c) <==> has_edge(mid.edges(), a, c)
                &&& forall|c: u32| #[trigger] has_edge(r.edges(), a, c) ==> r.nodes()[c].budget == mid.nodes()[c].budget
            },
            after.nodes().dom() == mid.nodes().dom(),
            after.edges() == mid.edges(),
            forall|t: u32| #![trigger implicits_right(mid.nodes(), mid.edges(), t)]
                mid.nodes().dom().contains(t) && implicits_right(mid.nodes(), mid.edges(), t)
                ==> implicits_right(after.nodes(), after.edges(), t),
            forall|t: u32, x: u32| #![trigger roots.contains(x), wrong_path(mid.nodes(), mid.edges(), t, x)]
                mid.nodes().dom().contains(t) && roots.contains(x) && wrong_path(mid.nodes(), mid.edges(), t, x)
                ==> implicits_right(after.nodes(), after.edges(), t),
        ensures
            after.implicits_all_right(),
    {
        r.lemma_wf();
        mid.lemma_wf();
        assert forall|t: u32| #[trigger] after.nodes().dom().contains(t)
            implies implicits_right(after.nodes(), after.edges(), t) by {
            if !implicits_right(mid.nodes(), mid.edges(), t) {
                crate::model::implicit::lemma_wrong_reaches_root(r.nodes(), r.edges(), mid.nodes(), mid.edges(), roots, t);
                let x = choose|x: u32| #[trigger] roots.contains(x) && wrong_path(mid.nodes(), mid.edges(), t, x);
            }
        }
    }

    /// A list whose tasks keep their priorities, due dates, budgets and
    /// implicit values, and whose dependencies are the same, is right
    /// wherever the first was.
    pub proof fn lemma_all_right_same_weights(r: TodoList, after: TodoList)
        requires
            r.wf_shape(),
            after.wf_shape(),
            r.implicits_all_right(),
            after.nodes().dom() == r.nodes().dom(),
            forall|x: u32, y: u32| #[trigger] has_edge(after.edges(), x, y) == has_edge(r.edges(), x, y),
            forall|a: u32| #[trigger] r.nodes().dom().contains(a) ==> {
                &&& after.nodes()[a].priority == r.nodes()[a].priority
                &&& after.nodes()[a].due_date == r.nodes()[a].due_date
                &&& after.nodes()[a].budget == r.nodes()[a].budget
                &&& after.nodes()[a].implicit_priority == r.nodes()[a].implicit_priority
                &&& after.nodes()[a].implicit_due_date == r.nodes()[a].implicit_due_date
            },
        ensures
            after.implicits_all_right(),
    {
        r.lemma_wf();
        after.lemma_wf();
        assert forall|t: u32| #[trigger] after.nodes().dom().contains(t)
            implies implicits_right(after.nodes(), after.edges(), t) by {
            if !implicits_right(after.nodes(), after.edges(), t) {
                crate::model::implicit::lemma_wrong_reaches_root(
                    r.nodes(), r.edges(), after.nodes(), after.edges(), Set::<u32>::empty(), t);
            }
        }
    }

    /// An empty list.
    pub fn new() -> (res: TodoList)
        ensures
            res.wf(),
            res.nodes() == Map::<u32, Task>::empty(),
            res.edges() == Map::<usize, (u32, u32)>::empty(),
            res.complete_seq() == Seq::<TaskId>::empty(),
            res.incomplete_seq() == Seq::<TaskId>::empty(),
            res.implicits_all_right(),
    {
        let res = TodoList { tasks: graph_new(), complete: Vec::new(), incomplete: Layering::new() };
        proof {
            assert(res.incomplete_seq() =~= Seq::<TaskId>::empty());
            assert forall|a: u32| !#[trigger] crate::model::graph_spec::reach_plus(res.edges(), a, a) by {
                if crate::model::graph_spec::reach_plus(res.edges(), a, a) {
                    let p = choose|p: Seq<u32>| #[trigger] crate::model::graph_spec::is_path(res.edges(), p)
                        && p.len() >= 2 && p[0] == a && p.last() == a;
                    assert(crate::model::graph_spec::path_step(res.edges(), p, 0));
                }
            }
            assert forall|t: TaskId| !#[trigger] res.violates(t) by {
                assert(!res.is_complete(t));
                assert(!res.is_incomplete(t));
            }
        }
        res
    }

    /// The task `id`, if the list has it.
    pub fn get(&self, id: TaskId) -> (res: Option<&Task>)
        ensures
            match res {
                Some(t) => self.has(id) && *t == self.task(id),
                None => !self.has(id),
            },
    {
        graph_node_weight(&self.tasks, id.0)
    }

    /// The complete tasks, most recently completed first.
    pub fn complete_tasks(&self) -> (res: std::vec::IntoIter<TaskId>)
        ensures
            res.remaining() == self.complete_seq().reverse(),
    {
        let mut v: Vec<TaskId> = Vec::new();
        let mut i: usize = self.complete.len();
        while i > 0
            invariant
                0 <= i <= self.complete@.len(),
                v@ == self.complete@.subrange(i as int, self.complete@.len() as int).reverse(),
            decreases i,
        {
            i -= 1;
            v.push(self.complete[i]);
            proof {
                assert(self.complete@.subrange(i as int, self.complete@.len() as int).reverse() =~=
                    self.complete@.subrange(i + 1, self.complete@.len() as int).reverse().push(self.complete@[i as int]));
            }
        }
        assert(self.complete@.subrange(0, self.complete@.len() as int) =~= self.complete@);
        v.into_iter()
    }

    /// The incomplete tasks, layer by layer.
    pub fn incomplete_tasks(&self) -> (res: std::vec::IntoIter<TaskId>)
        ensures
            res.remaining() == self.incomplete_seq(),
    {
        self.incomplete.to_vec().into_iter()
    }

    /// The complete tasks in completion order, then the incomplete tasks.
    pub fn all_tasks_vec(&self) -> (res: Vec<TaskId>)
        ensures
            res@ == self.all_seq(),
    {
        let mut v = self.complete.clone();
        let mut rest = self.incomplete.to_vec();
        v.append(&mut rest);
        v
    }

    /// The complete tasks in completion order, then the incomplete tasks.
    pub fn all_tasks(&self) -> (res: std::vec::IntoIter<TaskId>)
        ensures
            res.remaining() == self.all_seq(),
    {
        self.all_tasks_vec().into_iter()
    }

    pub fn num_incomplete_tasks(&self) -> (res: usize)
        ensures
            res == self.incomplete_seq().len(),
    {
        self.incomplete.len()
    }

    pub fn num_complete_tasks(&self) -> (res: usize)
        ensures
            res == self.complete_seq().len(),
    {
        self.complete.len()
    }
}

/// The tasks with the node indices of `dom` are as many as the indices.
pub proof fn lemma_task_id_map_len(dom: Set<u32>)
    requires
        dom.finite(),
    ensures
        dom.map(|n: u32| TaskId(n)).finite(),
        dom.map(|n: u32| TaskId(n)).len() == dom.len(),
    decreases dom.len(),
{
    let f = |n: u32| TaskId(n);
    if dom.len() == 0 {
        assert(dom =~= Set::<u32>::empty());
        assert(dom.map(f) =~= Set::<TaskId>::empty());
    } else {
        let x = dom.choose();
        let rest = dom.remove(x);
        lemma_task_id_map_len(rest);
        assert(dom.map(f) =~= rest.map(f).insert(TaskId(x)));
        assert(!rest.map(f).contains(TaskId(x)));
    }
}

impl Default for TodoList {
    fn default() -> (res: TodoList)
        ensures
            res.wf(),
            res.nodes() == Map::<u32, Task>::empty(),
            res.complete_seq() == Seq::<TaskId>::empty(),
            res.incomplete_seq() == Seq::<TaskId>::empty(),
    {
        TodoList::new()
    }
}


/// What `snooze` does: a complete task is left as it is, with a warning; an
/// incomplete one gets the start date, leaves layer 0 for layer 1, where the
/// bisection over the keys of that layer puts it, and is warned about when
/// the date is after its implicit due date.
pub open spec fn snooze_outcome(before: TodoList, after: TodoList, id: TaskId, start_date: Timestamp, res: Result<(), Vec<SnoozeWarning>>) -> bool {
    &&& after.wf()
    &&& after.edges() == before.edges()
    &&& after.complete_seq() == before.complete_seq()
    &&& before.implicits_all_right() ==> after.implicits_all_right()
    &&& !before.is_incomplete(id) ==> {
        &&& after == before
        &&& res matches Err(v) && v@ == seq![SnoozeWarning::TaskIsComplete]
    }
    &&& before.is_incomplete(id) ==> {
        &&& after.nodes() == before.nodes().insert(id.0, Task { start_date, ..before.task(id) })
        &&& after.depth_of(id) == Some(if before.depth_of(id) == Some(0usize) { 1usize } else { before.depth_of(id)->Some_0 })
        &&& forall|t: TaskId| t != id ==> #[trigger] after.depth_of(t) == before.depth_of(t)
        &&& before.depth_of(id) == Some(0usize) ==> exists|pos: int| placed_in_layer(before.nodes(),
            before.layering().entries().remove(before.layering().index_of(id)),
            after.layering().entries(), id, 1usize, pos)
        &&& before.depth_of(id) != Some(0usize) ==> after.layering() == before.layering()
        &&& match before.task(id).implicit_due_date {
            Some(d) => if start_date.nanos > d.nanos {
                res matches Err(v) && v@ == seq![SnoozeWarning::SnoozedUntilAfterDueDate { snoozed_until: start_date, due_date: d }]
            } else {
                res is Ok
            },
            None => res is Ok,
        }
    }
}

/// Where `placed_in_layer` puts a task that left another layer of `bl`, in
/// the order of tasks: its index `q`, and the layers of its neighbours.
proof fn lemma_placed_order(bl: Layering, al: Layering, nodes: Map<u32, Task>, id: TaskId, d: usize, pos: int)
    requires
        bl.valid(),
        al.valid(),
        bl.ids().contains(id),
        placed_in_layer(nodes, bl.entries().remove(bl.index_of(id)), al.entries(), id, d, pos),
    ensures
        ({
            let k = bl.index_of(id);
            let r = bl.ids().remove(k);
            let q = count_below(bl.entries().remove(k), d as int) + pos;
            &&& 0 <= k < bl.ids().len()
            &&& bl.ids()[k] == id
            &&& 0 <= q <= r.len()
            &&& al.ids() == r.insert(q, id)
            &&& (q == 0 || al.depth_of(r[q - 1]) != Some(d)
                || !key_less(key_of(nodes[r[q - 1].0]), key_of(nodes[id.0])))
            &&& (q == r.len() || al.depth_of(r[q]) != Some(d)
                || key_less(key_of(nodes[r[q].0]), key_of(nodes[id.0])))
        }),
{
    bl.lemma_valid();
    al.lemma_valid();
    let k = bl.index_of(id);
    let ol = bl.entries().remove(k);
    let start = count_below(ol, d as int) as int;
    let q = start + pos;
    lemma_entry_ids_remove(bl.entries(), k);
    let r = bl.ids().remove(k);
    assert(entry_ids(ol) == r);
    assert(layers_sorted(ol)) by {
        assert forall|i: int, j: int| 0 <= i < j < ol.len() implies #[trigger] ol[i].1 <= #[trigger] ol[j].1 by {
            let i2 = if i < k { i } else { i + 1 };
            let j2 = if j < k { j } else { j + 1 };
            assert(ol[i] == bl.entries()[i2]);
            assert(ol[j] == bl.entries()[j2]);
        }
    }
    crate::model::layering::lemma_count_below_sorted(ol, d as int);
    crate::model::layering::lemma_count_below_sorted(ol, d + 1);
    lemma_entry_ids_insert(ol, q, (id, d));
    if q > 0 {
        let x = r[q - 1];
        assert(al.entries()[q - 1] == ol[q - 1]);
        assert(al.ids()[q - 1] == x);
        assert(al.index_of(x) == q - 1);
        if pos == 0 {
            assert((ol[q - 1].1 as int) < d);
        }
    }
    if q < r.len() {
        let x = r[q];
        assert(al.entries()[q + 1] == ol[q]);
        assert(al.ids()[q + 1] == x);
        assert(al.index_of(x) == q + 1);
        if q == count_below(ol, d + 1) {
            assert((ol[q].1 as int) >= d + 1);
        }
    }
}

/// Snoozing a task of layer 0 takes it out of the order of incomplete tasks
/// and puts it back into layer 1, right after a task of that layer that does
/// not sort after it (or at the start of the layer) and right before one that
/// does (or at the end of the layer); no other task moves.
pub proof fn law_snoozed_task_placed_by_key(
    before: TodoList,
    after: TodoList,
    id: TaskId,
    start_date: Timestamp,
    res: Result<(), Vec<SnoozeWarning>>,
)
    requires
        before.wf(),
        snooze_outcome(before, after, id, start_date, res),
        before.depth_of(id) == Some(0usize),
    ensures
        exists|k: int, q: int| #![trigger before.incomplete_seq().remove(k).insert(q, id)] {
            let r = before.incomplete_seq().remove(k);
            &&& 0 <= k < before.incomplete_seq().len()
            &&& before.incomplete_seq()[k] == id
            &&& 0 <= q <= r.len()
            &&& after.incomplete_seq() == r.insert(q, id)
            &&& after.depth_of(id) == Some(1usize)
            &&& (q == 0 || after.depth_of(r[q - 1]) != Some(1usize)
                || !key_less(key_of(before.task(r[q - 1])), key_of(before.task(id))))
            &&& (q == r.len() || after.depth_of(r[q]) != Some(1usize)
                || key_less(key_of(before.task(r[q])), key_of(before.task(id))))
        },
{
    let bl = before.layering();
    let al = after.layering();
    let pos = choose|pos: int| placed_in_layer(before.nodes(), bl.entries().remove(bl.index_of(id)), al.entries(), id, 1usize, pos);
    lemma_placed_order(bl, al, before.nodes(), id, 1usize, pos);
    let k = bl.index_of(id);
    let q = count_below(bl.entries().remove(k), 1) + pos;
    assert(before.incomplete_seq().remove(k).insert(q, id) == after.incomplete_seq());
}

/// The entries `new_l` are `old_l` with `(id, d)` put at position `pos` of
/// layer `d`, where the bisection over the keys of that layer puts it: after
/// a task that does not sort after it, and before one that does.
pub open spec fn placed_in_layer(
    nodes: Map<u32, Task>,
    old_l: Seq<(TaskId, usize)>,
    new_l: Seq<(TaskId, usize)>,
    id: TaskId,
    d: usize,
    pos: int,
) -> bool {
    let start = count_below(old_l, d as int) as int;
    let end = count_below(old_l, d + 1) as int;
    &&& 0 <= pos <= end - start
    &&& new_l == old_l.insert(start + pos, (id, d))
    &&& (pos == 0 || !key_less(key_of(nodes[old_l[start + pos - 1].0.0]), key_of(nodes[id.0])))
    &&& (start + pos == end || key_less(key_of(nodes[old_l[start + pos].0.0]), key_of(nodes[id.0])))
}

/// The number of a task, as shown to users: incomplete tasks count up from
/// 1 in order; complete tasks count down from 0, most recent first.
pub open spec fn number_in(complete: Seq<TaskId>, incomplete: Layering, id: TaskId) -> Option<int> {
    if incomplete.ids().contains(id) {
        Some(incomplete.index_of(id) + 1)
    } else if complete.contains(id) {
        Some(-(complete.len() - 1 - complete.index_of(id)))
    } else {
        None
    }
}

/// The task with number `n`, if there is one.
pub open spec fn numbered_in(complete: Seq<TaskId>, incomplete: Layering, n: int) -> Option<TaskId> {
    if n <= 0 {
        if -n < complete.len() {
            Some(complete[complete.len() - 1 + n])
        } else {
            None
        }
    } else {
        if n - 1 < incomplete.ids().len() {
            Some(incomplete.ids()[n - 1])
        } else {
            None
        }
    }
}

pub proof fn lemma_filter_in(s: Seq<TaskId>, set: Set<TaskId>)
    ensures
        forall|x: TaskId| #[trigger] filter_in(s, set).contains(x) <==> s.contains(x) && set.contains(x),
        forall|j: int| 0 <= j < filter_in(s, set).len() ==> set.contains(#[trigger] filter_in(s, set)[j]),
        s.no_duplicates() ==> filter_in(s, set).no_duplicates(),
        filter_in(s, set).len() <= s.len(),
    decreases s.len(),
{
    if s.len() > 0 {
        let t = s.drop_last();
        lemma_filter_in(t, set);
        let r = filter_in(t, set);
        assert forall|x: TaskId| #[trigger] filter_in(s, set).contains(x) <==> s.contains(x) && set.contains(x) by {
            if set.contains(s.last()) {
                lemma_seq_insert_contains(r, r.len() as int, s.last());
                assert(r.push(s.last()) == r.insert(r.len() as int, s.last()));
            }
            if s.contains(x) {
                let k = choose|k: int| 0 <= k < s.len() && s[k] == x;
                if k < s.len() - 1 {
                    assert(t[k] == x);
                }
            }
            if t.contains(x) {
                let k = choose|k: int| 0 <= k < t.len() && t[k] == x;
                assert(s[k] == x);
            }
        }
        assert forall|j: int| 0 <= j < filter_in(s, set).len() implies set.contains(#[trigger] filter_in(s, set)[j]) by {
            if j < r.len() {
                assert(filter_in(s, set)[j] == r[j]);
            }
        }
        if s.no_duplicates() {
            assert(t.no_duplicates());
            if set.contains(s.last()) {
                assert(!t.contains(s.last()));
                assert(!r.contains(s.last()));
                assert forall|a: int, b: int| 0 <= a < b < r.push(s.last()).len() implies r.push(s.last())[a] != r.push(s.last())[b] by {
                    if b == r.len() {
                        assert(r.contains(r[a]));
                    }
                }
            }
        }
    }
}

/// The pairs of a member of `xs` and a member of `ys`, by `xs` then `ys`.
pub open spec fn product_seq(xs: Seq<TaskId>, ys: Seq<TaskId>) -> Seq<(TaskId, TaskId)>
    decreases xs.len(),
{
    if xs.len() == 0 {
        Seq::empty()
    } else {
        product_seq(xs.drop_last(), ys) + ys.map_values(|y: TaskId| (xs.last(), y))
    }
}

/// The layer a new task starts in: 1 when it is snoozed (its start date is
/// after its creation time), else 0.
pub open spec fn initial_depth(t: Task) -> usize {
    if t.start_date.nanos > t.creation_time.nanos { 1 } else { 0 }
}

#[derive(Debug, PartialEq, Eq, Clone, Copy, Structural)]
pub enum PuntError {
    TaskIsComplete,
}

impl TodoList {
    pub open spec fn number_of(self, id: TaskId) -> Option<int> {
        number_in(self.complete_seq(), self.layering(), id)
    }

    pub open spec fn numbered(self, n: int) -> Option<TaskId> {
        numbered_in(self.complete_seq(), self.layering(), n)
    }

    /// Every incomplete task is a task of the graph.
    pub open spec fn incomplete_known(self) -> bool {
        forall|t: TaskId| #[trigger] self.is_incomplete(t) ==> self.has(t)
    }

    pub fn status(&self, id: TaskId) -> (res: Option<TaskStatus>)
        ensures
            res == self.status_of(id),
    {
        if vec_contains(&self.complete, &id) {
            return Some(TaskStatus::Complete);
        }
        match self.incomplete.depth(&id) {
            Some(d) => if d == 0 { Some(TaskStatus::Incomplete) } else { Some(TaskStatus::Blocked) },
            None => None,
        }
    }

    /// The number of the task, as shown to users.
    pub fn position(&self, id: TaskId) -> (res: Option<i32>)
        requires
            self.wf_shape(),
        ensures
            match res {
                Some(n) => self.number_of(id) == Some(n as int),
                None => self.number_of(id) is None,
            },
    {
        proof {
            self.lemma_wf();
            self.layering().lemma_valid();
        }
        match self.incomplete.position(&id) {
            Some(pos) => {
                proof {
                    assert(pos < self.incomplete_seq().len());
                }
                let p: i32 = pos as i32;
                Some(p + 1)
            },
            None => {
                let len = self.complete.len();
                let mut k: usize = 0;
                while k < len
                    invariant
                        0 <= k <= len,
                        len == self.complete@.len(),
                        len < i32::MAX,
                        self.complete@.no_duplicates(),
                        !self.incomplete_seq().contains(id),
                        forall|j: int| len - k <= j < len ==> self.complete@[j] != id,
                    decreases len - k,
                {
                    if self.complete[len - 1 - k] == id {
                        proof {
                            assert(self.complete@[len - 1 - k] == id);
                            let i = self.complete@.index_of(id);
                            assert(self.complete@.contains(id));
                            assert(self.complete@[i] == id);
                            assert(i == len - 1 - k);
                        }
                        let kk: i32 = k as i32;
                        return Some(-kk);
                    }
                    k += 1;
                }
                proof {
                    if self.complete@.contains(id) {
                        let i = self.complete@.index_of(id);
                        assert(self.complete@[i] == id);
                    }
                }
                None
            },
        }
    }

    /// The task with the given number, as shown to users.
    pub fn lookup_by_number(&self, number: i32) -> (res: Option<TaskId>)
        requires
            number > i32::MIN,
        ensures
            res == self.numbered(number as int),
    {
        if number <= 0 {
            let k: i32 = -number;
            let k: usize = k as usize;
            if k < self.complete.len() {
                Some(self.complete[self.complete.len() - 1 - k])
            } else {
                None
            }
        } else {
            let k: i32 = number - 1;
            let k: usize = k as usize;
            self.incomplete.facts();
            proof {
                self.layering().lemma_valid_facts_len();
            }
            if k < self.incomplete.len() {
                Some(self.incomplete.get(k))
            } else {
                None
            }
        }
    }

    /// Sets the description of the task. Returns whether the list has it.
    pub fn set_desc(&mut self, id: TaskId, desc: &str) -> (res: bool)
        requires
            old(self).wf(),
        ensures
            final(self).wf(),
            res == old(self).has(id),
            res ==> final(self).nodes() == old(self).nodes().insert(id.0, Task { desc: final(self).task(id).desc, ..old(self).task(id) }),
            res ==> final(self).task(id).desc@ == desc@,
            !res ==> final(self).nodes() == old(self).nodes(),
            final(self).edges() == old(self).edges(),
            final(self).complete_seq() == old(self).complete_seq(),
            final(self).layering() == old(self).layering(),
            old(self).implicits_all_right() ==> final(self).implicits_all_right(),
    {
        match graph_node_weight(&self.tasks, id.0) {
            Some(task) => {
                let mut t = copy_task(task);
                t.desc = desc.to_owned();
                graph_set_node(&mut self.tasks, id.0, t);
                proof {
                    assert(self.nodes().dom() =~= old(self).nodes().dom());
                    self.lemma_wf_same_shape(*old(self));
                    self.lemma_violates_after_move(*old(self), id);
                    assert(!self.violates(id)) by {
                        assert(!old(self).violates(id));
                        assert(self.dep_set(id) =~= old(self).dep_set(id));
                    }
                    if old(self).implicits_all_right() {
                        TodoList::lemma_all_right_same_weights(*old(self), *self);
                    }
                }
                true
            },
            None => false,
        }
    }

    /// The tasks that `id` waits on.
    pub fn deps(&self, id: TaskId) -> (res: TaskSet)
        ensures
            res@ == self.dep_set(id),
    {
        let parents = graph_parents(&self.tasks, id.0);
        let res = ids_to_set(&parents);
        proof {
            assert forall|t: TaskId| res@.contains(t) <==> self.dep_set(id).contains(t) by {
                assert(parents@.contains(t.0) <==> has_edge(self.edges(), t.0, id.0));
            }
            assert(res@ =~= self.dep_set(id));
        }
        res
    }

    /// The tasks that wait on `id`.
    pub fn adeps(&self, id: TaskId) -> (res: TaskSet)
        ensures
            res@ == self.adep_set(id),
    {
        let children = graph_children(&self.tasks, id.0);
        let res = ids_to_set(&children);
        proof {
            assert forall|t: TaskId| res@.contains(t) <==> self.adep_set(id).contains(t) by {
                assert(children@.contains(t.0) <==> has_edge(self.edges(), id.0, t.0));
            }
            assert(res@ =~= self.adep_set(id));
        }
        res
    }

    /// Puts `id` into layer `depth`, where the bisection over the keys of the
    /// tasks in that layer puts it. Returns the position within the layer.
    fn put_in_incomplete_layer(&mut self, id: TaskId, depth: usize) -> (res: usize)
        requires
            old(self).incomplete_known(),
            old(self).has(id),
            !old(self).is_incomplete(id),
        ensures
            placed_in_layer(old(self).nodes(), old(self).layering().entries(), final(self).layering().entries(), id, depth, res as int),
            final(self).tasks_graph() == old(self).tasks_graph(),
            final(self).complete_seq() == old(self).complete_seq(),
            final(self).layering().valid(),
            forall|t: TaskId| #[trigger] final(self).is_incomplete(t) <==> old(self).is_incomplete(t) || t == id,
            final(self).incomplete_known(),
    {
        self.incomplete.facts();
        let (start, end) = self.incomplete.layer_bounds(depth);
        let ghost entries = self.layering().entries();
        let mut keys: Vec<SortKey> = Vec::new();
        let mut i: usize = start;
        while i < end
            invariant
                start <= i <= end <= entries.len(),
                entries == self.layering().entries(),
                self.layering().valid(),
                self.incomplete_known(),
                keys@.len() == i - start,
                forall|j: int| 0 <= j < keys@.len() ==> #[trigger] keys@[j] == key_of(self.nodes()[entries[start + j].0.0]),
            decreases end - i,
        {
            let t = self.incomplete.get(i);
            proof {
                self.layering().lemma_valid();
                assert(self.incomplete_seq()[i as int] == t);
                assert(self.is_incomplete(t));
            }
            let task = graph_node_weight(&self.tasks, t.0).unwrap();
            keys.push(SortKey { priority: task.implicit_priority, due: task.implicit_due_date });
            i += 1;
        }
        let task = graph_node_weight(&self.tasks, id.0).unwrap();
        let key = SortKey { priority: task.implicit_priority, due: task.implicit_due_date };
        let pos = bisect_keys(&keys, &key);
        proof {
            if pos > 0 {
                assert(keys@[pos - 1] == key_of(self.nodes()[entries[start + pos - 1].0.0]));
            }
            if pos < keys@.len() {
                assert(keys@[pos + 0] == key_of(self.nodes()[entries[start + pos].0.0]));
            }
        }
        self.incomplete.put_in_layer(id, depth, pos);
        proof {
            lemma_entry_ids_insert(entries, start + pos, (id, depth));
            lemma_seq_insert_contains(entry_ids(entries), start + pos, id);
            assert forall|t: TaskId| #[trigger] self.is_incomplete(t) implies self.has(t) by {
                if t != id {
                    assert(old(self).is_incomplete(t));
                }
            }
        }
        pos
    }

    /// Adds a task made from `options`. It starts in layer 0, or in layer 1
    /// when its start date is after its creation time (it is snoozed).
    pub fn add_task(&mut self, options: NewOptions) -> (res: TaskId)
        requires
            old(self).wf(),
            old(self).nodes().dom().len() + 1 < i32::MAX,
        ensures
            final(self).wf(),
            !old(self).has(res),
            final(self).nodes() == old(self).nodes().insert(res.0, new_task(options)),
            final(self).edges() == old(self).edges(),
            final(self).complete_seq() == old(self).complete_seq(),
            old(self).implicits_all_right() ==> final(self).implicits_all_right(),
            exists|pos: int| #[trigger] placed_in_layer(final(self).nodes(), old(self).layering().entries(),
                final(self).layering().entries(), res,
                initial_depth(new_task(options)), pos),
    {
        proof {
            self.lemma_wf();
        }
        let task = Task::new(options);
        let snooze = task.start_date.nanos > task.creation_time.nanos;
        let n = graph_add_node(&mut self.tasks, task);
        let id = TaskId(n);
        proof {
            assert(!old(self).is_complete(id) && !old(self).is_incomplete(id)) by {
                assert(!old(self).has(id));
            }
            assert forall|t: TaskId| #[trigger] self.is_incomplete(t) implies self.has(t) by {
                assert(old(self).has(t));
            }
        }
        let depth: usize = if snooze { 1 } else { 0 };
        assert(depth == initial_depth(new_task(options)));
        let pos = self.put_in_incomplete_layer(id, depth);
        proof {
            assert(self.nodes()[id.0] == new_task(options));
            assert forall|t: TaskId| #![trigger self.has(t)] self.has(t) <==> (self.is_complete(t) || self.is_incomplete(t)) by {
                if t != id {
                    assert(self.has(t) == old(self).has(t));
                    assert(old(self).has(t) <==> (old(self).is_complete(t) || old(self).is_incomplete(t)));
                }
            }
            assert forall|t: TaskId| #![trigger self.is_complete(t)] #![trigger self.is_incomplete(t)]
                !(self.is_complete(t) && self.is_incomplete(t)) by {
                if t != id {
                    assert(!(old(self).is_complete(t) && old(self).is_incomplete(t)));
                }
            }
            assert(placed_in_layer(self.nodes(), old(self).layering().entries(), self.layering().entries(), id, depth, pos as int)) by {
                let nodes0 = old(self).nodes();
                let start = count_below(old(self).layering().entries(), depth as int) as int;
                let end = count_below(old(self).layering().entries(), depth + 1) as int;
                let ol = old(self).layering().entries();
                crate::model::layering::lemma_count_below_bounds(ol, depth + 1);
                old(self).layering().lemma_valid();
                if pos > 0 {
                    assert(old(self).incomplete_seq().contains(ol[start + pos - 1].0)) by {
                        old(self).layering().lemma_valid();
                        assert(old(self).incomplete_seq()[start + pos - 1] == ol[start + pos - 1].0);
                    }
                    assert(ol[start + pos - 1].0 != id);
                }
                if start + pos < end {
                    assert(old(self).incomplete_seq().contains(ol[start + pos].0)) by {
                        old(self).layering().lemma_valid();
                        assert(old(self).incomplete_seq()[start + pos] == ol[start + pos].0);
                    }
                    assert(ol[start + pos].0 != id);
                }
            }
            assert(forall|t: TaskId| t != id ==> #[trigger] self.depth_of(t) == old(self).depth_of(t)) by {
                let start = count_below(old(self).layering().entries(), depth as int) as int;
                crate::model::layering::lemma_count_below_bounds(old(self).layering().entries(), depth + 1);
                old(self).layering().lemma_valid();
                lemma_depth_of_insert(old(self).layering(), self.layering(), start + pos, id, depth);
            }
            self.lemma_violates_after_reopen(*old(self), id);
            assert forall|t: TaskId| !#[trigger] self.violates(t) by {
                if t != id && self.violates(t) {
                    assert(!old(self).violates(t));
                    assert(old(self).adep_set(id).contains(t));
                    let e = choose|e: usize| old(self).edges().contains_key(e) && #[trigger] old(self).edges()[e] == (id.0, t.0);
                    assert(old(self).nodes().dom().contains(id.0));
                }
                if t == id {
                    assert(!self.is_complete(id));
                    assert(self.depth_of(id) == Some(depth)) by {
                        let start = count_below(old(self).layering().entries(), depth as int) as int;
                        crate::model::layering::lemma_count_below_bounds(old(self).layering().entries(), depth + 1);
                        old(self).layering().lemma_valid();
                        lemma_depth_of_insert(old(self).layering(), self.layering(), start + pos, id, depth);
                    }
                }
            }
            if old(self).implicits_all_right() {
                let roots = set![id.0];
                assert forall|c: u32| !#[trigger] has_edge(self.edges(), id.0, c) by {
                    if has_edge(self.edges(), id.0, c) {
                        let e = choose|e: usize| self.edges().contains_key(e) && #[trigger] self.edges()[e] == (id.0, c);
                        assert(old(self).edges().contains_key(e));
                        assert(old(self).nodes().dom().contains(id.0));
                    }
                }
                lemma_leaf_right(self.nodes(), self.edges(), id.0);
                assert forall|t: u32, x: u32| #![trigger roots.contains(x), wrong_path(self.nodes(), self.edges(), t, x)]
                    self.nodes().dom().contains(t) && roots.contains(x) && wrong_path(self.nodes(), self.edges(), t, x)
                    implies implicits_right(self.nodes(), self.edges(), t) by {
                    let p = choose|p: Seq<u32>| #[trigger] wrong_walk(self.nodes(), self.edges(), p) && p[0] == t && p.last() == x;
                    assert(!implicits_right(self.nodes(), self.edges(), p[p.len() - 1]));
                }
                TodoList::lemma_all_right_after_repair(*old(self), *self, *self, roots);
            }
        }
        id
    }

    /// Adds a task made from `task` (a description, or `NewOptions`).
    pub fn add<T: Into<NewOptions>>(&mut self, task: T) -> (res: TaskId)
        requires
            old(self).wf(),
            old(self).nodes().dom().len() + 1 < i32::MAX,
        ensures
            final(self).wf(),
            !old(self).has(res),
            exists|options: NewOptions| {
                &&& call_ensures(T::into, (task,), options)
                &&& final(self).nodes() == old(self).nodes().insert(res.0, new_task(options))
            },
            final(self).edges() == old(self).edges(),
            final(self).complete_seq() == old(self).complete_seq(),
            old(self).implicits_all_right() ==> final(self).implicits_all_right(),
    {
        let options: NewOptions = task.into();
        self.add_task(options)
    }

    /// Moves an incomplete task to where the bisection puts it in its layer
    /// (after the tasks that sort equal to it).
    pub fn punt(&mut self, id: TaskId) -> (res: Result<(), PuntError>)
        requires
            old(self).wf_shape(),
        ensures
            final(self).wf_shape(),
            forall|t: TaskId| #[trigger] final(self).violates(t) == old(self).violates(t),
            forall|t: TaskId| #[trigger] final(self).depth_of(t) == old(self).depth_of(t),
            final(self).tasks_graph() == old(self).tasks_graph(),
            final(self).complete_seq() == old(self).complete_seq(),
            old(self).implicits_all_right() ==> final(self).implicits_all_right(),
            match res {
                Ok(()) => {
                    &&& old(self).is_incomplete(id)
                    &&& exists|pos: int| #[trigger] placed_in_layer(old(self).nodes(),
                        old(self).layering().entries().remove(old(self).layering().index_of(id)),
                        final(self).layering().entries(), id, old(self).depth_of(id)->Some_0, pos)
                },
                Err(e) => {
                    &&& e == PuntError::TaskIsComplete
                    &&& !old(self).is_incomplete(id)
                    &&& final(self).layering() == old(self).layering()
                },
            },
    {
        match self.incomplete.depth(&id) {
            Some(depth) => {
                proof {
                    self.layering().lemma_valid();
                }
                self.incomplete.remove_from_layer(&id, depth);
                let ghost mid = self.layering().entries();
                let ghost midl = self.layering();
                proof {
                    let ol = old(self).layering().entries();
                    let k = old(self).layering().index_of(id);
                    old(self).layering().lemma_valid();
                    lemma_entry_ids_remove(ol, k);
                    lemma_seq_remove_contains(entry_ids(ol), k);
                    assert(entry_ids(ol)[k] == id);
                    assert forall|t: TaskId| #[trigger] self.is_incomplete(t) implies self.has(t) by {
                        assert(old(self).is_incomplete(t));
                        assert(old(self).has(t));
                    }
                    assert(old(self).is_incomplete(id));
                    assert(old(self).has(id));
                    assert(!self.is_incomplete(id));
                }
                let pos = self.put_in_incomplete_layer(id, depth);
                proof {
                    self.lemma_partition_after_move(*old(self), id);
                    let start = count_below(mid, depth as int) as int;
                    crate::model::layering::lemma_count_below_bounds(mid, depth + 1);
                    lemma_depth_of_remove(old(self).layering(), midl, id);
                    lemma_depth_of_insert(midl, self.layering(), start + pos, id, depth);
                    self.lemma_violates_same(*old(self));
                }
                Ok(())
            },
            None => Err(PuntError::TaskIsComplete),
        }
    }

    /// A list whose graph has the same nodes and edges as a well-formed one,
    /// with the same complete and incomplete tasks, is well-formed.
    proof fn lemma_wf_same_shape(self, before: TodoList)
        requires
            before.wf_shape(),
            graph_wf(self.tasks_graph()),
            self.nodes().dom() == before.nodes().dom(),
            self.edges() == before.edges(),
            self.complete_seq() == before.complete_seq(),
            self.layering() == before.layering(),
        ensures
            self.wf_shape(),
    {
        assert forall|t: TaskId| #![trigger self.has(t)] self.has(t) <==> (self.is_complete(t) || self.is_incomplete(t)) by {
            assert(before.has(t) <==> (before.is_complete(t) || before.is_incomplete(t)));
        }
        assert forall|t: TaskId| #![trigger self.is_complete(t)] #![trigger self.is_incomplete(t)]
            !(self.is_complete(t) && self.is_incomplete(t)) by {
            assert(!(before.is_complete(t) && before.is_incomplete(t)));
        }
    }

    /// After a move that kept every task in the same place (complete or
    /// incomplete) and the graph as it was, the invariant still holds.
    proof fn lemma_partition_after_move(self, before: TodoList, id: TaskId)
        requires
            before.wf_shape(),
            self.tasks_graph() == before.tasks_graph(),
            self.complete_seq() == before.complete_seq(),
            self.layering().valid(),
            forall|t: TaskId| #[trigger] self.is_incomplete(t) <==> before.is_incomplete(t),
        ensures
            self.wf_shape(),
    {
        assert forall|t: TaskId| #![trigger self.has(t)] self.has(t) <==> (self.is_complete(t) || self.is_incomplete(t)) by {
            assert(before.has(t) <==> (before.is_complete(t) || before.is_incomplete(t)));
        }
        assert forall|t: TaskId| #![trigger self.is_complete(t)] #![trigger self.is_incomplete(t)]
            !(self.is_complete(t) && self.is_incomplete(t)) by {
            assert(!(before.is_complete(t) && before.is_incomplete(t)));
        }
    }

    /// The implicit priority of the task, if the list has it.
    pub fn implicit_priority(&self, id: TaskId) -> (res: Option<i32>)
        ensures
            res == if self.has(id) { Some(self.task(id).implicit_priority) } else { None },
    {
        match graph_node_weight(&self.tasks, id.0) {
            Some(task) => Some(task.implicit_priority),
            None => None,
        }
    }

    /// The implicit due date of the task, if the list has it.
    pub fn implicit_due_date(&self, id: TaskId) -> (res: Option<Option<Timestamp>>)
        ensures
            res == if self.has(id) { Some(self.task(id).implicit_due_date) } else { None },
    {
        match graph_node_weight(&self.tasks, id.0) {
            Some(task) => Some(task.implicit_due_date),
            None => None,
        }
    }
}

/// A copy of `t`.
pub fn copy_task(t: &Task) -> (res: Task)
    ensures
        res == *t,
{
    Task {
        desc: t.desc.clone(),
        creation_time: t.creation_time,
        completion_time: t.completion_time,
        priority: t.priority,
        implicit_priority: t.implicit_priority,
        due_date: t.due_date,
        implicit_due_date: t.implicit_due_date,
        budget: t.budget,
        start_date: t.start_date,
    }
}

/// The set of the tasks with the node indices `ns`.
fn ids_to_set(ns: &Vec<u32>) -> (res: TaskSet)
    ensures
        forall|t: TaskId| res@.contains(t) <==> ns@.contains(t.0),
{
    let mut res = TaskSet::new();
    let mut i: usize = 0;
    while i < ns.len()
        invariant
            0 <= i <= ns@.len(),
            forall|t: TaskId| res@.contains(t) <==> exists|j: int| 0 <= j < i && ns@[j] == t.0,
        decreases ns@.len() - i,
    {
        res.insert(TaskId(ns[i]));
        i += 1;
    }
    res
}

impl TaskSet {
    /// The members, in the order of `list`: complete tasks in completion
    /// order, then incomplete tasks.
    pub fn iter_sorted(&self, list: &TodoList) -> (res: std::vec::IntoIter<TaskId>)
        ensures
            res.remaining() == filter_in(list.all_seq(), self@),
    {
        self.sorted_vec(list).into_iter()
    }

    /// The members, in the order of `list`.
    pub fn sorted_vec(&self, list: &TodoList) -> (res: Vec<TaskId>)
        ensures
            res@ == filter_in(list.all_seq(), self@),
    {
        let all = list.all_tasks_vec();
        let mut res: Vec<TaskId> = Vec::new();
        let mut i: usize = 0;
        while i < all.len()
            invariant
                0 <= i <= all@.len(),
                res@ == filter_in(all@.take(i as int), self@),
            decreases all@.len() - i,
        {
            if self.contains(&all[i]) {
                res.push(all[i]);
            }
            proof {
                assert(all@.take(i + 1).drop_last() =~= all@.take(i as int));
            }
            i += 1;
        }
        assert(all@.take(all@.len() as int) =~= all@);
        res
    }

    /// Each member of this set paired with each member of `other`, both in
    /// the order of `list`.
    pub fn product(&self, other: &TaskSet, list: &TodoList) -> (res: Vec<(TaskId, TaskId)>)
        ensures
            res@ == product_seq(filter_in(list.all_seq(), self@), filter_in(list.all_seq(), other@)),
    {
        let xs = self.sorted_vec(list);
        let ys = other.sorted_vec(list);
        let mut res: Vec<(TaskId, TaskId)> = Vec::new();
        let mut i: usize = 0;
        while i < xs.len()
            invariant
                0 <= i <= xs@.len(),
                res@ == product_seq(xs@.take(i as int), ys@),
            decreases xs@.len() - i,
        {
            let mut j: usize = 0;
            let ghost before = res@;
            while j < ys.len()
                invariant
                    0 <= i < xs@.len(),
                    0 <= j <= ys@.len(),
                    res@ == before + ys@.take(j as int).map_values(|y: TaskId| (xs@[i as int], y)),
                decreases ys@.len() - j,
            {
                res.push((xs[i], ys[j]));
                proof {
                    assert(ys@.take(j + 1).map_values(|y: TaskId| (xs@[i as int], y)) =~=
                        ys@.take(j as int).map_values(|y: TaskId| (xs@[i as int], y)).push((xs@[i as int], ys@[j as int])));
                }
                j += 1;
            }
            proof {
                assert(ys@.take(ys@.len() as int) =~= ys@);
                assert(xs@.take(i + 1).drop_last() =~= xs@.take(i as int));
            }
            i += 1;
        }
        assert(xs@.take(xs@.len() as int) =~= xs@);
        res
    }
}


impl TodoList {
    /// The highest priority of the task and of the tasks that wait on it,
    /// directly or not.
    fn calculate_implicit_priority(&self, id: TaskId) -> (res: i32)
        requires
            self.wf_shape(),
            self.has(id),
        ensures
            is_implicit_priority(self.nodes(), self.edges(), id.0, res),
        decreases descendants(self.edges(), id.0).len(),
    {
        let ghost es = self.edges();
        let ghost nodes = self.nodes();
        let task = graph_node_weight(&self.tasks, id.0).unwrap();
        let mut m: i32 = task.priority;
        let ghost mut w: u32 = id.0;
        let children = graph_children(&self.tasks, id.0);
        let mut i: usize = 0;
        while i < children.len()
            invariant
                self.wf_shape(),
                es == self.edges(),
                nodes == self.nodes(),
                0 <= i <= children@.len(),
                forall|c: u32| children@.contains(c) <==> has_edge(es, id.0, c),
                reaches(es, id.0, w),
                nodes[w].priority == m,
                nodes[id.0].priority <= m,
                forall|j: int, t: u32| 0 <= j < i && #[trigger] reaches(es, children@[j], t) ==> nodes[t].priority <= m,
            decreases children@.len() - i,
        {
            let c = children[i];
            proof {
                assert(children@.contains(c));
                assert(has_edge(es, id.0, c));
                lemma_descendants_shrink(nodes.dom(), es, id.0, c);
                crate::model::graph_spec::lemma_edge_path(es, id.0, c);
                crate::model::graph_spec::lemma_reach_plus_in_dom(nodes.dom(), es, id.0, c);
            }
            let r = self.calculate_implicit_priority(TaskId(c));
            if r > m {
                proof {
                    let t = choose|t: u32| #[trigger] reaches(es, c, t) && nodes[t].priority == r;
                    lemma_reaches_through_child(es, id.0, c, t);
                    w = t;
                }
                m = r;
            }
            i += 1;
        }
        proof {
            assert forall|t: u32| #[trigger] reaches(es, id.0, t) implies nodes[t].priority <= m by {
                if t != id.0 {
                    lemma_reaches_split(es, id.0, t);
                    let c = choose|c: u32| #[trigger] has_edge(es, id.0, c) && reaches(es, c, t);
                    assert(children@.contains(c));
                    let j = choose|j: int| 0 <= j < children@.len() && children@[j] == c;
                    assert(reaches(es, children@[j], t));
                }
            }
            assert(reaches(es, id.0, w));
        }
        m
    }

    /// The earliest due date that the task or the tasks that wait on it
    /// impose on it, each moved earlier by the budgets of the tasks between.
    fn calculate_implicit_due_date(&self, id: TaskId) -> (res: Option<Timestamp>)
        requires
            self.wf_shape(),
            self.has(id),
        ensures
            is_implicit_due_date(self.nodes(), self.edges(), id.0, res),
        decreases descendants(self.edges(), id.0).len(),
    {
        let ghost es = self.edges();
        let ghost nodes = self.nodes();
        let task = graph_node_weight(&self.tasks, id.0).unwrap();
        let mut best: Option<Timestamp> = task.due_date;
        let ghost mut wp: Seq<u32> = seq![id.0];
        proof {
            assert(walk_from(es, id.0, wp)) by {
                assert forall|k: int| 0 <= k < wp.len() - 1 implies #[trigger] crate::model::graph_spec::path_step(es, wp, k) by {}
            }
            assert(walk_due(nodes, wp) == nodes[id.0].due_date);
        }
        let children = graph_children(&self.tasks, id.0);
        let mut i: usize = 0;
        while i < children.len()
            invariant
                self.wf_shape(),
                es == self.edges(),
                nodes == self.nodes(),
                0 <= i <= children@.len(),
                forall|c: u32| children@.contains(c) <==> has_edge(es, id.0, c),
                best matches Some(b) ==> walk_from(es, id.0, wp) && walk_due(nodes, wp) == Some(b),
                nodes[id.0].due_date matches Some(x) ==> (best matches Some(b) && b.nanos <= x.nanos),
                forall|j: int, q: Seq<u32>| 0 <= j < i && #[trigger] walk_from(es, children@[j], q) && walk_due(nodes, q) is Some
                    ==> (best matches Some(b) && b.nanos <= ts_minus_secs(walk_due(nodes, q)->Some_0, nodes[children@[j]].budget.0).nanos),
            decreases children@.len() - i,
        {
            let c = children[i];
            proof {
                assert(children@.contains(c));
                assert(has_edge(es, id.0, c));
                lemma_descendants_shrink(nodes.dom(), es, id.0, c);
                crate::model::graph_spec::lemma_edge_path(es, id.0, c);
                crate::model::graph_spec::lemma_reach_plus_in_dom(nodes.dom(), es, id.0, c);
            }
            let r = self.calculate_implicit_due_date(TaskId(c));
            match r {
                Some(d) => {
                    let ct = graph_node_weight(&self.tasks, c).unwrap();
                    let v = d.minus_secs(ct.budget.0);
                    let ghost wq = choose|q: Seq<u32>| #[trigger] walk_from(es, c, q) && walk_due(nodes, q) == Some(d);
                    proof {
                        lemma_walk_due_prepend(nodes, es, id.0, wq);
                    }
                    let replace = match best {
                        Some(b) => v.nanos < b.nanos,
                        None => true,
                    };
                    if replace {
                        best = Some(v);
                        proof {
                            wp = seq![id.0] + wq;
                        }
                    }
                    proof {
                        assert forall|j: int, q: Seq<u32>| 0 <= j < i + 1 && #[trigger] walk_from(es, children@[j], q) && walk_due(nodes, q) is Some
                            implies (best matches Some(b) && b.nanos <= ts_minus_secs(walk_due(nodes, q)->Some_0, nodes[children@[j]].budget.0).nanos) by {
                            if j == i {
                                lemma_ts_minus_monotone(d, walk_due(nodes, q)->Some_0, nodes[c].budget.0);
                            }
                        }
                    }
                },
                None => {
                    proof {
                        assert forall|j: int, q: Seq<u32>| 0 <= j < i + 1 && #[trigger] walk_from(es, children@[j], q) && walk_due(nodes, q) is Some
                            implies (best matches Some(b) && b.nanos <= ts_minus_secs(walk_due(nodes, q)->Some_0, nodes[children@[j]].budget.0).nanos) by {
                            if j == i {
                                assert(walk_from(es, c, q));
                            }
                        }
                    }
                },
            }
            i += 1;
        }
        proof {
            assert forall|p: Seq<u32>| #[trigger] walk_from(es, id.0, p) && walk_due(nodes, p) is Some
                implies (best matches Some(b) && b.nanos <= walk_due(nodes, p)->Some_0.nanos) by {
                if p.len() >= 2 {
                    lemma_walk_due_split(nodes, es, id.0, p);
                    let c = p[1];
                    assert(children@.contains(c));
                    let j = choose|j: int| 0 <= j < children@.len() && children@[j] == c;
                    assert(walk_from(es, children@[j], p.drop_first()));
                } else {
                    assert(p =~= seq![id.0]);
                }
            }
            match best {
                Some(b) => {},
                None => {
                    assert forall|p: Seq<u32>| #[trigger] walk_from(es, id.0, p) implies walk_due(nodes, p) is None by {
                        if walk_due(nodes, p) is Some {
                        }
                    }
                },
            }
        }
        best
    }
}


impl TodoList {
    /// `m` is the deepest layer of the incomplete tasks that `id` waits on,
    /// or none when it waits on no incomplete task.
    pub open spec fn is_max_dep_depth(self, id: TaskId, m: Option<usize>) -> bool {
        match m {
            None => forall|t: TaskId| #[trigger] self.dep_set(id).contains(t) ==> self.depth_of(t) is None,
            Some(k) => {
                &&& exists|t: TaskId| #[trigger] self.dep_set(id).contains(t) && self.depth_of(t) == Some(k)
                &&& forall|t: TaskId| #[trigger] self.dep_set(id).contains(t) && self.depth_of(t) is Some
                    ==> self.depth_of(t)->Some_0 <= k
            },
        }
    }

    /// The layer that `id` belongs in: one below the deepest incomplete task
    /// it waits on, or 0.
    pub open spec fn is_target_depth(self, id: TaskId, d: usize) -> bool {
        exists|m: Option<usize>| #[trigger] self.is_max_dep_depth(id, m) && d == match m {
            Some(k) => if k == usize::MAX { usize::MAX } else { (k + 1) as usize },
            None => 0,
        }
    }

    /// A snoozed task stays where it is: it is complete, or it is in layer 1
    /// with a start date after `now` (or after its creation time when no
    /// time is given).
    pub open spec fn keeps_snoozed(self, id: TaskId, now: Option<Timestamp>) -> bool {
        match self.depth_of(id) {
            Some(d) => d == 1 && match now {
                Some(n) => self.task(id).start_date.nanos > n.nanos,
                None => self.task(id).start_date.nanos > self.task(id).creation_time.nanos,
            },
            None => true,
        }
    }

    /// Tasks other than `id` and its descendants are where they were.
    pub open spec fn same_outside(self, before: TodoList, id: TaskId) -> bool {
        forall|t: TaskId| #![trigger self.depth_of(t)] #![trigger self.is_complete(t)]
            t != id && !descendants(before.edges(), id.0).contains(t.0) ==> {
                &&& self.depth_of(t) == before.depth_of(t)
                &&& self.is_complete(t) == before.is_complete(t)
            }
    }

    fn should_keep_snoozed(&self, id: TaskId, now: Option<Timestamp>) -> (res: bool)
        requires
            self.has(id),
        ensures
            res == self.keeps_snoozed(id, now),
    {
        let task = graph_node_weight(&self.tasks, id.0).unwrap();
        match self.incomplete.depth(&id) {
            Some(depth) => {
                depth == 1 && match now {
                    Some(n) => task.start_date.nanos > n.nanos,
                    None => task.start_date.nanos > task.creation_time.nanos,
                }
            },
            None => true,
        }
    }

    /// Whether `id` is out of place (see `violates`).
    pub(crate) fn is_out_of_place(&self, id: TaskId) -> (res: bool)
        ensures
            res == self.violates(id),
    {
        let m = self.max_depth_of_deps(id);
        proof {
            if self.has_incomplete_dep(id) {
                let t = choose|t: TaskId| #[trigger] self.dep_set(id).contains(t) && self.is_incomplete(t);
                assert(self.depth_of(t) is Some);
            }
            if m is Some {
                let t = choose|t: TaskId| #[trigger] self.dep_set(id).contains(t) && self.depth_of(t) == m;
                assert(self.is_incomplete(t));
            }
        }
        let waits = m.is_some();
        let complete = vec_contains(&self.complete, &id);
        match self.incomplete.depth(&id) {
            Some(d) => (complete && waits) || (d == 0 && waits) || (d >= 2 && !waits),
            None => complete && waits,
        }
    }

    /// A list made of a graph, the complete tasks in order and the layers,
    /// taken as they are.
    pub(crate) fn from_fields(tasks: TaskGraph, complete: Vec<TaskId>, incomplete: Layering) -> (res: TodoList)
        ensures
            res.tasks_graph() == tasks,
            res.nodes() == graph_nodes(tasks),
            res.edges() == graph_edges(tasks),
            res.complete_seq() == complete@,
            res.layering() == incomplete,
    {
        TodoList { tasks, complete, incomplete }
    }

    /// The dependency graph.
    pub(crate) fn graph(&self) -> (res: &TaskGraph)
        ensures
            *res == self.tasks_graph(),
            graph_nodes(*res) == self.nodes(),
            graph_edges(*res) == self.edges(),
    {
        &self.tasks
    }

    /// The complete tasks, in the order they were completed.
    pub(crate) fn complete_vec(&self) -> (res: &Vec<TaskId>)
        ensures
            res@ == self.complete_seq(),
    {
        &self.complete
    }

    /// The incomplete tasks in their layers.
    pub(crate) fn layering_ref(&self) -> (res: &Layering)
        ensures
            *res == self.layering(),
    {
        &self.incomplete
    }

    fn max_depth_of_deps(&self, id: TaskId) -> (res: Option<usize>)
        ensures
            self.is_max_dep_depth(id, res),
    {
        let deps = self.deps(id);
        deps.members_facts();
        let v = deps.to_vec_unsorted();
        let mut m: Option<usize> = None;
        let mut i: usize = 0;
        while i < v.len()
            invariant
                0 <= i <= v@.len(),
                v@.to_set() == self.dep_set(id),
                match m {
                    None => forall|j: int| 0 <= j < i ==> #[trigger] self.depth_of(v@[j]) is None,
                    Some(k) => {
                        &&& exists|j: int| 0 <= j < i && #[trigger] self.depth_of(v@[j]) == Some(k)
                        &&& forall|j: int| 0 <= j < i && #[trigger] self.depth_of(v@[j]) is Some ==> self.depth_of(v@[j])->Some_0 <= k
                    },
                },
            decreases v@.len() - i,
        {
            let dd = self.incomplete.depth(&v[i]);
            proof {
                assert(dd == self.depth_of(v@[i as int]));
            }
            match dd {
                Some(d) => {
                    match m {
                        Some(k) => {
                            if d > k {
                                m = Some(d);
                            }
                        },
                        None => {
                            m = Some(d);
                        },
                    }
                },
                None => {},
            }
            i += 1;
        }
        proof {
            match m {
                None => {
                    assert forall|t: TaskId| #[trigger] self.dep_set(id).contains(t) implies self.depth_of(t) is None by {
                        assert(v@.to_set().contains(t));
                        let j = choose|j: int| 0 <= j < v@.len() && v@[j] == t;
                        assert(self.depth_of(v@[j]) is None);
                    }
                },
                Some(k) => {
                    let j0 = choose|j: int| 0 <= j < i && #[trigger] self.depth_of(v@[j]) == Some(k);
                    assert(self.dep_set(id).contains(v@[j0])) by {
                        assert(v@.to_set().contains(v@[j0]));
                    }
                    assert forall|t: TaskId| #[trigger] self.dep_set(id).contains(t) && self.depth_of(t) is Some
                        implies self.depth_of(t)->Some_0 <= k by {
                        assert(v@.to_set().contains(t));
                        let j = choose|j: int| 0 <= j < v@.len() && v@[j] == t;
                        assert(self.depth_of(v@[j]) is Some);
                    }
                },
            }
        }
        m
    }

    /// A list whose tasks are where they were in a well-formed list, but for
    /// `id`, which is now either complete or incomplete, is well-formed.
    proof fn lemma_wf_reassign(self, before: TodoList, id: TaskId)
        requires
            before.wf_shape(),
            before.has(id),
            self.tasks_graph() == before.tasks_graph(),
            self.layering().valid(),
            self.complete_seq().no_duplicates(),
            self.is_complete(id) != self.is_incomplete(id),
            forall|t: TaskId| t != id ==> (#[trigger] self.is_complete(t) == before.is_complete(t)
                && self.is_incomplete(t) == before.is_incomplete(t)),
        ensures
            self.wf_shape(),
    {
        assert forall|t: TaskId| #![trigger self.has(t)] self.has(t) <==> (self.is_complete(t) || self.is_incomplete(t)) by {
            if t != id {
                assert(self.is_complete(t) == before.is_complete(t));
                assert(before.has(t) <==> (before.is_complete(t) || before.is_incomplete(t)));
            }
        }
        assert forall|t: TaskId| #![trigger self.is_complete(t)] #![trigger self.is_incomplete(t)]
            !(self.is_complete(t) && self.is_incomplete(t)) by {
            if t != id {
                assert(self.is_complete(t) == before.is_complete(t));
                assert(!(before.is_complete(t) && before.is_incomplete(t)));
            }
        }
    }

    /// Moves incomplete `id` from its layer to layer `d`.
    fn move_to_layer(&mut self, id: TaskId, from: usize, d: usize)
        requires
            old(self).wf_shape(),
            old(self).depth_of(id) == Some(from),
        ensures
            final(self).wf_shape(),
            final(self).tasks_graph() == old(self).tasks_graph(),
            final(self).complete_seq() == old(self).complete_seq(),
            final(self).depth_of(id) == Some(d),
            forall|t: TaskId| t != id ==> #[trigger] final(self).depth_of(t) == old(self).depth_of(t),
            forall|t: TaskId| #[trigger] final(self).is_incomplete(t) == old(self).is_incomplete(t),
            exists|pos: int| placed_in_layer(old(self).nodes(),
                old(self).layering().entries().remove(old(self).layering().index_of(id)),
                final(self).layering().entries(), id, d, pos),
    {
        proof {
            old(self).layering().lemma_valid();
            assert(old(self).is_incomplete(id));
            assert(old(self).has(id));
        }
        self.incomplete.remove_from_layer(&id, from);
        let ghost mid = self.layering();
        proof {
            lemma_depth_of_remove(old(self).layering(), mid, id);
            let ol = old(self).layering().entries();
            let k = old(self).layering().index_of(id);
            lemma_entry_ids_remove(ol, k);
            lemma_seq_remove_contains(entry_ids(ol), k);
            assert(entry_ids(ol)[k] == id);
            assert forall|t: TaskId| #[trigger] self.is_incomplete(t) implies self.has(t) by {
                assert(old(self).is_incomplete(t));
                assert(old(self).has(t));
            }
            assert(!self.is_incomplete(id));
        }
        let pos = self.put_in_incomplete_layer(id, d);
        proof {
            let start = count_below(mid.entries(), d as int) as int;
            crate::model::layering::lemma_count_below_bounds(mid.entries(), d + 1);
            lemma_depth_of_insert(mid, self.layering(), start + pos, id, d);
            self.lemma_partition_after_move(*old(self), id);
            assert(placed_in_layer(old(self).nodes(),
                old(self).layering().entries().remove(old(self).layering().index_of(id)),
                self.layering().entries(), id, d, pos as int));
        }
    }

    /// Moves complete `id` into layer `d`.
    fn complete_to_layer(&mut self, id: TaskId, d: usize)
        requires
            old(self).wf_shape(),
            old(self).is_complete(id),
        ensures
            final(self).wf_shape(),
            final(self).tasks_graph() == old(self).tasks_graph(),
            final(self).depth_of(id) == Some(d),
            !final(self).is_complete(id),
            forall|t: TaskId| t != id ==> #[trigger] final(self).depth_of(t) == old(self).depth_of(t),
            forall|t: TaskId| t != id ==> #[trigger] final(self).is_complete(t) == old(self).is_complete(t),
    {
        proof {
            old(self).layering().lemma_valid();
            assert(old(self).has(id));
            assert(!old(self).is_incomplete(id));
        }
        remove_first_occurrence_from_vec(&mut self.complete, &id);
        proof {
            let k = choose|i: int| 0 <= i < old(self).complete@.len() && old(self).complete@[i] == id
                && (forall|j: int| 0 <= j < i ==> old(self).complete@[j] != id) && self.complete@ == old(self).complete@.remove(i);
            lemma_seq_remove_contains(old(self).complete@, k);
            assert forall|t: TaskId| #[trigger] self.is_incomplete(t) implies self.has(t) by {
                assert(old(self).is_incomplete(t));
                assert(old(self).has(t));
            }
        }
        let ghost mid = self.layering();
        let pos = self.put_in_incomplete_layer(id, d);
        proof {
            let start = count_below(mid.entries(), d as int) as int;
            crate::model::layering::lemma_count_below_bounds(mid.entries(), d + 1);
            lemma_depth_of_insert(mid, self.layering(), start + pos, id, d);
            self.lemma_wf_reassign(*old(self), id);
        }
    }

    /// When no task changed layer, or between complete and incomplete, and
    /// the edges are the same, every task is out of place exactly when it was.
    pub proof fn lemma_violates_same(self, before: TodoList)
        requires
            self.edges() == before.edges(),
            forall|t: TaskId| #[trigger] self.is_incomplete(t) == before.is_incomplete(t),
            forall|t: TaskId| #[trigger] self.is_complete(t) == before.is_complete(t),
            forall|t: TaskId| #[trigger] self.depth_of(t) == before.depth_of(t),
        ensures
            forall|t: TaskId| #[trigger] self.violates(t) == before.violates(t),
    {
        assert forall|t: TaskId| #[trigger] self.violates(t) == before.violates(t) by {
            assert(self.dep_set(t) =~= before.dep_set(t));
            if self.has_incomplete_dep(t) {
                let x = choose|x: TaskId| #[trigger] self.dep_set(t).contains(x) && self.is_incomplete(x);
                assert(before.dep_set(t).contains(x) && before.is_incomplete(x));
            }
            if before.has_incomplete_dep(t) {
                let x = choose|x: TaskId| #[trigger] before.dep_set(t).contains(x) && before.is_incomplete(x);
                assert(self.dep_set(t).contains(x) && self.is_incomplete(x));
            }
        }
    }

    /// When only the layer of `id` changed, every other task is out of place
    /// exactly when it was.
    proof fn lemma_violates_after_move(self, before: TodoList, id: TaskId)
        requires
            self.edges() == before.edges(),
            forall|t: TaskId| #[trigger] self.is_incomplete(t) == before.is_incomplete(t),
            forall|t: TaskId| #[trigger] self.is_complete(t) == before.is_complete(t),
            forall|t: TaskId| t != id ==> #[trigger] self.depth_of(t) == before.depth_of(t),
        ensures
            forall|t: TaskId| t != id ==> #[trigger] self.violates(t) == before.violates(t),
    {
        assert forall|t: TaskId| t != id implies #[trigger] self.violates(t) == before.violates(t) by {
            assert(self.dep_set(t) =~= before.dep_set(t));
            if self.has_incomplete_dep(t) {
                let x = choose|x: TaskId| #[trigger] self.dep_set(t).contains(x) && self.is_incomplete(x);
                assert(before.dep_set(t).contains(x) && before.is_incomplete(x));
            }
            if before.has_incomplete_dep(t) {
                let x = choose|x: TaskId| #[trigger] before.dep_set(t).contains(x) && before.is_incomplete(x);
                assert(self.dep_set(t).contains(x) && self.is_incomplete(x));
            }
        }
    }

    /// When `id` went from complete to incomplete and nothing else moved, a
    /// task out of place was out of place before, or waits on `id`.
    proof fn lemma_violates_after_reopen(self, before: TodoList, id: TaskId)
        requires
            self.edges() == before.edges(),
            self.is_incomplete(id),
            forall|t: TaskId| t != id ==> #[trigger] self.is_incomplete(t) == before.is_incomplete(t),
            forall|t: TaskId| t != id ==> #[trigger] self.is_complete(t) == before.is_complete(t),
            forall|t: TaskId| t != id ==> #[trigger] self.depth_of(t) == before.depth_of(t),
        ensures
            forall|t: TaskId| t != id && #[trigger] self.violates(t) ==> before.violates(t) || before.adep_set(id).contains(t),
    {
        assert forall|t: TaskId| t != id && #[trigger] self.violates(t) implies before.violates(t) || before.adep_set(id).contains(t) by {
            assert(self.dep_set(t) =~= before.dep_set(t));
            if self.has_incomplete_dep(t) {
                let x = choose|x: TaskId| #[trigger] self.dep_set(t).contains(x) && self.is_incomplete(x);
                if x != id {
                    assert(before.dep_set(t).contains(x) && before.is_incomplete(x));
                } else {
                    assert(before.adep_set(id).contains(t));
                }
            }
            if before.has_incomplete_dep(t) {
                let x = choose|x: TaskId| #[trigger] before.dep_set(t).contains(x) && before.is_incomplete(x);
                if x != id {
                    assert(self.dep_set(t).contains(x) && self.is_incomplete(x));
                } else {
                    assert(self.dep_set(t).contains(x) && self.is_incomplete(x));
                }
            }
        }
    }

    /// The layer a task belongs in is fixed by the layers of what it waits on.
    proof fn lemma_target_depth_unique(self, id: TaskId, m: Option<usize>)
        requires
            self.is_max_dep_depth(id, m),
        ensures
            forall|d: usize| #[trigger] self.is_target_depth(id, d) ==> d == match m {
                Some(k) => if k == usize::MAX { usize::MAX } else { (k + 1) as usize },
                None => 0,
            },
    {
        assert forall|d: usize| #[trigger] self.is_target_depth(id, d) implies d == match m {
            Some(k) => if k == usize::MAX { usize::MAX } else { (k + 1) as usize },
            None => 0,
        } by {
            let m2 = choose|m2: Option<usize>| #[trigger] self.is_max_dep_depth(id, m2) && d == match m2 {
                Some(k) => if k == usize::MAX { usize::MAX } else { (k + 1) as usize },
                None => 0,
            };
            match m {
                Some(k) => {
                    let t = choose|t: TaskId| #[trigger] self.dep_set(id).contains(t) && self.depth_of(t) == Some(k);
                    match m2 {
                        Some(k2) => {
                            let t2 = choose|t2: TaskId| #[trigger] self.dep_set(id).contains(t2) && self.depth_of(t2) == Some(k2);
                            assert(k <= k2 && k2 <= k);
                        },
                        None => {
                            assert(self.depth_of(t) is None);
                        },
                    }
                },
                None => {
                    match m2 {
                        Some(k2) => {
                            let t2 = choose|t2: TaskId| #[trigger] self.dep_set(id).contains(t2) && self.depth_of(t2) == Some(k2);
                            assert(self.depth_of(t2) is None);
                        },
                        None => {},
                    }
                },
            }
        }
    }

    /// A task waits on an incomplete task exactly when the deepest layer
    /// among what it waits on is some layer.
    proof fn lemma_max_dep_depth_waits(self, id: TaskId, m: Option<usize>)
        requires
            self.wf_shape(),
            self.is_max_dep_depth(id, m),
        ensures
            self.has_incomplete_dep(id) <==> m is Some,
    {
        self.layering().lemma_valid();
        if self.has_incomplete_dep(id) {
            let t = choose|t: TaskId| #[trigger] self.dep_set(id).contains(t) && self.is_incomplete(t);
            assert(self.depth_of(t) is Some);
        }
        if m is Some {
            let t = choose|t: TaskId| #[trigger] self.dep_set(id).contains(t) && self.depth_of(t) == m;
            assert(self.is_incomplete(t));
        }
    }

    /// Recomputes the layer of `id` from the layers of the tasks it waits
    /// on, and, if it moved, those of the tasks that wait on it. Returns the
    /// new layer if `id` moved.
    fn update_depth(&mut self, id: TaskId) -> (res: Option<usize>)
        requires
            old(self).wf_shape(),
        ensures
            final(self).wf_shape(),
            final(self).tasks_graph() == old(self).tasks_graph(),
            final(self).same_outside(*old(self), id),
            forall|t: TaskId| #[trigger] final(self).violates(t) ==> old(self).violates(t) && t != id,
            forall|t: TaskId| #[trigger] final(self).violates(t) ==> final(self).depth_of(t) == old(self).depth_of(t),
            old(self).completes_settled() ==> forall|t: TaskId| #[trigger] final(self).is_complete(t) == old(self).is_complete(t),
            old(self).completes_settled() ==> final(self).complete_seq() == old(self).complete_seq(),
            forall|t: TaskId| #[trigger] final(self).is_complete(t) ==> old(self).is_complete(t),
            match res {
                None => {
                    &&& final(self).depth_of(id) == old(self).depth_of(id)
                    &&& final(self).is_complete(id) == old(self).is_complete(id)
                },
                Some(d) => {
                    &&& final(self).depth_of(id) == Some(d)
                    &&& old(self).is_target_depth(id, d)
                },
            },
            res is Some <==> final(self).depth_of(id) != old(self).depth_of(id),
            old(self).has(id) && !(old(self).is_complete(id) && !old(self).has_incomplete_dep(id))
                ==> (final(self).depth_of(id) matches Some(d) && old(self).is_target_depth(id, d)),
            old(self).has(id) ==> forall|d: usize| #[trigger] old(self).is_target_depth(id, d) ==>
                if old(self).is_complete(id) && !old(self).has_incomplete_dep(id) {
                    final(self).is_complete(id)
                } else {
                    final(self).depth_of(id) == Some(d)
                },
        decreases descendants(old(self).edges(), id.0).len(),
    {
        let ghost es = self.edges();
        let ghost dom = self.nodes().dom();
        let cur = self.incomplete.depth(&id);
        let max_dep = self.max_depth_of_deps(id);
        let target: Option<usize> = match max_dep {
            Some(k) => Some(k.saturating_add(1)),
            None => None,
        };
        proof {
            let d = match target { Some(x) => x, None => 0 };
            assert(self.is_max_dep_depth(id, max_dep));
            assert(self.is_target_depth(id, d));
            self.lemma_target_depth_unique(id, max_dep);
            self.lemma_max_dep_depth_waits(id, max_dep);
            self.layering().lemma_valid();
        }
        let changed: Option<usize> = match (cur, target) {
            (None, None) => None,
            (None, Some(nd)) => {
                proof {
                    let t = choose|t: TaskId| #[trigger] self.dep_set(id).contains(t) && self.depth_of(t) == Some(max_dep->Some_0);
                    assert(has_edge(es, t.0, id.0));
                    let e = choose|e: usize| es.contains_key(e) && #[trigger] es[e] == (t.0, id.0);
                    assert(dom.contains(id.0));
                    assert(self.has(id));
                    assert(self.is_complete(id));
                }
                self.complete_to_layer(id, nd);
                Some(nd)
            },
            (Some(od), Some(nd)) => {
                if od == nd {
                    None
                } else {
                    self.move_to_layer(id, od, nd);
                    Some(nd)
                }
            },
            (Some(od), None) => {
                if od == 0 {
                    None
                } else {
                    self.move_to_layer(id, od, 0);
                    Some(0)
                }
            },
        };
        proof {
            assert forall|t: TaskId| t != id implies #[trigger] self.depth_of(t) == old(self).depth_of(t)
                && self.is_complete(t) == old(self).is_complete(t) by {}
            assert forall|t: TaskId| t != id implies #[trigger] self.is_incomplete(t) == old(self).is_incomplete(t) by {
                assert(self.depth_of(t) == old(self).depth_of(t));
            }
            // `id` itself is in place now.
            assert(!self.violates(id)) by {
                match max_dep {
                    Some(k) => {
                        let t = choose|t: TaskId| #[trigger] old(self).dep_set(id).contains(t) && old(self).depth_of(t) == Some(k);
                        assert(has_edge(es, t.0, id.0));
                        assert(t != id) by {
                            if t == id {
                                crate::model::graph_spec::lemma_edge_path(es, id.0, id.0);
                            }
                        }
                        assert(self.dep_set(id).contains(t));
                        assert(self.is_incomplete(t));
                        assert(self.has_incomplete_dep(id));
                        assert(!(self.is_complete(id) && self.is_incomplete(id)));
                        assert(target->Some_0 >= 1);
                        assert(self.depth_of(id) == Some(target->Some_0));
                    },
                    None => {
                        assert forall|t: TaskId| #[trigger] self.dep_set(id).contains(t) implies !self.is_incomplete(t) by {
                            assert(old(self).dep_set(id).contains(t));
                            assert(old(self).depth_of(t) is None);
                            if t == id {
                                crate::model::graph_spec::lemma_edge_path(es, id.0, id.0);
                            }
                        }
                        assert(!self.has_incomplete_dep(id));
                        if self.is_complete(id) {
                            assert(cur is None);
                            assert(self.depth_of(id) is None);
                        }
                    },
                }
            }
            match changed {
                Some(nd) => {
                    if cur is None {
                        self.lemma_violates_after_reopen(*old(self), id);
                    } else {
                        self.lemma_violates_after_move(*old(self), id);
                    }
                },
                None => {
                    self.lemma_violates_after_move(*old(self), id);
                },
            }
            if old(self).completes_settled() {
                assert(cur is Some || max_dep is None) by {
                    if cur is None && max_dep is Some {
                        let t = choose|t: TaskId| #[trigger] old(self).dep_set(id).contains(t) && old(self).depth_of(t) == Some(max_dep->Some_0);
                        assert(has_edge(es, t.0, id.0));
                        assert(dom.contains(id.0));
                        assert(old(self).has(id));
                        assert(old(self).has_incomplete_dep(id));
                    }
                }
                assert(forall|t: TaskId| #[trigger] self.is_complete(t) == old(self).is_complete(t));
                assert forall|t: TaskId| #[trigger] self.is_complete(t) implies !self.has_incomplete_dep(t) by {
                    assert(self.dep_set(t) =~= old(self).dep_set(t));
                    assert(old(self).is_complete(t));
                    if self.has_incomplete_dep(t) {
                        let x = choose|x: TaskId| #[trigger] self.dep_set(t).contains(x) && self.is_incomplete(x);
                        assert(old(self).dep_set(t).contains(x) && old(self).is_incomplete(x));
                    }
                }
            }
        }
        let ghost s1 = *self;
        match changed {
            Some(nd) => {
                let adep_set = self.adeps(id);
                let adeps = adep_set.sorted_vec(self);
                proof {
                    lemma_filter_in(self.all_seq(), adep_set@);
                }
                let ghost mid = *self;
                let mut i: usize = 0;
                while i < adeps.len()
                    invariant
                        self.wf_shape(),
                        self.tasks_graph() == old(self).tasks_graph(),
                        es == old(self).edges(),
                        dom == old(self).nodes().dom(),
                        0 <= i <= adeps@.len(),
                        forall|j: int| 0 <= j < adeps@.len() ==> #[trigger] has_edge(es, id.0, adeps@[j].0),
                        self.depth_of(id) == Some(nd),
                        self.is_complete(id) == mid.is_complete(id),
                        forall|t: TaskId| #[trigger] self.violates(t) ==> s1.violates(t)
                            && forall|j: int| 0 <= j < i ==> adeps@[j] != t,
                        forall|t: TaskId| #[trigger] self.violates(t) ==> self.depth_of(t) == s1.depth_of(t),
                        forall|t: TaskId| #[trigger] s1.violates(t) ==> (old(self).violates(t) && t != id)
                            || s1.adep_set(id).contains(t),
                        old(self).completes_settled() ==> self.completes_settled(),
                        old(self).completes_settled() ==> forall|t: TaskId| #[trigger] self.is_complete(t) == old(self).is_complete(t),
                        old(self).completes_settled() ==> self.complete_seq() == old(self).complete_seq(),
                        forall|t: TaskId| #[trigger] self.is_complete(t) ==> old(self).is_complete(t),
                        forall|t: TaskId| #![trigger self.depth_of(t)] #![trigger self.is_complete(t)]
                            t != id && !descendants(es, id.0).contains(t.0) ==> {
                                &&& self.depth_of(t) == old(self).depth_of(t)
                                &&& self.is_complete(t) == old(self).is_complete(t)
                            },
                    decreases adeps@.len() - i,
                {
                    let c = adeps[i];
                    proof {
                        assert(has_edge(es, id.0, c.0));
                        lemma_descendants_shrink(dom, es, id.0, c.0);
                        crate::model::graph_spec::lemma_edge_path(es, id.0, c.0);
                        assert(descendants(es, id.0).contains(c.0));
                        assert(!descendants(es, c.0).contains(id.0)) by {
                            if reach_plus(es, c.0, id.0) {
                                crate::model::graph_spec::lemma_reach_plus_trans(es, id.0, c.0, id.0);
                            }
                        }
                        assert(c != id) by {
                            if c == id {
                                assert(reach_plus(es, id.0, id.0));
                            }
                        }
                    }
                    let ghost before = *self;
                    self.update_depth(c);
                    proof {
                        assert forall|t: TaskId| #![trigger self.depth_of(t)] #![trigger self.is_complete(t)]
                            t != id && !descendants(es, id.0).contains(t.0) implies {
                                &&& self.depth_of(t) == old(self).depth_of(t)
                                &&& self.is_complete(t) == old(self).is_complete(t)
                            } by {
                            if t == c || descendants(es, c.0).contains(t.0) {
                                if descendants(es, c.0).contains(t.0) {
                                    crate::model::graph_spec::lemma_edge_then_reach(es, id.0, c.0, t.0);
                                }
                            }
                            assert(self.depth_of(t) == before.depth_of(t));
                        }
                        assert(self.depth_of(id) == before.depth_of(id));
                        assert forall|t: TaskId| #[trigger] self.violates(t) implies s1.violates(t)
                            && forall|j: int| 0 <= j < i + 1 ==> adeps@[j] != t by {
                            assert(before.violates(t) && t != c);
                        }
                        if old(self).completes_settled() {
                            self.lemma_settled_from_violators(before);
                        }
                    }
                    i += 1;
                }
                proof {
                    assert forall|t: TaskId| #[trigger] self.violates(t) implies old(self).violates(t) && t != id by {
                        assert(s1.violates(t));
                        if s1.adep_set(id).contains(t) {
                            assert(has_edge(es, id.0, t.0));
                            let e = choose|e: usize| es.contains_key(e) && #[trigger] es[e] == (id.0, t.0);
                            assert(dom.contains(t.0));
                            assert(s1.has(t));
                            assert(s1.all_seq().contains(t)) by {
                                if s1.is_complete(t) {
                                    let k = choose|k: int| 0 <= k < s1.complete_seq().len() && s1.complete_seq()[k] == t;
                                    assert(s1.all_seq()[k] == t);
                                } else {
                                    let k = choose|k: int| 0 <= k < s1.incomplete_seq().len() && s1.incomplete_seq()[k] == t;
                                    assert(s1.all_seq()[s1.complete_seq().len() + k] == t);
                                }
                            }
                            assert(adeps@.contains(t));
                            let j = choose|j: int| 0 <= j < adeps@.len() && adeps@[j] == t;
                            assert(adeps@[j] != t);
                        }
                    }
                }
            },
            None => {},
        }
        changed
    }
}


/// The task `t` once checked at `now`: its completion time is `now`, and a
/// start date after `now` goes back to the creation time.
pub open spec fn checked_task(t: Task, now: Timestamp) -> Task {
    Task {
        completion_time: Some(now),
        start_date: if t.start_date.nanos > now.nanos { t.creation_time } else { t.start_date },
        ..t
    }
}

/// What to check, and when it is done.
#[derive(Debug, Clone, Copy)]
pub struct CheckOptions {
    pub id: TaskId,
    pub now: Timestamp,
}

impl From<TaskId> for CheckOptions {
    /// Checks `id` at the current time.
    fn from(id: TaskId) -> (res: CheckOptions)
        ensures
            res.id == id,
    {
        CheckOptions { id, now: Timestamp::now() }
    }
}

impl vstd::std_specs::convert::FromSpecImpl<TaskId> for CheckOptions {
    /// The time is the current time, so no function of the id alone gives
    /// the result.
    open spec fn obeys_from_spec() -> bool {
        false
    }

    open spec fn from_spec(v: TaskId) -> CheckOptions {
        vstd::pervasive::arbitrary()
    }
}

/// std's reflexive `impl<T> From<T> for T`, through which `check`,
/// `force_check` and `add` take their options as they are: std documents
/// that it returns the argument unchanged.
pub assume_specification<Item>[ <Item as std::convert::From<Item>>::from ](value: Item) -> (res: Item)
    ensures
        res == value,
;

/// Why a task could not be checked.
#[derive(Debug, PartialEq, Eq)]
pub enum CheckError {
    TaskIsAlreadyComplete,
    /// The incomplete tasks it waits on, in the order of the list.
    TaskIsBlockedBy(Vec<TaskId>),
}

impl TodoList {
    /// The incomplete tasks that `id` waits on.
    pub open spec fn incomplete_dep_set(self, id: TaskId) -> Set<TaskId> {
        Set::new(|t: TaskId| self.dep_set(id).contains(t) && self.is_incomplete(t))
    }

    /// The incomplete tasks that `id` waits on, in the order of the list.
    pub open spec fn incomplete_deps_seq(self, id: TaskId) -> Seq<TaskId> {
        filter_in(self.all_seq(), self.incomplete_dep_set(id))
    }

    /// No complete task waits on an incomplete one.
    pub open spec fn completes_settled(self) -> bool {
        forall|t: TaskId| #[trigger] self.is_complete(t) ==> !self.has_incomplete_dep(t)
    }

    /// In a consistent list no complete task waits on an incomplete one.
    pub proof fn lemma_consistent_settled(self)
        requires
            self.consistent(),
        ensures
            self.completes_settled(),
    {
        assert forall|t: TaskId| #[trigger] self.is_complete(t) implies !self.has_incomplete_dep(t) by {
            assert(!self.violates(t));
        }
    }

    /// Every task of the list is in `all_seq`.
    pub proof fn lemma_all_seq_contains(self, t: TaskId)
        requires
            self.wf_shape(),
            self.has(t),
        ensures
            self.all_seq().contains(t),
    {
        if self.is_complete(t) {
            let k = choose|k: int| 0 <= k < self.complete_seq().len() && self.complete_seq()[k] == t;
            assert(self.all_seq()[k] == t);
        } else {
            assert(self.is_incomplete(t));
            let k = choose|k: int| 0 <= k < self.incomplete_seq().len() && self.incomplete_seq()[k] == t;
            assert(self.all_seq()[self.complete_seq().len() + k] == t);
        }
    }

    /// The tasks at either end of an edge are tasks of the list.
    /// When no complete task waits on an incomplete one, every task on a
    /// walk from an incomplete task is incomplete.
    pub proof fn lemma_walk_from_incomplete(self, p: Seq<u32>)
        requires
            self.wf_shape(),
            self.completes_settled(),
            crate::model::graph_spec::is_path(self.edges(), p),
            self.is_incomplete(TaskId(p[0])),
        ensures
            self.is_incomplete(TaskId(p.last())),
        decreases p.len(),
    {
        if p.len() >= 2 {
            let es = self.edges();
            let q = p.drop_last();
            assert forall|i: int| 0 <= i < q.len() - 1 implies #[trigger] crate::model::graph_spec::path_step(es, q, i) by {
                assert(crate::model::graph_spec::path_step(es, p, i));
            }
            self.lemma_walk_from_incomplete(q);
            let y = TaskId(q.last());
            let d = TaskId(p.last());
            assert(crate::model::graph_spec::path_step(es, p, p.len() - 2));
            assert(has_edge(es, y.0, d.0));
            assert(self.dep_set(d).contains(y));
            assert(self.has_incomplete_dep(d));
            self.lemma_edge_ends(y, d);
        }
    }

    /// When no complete task waits on an incomplete one, every descendant of
    /// an incomplete task waits on an incomplete task.
    pub proof fn lemma_descendant_of_incomplete_waits(self, c: TaskId, d: TaskId)
        requires
            self.wf_shape(),
            self.completes_settled(),
            self.is_incomplete(c),
            reach_plus(self.edges(), c.0, d.0),
        ensures
            self.has_incomplete_dep(d),
    {
        let es = self.edges();
        crate::model::graph_spec::lemma_reach_plus_last_step(es, c.0, d.0);
        let y = choose|y: u32| #[trigger] has_edge(es, y, d.0) && reaches(es, c.0, y);
        if y != c.0 {
            let p = choose|p: Seq<u32>| #[trigger] crate::model::graph_spec::is_path(es, p) && p.len() >= 2 && p[0] == c.0 && p.last() == y;
            self.lemma_walk_from_incomplete(p);
        }
        assert(self.dep_set(d).contains(TaskId(y)) && self.is_incomplete(TaskId(y)));
    }

    pub proof fn lemma_edge_ends(self, a: TaskId, b: TaskId)
        requires
            self.wf_shape(),
            has_edge(self.edges(), a.0, b.0),
        ensures
            self.has(a),
            self.has(b),
            a != b,
    {
        let e = choose|e: usize| self.edges().contains_key(e) && #[trigger] self.edges()[e] == (a.0, b.0);
        assert(self.edges().contains_key(e));
        if a == b {
            crate::model::graph_spec::lemma_edge_path(self.edges(), a.0, a.0);
        }
    }

    /// When the tasks out of place are fewer and the complete tasks the same,
    /// no complete task waits on an incomplete one if none did before.
    proof fn lemma_settled_from_violators(self, before: TodoList)
        requires
            self.wf_shape(),
            before.wf_shape(),
            before.completes_settled(),
            forall|t: TaskId| #[trigger] self.is_complete(t) == before.is_complete(t),
            forall|t: TaskId| #[trigger] self.violates(t) ==> before.violates(t),
        ensures
            self.completes_settled(),
    {
        assert forall|t: TaskId| #[trigger] self.is_complete(t) implies !self.has_incomplete_dep(t) by {
            if self.has_incomplete_dep(t) {
                assert(self.violates(t));
                assert(before.violates(t));
                assert(before.is_complete(t));
                assert(!(before.is_complete(t) && before.is_incomplete(t)));
            }
        }
    }

    /// When `id` went from incomplete to complete and nothing else moved, a
    /// task out of place was out of place before, or waits on `id` and is in
    /// a layer of 2 or more.
    proof fn lemma_violates_after_close(self, before: TodoList, id: TaskId)
        requires
            self.edges() == before.edges(),
            !self.is_incomplete(id),
            forall|t: TaskId| t != id ==> #[trigger] self.is_incomplete(t) == before.is_incomplete(t),
            forall|t: TaskId| t != id ==> #[trigger] self.is_complete(t) == before.is_complete(t),
            forall|t: TaskId| t != id ==> #[trigger] self.depth_of(t) == before.depth_of(t),
        ensures
            forall|t: TaskId| t != id && #[trigger] self.violates(t) ==> before.violates(t)
                || (before.adep_set(id).contains(t) && (self.depth_of(t) matches Some(d) && d >= 2)),
    {
        assert forall|t: TaskId| t != id && #[trigger] self.violates(t) implies before.violates(t)
            || (before.adep_set(id).contains(t) && (self.depth_of(t) matches Some(d) && d >= 2)) by {
            assert(self.dep_set(t) =~= before.dep_set(t));
            if self.has_incomplete_dep(t) {
                let x = choose|x: TaskId| #[trigger] self.dep_set(t).contains(x) && self.is_incomplete(x);
                assert(x != id);
                assert(before.dep_set(t).contains(x) && before.is_incomplete(x));
            }
            if before.has_incomplete_dep(t) && !self.has_incomplete_dep(t) {
                let x = choose|x: TaskId| #[trigger] before.dep_set(t).contains(x) && before.is_incomplete(x);
                if x != id {
                    assert(self.dep_set(t).contains(x) && self.is_incomplete(x));
                }
                assert(before.adep_set(id).contains(t));
            }
        }
    }

    /// Marks the task as complete, as of `options.now`. Fails if it is
    /// complete already, or if it waits on incomplete tasks. Returns the
    /// tasks that waited on it and were moved to layer 0.
    pub fn check_with(&mut self, options: CheckOptions) -> (res: Result<TaskSet, CheckError>)
        requires
            old(self).wf(),
            old(self).has(options.id),
        ensures
            check_outcome(*old(self), *final(self), options, res),
    {
        let id = options.id;
        if vec_contains(&self.complete, &id) {
            return Err(CheckError::TaskIsAlreadyComplete);
        }
        let deps = self.deps(id);
        let sorted = deps.sorted_vec(self);
        let mut blocking: Vec<TaskId> = Vec::new();
        let mut i: usize = 0;
        while i < sorted.len()
            invariant
                0 <= i <= sorted@.len(),
                sorted@ == filter_in(self.all_seq(), self.dep_set(id)),
                blocking@ == filter_in(sorted@.take(i as int), self.incomplete_dep_set(id)),
            decreases sorted@.len() - i,
        {
            let t = sorted[i];
            proof {
                lemma_filter_in(self.all_seq(), self.dep_set(id));
                assert(sorted@.contains(t));
            }
            if self.incomplete.contains(&t) {
                blocking.push(t);
            }
            proof {
                assert(sorted@.take(i + 1).drop_last() =~= sorted@.take(i as int));
            }
            i += 1;
        }
        proof {
            assert(sorted@.take(sorted@.len() as int) =~= sorted@);
            lemma_filter_in_twice(self.all_seq(), self.dep_set(id), self.incomplete_dep_set(id));
            assert(self.dep_set(id).intersect(self.incomplete_dep_set(id)) =~= self.incomplete_dep_set(id));
            lemma_filter_in(self.all_seq(), self.incomplete_dep_set(id));
            if self.has_incomplete_dep(id) {
                let x = choose|x: TaskId| #[trigger] self.dep_set(id).contains(x) && self.is_incomplete(x);
                self.lemma_edge_ends(x, id);
                self.lemma_all_seq_contains(x);
                assert(self.incomplete_deps_seq(id).contains(x));
            }
        }
        if blocking.len() > 0 {
            proof {
                if !self.has_incomplete_dep(id) {
                    let x = blocking@[0];
                    assert(blocking@.contains(x));
                    assert(self.incomplete_dep_set(id).contains(x));
                }
            }
            return Err(CheckError::TaskIsBlockedBy(blocking));
        }
        let ghost s0 = *self;
        let task = graph_node_weight(&self.tasks, id.0).unwrap();
        let mut t = copy_task(task);
        t.completion_time = Some(options.now);
        if t.start_date.nanos > options.now.nanos {
            t.start_date = t.creation_time;
        }
        graph_set_node(&mut self.tasks, id.0, t);
        proof {
            assert(self.nodes().dom() =~= s0.nodes().dom());
            self.lemma_wf_same_shape(s0);
        }
        match self.incomplete.depth(&id) {
            Some(depth) => {
                proof {
                    assert(!s0.violates(id));
                    assert(self.depth_of(id) == s0.depth_of(id));
                    assert(!self.has_incomplete_dep(id)) by {
                        assert(self.dep_set(id) =~= s0.dep_set(id));
                    }
                    assert(depth == 0 || depth == 1);
                    self.layering().lemma_valid();
                }
                let ghost sa = *self;
                self.incomplete.remove_from_layer(&id, depth);
                self.complete.push(id);
                let ghost sb = *self;
                proof {
                    lemma_depth_of_remove(sa.layering(), sb.layering(), id);
                    let k = sa.layering().index_of(id);
                    lemma_entry_ids_remove(sa.layering().entries(), k);
                    lemma_seq_remove_contains(entry_ids(sa.layering().entries()), k);
                    assert(entry_ids(sa.layering().entries())[k] == id);
                    assert forall|x: TaskId| x != id implies #[trigger] sb.is_incomplete(x) == sa.is_incomplete(x) by {}
                    assert(!sb.is_incomplete(id));
                    assert forall|x: TaskId| x != id implies #[trigger] sb.is_complete(x) == sa.is_complete(x) by {
                        assert(sb.complete_seq() == sa.complete_seq().push(id));
                        if sa.complete_seq().contains(x) {
                            let k = choose|k: int| 0 <= k < sa.complete_seq().len() && sa.complete_seq()[k] == x;
                            assert(sb.complete_seq()[k] == x);
                        }
                    }
                    assert(sb.complete_seq()[sa.complete_seq().len() as int] == id);
                    assert(sb.is_complete(id));
                    assert(sb.complete_seq().no_duplicates()) by {
                        assert(!sa.complete_seq().contains(id));
                    }
                    sb.lemma_wf_reassign(sa, id);
                    sa.lemma_violates_after_move(s0, id);
                    sb.lemma_violates_after_close(sa, id);
                    assert(!sb.violates(id)) by {
                        assert(sb.dep_set(id) =~= sa.dep_set(id));
                        if sb.has_incomplete_dep(id) {
                            let x = choose|x: TaskId| #[trigger] sb.dep_set(id).contains(x) && sb.is_incomplete(x);
                            assert(x != id);
                            assert(sa.dep_set(id).contains(x) && sa.is_incomplete(x));
                        }
                    }
                    assert forall|x: TaskId| #[trigger] sb.is_complete(x) implies !sb.has_incomplete_dep(x) by {
                        if sb.has_incomplete_dep(x) && x != id {
                            assert(sb.violates(x));
                            assert(!sa.violates(x));
                            assert(sb.depth_of(x) is Some);
                            assert(!(sb.is_complete(x) && sb.is_incomplete(x)));
                        }
                    }
                }
                let adep_set = self.adeps(id);
                let adeps = adep_set.sorted_vec(self);
                proof {
                    lemma_filter_in(self.all_seq(), adep_set@);
                    assert forall|x: TaskId| #[trigger] sb.adep_set(id).contains(x) implies adeps@.contains(x) by {
                        assert(has_edge(sb.edges(), id.0, x.0));
                        sb.lemma_edge_ends(id, x);
                        sb.lemma_all_seq_contains(x);
                    }
                }
                let mut todo: Vec<TaskId> = Vec::new();
                let mut j: usize = 0;
                while j < adeps.len()
                    invariant
                        *self == sb,
                        sb.wf_shape(),
                        0 <= j <= adeps@.len(),
                        adep_set@ == sb.adep_set(id),
                        forall|x: TaskId| #[trigger] adeps@.contains(x) ==> adep_set@.contains(x),
                        forall|x: TaskId| #[trigger] todo@.contains(x) ==> adeps@.contains(x) && sb.is_incomplete(x),
                        forall|x: TaskId| #[trigger] todo@.contains(x) ==> !sb.keeps_snoozed(x, Some(options.now)),
                        forall|k: int| 0 <= k < j && !sb.keeps_snoozed(#[trigger] adeps@[k], Some(options.now))
                            ==> todo@.contains(adeps@[k]),
                    decreases adeps@.len() - j,
                {
                    let c = adeps[j];
                    proof {
                        assert(adeps@.contains(c));
                        assert(adep_set@.contains(c));
                        assert(has_edge(sb.edges(), id.0, c.0));
                        self.lemma_edge_ends(id, c);
                    }
                    let ghost prev = todo@;
                    let keep = self.should_keep_snoozed(c, Some(options.now));
                    if !keep {
                        todo.push(c);
                    }
                    proof {
                        assert(adeps@[j as int] == c);
                        assert(adeps@.contains(c));
                        assert forall|x: TaskId| #[trigger] todo@.contains(x) implies adeps@.contains(x) && sb.is_incomplete(x) by {
                            if x != c {
                                assert(todo@ == prev || todo@ == prev.push(c));
                                if todo@ != prev {
                                    let m = choose|m: int| 0 <= m < todo@.len() && todo@[m] == x;
                                    assert(prev[m] == x);
                                }
                                assert(prev.contains(x));
                            } else {
                                assert(sb.depth_of(c) is Some || prev.contains(x));
                            }
                        }
                        assert forall|x: TaskId| #[trigger] todo@.contains(x) implies !sb.keeps_snoozed(x, Some(options.now)) by {
                            if keep {
                                assert(todo@ == prev);
                            } else if x != c {
                                assert(todo@ == prev.push(c));
                                let m = choose|m: int| 0 <= m < todo@.len() && todo@[m] == x;
                                assert(prev[m] == x);
                                assert(prev.contains(x));
                            }
                        }
                        assert forall|k: int| 0 <= k < j + 1 && !sb.keeps_snoozed(#[trigger] adeps@[k], Some(options.now))
                            implies todo@.contains(adeps@[k]) by {
                            if k == j {
                                assert(todo@[todo@.len() - 1] == c);
                            } else {
                                assert(prev.contains(adeps@[k]));
                                let m = choose|m: int| 0 <= m < prev.len() && prev[m] == adeps@[k];
                                assert(todo@[m] == adeps@[k]);
                            }
                        }
                    }
                    j += 1;
                }
                proof {
                    assert forall|x: TaskId| #[trigger] sb.violates(x) implies todo@.contains(x) by {
                        assert(x != id);
                        assert(!sa.violates(x));
                        assert(sb.adep_set(id).contains(x));
                        assert(adeps@.contains(x));
                        let kk = choose|kk: int| 0 <= kk < adeps@.len() && adeps@[kk] == x;
                        assert(!sb.keeps_snoozed(adeps@[kk], Some(options.now)));
                    }
                    assert forall|x: TaskId| #[trigger] todo@.contains(x) implies sb.adep_set(id).contains(x) && sb.is_incomplete(x) by {
                        assert(adeps@.contains(x));
                    }
                    assert forall|x: TaskId| sb.adep_set(id).contains(x) implies #[trigger] sb.depth_of(x) != Some(0usize) by {
                        assert(has_edge(sb.edges(), id.0, x.0));
                        sb.lemma_edge_ends(id, x);
                        assert(s0.dep_set(x).contains(id));
                        assert(s0.has_incomplete_dep(x));
                        assert(!s0.violates(x));
                        assert(sb.depth_of(x) == sa.depth_of(x));
                        assert(sa.depth_of(x) == s0.depth_of(x));
                    }
                }
                let mut unblocked = TaskSet::new();
                let mut k: usize = 0;
                while k < todo.len()
                    invariant
                        self.wf_shape(),
                        self.tasks_graph() == sb.tasks_graph(),
                        0 <= k <= todo@.len(),
                        sb.wf_shape(),
                        sb.completes_settled(),
                        forall|x: TaskId| #[trigger] todo@.contains(x) ==> sb.adep_set(id).contains(x) && sb.is_incomplete(x),
                        forall|x: TaskId| #[trigger] sb.violates(x) ==> todo@.contains(x),
                        forall|x: TaskId| #[trigger] self.is_incomplete(x) == sb.is_incomplete(x),
                        forall|x: TaskId| #[trigger] self.violates(x) ==> sb.violates(x)
                            && forall|m: int| 0 <= m < k ==> todo@[m] != x,
                        self.completes_settled(),
                        forall|x: TaskId| #[trigger] self.is_complete(x) == sb.is_complete(x),
                        self.complete_seq() == sb.complete_seq(),
                        forall|x: TaskId| #[trigger] unblocked@.contains(x) ==> sb.adep_set(id).contains(x) && sb.is_incomplete(x),
                        forall|x: TaskId| #[trigger] unblocked@.contains(x) ==> self.depth_of(x) == Some(0usize) && !self.violates(x),
                        forall|x: TaskId| sb.adep_set(id).contains(x) && #[trigger] self.depth_of(x) == Some(0usize)
                            ==> unblocked@.contains(x),
                        forall|x: TaskId| #![trigger self.depth_of(x)] x != id && !descendants(sb.edges(), id.0).contains(x.0)
                            ==> self.depth_of(x) == sb.depth_of(x),
                        forall|m: int| 0 <= m < k && !sb.has_incomplete_dep(#[trigger] todo@[m])
                            ==> self.depth_of(todo@[m]) == Some(0usize),
                        forall|x: TaskId| #[trigger] self.depth_of(x) == Some(0usize)
                            ==> sb.depth_of(x) == Some(0usize) || todo@.contains(x),
                    decreases todo@.len() - k,
                {
                    let c = todo[k];
                    proof {
                        assert(todo@.contains(c));
                        assert(has_edge(sb.edges(), id.0, c.0));
                    }
                    let ghost before = *self;
                    let ghost before_unblocked = unblocked@;
                    proof {
                        before.layering().lemma_valid();
                        assert(todo@[k as int] == c);
                        if !sb.has_incomplete_dep(c) {
                            assert(before.dep_set(c) =~= sb.dep_set(c));
                            assert forall|t: TaskId| #[trigger] before.dep_set(c).contains(t) implies before.depth_of(t) is None by {
                                assert(!sb.is_incomplete(t));
                                assert(!before.is_incomplete(t));
                            }
                            assert(before.is_max_dep_depth(c, None));
                            assert(before.is_target_depth(c, 0));
                            assert(!before.has_incomplete_dep(c)) by {
                                if before.has_incomplete_dep(c) {
                                    let t = choose|t: TaskId| #[trigger] before.dep_set(c).contains(t) && before.is_incomplete(t);
                                    assert(sb.dep_set(c).contains(t) && sb.is_incomplete(t));
                                }
                            }
                            assert(before.is_incomplete(c));
                            sb.lemma_edge_ends(id, c);
                        }
                    }
                    let moved = self.update_depth(c);
                    proof {
                        if !sb.has_incomplete_dep(c) {
                            assert(self.depth_of(c) == Some(0usize));
                        }
                        assert forall|m: int| 0 <= m < k + 1 && !sb.has_incomplete_dep(#[trigger] todo@[m])
                            implies self.depth_of(todo@[m]) == Some(0usize) by {
                            let x = todo@[m];
                            if x != c {
                                assert(before.depth_of(x) == Some(0usize));
                                assert(!before.violates(x)) by {
                                    if before.violates(x) {
                                        assert(todo@[m] != x);
                                    }
                                }
                                if descendants(sb.edges(), c.0).contains(x.0) {
                                    before.lemma_descendant_of_incomplete_waits(c, x);
                                    assert(before.violates(x));
                                }
                            }
                        }
                        self.lemma_settled_from_violators(before);
                        assert forall|x: TaskId| #[trigger] self.is_incomplete(x) == sb.is_incomplete(x) by {
                            assert(self.has(x) == before.has(x));
                            assert(self.is_complete(x) == before.is_complete(x));
                            assert(before.has(x) <==> (before.is_complete(x) || before.is_incomplete(x)));
                            assert(self.has(x) <==> (self.is_complete(x) || self.is_incomplete(x)));
                            assert(!(before.is_complete(x) && before.is_incomplete(x)));
                            assert(!(self.is_complete(x) && self.is_incomplete(x)));
                        }
                        assert(self.is_incomplete(c) && before.is_incomplete(c));
                        assert(self.edges() == sb.edges() && before.edges() == sb.edges());
                        // Nothing but `c` can have moved into layer 0: a task that
                        // moved is `c` or a descendant of `c`, and a descendant of
                        // an incomplete task waits on an incomplete task.
                        assert forall|x: TaskId| #[trigger] self.depth_of(x) == Some(0usize) && x != c
                            implies before.depth_of(x) == Some(0usize) by {
                            if descendants(sb.edges(), c.0).contains(x.0) {
                                self.lemma_descendant_of_incomplete_waits(c, x);
                                assert(self.violates(x));
                            }
                        }
                        assert forall|x: TaskId| #[trigger] self.depth_of(x) == Some(0usize)
                            implies sb.depth_of(x) == Some(0usize) || todo@.contains(x) by {
                            if x != c {
                                assert(before.depth_of(x) == Some(0usize));
                            }
                        }
                        // What is in layer 0 and in place stays there.
                        assert forall|x: TaskId| #[trigger] before_unblocked.contains(x) implies self.depth_of(x) == Some(0usize) && !self.violates(x) by {
                            assert(before.depth_of(x) == Some(0usize) && !before.violates(x));
                            assert(!self.violates(x));
                            if x == c {
                                assert(!before.has_incomplete_dep(c));
                                match moved {
                                    Some(d) => {
                                        assert(before.is_target_depth(c, d));
                                        let m = choose|m: Option<usize>| #[trigger] before.is_max_dep_depth(c, m) && d == match m {
                                            Some(kk) => if kk == usize::MAX { usize::MAX } else { (kk + 1) as usize },
                                            None => 0,
                                        };
                                        if m is Some {
                                            let t = choose|t: TaskId| #[trigger] before.dep_set(c).contains(t) && before.depth_of(t) == m;
                                            assert(before.is_incomplete(t));
                                        }
                                    },
                                    None => {},
                                }
                            } else if descendants(sb.edges(), c.0).contains(x.0) {
                                before.lemma_descendant_of_incomplete_waits(c, x);
                                assert(before.violates(x));
                            }
                        }
                        assert forall|x: TaskId| #[trigger] self.violates(x) implies sb.violates(x)
                            && forall|m: int| 0 <= m < k + 1 ==> todo@[m] != x by {
                            assert(before.violates(x) && x != c);
                        }
                        assert forall|x: TaskId| #![trigger self.depth_of(x)] x != id && !descendants(sb.edges(), id.0).contains(x.0)
                            implies self.depth_of(x) == sb.depth_of(x) by {
                            if x == c {
                                crate::model::graph_spec::lemma_edge_path(sb.edges(), id.0, c.0);
                            } else if descendants(sb.edges(), c.0).contains(x.0) {
                                crate::model::graph_spec::lemma_edge_then_reach(sb.edges(), id.0, c.0, x.0);
                            }
                            assert(self.depth_of(x) == before.depth_of(x));
                        }
                    }
                    match moved {
                        Some(d) => {
                            if d == 0 {
                                unblocked.insert(c);
                                proof {
                                    assert(self.depth_of(c) == Some(0usize));
                                }
                            }
                        },
                        None => {},
                    }
                    proof {
                        assert forall|x: TaskId| sb.adep_set(id).contains(x) && #[trigger] self.depth_of(x) == Some(0usize)
                            implies unblocked@.contains(x) by {
                            if x == c {
                                if moved is None {
                                    assert(before.depth_of(c) == Some(0usize));
                                    assert(before_unblocked.contains(c));
                                }
                            } else {
                                assert(before.depth_of(x) == Some(0usize));
                                assert(before_unblocked.contains(x));
                            }
                        }
                    }
                    k += 1;
                }
                proof {
                    assert forall|t: TaskId| #[trigger] s0.adep_set(id).contains(t) && s0.keeps_snoozed(t, Some(options.now))
                        implies self.depth_of(t) != Some(0usize) && !unblocked@.contains(t) by {
                        assert(sb.adep_set(id).contains(t));
                        assert(has_edge(sb.edges(), id.0, t.0));
                        sb.lemma_edge_ends(id, t);
                        assert(t != id);
                        assert(sb.task(t) == s0.task(t));
                        assert(sb.depth_of(t) == s0.depth_of(t));
                        assert(sb.keeps_snoozed(t, Some(options.now)));
                        assert(!todo@.contains(t));
                        assert(sb.depth_of(t) != Some(0usize));
                    }
                    assert forall|t: TaskId| #[trigger] s0.adep_set(id).contains(t) && !s0.keeps_snoozed(t, Some(options.now))
                        && s0.incomplete_dep_set(t) =~= set![id]
                        implies self.depth_of(t) == Some(0usize) && unblocked@.contains(t) by {
                        assert(sb.adep_set(id).contains(t));
                        assert(has_edge(sb.edges(), id.0, t.0));
                        sb.lemma_edge_ends(id, t);
                        assert(t != id);
                        assert(sb.task(t) == s0.task(t));
                        assert(sb.depth_of(t) == s0.depth_of(t));
                        assert(!sb.keeps_snoozed(t, Some(options.now)));
                        assert(adeps@.contains(t));
                        let kk = choose|kk: int| 0 <= kk < adeps@.len() && adeps@[kk] == t;
                        assert(todo@.contains(t));
                        let m = choose|m: int| 0 <= m < todo@.len() && todo@[m] == t;
                        assert(!sb.has_incomplete_dep(t)) by {
                            if sb.has_incomplete_dep(t) {
                                let x = choose|x: TaskId| #[trigger] sb.dep_set(t).contains(x) && sb.is_incomplete(x);
                                assert(x != id);
                                assert(s0.incomplete_dep_set(t).contains(x));
                            }
                        }
                        assert(self.depth_of(todo@[m]) == Some(0usize));
                    }
                    assert forall|x: TaskId| !#[trigger] self.violates(x) by {
                        if self.violates(x) {
                            assert(sb.violates(x));
                            assert(todo@.contains(x));
                            let m = choose|m: int| 0 <= m < todo@.len() && todo@[m] == x;
                            assert(todo@[m] != x);
                        }
                    }
                    assert forall|x: TaskId| x != id implies #[trigger] self.is_incomplete(x) == s0.is_incomplete(x) by {
                        assert(self.has(x) == s0.has(x));
                        assert(self.is_complete(x) == s0.is_complete(x));
                        assert(s0.has(x) <==> (s0.is_complete(x) || s0.is_incomplete(x)));
                        assert(!(s0.is_complete(x) && s0.is_incomplete(x)));
                        assert(!(self.is_complete(x) && self.is_incomplete(x)));
                    }
                    assert(self.complete_seq() == s0.complete_seq().push(id));
                    if s0.implicits_all_right() {
                        assert(self.nodes() == s0.nodes().insert(id.0, checked_task(s0.task(id), options.now)));
                        TodoList::lemma_all_right_same_weights(s0, *self);
                    }
                }
                Ok(unblocked)
            },
            None => {
                proof {
                    assert(s0.is_incomplete(id));
                }
                Err(CheckError::TaskIsAlreadyComplete)
            },
        }
    }
}

/// `filter_in` twice is `filter_in` by both sets.
pub proof fn lemma_filter_in_twice(s: Seq<TaskId>, a: Set<TaskId>, b: Set<TaskId>)
    ensures
        filter_in(filter_in(s, a), b) == filter_in(s, a.intersect(b)),
    decreases s.len(),
{
    if s.len() > 0 {
        lemma_filter_in_twice(s.drop_last(), a, b);
        let r = filter_in(s.drop_last(), a);
        if a.contains(s.last()) {
            assert(r.push(s.last()).drop_last() =~= r);
        }
    }
}

/// What `check_with` does: the error it gives, with the list unchanged, or
/// the task marked complete.
pub open spec fn check_outcome(before: TodoList, after: TodoList, options: CheckOptions, res: Result<TaskSet, CheckError>) -> bool {
    let id = options.id;
    &&& after.wf()
    &&& before.implicits_all_right() ==> after.implicits_all_right()
    &&& after.edges() == before.edges()
    &&& match res {
        Err(CheckError::TaskIsAlreadyComplete) => before.is_complete(id) && after == before,
        Err(CheckError::TaskIsBlockedBy(v)) => {
            &&& !before.is_complete(id)
            &&& before.has_incomplete_dep(id)
            &&& v@ == before.incomplete_deps_seq(id)
            &&& after == before
        },
        Ok(unblocked) => check_done(before, after, options, unblocked),
    }
}

/// `after` is `before` with the task of `options` checked, and `unblocked`
/// holds the tasks that waited on it and are now in layer 0: among them every
/// one that waited on nothing else incomplete and is not snoozed past
/// `options.now`, and none that is snoozed past it.
pub open spec fn check_done(before: TodoList, after: TodoList, options: CheckOptions, unblocked: TaskSet) -> bool {
    let id = options.id;
    &&& !before.is_complete(id)
    &&& before.is_incomplete(id)
    &&& !before.has_incomplete_dep(id)
    &&& after.nodes() == before.nodes().insert(id.0, checked_task(before.task(id), options.now))
    &&& after.complete_seq() == before.complete_seq().push(id)
    &&& forall|t: TaskId| t != id ==> #[trigger] after.is_incomplete(t) == before.is_incomplete(t)
    &&& forall|t: TaskId| #[trigger] unblocked@.contains(t) <==> before.adep_set(id).contains(t) && after.depth_of(t) == Some(0usize)
    &&& forall|t: TaskId| #[trigger] before.adep_set(id).contains(t) && !before.keeps_snoozed(t, Some(options.now))
        && before.incomplete_dep_set(t) =~= set![id]
        ==> after.depth_of(t) == Some(0usize) && unblocked@.contains(t)
    &&& forall|t: TaskId| #[trigger] before.adep_set(id).contains(t) && before.keeps_snoozed(t, Some(options.now))
        ==> after.depth_of(t) != Some(0usize) && !unblocked@.contains(t)
    &&& forall|t: TaskId| #![trigger after.depth_of(t)] t != id && !descendants(before.edges(), id.0).contains(t.0)
        ==> after.depth_of(t) == before.depth_of(t)
}


impl TodoList {
    /// Marks the task as complete (see `check_with`); `options` is a task
    /// id, checked at the current time, or a `CheckOptions`.
    pub fn check<O: Into<CheckOptions>>(&mut self, options: O) -> (res: Result<TaskSet, CheckError>)
        requires
            old(self).wf(),
            forall|o: CheckOptions| #[trigger] call_ensures(O::into, (options,), o) ==> old(self).has(o.id),
        ensures
            exists|o: CheckOptions| #[trigger] call_ensures(O::into, (options,), o)
                && check_outcome(*old(self), *final(self), o, res),
    {
        let o: CheckOptions = options.into();
        self.check_with(o)
    }

    /// Marks the task as complete, first marking as complete, the same way,
    /// the incomplete tasks it waits on. Fails only if it is complete already.
    pub fn force_check<O: Into<CheckOptions>>(&mut self, options: O) -> (res: Result<ForceChecked, CheckError>)
        requires
            old(self).wf(),
            forall|o: CheckOptions| #[trigger] call_ensures(O::into, (options,), o) ==> old(self).has(o.id),
        ensures
            exists|o: CheckOptions| #[trigger] call_ensures(O::into, (options,), o)
                && force_check_outcome(*old(self), *final(self), o.id, res),
    {
        let o: CheckOptions = options.into();
        self.force_check_with(o)
    }

    /// Marks the task as complete, first marking as complete, the same way,
    /// the incomplete tasks it waits on, each at the current time, in the
    /// order of the list. When it waits on no incomplete task it too is
    /// checked at the current time; else it is checked as of `options.now`,
    /// after them.
    #[verifier::rlimit(60)]
    #[verifier::spinoff_prover]
    pub fn force_check_with(&mut self, options: CheckOptions) -> (res: Result<ForceChecked, CheckError>)
        requires
            old(self).wf(),
            old(self).has(options.id),
        ensures
            force_check_outcome(*old(self), *final(self), options.id, res),
            res is Ok && old(self).has_incomplete_dep(options.id) ==> forall|t: TaskId|
                #[trigger] old(self).adep_set(options.id).contains(t) && final(self).is_incomplete(t)
                && !final(self).has_incomplete_dep(t) && old(self).task(t).start_date.nanos <= options.now.nanos
                ==> final(self).depth_of(t) == Some(0usize),
        decreases ancestors(old(self).edges(), options.id.0).len(),
    {
        let id = options.id;
        let ghost es = self.edges();
        let first_options = CheckOptions::from(id);
        let first = self.check_with(first_options);
        match first {
            Err(CheckError::TaskIsBlockedBy(blocked_by)) => {
                let ghost s0 = *self;
                proof {
                    lemma_filter_in(s0.all_seq(), s0.incomplete_dep_set(id));
                    let x = choose|x: TaskId| #[trigger] s0.dep_set(id).contains(x) && s0.is_incomplete(x);
                    s0.lemma_edge_ends(x, id);
                    s0.lemma_all_seq_contains(x);
                    assert(s0.incomplete_dep_set(id).contains(x));
                    assert(blocked_by@.contains(x));
                }
                let mut completed = TaskSet::new();
                let mut unblocked = TaskSet::new();
                let ghost mut lk: int = -1;
                let mut i: usize = 0;
                while i < blocked_by.len()
                    invariant
                        self.wf(),
                        s0.wf(),
                        *old(self) == s0,
                        es == s0.edges(),
                        self.edges() == es,
                        self.nodes().dom() == s0.nodes().dom(),
                        s0.has(id),
                        !s0.is_complete(id),
                        0 <= i <= blocked_by@.len(),
                        blocked_by@ == s0.incomplete_deps_seq(id),
                        forall|j: int| 0 <= j < blocked_by@.len() ==> s0.incomplete_dep_set(id).contains(#[trigger] blocked_by@[j]),
                        forall|t: TaskId| #[trigger] s0.is_complete(t) ==> self.is_complete(t),
                        forall|t: TaskId| #[trigger] self.is_complete(t) && !s0.is_complete(t) ==> reach_plus(es, t.0, id.0),
                        forall|j: int| 0 <= j < i ==> self.is_complete(#[trigger] blocked_by@[j]),
                        forall|t: TaskId, j: int| 0 <= j < i && s0.has(t) && #[trigger] reaches(es, t.0, blocked_by@[j].0)
                            ==> self.is_complete(t),
                        forall|t: TaskId| #[trigger] self.is_complete(t) && !s0.is_complete(t)
                            ==> exists|j: int| 0 <= j < i && #[trigger] reaches(es, t.0, blocked_by@[j].0),
                        i == 0 ==> lk == -1 && completed@ == Set::<TaskId>::empty(),
                        i > 0 ==> {
                            &&& lk == last_unreached(es, blocked_by@.take(i as int))
                            &&& 0 <= lk < i
                            &&& completed@.contains(blocked_by@[lk])
                            &&& forall|t: TaskId| #[trigger] completed@.contains(t) ==> left_for(s0, blocked_by@, lk).contains(t)
                        },
                        forall|t: TaskId| #[trigger] completed@.contains(t) ==> self.is_complete(t) && !s0.is_complete(t),
                        s0.implicits_all_right() ==> self.implicits_all_right(),
                        forall|t: TaskId| #[trigger] unblocked@.contains(t) ==> self.has(t),
                        forall|t: TaskId| #![trigger self.depth_of(t)]
                            self.depth_of(t) == Some(0usize) && s0.depth_of(t) != Some(0usize) ==> unblocked@.contains(t),
                        forall|t: TaskId| #[trigger] unblocked@.contains(t) ==> {
                            &&& s0.is_incomplete(t)
                            &&& s0.depth_of(t) != Some(0usize)
                            &&& self.depth_of(t) == Some(0usize) || self.is_complete(t)
                        },
                        forall|t: TaskId| #![trigger s0.depth_of(t)]
                            s0.depth_of(t) == Some(0usize) ==> self.depth_of(t) == Some(0usize) || self.is_complete(t),
                        forall|t: TaskId| #![trigger self.task(t)] !self.is_complete(t) ==> self.task(t) == s0.task(t),
                        id == options.id,
                    decreases blocked_by@.len() - i,
                {
                    let dep = blocked_by[i];
                    proof {
                        assert(s0.incomplete_dep_set(id).contains(dep));
                        assert(has_edge(es, dep.0, id.0));
                        s0.lemma_edge_ends(dep, id);
                        lemma_ancestors_shrink(s0.nodes().dom(), es, dep.0, id.0);
                        s0.lemma_wf();
                    }
                    let ghost before = *self;
                    let ghost prev_unblocked = unblocked@;
                    let ghost prev_completed = completed@;
                    let dep_options = CheckOptions::from(dep);
                    proof {
                        let bs = blocked_by@;
                        assert(bs[i as int] == dep);
                        assert(bs.take(i + 1)[i as int] == dep);
                        assert forall|j: int| 0 <= j < i implies #[trigger] bs.take(i + 1)[j] == bs[j] by {}
                        assert(reached_earlier(es, bs.take(i + 1), i as int) == reached_earlier(es, bs, i as int)) by {
                            if reached_earlier(es, bs, i as int) {
                                let j = choose|j: int| 0 <= j < i && #[trigger] reaches(es, bs[i as int].0, bs[j].0);
                                assert(reaches(es, bs.take(i + 1)[i as int].0, bs.take(i + 1)[j].0));
                            }
                        }
                        if i > 0 {
                            assert(bs.take(i + 1).drop_last() =~= bs.take(i as int));
                        }
                        assert(s0.has(dep)) by {
                            assert(has_edge(es, dep.0, id.0));
                            s0.lemma_edge_ends(dep, id);
                        }
                        assert(!s0.is_complete(dep)) by {
                            assert(s0.is_incomplete(dep));
                        }
                        assert(before.is_complete(dep) == reached_earlier(es, bs, i as int)) by {
                            if reached_earlier(es, bs, i as int) {
                                let j = choose|j: int| 0 <= j < i && #[trigger] reaches(es, bs[i as int].0, bs[j].0);
                                assert(before.is_complete(dep));
                            }
                            if before.is_complete(dep) {
                                let j = choose|j: int| 0 <= j < i && #[trigger] reaches(es, dep.0, bs[j].0);
                                assert(reaches(es, bs[i as int].0, bs[j].0));
                            }
                        }
                    }
                    match self.force_check_with(dep_options) {
                        Ok(fc) => {
                            completed = fc.completed;
                            unblocked = unblocked.union(fc.unblocked);
                            proof {
                                lk = i as int;
                                let bs = blocked_by@;
                                assert forall|t: TaskId| #[trigger] completed@.contains(t)
                                    implies left_for(s0, bs, lk).contains(t) by {
                                    assert(self.is_complete(t) && !before.is_complete(t));
                                    assert(self.has(t));
                                    assert(s0.has(t));
                                    assert(!s0.is_complete(t));
                                    if t != dep {
                                        assert(reach_plus(es, t.0, dep.0));
                                    }
                                    assert(reaches(es, t.0, bs[lk].0));
                                    assert forall|j: int| 0 <= j < lk implies !#[trigger] reaches(es, t.0, bs[j].0) by {
                                        if reaches(es, t.0, bs[j].0) {
                                            assert(before.is_complete(t));
                                        }
                                    }
                                }
                            }
                        },
                        Err(_) => {},
                    }
                    proof {
                        assert forall|t: TaskId| #[trigger] self.is_complete(t) && !s0.is_complete(t) implies reach_plus(es, t.0, id.0) by {
                            if !before.is_complete(t) {
                                if t == dep {
                                    crate::model::graph_spec::lemma_edge_path(es, dep.0, id.0);
                                } else {
                                    crate::model::graph_spec::lemma_reach_then_edge(es, t.0, dep.0, id.0);
                                }
                            }
                        }
                        assert forall|j: int| 0 <= j < i + 1 implies self.is_complete(#[trigger] blocked_by@[j]) by {
                            if j < i {
                                assert(before.is_complete(blocked_by@[j]));
                            }
                        }
                        let bs = blocked_by@;
                        if before.is_complete(dep) {
                            assert(*self == before);
                            before.lemma_deps_of_complete(before, dep);
                        }
                        assert forall|t: TaskId, j: int| 0 <= j < i + 1 && s0.has(t) && #[trigger] reaches(es, t.0, bs[j].0)
                            implies self.is_complete(t) by {
                            if j < i {
                                assert(before.is_complete(t));
                            } else if t != dep {
                                assert(reach_plus(es, t.0, dep.0));
                            }
                        }
                        assert forall|t: TaskId| #[trigger] self.is_complete(t) && !s0.is_complete(t)
                            implies exists|j: int| 0 <= j < i + 1 && #[trigger] reaches(es, t.0, bs[j].0) by {
                            if before.is_complete(t) {
                                let j = choose|j: int| 0 <= j < i && #[trigger] reaches(es, t.0, bs[j].0);
                                assert(reaches(es, t.0, bs[j].0));
                            } else {
                                assert(reaches(es, t.0, bs[i as int].0));
                            }
                        }
                        assert forall|t: TaskId| #[trigger] completed@.contains(t) implies self.is_complete(t) && !s0.is_complete(t) by {
                            if prev_completed.contains(t) {
                                assert(before.is_complete(t));
                            }
                        }
                        assert forall|t: TaskId| #![trigger self.depth_of(t)]
                            self.depth_of(t) == Some(0usize) && s0.depth_of(t) != Some(0usize) implies unblocked@.contains(t) by {
                            if before.depth_of(t) == Some(0usize) {
                                assert(prev_unblocked.contains(t));
                            }
                        }
                        assert forall|t: TaskId| #[trigger] unblocked@.contains(t) implies {
                            &&& s0.is_incomplete(t)
                            &&& s0.depth_of(t) != Some(0usize)
                            &&& self.depth_of(t) == Some(0usize) || self.is_complete(t)
                        } by {
                            if prev_unblocked.contains(t) {
                                assert(before.depth_of(t) == Some(0usize) || before.is_complete(t));
                            } else {
                                assert(before.is_incomplete(t));
                                assert(!before.is_complete(t));
                                assert(!s0.is_complete(t));
                                assert(s0.has(t));
                                if s0.depth_of(t) == Some(0usize) {
                                    assert(before.depth_of(t) == Some(0usize) || before.is_complete(t));
                                }
                            }
                        }
                        assert forall|t: TaskId| #![trigger s0.depth_of(t)]
                            s0.depth_of(t) == Some(0usize) implies self.depth_of(t) == Some(0usize) || self.is_complete(t) by {
                            assert(before.depth_of(t) == Some(0usize) || before.is_complete(t));
                        }
                        assert forall|t: TaskId| #![trigger self.task(t)] !self.is_complete(t) implies self.task(t) == s0.task(t) by {
                            assert(!before.is_complete(t));
                            assert(before.task(t) == s0.task(t));
                        }
                    }
                    i += 1;
                }
                unblocked = unblocked.difference(&TaskSet::of(id));
                proof {
                    assert(!self.is_complete(id)) by {
                        if self.is_complete(id) {
                            assert(reach_plus(es, id.0, id.0));
                        }
                    }
                    assert forall|t: TaskId| #[trigger] self.dep_set(id).contains(t) implies !self.is_incomplete(t) by {
                        assert(s0.dep_set(id).contains(t));
                        s0.lemma_edge_ends(t, id);
                        if s0.is_incomplete(t) {
                            assert(s0.incomplete_dep_set(id).contains(t));
                            s0.lemma_all_seq_contains(t);
                            assert(blocked_by@.contains(t));
                            let j = choose|j: int| 0 <= j < blocked_by@.len() && blocked_by@[j] == t;
                            assert(self.is_complete(blocked_by@[j]));
                        } else {
                            assert(s0.is_complete(t));
                        }
                        assert(!(self.is_complete(t) && self.is_incomplete(t)));
                    }
                    assert(self.has(id));
                }
                let ghost s1 = *self;
                match self.check_with(options) {
                    Ok(newly) => {
                        proof {
                            lemma_check_ok(s1, *self, options, newly);
                            lemma_check_unblocked(s1, *self, options, newly);
                        }
                        let all_completed = completed.union(TaskSet::of(id));
                        let all_unblocked = unblocked.union(newly);
                        proof {
                            assert(blocked_by@.take(blocked_by@.len() as int) =~= blocked_by@);
                            let bs = blocked_by@;
                            let k = last_unreached(es, bs);
                            assert(i > 0);
                            assert(lk == k);
                            assert(0 <= k < bs.len());
                            assert(all_completed@.contains(bs[k]));
                            assert forall|t: TaskId| #[trigger] all_completed@.contains(t)
                                implies t == id || left_for(s0, bs, k).contains(t) by {
                                if t != id {
                                    assert(completed@.contains(t));
                                }
                            }
                            assert forall|t: TaskId| #[trigger] all_completed@.contains(t)
                                implies self.is_complete(t) && !s0.is_complete(t) by {
                                if t != id {
                                    assert(completed@.contains(t));
                                    assert(s1.is_complete(t));
                                }
                            }
                            self.lemma_deps_of_complete(s0, id);
                            assert forall|t: TaskId| #![trigger self.depth_of(t)]
                                self.depth_of(t) == Some(0usize) && s0.depth_of(t) != Some(0usize) implies all_unblocked@.contains(t) by {
                                if s1.depth_of(t) == Some(0usize) {
                                    assert(t != id);
                                    assert(unblocked@.contains(t));
                                } else {
                                    assert(newly@.contains(t));
                                }
                            }
                            assert forall|t: TaskId| #[trigger] all_unblocked@.contains(t) implies {
                                &&& s0.is_incomplete(t)
                                &&& s0.depth_of(t) != Some(0usize)
                                &&& self.depth_of(t) == Some(0usize) || self.is_complete(t)
                            } by {
                                if unblocked@.contains(t) {
                                    assert(t != id);
                                    assert(s1.depth_of(t) == Some(0usize) || s1.is_complete(t));
                                } else {
                                    assert(newly@.contains(t));
                                    assert(self.depth_of(t) == Some(0usize));
                                    assert(s1.depth_of(t) != Some(0usize));
                                    assert(t != id);
                                    assert(self.is_incomplete(t));
                                    assert(s1.is_incomplete(t));
                                    assert(!s1.is_complete(t));
                                    assert(!s0.is_complete(t));
                                    assert(s0.has(t));
                                    if s0.depth_of(t) == Some(0usize) {
                                        assert(s1.depth_of(t) == Some(0usize) || s1.is_complete(t));
                                    }
                                }
                            }
                            assert forall|t: TaskId| #![trigger s0.depth_of(t)]
                                s0.depth_of(t) == Some(0usize) implies self.depth_of(t) == Some(0usize) || self.is_complete(t) by {
                                assert(s1.depth_of(t) == Some(0usize) || s1.is_complete(t));
                                if t != id && s1.depth_of(t) == Some(0usize) {
                                    assert(self.depth_of(t) == Some(0usize));
                                }
                            }
                            assert forall|t: TaskId| #![trigger self.task(t)] !self.is_complete(t) implies self.task(t) == s0.task(t) by {
                                assert(t != id);
                                assert(!s1.is_complete(t));
                                assert(s1.task(t) == s0.task(t));
                            }
                            assert forall|t: TaskId| #[trigger] s0.adep_set(id).contains(t) && self.is_incomplete(t)
                                && !self.has_incomplete_dep(t) && s0.task(t).start_date.nanos <= options.now.nanos
                                implies self.depth_of(t) == Some(0usize) by {
                                assert(t != id);
                                assert(s1.is_incomplete(t));
                                assert(!s1.is_complete(t));
                                assert(s1.task(t) == s0.task(t));
                                assert(s1.adep_set(id).contains(t));
                                assert(!s1.keeps_snoozed(t, Some(options.now)));
                                assert(!s1.is_complete(id));
                                assert(s1.is_incomplete(id));
                                assert(s1.incomplete_dep_set(t) =~= set![id]) by {
                                    assert forall|x: TaskId| #[trigger] s1.incomplete_dep_set(t).contains(x) implies x == id by {
                                        if x != id {
                                            assert(self.is_incomplete(x));
                                            assert(self.dep_set(t).contains(x));
                                        }
                                    }
                                    assert(s1.dep_set(t).contains(id));
                                }
                            }
                        }
                        let res = ForceChecked {
                            completed: all_completed,
                            unblocked: all_unblocked,
                        };
                        Ok(res)
                    },
                    Err(_) => {
                        proof {
                            assert(false);
                        }
                        Err(CheckError::TaskIsAlreadyComplete)
                    },
                }
            },
            Ok(unblocked) => {
                let all_completed = TaskSet::of(id);
                proof {
                    lemma_check_ok(*old(self), *self, first_options, unblocked);
                    lemma_check_unblocked(*old(self), *self, first_options, unblocked);
                    assert(all_completed@ =~= set![id]);
                    self.lemma_deps_of_complete(*old(self), id);
                    assert forall|t: TaskId| #[trigger] unblocked@.contains(t) implies old(self).is_incomplete(t) by {
                        assert(self.is_incomplete(t));
                    }
                }
                Ok(ForceChecked { completed: all_completed, unblocked })
            },
            Err(CheckError::TaskIsAlreadyComplete) => Err(CheckError::TaskIsAlreadyComplete),
        }
    }
}

impl TodoList {
    /// In a consistent list, every task that a complete task waits on,
    /// directly or not, is complete.
    proof fn lemma_deps_of_complete(self, before: TodoList, id: TaskId)
        requires
            self.wf(),
            self.edges() == before.edges(),
            self.is_complete(id),
        ensures
            forall|t: TaskId| #[trigger] reach_plus(before.edges(), t.0, id.0) ==> self.is_complete(t),
    {
        self.lemma_consistent_settled();
        assert forall|t: TaskId| #[trigger] reach_plus(before.edges(), t.0, id.0) implies self.is_complete(t) by {
            crate::model::graph_spec::lemma_reach_plus_first_step(self.edges(), t.0, id.0);
            let c = choose|c: u32| #[trigger] has_edge(self.edges(), t.0, c) && reaches(self.edges(), c, id.0);
            self.lemma_edge_ends(t, TaskId(c));
            if !self.is_complete(t) {
                assert(self.is_incomplete(t));
                self.lemma_descendant_of_incomplete_waits(t, id);
                assert(self.violates(id));
            }
        }
    }
}

/// `bs[k]` is, or waits directly or not on, a task before it in `bs`.
pub open spec fn reached_earlier(es: EdgeMap, bs: Seq<TaskId>, k: int) -> bool {
    exists|j: int| 0 <= j < k && #[trigger] reaches(es, bs[k].0, bs[j].0)
}

/// The index of the last task of `bs` that neither is nor waits on, directly
/// or not, a task before it in `bs` (the first one always qualifies).
pub open spec fn last_unreached(es: EdgeMap, bs: Seq<TaskId>) -> int
    decreases bs.len(),
{
    if bs.len() <= 1 {
        0
    } else if !reached_earlier(es, bs, bs.len() - 1) {
        bs.len() - 1
    } else {
        last_unreached(es, bs.drop_last())
    }
}

/// The tasks of `before` still incomplete when the turn of `bs[k]` comes,
/// once every task of `bs` before it has been checked with all it waits on,
/// among `bs[k]` and the tasks it waits on, directly or not.
pub open spec fn left_for(before: TodoList, bs: Seq<TaskId>, k: int) -> Set<TaskId> {
    Set::new(|t: TaskId| {
        &&& before.has(t)
        &&& !before.is_complete(t)
        &&& reaches(before.edges(), t.0, bs[k].0)
        &&& forall|j: int| 0 <= j < k ==> !#[trigger] reaches(before.edges(), t.0, bs[j].0)
    })
}

/// What `force_check_with` does: the task and every incomplete task it waits
/// on, directly or not, become complete, and no other task; tasks left
/// incomplete keep their fields, and those in layer 0 stay there. `completed`
/// is the task with what the force check of the last of its incomplete
/// dependencies that was still incomplete at its turn reported: within the
/// tasks that that one completed. `unblocked` holds every task that moved into
/// layer 0 and is still there; any other task in it was incomplete and out of
/// layer 0 before, and is now complete.
pub open spec fn force_check_outcome(before: TodoList, after: TodoList, id: TaskId, res: Result<ForceChecked, CheckError>) -> bool {
    &&& after.wf()
    &&& before.implicits_all_right() ==> after.implicits_all_right()
    &&& after.edges() == before.edges()
    &&& after.nodes().dom() == before.nodes().dom()
    &&& match res {
        Err(e) => e == CheckError::TaskIsAlreadyComplete && before.is_complete(id) && after == before,
        Ok(fc) => {
            &&& !before.is_complete(id)
            &&& after.is_complete(id)
            &&& forall|t: TaskId| #[trigger] before.is_complete(t) ==> after.is_complete(t)
            &&& forall|t: TaskId| #[trigger] after.is_complete(t) && !before.is_complete(t)
                ==> t == id || reach_plus(before.edges(), t.0, id.0)
            &&& fc.completed@.contains(id)
            &&& forall|t: TaskId| #[trigger] fc.completed@.contains(t) ==> after.is_complete(t) && !before.is_complete(t)
            &&& !before.has_incomplete_dep(id) ==> fc.completed@ == set![id]
            &&& before.has_incomplete_dep(id) ==> {
                let bs = before.incomplete_deps_seq(id);
                let k = last_unreached(before.edges(), bs);
                &&& 0 <= k < bs.len()
                &&& fc.completed@.contains(bs[k])
                &&& forall|t: TaskId| #[trigger] fc.completed@.contains(t) ==> t == id || left_for(before, bs, k).contains(t)
            }
            &&& forall|t: TaskId| #[trigger] reach_plus(before.edges(), t.0, id.0) ==> after.is_complete(t)
            &&& forall|t: TaskId| #[trigger] fc.unblocked@.contains(t) ==> after.has(t) && t != id
            &&& forall|t: TaskId| #[trigger] fc.unblocked@.contains(t) ==> {
                &&& before.is_incomplete(t)
                &&& before.depth_of(t) != Some(0usize)
                &&& after.depth_of(t) == Some(0usize) || after.is_complete(t)
            }
            &&& forall|t: TaskId| #![trigger after.depth_of(t)]
                after.depth_of(t) == Some(0usize) && before.depth_of(t) != Some(0usize) ==> fc.unblocked@.contains(t)
            &&& forall|t: TaskId| #![trigger before.depth_of(t)]
                before.depth_of(t) == Some(0usize) ==> after.depth_of(t) == Some(0usize) || after.is_complete(t)
            &&& forall|t: TaskId| #![trigger after.task(t)] !after.is_complete(t) ==> after.task(t) == before.task(t)
        },
    }
}

/// What `force_check` reports. `completed` holds the task asked for and what
/// the force check of the last of its incomplete dependencies that was still
/// incomplete at its turn reported, in turn: a chain down to a task that
/// waited on nothing incomplete, not every task the call completed.
/// `unblocked` holds the tasks it moved into layer 0 other than the task
/// asked for (a task that waited on that one may be among them though the
/// same call checked it afterwards).
#[derive(Debug, PartialEq)]
pub struct ForceChecked {
    pub completed: TaskSet,
    pub unblocked: TaskSet,
}


/// What follows when `check_with` succeeded: the task is complete, and no
/// other task changed between complete and incomplete.
pub proof fn lemma_check_ok(before: TodoList, after: TodoList, options: CheckOptions, unblocked: TaskSet)
    requires
        before.wf(),
        after.wf(),
        check_done(before, after, options, unblocked),
    ensures
        after.is_complete(options.id),
        forall|t: TaskId| #[trigger] before.is_complete(t) ==> after.is_complete(t),
        forall|t: TaskId| #[trigger] after.is_complete(t) && !before.is_complete(t) ==> t == options.id,
        after.nodes().dom() == before.nodes().dom(),
        forall|t: TaskId| #[trigger] unblocked@.contains(t) ==> after.has(t) && t != options.id,
{
    let id = options.id;
    assert(after.complete_seq()[before.complete_seq().len() as int] == id);
    assert forall|t: TaskId| #[trigger] before.is_complete(t) implies after.is_complete(t) by {
        let k = choose|k: int| 0 <= k < before.complete_seq().len() && before.complete_seq()[k] == t;
        assert(after.complete_seq()[k] == t);
    }
    assert forall|t: TaskId| #[trigger] after.is_complete(t) && !before.is_complete(t) implies t == id by {
        let k = choose|k: int| 0 <= k < after.complete_seq().len() && after.complete_seq()[k] == t;
        if k < before.complete_seq().len() {
            assert(before.complete_seq()[k] == t);
        }
    }
    before.lemma_wf();
    assert(before.has(id));
    assert(after.nodes().dom() =~= before.nodes().dom());
    assert forall|t: TaskId| #[trigger] unblocked@.contains(t) implies after.has(t) && t != id by {
        assert(before.adep_set(id).contains(t));
        before.lemma_edge_ends(id, t);
    }
}


/// What follows when `check_with` succeeded, of layer 0: the tasks it
/// returns are those that moved into layer 0; no other task left layer 0;
/// and no task but the checked one changed.
pub proof fn lemma_check_unblocked(before: TodoList, after: TodoList, options: CheckOptions, unblocked: TaskSet)
    requires
        before.wf(),
        after.wf(),
        after.edges() == before.edges(),
        check_done(before, after, options, unblocked),
    ensures
        forall|t: TaskId| #[trigger] unblocked@.contains(t)
            <==> after.depth_of(t) == Some(0usize) && before.depth_of(t) != Some(0usize),
        forall|t: TaskId| #[trigger] before.depth_of(t) == Some(0usize) && t != options.id
            ==> after.depth_of(t) == Some(0usize),
        forall|t: TaskId| t != options.id ==> #[trigger] after.task(t) == before.task(t),
{
    let id = options.id;
    let es = before.edges();
    before.lemma_consistent_settled();
    assert(after.complete_seq()[before.complete_seq().len() as int] == id);
    assert(after.is_complete(id));
    assert forall|t: TaskId| #[trigger] unblocked@.contains(t)
        implies after.depth_of(t) == Some(0usize) && before.depth_of(t) != Some(0usize) by {
        assert(before.dep_set(t).contains(id) && before.is_incomplete(id));
        assert(!before.violates(t));
    }
    assert forall|t: TaskId| #[trigger] after.depth_of(t) == Some(0usize) && before.depth_of(t) != Some(0usize)
        implies unblocked@.contains(t) by {
        assert(after.is_incomplete(t));
        assert(t != id);
        assert(descendants(es, id.0).contains(t.0));
        crate::model::graph_spec::lemma_reach_plus_last_step(es, id.0, t.0);
        let y = choose|y: u32| #[trigger] has_edge(es, y, t.0) && reaches(es, id.0, y);
        if y != id.0 {
            before.lemma_descendant_of_incomplete_waits(id, TaskId(y));
            before.lemma_edge_ends(TaskId(y), t);
            assert(before.is_incomplete(TaskId(y)));
            assert(after.is_incomplete(TaskId(y)));
            assert(after.dep_set(t).contains(TaskId(y)));
            assert(!after.violates(t));
        }
        assert(before.adep_set(id).contains(t));
    }
    assert forall|t: TaskId| #[trigger] before.depth_of(t) == Some(0usize) && t != id
        implies after.depth_of(t) == Some(0usize) by {
        if descendants(es, id.0).contains(t.0) {
            before.lemma_descendant_of_incomplete_waits(id, t);
            assert(!before.violates(t));
        }
    }
    assert forall|t: TaskId| t != id implies #[trigger] after.task(t) == before.task(t) by {
        assert(after.nodes() == before.nodes().insert(id.0, checked_task(before.task(id), options.now)));
    }
}

/// Why a task could not be restored.
#[derive(Debug, PartialEq)]
pub enum RestoreError {
    TaskIsAlreadyIncomplete,
    /// The complete tasks that wait on it.
    WouldRestore(TaskSet),
}

/// The tasks that `force_restore` marked as incomplete, and those that it
/// moved from layer 0 to layer 1 (some of them may have been pushed deeper
/// by the same call afterwards).
#[derive(Debug, PartialEq)]
pub struct ForceRestored {
    pub restored: TaskSet,
    pub blocked: TaskSet,
}

/// The task `t` once restored: it has no completion time.
pub open spec fn restored_task(t: Task) -> Task {
    Task { completion_time: None, ..t }
}

impl TodoList {
    /// The complete tasks that wait on `id`.
    pub open spec fn complete_adep_set(self, id: TaskId) -> Set<TaskId> {
        Set::new(|t: TaskId| self.adep_set(id).contains(t) && self.is_complete(t))
    }

    /// Marks a complete task as incomplete, in layer 0. Fails if it is not
    /// complete, or if complete tasks wait on it. Returns the tasks that
    /// waited on it and were moved to layer 1.
    pub fn restore(&mut self, id: TaskId) -> (res: Result<TaskSet, RestoreError>)
        requires
            old(self).wf(),
        ensures
            restore_outcome(*old(self), *final(self), id, res),
    {
        if !vec_contains(&self.complete, &id) {
            return Err(RestoreError::TaskIsAlreadyIncomplete);
        }
        proof {
            self.lemma_wf();
        }
        let adeps = self.adeps(id);
        adeps.members_facts();
        let v = adeps.to_vec_unsorted();
        let mut complete_adeps = TaskSet::new();
        let mut i: usize = 0;
        while i < v.len()
            invariant
                0 <= i <= v@.len(),
                v@.to_set() == self.adep_set(id),
                forall|t: TaskId| #[trigger] complete_adeps@.contains(t)
                    <==> (exists|j: int| 0 <= j < i && v@[j] == t) && self.is_complete(t),
            decreases v@.len() - i,
        {
            let t = v[i];
            if vec_contains(&self.complete, &t) {
                complete_adeps.insert(t);
            }
            proof {
                assert forall|x: TaskId| #[trigger] complete_adeps@.contains(x)
                    <==> (exists|j: int| 0 <= j < i + 1 && v@[j] == x) && self.is_complete(x) by {
                    if x == t {
                        assert(v@[i as int] == x);
                    } else if exists|j: int| 0 <= j < i + 1 && v@[j] == x {
                        let j = choose|j: int| 0 <= j < i + 1 && v@[j] == x;
                        assert(j < i);
                    }
                }
            }
            i += 1;
        }
        proof {
            assert forall|t: TaskId| #[trigger] complete_adeps@.contains(t) <==> self.complete_adep_set(id).contains(t) by {
                if self.adep_set(id).contains(t) {
                    assert(v@.to_set().contains(t));
                    let j = choose|j: int| 0 <= j < v@.len() && v@[j] == t;
                }
                if exists|j: int| 0 <= j < v@.len() && v@[j] == t {
                    let j = choose|j: int| 0 <= j < v@.len() && v@[j] == t;
                    assert(v@.to_set().contains(t));
                }
            }
            assert(complete_adeps@ =~= self.complete_adep_set(id));
        }
        if !complete_adeps.is_empty() {
            complete_adeps.members_facts();
            proof {
                if complete_adeps@.len() == 0 {
                    complete_adeps@.lemma_len0_is_empty();
                }
            }
            return Err(RestoreError::WouldRestore(complete_adeps));
        }
        let ghost s0 = *self;
        proof {
            assert(self.has(id));
            assert forall|t: TaskId| #[trigger] self.adep_set(id).contains(t) implies !self.is_complete(t) by {
                assert(!self.complete_adep_set(id).contains(t));
            }
        }
        let task = graph_node_weight(&self.tasks, id.0).unwrap();
        let mut t = copy_task(task);
        t.completion_time = None;
        graph_set_node(&mut self.tasks, id.0, t);
        proof {
            assert(self.nodes().dom() =~= s0.nodes().dom());
            self.lemma_wf_same_shape(s0);
            self.lemma_violates_after_move(s0, id);
            assert(!self.is_incomplete(id)) by {
                assert(!(s0.is_complete(id) && s0.is_incomplete(id)));
            }
            assert forall|x: TaskId| #[trigger] self.is_incomplete(x) implies self.has(x) by {
                assert(s0.has(x) <==> (s0.is_complete(x) || s0.is_incomplete(x)));
            }
        }
        let ghost sa = *self;
        let pos = self.put_in_incomplete_layer(id, 0);
        let ghost smid = *self;
        remove_first_occurrence_from_vec(&mut self.complete, &id);
        let ghost sb = *self;
        proof {
            let ol = sa.layering().entries();
            let start = count_below(ol, 0) as int;
            crate::model::layering::lemma_count_below_bounds(ol, 1);
            sa.layering().lemma_valid();
            lemma_depth_of_insert(sa.layering(), sb.layering(), start + pos, id, 0);
            let k = choose|k: int| 0 <= k < sa.complete_seq().len() && sa.complete_seq()[k] == id
                && (forall|j: int| 0 <= j < k ==> sa.complete_seq()[j] != id) && sb.complete_seq() == sa.complete_seq().remove(k);
            lemma_seq_remove_contains(sa.complete_seq(), k);
            assert(sa.complete_seq().index_of(id) == k) by {
                assert(sa.complete_seq()[sa.complete_seq().index_of(id)] == id);
            }
            assert forall|x: TaskId| x != id implies #[trigger] sb.is_complete(x) == sa.is_complete(x) by {}
            assert(sb.layering() == smid.layering());
            assert forall|x: TaskId| x != id implies #[trigger] sb.is_incomplete(x) == sa.is_incomplete(x) by {
                assert(smid.is_incomplete(x) <==> sa.is_incomplete(x) || x == id);
            }
            assert(!sb.is_complete(id));
            assert(sb.is_incomplete(id));
            sb.lemma_wf_reassign(sa, id);
            sb.lemma_violates_after_reopen(sa, id);
            // Only tasks that wait on `id` and are in layer 0 can be out of
            // place now; the loop below moves each of them.
            assert forall|x: TaskId| #[trigger] sb.violates(x) implies s0.adep_set(id).contains(x) && sb.is_incomplete(x) by {
                if x == id {
                    assert(sb.depth_of(id) == Some(0usize));
                    assert(!sb.has_incomplete_dep(id)) by {
                        assert(!s0.violates(id));
                        assert(sb.dep_set(id) =~= s0.dep_set(id));
                        if sb.has_incomplete_dep(id) {
                            let y = choose|y: TaskId| #[trigger] sb.dep_set(id).contains(y) && sb.is_incomplete(y);
                            assert(y != id) by {
                                if y == id {
                                    crate::model::graph_spec::lemma_edge_path(s0.edges(), id.0, id.0);
                                }
                            }
                            assert(s0.dep_set(id).contains(y) && s0.is_incomplete(y));
                        }
                    }
                } else {
                    assert(!sa.violates(x));
                    assert(sa.adep_set(id).contains(x));
                    assert(s0.adep_set(id).contains(x));
                    assert(!s0.is_complete(x));
                    assert(!sb.is_complete(x));
                    assert(sb.dep_set(x).contains(id));
                    assert(sb.has_incomplete_dep(x));
                }
            }
        }
        let adep_set = self.adeps(id);
        let sorted = adep_set.sorted_vec(self);
        proof {
            lemma_filter_in(sb.all_seq(), sb.adep_set(id));
            sb.lemma_wf();
            sb.layering().lemma_valid();
            assert(sb.all_seq().no_duplicates()) by {
                assert forall|i: int, j: int| 0 <= i < j < sb.all_seq().len() implies sb.all_seq()[i] != sb.all_seq()[j] by {
                    let nc = sb.complete_seq().len() as int;
                    if j < nc {
                    } else if i >= nc {
                        assert(sb.incomplete_seq()[i - nc] == sb.all_seq()[i]);
                        assert(sb.incomplete_seq()[j - nc] == sb.all_seq()[j]);
                    } else {
                        let x = sb.all_seq()[i];
                        assert(sb.is_complete(x));
                        assert(sb.incomplete_seq()[j - nc] == sb.all_seq()[j]);
                        if x == sb.all_seq()[j] {
                            assert(sb.is_incomplete(x));
                        }
                    }
                }
            }
            assert forall|x: TaskId| #[trigger] s0.adep_set(id).contains(x) implies s0.is_incomplete(x) by {
                s0.lemma_edge_ends(id, x);
            }
            assert forall|m: int| 0 <= m < sorted@.len() && s0.depth_of(#[trigger] sorted@[m]) == Some(0usize)
                implies self.depth_of(sorted@[m]) == Some(0usize) by {
                assert(sb.adep_set(id).contains(sorted@[m]));
                assert(sorted@[m] != id) by {
                    if sorted@[m] == id {
                        crate::model::graph_spec::lemma_edge_path(sb.edges(), id.0, id.0);
                    }
                }
            }
            assert forall|x: TaskId| #[trigger] sb.adep_set(id).contains(x) implies sorted@.contains(x) by {
                sb.lemma_edge_ends(id, x);
                sb.lemma_all_seq_contains(x);
            }
        }
        let mut blocked = TaskSet::new();
        let mut k: usize = 0;
        while k < sorted.len()
            invariant
                self.wf_shape(),
                self.tasks_graph() == sb.tasks_graph(),
                sb.wf_shape(),
                0 <= k <= sorted@.len(),
                sorted@ == filter_in(sb.all_seq(), sb.adep_set(id)),
                forall|x: TaskId| #[trigger] sb.adep_set(id).contains(x) ==> sorted@.contains(x),
                forall|x: TaskId| #[trigger] sb.violates(x) ==> sb.adep_set(id).contains(x) && sb.is_incomplete(x),
                forall|x: TaskId| #[trigger] self.violates(x) ==> sb.violates(x)
                    && forall|m: int| 0 <= m < k ==> sorted@[m] != x,
                forall|x: TaskId| #[trigger] self.is_complete(x) == sb.is_complete(x),
                self.complete_seq() == sb.complete_seq(),
                forall|x: TaskId| #[trigger] blocked@.contains(x) ==> sb.adep_set(id).contains(x),
                forall|x: TaskId| #![trigger self.depth_of(x)] !descendants(sb.edges(), id.0).contains(x.0)
                    ==> self.depth_of(x) == sb.depth_of(x),
                s0.wf(),
                s0.edges() == sb.edges(),
                sb.depth_of(id) == Some(0usize),
                sorted@.no_duplicates(),
                forall|x: TaskId| #[trigger] s0.adep_set(id).contains(x) ==> s0.is_incomplete(x),
                forall|x: TaskId| x != id ==> #[trigger] sb.is_incomplete(x) == s0.is_incomplete(x),
                forall|x: TaskId| x != id ==> #[trigger] sb.depth_of(x) == s0.depth_of(x),
                forall|m: int| k <= m < sorted@.len() && s0.depth_of(#[trigger] sorted@[m]) == Some(0usize)
                    ==> self.depth_of(sorted@[m]) == Some(0usize),
                forall|m: int| 0 <= m < k && s0.depth_of(#[trigger] sorted@[m]) == Some(0usize)
                    ==> self.depth_of(sorted@[m]) == Some(1usize) && blocked@.contains(sorted@[m]),
                s0.is_complete(id),
                forall|x: TaskId| #![trigger self.depth_of(x)] self.depth_of(x) != sb.depth_of(x)
                    ==> exists|m: int| 0 <= m < k && #[trigger] reaches(sb.edges(), sorted@[m].0, x.0),
                forall|x: TaskId| #[trigger] blocked@.contains(x) ==> s0.depth_of(x) != Some(1usize),
            decreases sorted@.len() - k,
        {
            let c = sorted[k];
            proof {
                lemma_filter_in(sb.all_seq(), sb.adep_set(id));
                assert(sorted@.contains(c));
                assert(has_edge(sb.edges(), id.0, c.0));
            }
            let ghost before = *self;
            proof {
                assert forall|x: TaskId| #[trigger] before.is_complete(x) implies !before.has_incomplete_dep(x) by {
                    if before.has_incomplete_dep(x) {
                        assert(before.violates(x));
                        assert(sb.is_incomplete(x));
                        assert(sb.is_complete(x));
                        assert(!(sb.is_complete(x) && sb.is_incomplete(x)));
                    }
                }
            }
            proof {
                if s0.depth_of(c) == Some(0usize) {
                    before.layering().lemma_valid();
                    assert(sorted@[k as int] == c);
                    assert(before.depth_of(c) == Some(0usize));
                    assert(before.depth_of(id) == Some(0usize)) by {
                        assert(!reach_plus(sb.edges(), id.0, id.0));
                        assert(!descendants(sb.edges(), id.0).contains(id.0));
                    }
                    assert(before.dep_set(c).contains(id));
                    assert forall|t: TaskId| #[trigger] before.dep_set(c).contains(t) && before.depth_of(t) is Some
                        implies before.depth_of(t)->Some_0 <= 0 by {
                        if t != id {
                            assert(s0.dep_set(c).contains(t));
                            assert(!s0.violates(c));
                            assert(!s0.is_incomplete(t));
                            assert(!sb.is_incomplete(t));
                            sb.lemma_edge_ends(t, c);
                            assert(sb.is_complete(t));
                            assert(before.is_complete(t));
                            assert(!(before.is_complete(t) && before.is_incomplete(t)));
                            assert(!before.is_incomplete(t));
                        }
                    }
                    assert(before.is_max_dep_depth(c, Some(0usize)));
                    assert(before.is_target_depth(c, 1));
                    assert(before.has_incomplete_dep(c));
                    s0.lemma_edge_ends(id, c);
                }
            }
            let moved = self.update_depth(c);
            proof {
                assert forall|x: TaskId| #[trigger] self.violates(x) implies sb.violates(x)
                    && forall|m: int| 0 <= m < k + 1 ==> sorted@[m] != x by {
                    assert(before.violates(x) && x != c);
                }
                assert forall|m: int| 0 <= m < sorted@.len() && m != k && s0.depth_of(#[trigger] sorted@[m]) == Some(0usize)
                    implies self.depth_of(sorted@[m]) == before.depth_of(sorted@[m]) by {
                    let x = sorted@[m];
                    assert(x != c);
                    assert(sb.adep_set(id).contains(c));
                    assert(s0.adep_set(id).contains(c));
                    s0.lemma_ready_not_below(c, x);
                }
                assert forall|x: TaskId| #![trigger self.depth_of(x)] !descendants(sb.edges(), id.0).contains(x.0)
                    implies self.depth_of(x) == sb.depth_of(x) by {
                    if x == c {
                        crate::model::graph_spec::lemma_edge_path(sb.edges(), id.0, c.0);
                    } else if descendants(sb.edges(), c.0).contains(x.0) {
                        crate::model::graph_spec::lemma_edge_then_reach(sb.edges(), id.0, c.0, x.0);
                    }
                    assert(self.depth_of(x) == before.depth_of(x));
                }
            }
            let ghost before_blocked = blocked@;
            match moved {
                Some(d) => {
                    if d == 1 {
                        blocked.insert(c);
                    }
                },
                None => {},
            }
            proof {
                assert forall|m: int| 0 <= m < k + 1 && s0.depth_of(#[trigger] sorted@[m]) == Some(0usize)
                    implies self.depth_of(sorted@[m]) == Some(1usize) && blocked@.contains(sorted@[m]) by {
                    if m < k {
                        assert(before_blocked.contains(sorted@[m]));
                    }
                }
                assert forall|x: TaskId| #![trigger self.depth_of(x)] self.depth_of(x) != sb.depth_of(x)
                    implies exists|m: int| 0 <= m < k + 1 && #[trigger] reaches(sb.edges(), sorted@[m].0, x.0) by {
                    if self.depth_of(x) != before.depth_of(x) {
                        assert(x == c || descendants(sb.edges(), c.0).contains(x.0));
                        assert(reaches(sb.edges(), sorted@[k as int].0, x.0));
                    } else {
                        let m = choose|m: int| 0 <= m < k && #[trigger] reaches(sb.edges(), sorted@[m].0, x.0);
                        assert(reaches(sb.edges(), sorted@[m].0, x.0));
                    }
                }
                if moved == Some(1usize) {
                    assert(s0.depth_of(c) != Some(1usize)) by {
                        if s0.depth_of(c) == Some(1usize) {
                            assert(c != id) by {
                                if c == id {
                                    crate::model::graph_spec::lemma_edge_path(sb.edges(), id.0, id.0);
                                }
                            }
                            assert(sb.depth_of(c) == Some(1usize));
                            if before.depth_of(c) != sb.depth_of(c) {
                                let m = choose|m: int| 0 <= m < k && #[trigger] reaches(sb.edges(), sorted@[m].0, c.0);
                                let cp = sorted@[m];
                                assert(cp != c) by {
                                    assert(sorted@[k as int] == c);
                                }
                                assert(sb.adep_set(id).contains(cp)) by {
                                    assert(sorted@.contains(cp));
                                }
                                assert(s0.adep_set(id).contains(cp));
                                assert forall|x: TaskId| #[trigger] before.violates(x) implies sb.violates(x) && x != cp by {
                                    assert(sorted@[m] != x);
                                }
                                lemma_restore_no_shallow_move(s0, sb, before, id, cp, c);
                                assert(before.is_target_depth(c, 1usize));
                            }
                        }
                    }
                }
                assert forall|x: TaskId| #[trigger] blocked@.contains(x) implies s0.depth_of(x) != Some(1usize) by {
                    if before_blocked.contains(x) {
                    } else {
                        assert(x == c);
                    }
                }
            }
            k += 1;
        }
        proof {
            assert forall|x: TaskId| !#[trigger] self.violates(x) by {
                if self.violates(x) {
                    assert(sorted@.contains(x));
                    let m = choose|m: int| 0 <= m < sorted@.len() && sorted@[m] == x;
                    assert(sorted@[m] != x);
                }
            }
            assert(self.depth_of(id) == Some(0usize)) by {
                assert(!reach_plus(sb.edges(), id.0, id.0));
                assert(!descendants(sb.edges(), id.0).contains(id.0));
            }
            assert forall|x: TaskId| x != id implies #[trigger] self.is_complete(x) == s0.is_complete(x) by {}
            assert(self.nodes() == s0.nodes().insert(id.0, restored_task(s0.task(id))));
            assert forall|t: TaskId| #[trigger] blocked@.contains(t) implies {
                &&& s0.is_incomplete(t)
                &&& s0.depth_of(t) != Some(1usize)
                &&& self.depth_of(t) != Some(0usize)
            } by {
                assert(s0.adep_set(id).contains(t));
                assert(self.dep_set(t).contains(id));
                assert(self.is_incomplete(id)) by {
                    assert(self.depth_of(id) == Some(0usize));
                }
                assert(!self.violates(t));
            }
            if s0.implicits_all_right() {
                TodoList::lemma_all_right_same_weights(s0, *self);
            }
        }
        Ok(blocked)
    }
}

/// What `restore` does: the error it gives, with the list unchanged, or the
/// task back in layer 0.
pub open spec fn restore_outcome(before: TodoList, after: TodoList, id: TaskId, res: Result<TaskSet, RestoreError>) -> bool {
    &&& after.wf()
    &&& before.implicits_all_right() ==> after.implicits_all_right()
    &&& after.edges() == before.edges()
    &&& match res {
        Err(RestoreError::TaskIsAlreadyIncomplete) => !before.is_complete(id) && after == before,
        Err(RestoreError::WouldRestore(s)) => {
            &&& before.is_complete(id)
            &&& s@ == before.complete_adep_set(id)
            &&& s@.len() > 0
            &&& after == before
        },
        Ok(blocked) => restore_done(before, after, id, blocked),
    }
}

/// `after` is `before` with `id` restored, and `blocked` holds tasks that
/// wait on it.
pub open spec fn restore_done(before: TodoList, after: TodoList, id: TaskId, blocked: TaskSet) -> bool {
    &&& before.is_complete(id)
    &&& before.complete_adep_set(id).len() == 0
    &&& after.nodes() == before.nodes().insert(id.0, restored_task(before.task(id)))
    &&& after.complete_seq() == before.complete_seq().remove(before.complete_seq().index_of(id))
    &&& after.depth_of(id) == Some(0usize)
    &&& forall|t: TaskId| t != id ==> #[trigger] after.is_complete(t) == before.is_complete(t)
    &&& forall|t: TaskId| #[trigger] blocked@.contains(t) ==> before.adep_set(id).contains(t)
    &&& forall|t: TaskId| #[trigger] blocked@.contains(t) ==> {
        &&& before.is_incomplete(t)
        &&& before.depth_of(t) != Some(1usize)
        &&& after.depth_of(t) != Some(0usize)
    }
    &&& forall|t: TaskId| #[trigger] before.adep_set(id).contains(t) && before.depth_of(t) == Some(0usize)
        ==> blocked@.contains(t) && after.depth_of(t) == Some(1usize)
    &&& forall|t: TaskId| #![trigger after.depth_of(t)] t != id && !descendants(before.edges(), id.0).contains(t.0)
        ==> after.depth_of(t) == before.depth_of(t)
}


/// The tasks that `restore` reports blocked are tasks that waited on the
/// restored task, were incomplete and outside layer 1 before, and are
/// blocked after; a task that stayed in layer 1 is never among them, and
/// every task that waited on it from layer 0 is among them, now in layer 1.
pub proof fn law_restore_reports_newly_blocked(before: TodoList, after: TodoList, id: TaskId, blocked: TaskSet)
    requires
        before.wf(),
        restore_outcome(before, after, id, Ok(blocked)),
    ensures
        forall|t: TaskId| #[trigger] blocked@.contains(t) ==> {
            &&& before.adep_set(id).contains(t)
            &&& before.is_incomplete(t)
            &&& before.depth_of(t) != Some(1usize)
            &&& after.status_of(t) == Some(TaskStatus::Blocked)
        },
        forall|t: TaskId| #[trigger] before.adep_set(id).contains(t) && before.depth_of(t) == Some(1usize)
            && after.depth_of(t) == Some(1usize) ==> !blocked@.contains(t),
        forall|t: TaskId| #[trigger] before.adep_set(id).contains(t) && before.status_of(t) == Some(TaskStatus::Incomplete)
            ==> blocked@.contains(t) && after.depth_of(t) == Some(1usize),
{
    lemma_restore_ok(before, after, id, blocked);
    assert forall|t: TaskId| #[trigger] blocked@.contains(t) implies after.status_of(t) == Some(TaskStatus::Blocked) by {
        assert(after.is_incomplete(t)) by {
            assert(before.is_incomplete(t));
            assert(t != id);
            assert(!after.is_complete(t)) by {
                assert(!(before.is_complete(t) && before.is_incomplete(t)));
            }
        }
        assert(!(after.is_complete(t) && after.is_incomplete(t)));
    }
    assert forall|t: TaskId| #[trigger] before.adep_set(id).contains(t) && before.status_of(t) == Some(TaskStatus::Incomplete)
        implies blocked@.contains(t) && after.depth_of(t) == Some(1usize) by {
        assert(before.depth_of(t) == Some(0usize));
    }
}

/// What follows when `restore` succeeded: the task is incomplete, and no
/// other task changed between complete and incomplete.
pub proof fn lemma_restore_ok(before: TodoList, after: TodoList, id: TaskId, blocked: TaskSet)
    requires
        before.wf(),
        after.wf(),
        restore_done(before, after, id, blocked),
    ensures
        !after.is_complete(id),
        forall|t: TaskId| #[trigger] after.is_complete(t) ==> before.is_complete(t),
        forall|t: TaskId| #[trigger] before.is_complete(t) && !after.is_complete(t) ==> t == id,
        after.nodes().dom() == before.nodes().dom(),
        forall|t: TaskId| #[trigger] blocked@.contains(t) ==> after.has(t) && t != id,
{
    assert(!(after.is_complete(id) && after.is_incomplete(id)));
    before.lemma_wf();
    assert(before.has(id));
    assert(after.nodes().dom() =~= before.nodes().dom());
    assert forall|t: TaskId| #[trigger] blocked@.contains(t) implies after.has(t) && t != id by {
        assert(before.adep_set(id).contains(t));
        before.lemma_edge_ends(id, t);
    }
}

/// While `restore` moves the tasks waiting on the restored task `id` in
/// turn: a task `c` reached from one of them, `cp`, that was already moved
/// waits on an incomplete task out of layer 0, so it belongs in layer 2 or
/// deeper.
proof fn lemma_restore_no_shallow_move(s0: TodoList, sb: TodoList, before: TodoList, id: TaskId, cp: TaskId, c: TaskId)
    requires
        s0.wf(),
        sb.wf_shape(),
        before.wf_shape(),
        sb.edges() == s0.edges(),
        before.edges() == sb.edges(),
        before.nodes().dom() == sb.nodes().dom(),
        s0.is_complete(id),
        s0.adep_set(id).contains(cp),
        s0.is_incomplete(cp),
        sb.is_incomplete(id),
        forall|x: TaskId| x != id ==> #[trigger] sb.is_incomplete(x) == s0.is_incomplete(x),
        forall|x: TaskId| x != id ==> #[trigger] sb.depth_of(x) == s0.depth_of(x),
        forall|x: TaskId| #[trigger] before.is_complete(x) == sb.is_complete(x),
        forall|x: TaskId| #[trigger] before.violates(x) ==> sb.violates(x) && x != cp,
        reach_plus(sb.edges(), cp.0, c.0),
    ensures
        forall|d: usize| #[trigger] before.is_target_depth(c, d) ==> d >= 2,
{
    let es = sb.edges();
    s0.lemma_consistent_settled();
    assert forall|x: TaskId| #[trigger] before.is_incomplete(x) == sb.is_incomplete(x) by {
        assert(before.has(x) == sb.has(x));
    }
    crate::model::graph_spec::lemma_reach_plus_last_step(es, cp.0, c.0);
    let y = choose|y: u32| #[trigger] has_edge(es, y, c.0) && reaches(es, cp.0, y);
    let ty = TaskId(y);
    s0.lemma_edge_ends(id, cp);
    s0.lemma_edge_ends(ty, c);
    assert(!s0.is_complete(ty) && s0.has_incomplete_dep(ty) || ty == cp) by {
        if ty != cp {
            s0.lemma_descendant_of_incomplete_waits(cp, ty);
        }
    }
    assert(s0.is_incomplete(ty));
    assert(ty != id);
    assert(before.is_incomplete(ty));
    assert(before.has_incomplete_dep(ty)) by {
        if ty == cp {
            assert(before.dep_set(ty).contains(id));
        } else {
            let z = choose|z: TaskId| #[trigger] s0.dep_set(ty).contains(z) && s0.is_incomplete(z);
            assert(z != id);
            assert(before.dep_set(ty).contains(z));
        }
    }
    assert(!before.violates(ty)) by {
        if before.violates(ty) {
            assert(sb.violates(ty));
            assert(sb.has_incomplete_dep(ty)) by {
                let z = choose|z: TaskId| #[trigger] before.dep_set(ty).contains(z) && before.is_incomplete(z);
                assert(sb.dep_set(ty).contains(z));
            }
            assert(sb.depth_of(ty) == Some(0usize));
            assert(s0.depth_of(ty) == Some(0usize));
            assert(s0.violates(ty));
        }
    }
    assert(before.depth_of(ty) is Some);
    assert(before.depth_of(ty) != Some(0usize));
    assert(before.dep_set(c).contains(ty));
    assert forall|d: usize| #[trigger] before.is_target_depth(c, d) implies d >= 2 by {
        let m = choose|m: Option<usize>| #[trigger] before.is_max_dep_depth(c, m) && d == match m {
            Some(kk) => if kk == usize::MAX { usize::MAX } else { (kk + 1) as usize },
            None => 0,
        };
        assert(before.dep_set(c).contains(ty) && before.depth_of(ty) is Some);
    }
}

/// What follows when `restore` succeeded, of the layers: tasks that are
/// neither the restored one nor wait on it, directly or not, stay where
/// they were, and each task it returns waits on it and is blocked.
pub proof fn lemma_restore_layers(before: TodoList, after: TodoList, id: TaskId, blocked: TaskSet)
    requires
        before.wf(),
        after.wf(),
        after.edges() == before.edges(),
        restore_done(before, after, id, blocked),
    ensures
        forall|t: TaskId| #![trigger after.depth_of(t)] #![trigger after.is_complete(t)]
            t != id && !reach_plus(before.edges(), id.0, t.0)
            ==> after.depth_of(t) == before.depth_of(t) && after.is_complete(t) == before.is_complete(t),
        forall|t: TaskId| #[trigger] blocked@.contains(t)
            ==> reach_plus(before.edges(), id.0, t.0) && after.has_incomplete_dep(t),
{
    lemma_restore_ok(before, after, id, blocked);
    assert(after.is_incomplete(id)) by {
        assert(after.has(id));
    }
    assert forall|t: TaskId| #[trigger] blocked@.contains(t)
        implies reach_plus(before.edges(), id.0, t.0) && after.has_incomplete_dep(t) by {
        assert(before.adep_set(id).contains(t));
        crate::model::graph_spec::lemma_edge_path(before.edges(), id.0, t.0);
        assert(after.dep_set(t).contains(id));
    }
}

impl TodoList {
    /// Marks a complete task as incomplete, first marking as incomplete, the
    /// same way, the complete tasks that wait on it. Fails only if it is
    /// not complete.
    pub fn force_restore(&mut self, id: TaskId) -> (res: Result<ForceRestored, RestoreError>)
        requires
            old(self).wf(),
        ensures
            force_restore_outcome(*old(self), *final(self), id, res),
        decreases descendants(old(self).edges(), id.0).len(),
    {
        let ghost es = self.edges();
        let first = self.restore(id);
        match first {
            Err(RestoreError::WouldRestore(would)) => {
                let ghost s0 = *self;
                let sorted = would.sorted_vec(self);
                proof {
                    lemma_filter_in(s0.all_seq(), would@);
                    s0.lemma_wf();
                    assert(s0.has(id)) by {
                        assert(s0.is_complete(id));
                    }
                }
                let mut restored = TaskSet::new();
                let mut blocked = TaskSet::new();
                let mut i: usize = 0;
                while i < sorted.len()
                    invariant
                        self.wf(),
                        s0.wf(),
                        *old(self) == s0,
                        es == s0.edges(),
                        self.edges() == es,
                        self.nodes().dom() == s0.nodes().dom(),
                        s0.is_complete(id),
                        s0.has(id),
                        0 <= i <= sorted@.len(),
                        sorted@ == filter_in(s0.all_seq(), s0.complete_adep_set(id)),
                        forall|j: int| 0 <= j < sorted@.len() ==> s0.complete_adep_set(id).contains(#[trigger] sorted@[j]),
                        forall|t: TaskId| #[trigger] self.is_complete(t) ==> s0.is_complete(t),
                        forall|t: TaskId| #[trigger] s0.is_complete(t) && !self.is_complete(t) ==> reach_plus(es, id.0, t.0),
                        forall|j: int| 0 <= j < i ==> !self.is_complete(#[trigger] sorted@[j]),
                        restored@ == Set::new(|t: TaskId| s0.is_complete(t) && !self.is_complete(t)),
                        s0.implicits_all_right() ==> self.implicits_all_right(),
                        forall|t: TaskId| #[trigger] blocked@.contains(t) ==> self.has(t),
                        forall|t: TaskId| #![trigger self.depth_of(t)] #![trigger self.is_complete(t)]
                            t != id && !reach_plus(es, id.0, t.0)
                            ==> self.depth_of(t) == s0.depth_of(t) && self.is_complete(t) == s0.is_complete(t),
                        forall|t: TaskId| #[trigger] blocked@.contains(t)
                            ==> reach_plus(es, id.0, t.0) && self.has_incomplete_dep(t),
                        forall|t: TaskId| #[trigger] s0.adep_set(id).contains(t)
                            && (s0.depth_of(t) == Some(0usize) || (s0.is_complete(t) && !self.is_complete(t)))
                            && !self.has_incomplete_dep(t)
                            ==> self.depth_of(t) == Some(0usize),
                    decreases sorted@.len() - i,
                {
                    let adep = sorted[i];
                    proof {
                        assert(s0.complete_adep_set(id).contains(adep));
                        assert(has_edge(es, id.0, adep.0));
                        s0.lemma_edge_ends(id, adep);
                        lemma_descendants_shrink(s0.nodes().dom(), es, id.0, adep.0);
                    }
                    let ghost before = *self;
                    let ghost prev_blocked = blocked@;
                    let sub = self.force_restore(adep);
                    match sub {
                        Ok(fr) => {
                            restored = restored.union(fr.restored);
                            blocked = blocked.union(fr.blocked);
                        },
                        Err(_) => {},
                    }
                    proof {
                        self.lemma_consistent_settled();
                        before.lemma_consistent_settled();
                        assert forall|x: TaskId| #[trigger] before.is_incomplete(x) implies self.is_incomplete(x) by {
                            assert(before.has(x));
                            assert(self.has(x));
                            if self.is_complete(x) {
                                assert(before.is_complete(x));
                            }
                        }
                        assert forall|t: TaskId| #![trigger self.depth_of(t)] #![trigger self.is_complete(t)]
                            t != id && !reach_plus(es, id.0, t.0)
                            implies self.depth_of(t) == s0.depth_of(t) && self.is_complete(t) == s0.is_complete(t) by {
                            if t == adep {
                                crate::model::graph_spec::lemma_edge_path(es, id.0, adep.0);
                            } else if reach_plus(es, adep.0, t.0) {
                                crate::model::graph_spec::lemma_edge_then_reach(es, id.0, adep.0, t.0);
                            }
                            assert(self.depth_of(t) == before.depth_of(t) && self.is_complete(t) == before.is_complete(t));
                        }
                        assert forall|t: TaskId| #[trigger] blocked@.contains(t)
                            implies reach_plus(es, id.0, t.0) && self.has_incomplete_dep(t) by {
                            if prev_blocked.contains(t) {
                                let x = choose|x: TaskId| #[trigger] before.dep_set(t).contains(x) && before.is_incomplete(x);
                                assert(self.dep_set(t).contains(x) && self.is_incomplete(x));
                            } else {
                                crate::model::graph_spec::lemma_edge_then_reach(es, id.0, adep.0, t.0);
                            }
                        }
                        assert forall|t: TaskId| #[trigger] s0.adep_set(id).contains(t)
                            && (s0.depth_of(t) == Some(0usize) || (s0.is_complete(t) && !self.is_complete(t)))
                            && !self.has_incomplete_dep(t)
                            implies self.depth_of(t) == Some(0usize) by {
                            if sub is Ok {
                                if t == adep {
                                } else if reach_plus(es, adep.0, t.0) {
                                    crate::model::graph_spec::lemma_reach_plus_last_step(es, adep.0, t.0);
                                    let y = choose|y: u32| #[trigger] has_edge(es, y, t.0) && reaches(es, adep.0, y);
                                    before.lemma_edge_ends(TaskId(y), t);
                                    assert(self.has(TaskId(y)));
                                    if before.is_complete(TaskId(y)) {
                                        assert(!self.is_complete(TaskId(y)));
                                    }
                                    assert(self.is_incomplete(TaskId(y)));
                                    assert(self.dep_set(t).contains(TaskId(y)));
                                } else {
                                    assert(!before.has_incomplete_dep(t)) by {
                                        if before.has_incomplete_dep(t) {
                                            let x = choose|x: TaskId| #[trigger] before.dep_set(t).contains(x) && before.is_incomplete(x);
                                            assert(self.dep_set(t).contains(x) && self.is_incomplete(x));
                                        }
                                    }
                                    assert(self.depth_of(t) == before.depth_of(t));
                                    assert(self.is_complete(t) == before.is_complete(t));
                                }
                            }
                        }
                        assert(restored@ =~= Set::new(|t: TaskId| s0.is_complete(t) && !self.is_complete(t)));
                        assert forall|t: TaskId| #[trigger] s0.is_complete(t) && !self.is_complete(t) implies reach_plus(es, id.0, t.0) by {
                            if before.is_complete(t) {
                                if t == adep {
                                    crate::model::graph_spec::lemma_edge_path(es, id.0, adep.0);
                                } else {
                                    crate::model::graph_spec::lemma_edge_then_reach(es, id.0, adep.0, t.0);
                                }
                            }
                        }
                        assert forall|j: int| 0 <= j < i + 1 implies !self.is_complete(#[trigger] sorted@[j]) by {
                            if j < i {
                                assert(!before.is_complete(sorted@[j]));
                            }
                        }
                    }
                    i += 1;
                }
                proof {
                    assert(self.is_complete(id)) by {
                        if !self.is_complete(id) {
                            assert(reach_plus(es, id.0, id.0));
                        }
                    }
                    assert forall|t: TaskId| #[trigger] self.complete_adep_set(id).contains(t) implies false by {
                        assert(s0.adep_set(id).contains(t));
                        s0.lemma_edge_ends(id, t);
                        assert(s0.is_complete(t));
                        assert(s0.complete_adep_set(id).contains(t));
                        s0.lemma_all_seq_contains(t);
                        assert(sorted@.contains(t));
                        let j = choose|j: int| 0 <= j < sorted@.len() && sorted@[j] == t;
                        assert(!self.is_complete(sorted@[j]));
                    }
                    assert(self.complete_adep_set(id) =~= Set::<TaskId>::empty());
                }
                let ghost s1 = *self;
                match self.restore(id) {
                    Ok(newly) => {
                        proof {
                            lemma_restore_ok(s1, *self, id, newly);
                        }
                        let ghost s2 = *self;
                        let res_restored = restored.union(TaskSet::of(id));
                        let res_blocked = blocked.union(newly);
                        proof {
                            assert(res_restored@ =~= Set::new(|t: TaskId| s0.is_complete(t) && !s2.is_complete(t)));
                            s2.lemma_descendants_reopened(s0, id);
                            lemma_restore_layers(s1, s2, id, newly);
                            assert(s2.is_incomplete(id)) by {
                                assert(s2.has(id));
                            }
                            assert forall|x: TaskId| #[trigger] s1.is_incomplete(x) implies s2.is_incomplete(x) by {
                                assert(s1.has(x));
                                assert(s1.is_complete(id));
                                assert(x != id);
                                assert(!s2.is_complete(x));
                                assert(s2.has(x));
                            }
                            assert forall|t: TaskId| #[trigger] res_blocked@.contains(t)
                                implies reach_plus(es, id.0, t.0) && s2.has_incomplete_dep(t) by {
                                if blocked@.contains(t) {
                                    let x = choose|x: TaskId| #[trigger] s1.dep_set(t).contains(x) && s1.is_incomplete(x);
                                    assert(s2.dep_set(t).contains(x) && s2.is_incomplete(x));
                                }
                            }
                            assert forall|t: TaskId| #[trigger] s0.adep_set(id).contains(t)
                                && (s0.depth_of(t) == Some(0usize) || s0.is_complete(t))
                                && s2.incomplete_dep_set(t) == set![id]
                                implies res_blocked@.contains(t) && s2.depth_of(t) == Some(1usize) by {
                                s2.lemma_edge_ends(id, t);
                                assert(s2.dep_set(t).contains(id));
                                assert(!s2.is_complete(t)) by {
                                    assert(!s2.violates(t));
                                }
                                assert(!s1.is_complete(t));
                                assert(!s1.has_incomplete_dep(t)) by {
                                    if s1.has_incomplete_dep(t) {
                                        let x = choose|x: TaskId| #[trigger] s1.dep_set(t).contains(x) && s1.is_incomplete(x);
                                        assert(x != id);
                                        assert(s2.incomplete_dep_set(t).contains(x));
                                    }
                                }
                                assert(s1.depth_of(t) == Some(0usize));
                                assert(s1.adep_set(id).contains(t));
                            }
                        }
                        Ok(ForceRestored {
                            restored: res_restored,
                            blocked: res_blocked,
                        })
                    },
                    Err(_) => {
                        proof {
                            assert(false);
                        }
                        Err(RestoreError::TaskIsAlreadyIncomplete)
                    },
                }
            },
            Ok(blocked) => {
                let res_restored = TaskSet::of(id);
                proof {
                    lemma_restore_ok(*old(self), *self, id, blocked);
                    assert(res_restored@ =~= Set::new(|t: TaskId| old(self).is_complete(t) && !self.is_complete(t)));
                    self.lemma_descendants_reopened(*old(self), id);
                    lemma_restore_layers(*old(self), *self, id, blocked);
                    assert forall|t: TaskId| #[trigger] old(self).adep_set(id).contains(t)
                        && (old(self).depth_of(t) == Some(0usize) || old(self).is_complete(t))
                        && self.incomplete_dep_set(t) == set![id]
                        implies blocked@.contains(t) && self.depth_of(t) == Some(1usize) by {
                        old(self).lemma_edge_ends(id, t);
                        assert(self.dep_set(t).contains(id));
                        assert(self.is_incomplete(id)) by {
                            assert(self.has(id));
                        }
                        assert(!self.is_complete(t)) by {
                            assert(!self.violates(t));
                        }
                    }
                }
                Ok(ForceRestored { restored: res_restored, blocked })
            },
            Err(RestoreError::TaskIsAlreadyIncomplete) => Err(RestoreError::TaskIsAlreadyIncomplete),
        }
    }
}

impl TodoList {
    /// In a consistent list, no task in layer 0 waits, directly or not, on
    /// an incomplete task.
    proof fn lemma_ready_not_below(self, c: TaskId, x: TaskId)
        requires
            self.wf(),
            self.is_incomplete(c),
            self.depth_of(x) == Some(0usize),
        ensures
            !reach_plus(self.edges(), c.0, x.0),
    {
        self.lemma_consistent_settled();
        if reach_plus(self.edges(), c.0, x.0) {
            self.lemma_descendant_of_incomplete_waits(c, x);
            assert(self.violates(x));
        }
    }

    /// Once `id` is incomplete in a consistent list, so is every task that
    /// waits on it, directly or not.
    proof fn lemma_descendants_reopened(self, before: TodoList, id: TaskId)
        requires
            self.wf(),
            self.edges() == before.edges(),
            self.is_incomplete(id),
        ensures
            forall|t: TaskId| #[trigger] before.is_complete(t) && reach_plus(before.edges(), id.0, t.0) ==> !self.is_complete(t),
    {
        self.lemma_consistent_settled();
        assert forall|t: TaskId| #[trigger] before.is_complete(t) && reach_plus(before.edges(), id.0, t.0)
            implies !self.is_complete(t) by {
            self.lemma_descendant_of_incomplete_waits(id, t);
        }
    }
}

/// What `force_restore` does.
pub open spec fn force_restore_outcome(before: TodoList, after: TodoList, id: TaskId, res: Result<ForceRestored, RestoreError>) -> bool {
    &&& after.wf()
    &&& before.implicits_all_right() ==> after.implicits_all_right()
    &&& after.edges() == before.edges()
    &&& after.nodes().dom() == before.nodes().dom()
    &&& match res {
        Err(e) => e == RestoreError::TaskIsAlreadyIncomplete && !before.is_complete(id) && after == before,
        Ok(fr) => force_restore_done(before, after, id, fr),
    }
}

/// `after` is `before` with `id` and, where needed, the tasks that wait on
/// it, directly or not, restored; `id` is in layer 0 and the tasks that do
/// not wait on it, directly or not, stay where they were. The tasks reported
/// blocked wait on it, directly or not, and on some incomplete task; among
/// them is every task that waits directly on it and on nothing else
/// incomplete and was in layer 0 or restored, which is now in layer 1.
pub open spec fn force_restore_done(before: TodoList, after: TodoList, id: TaskId, fr: ForceRestored) -> bool {
    &&& before.is_complete(id)
    &&& !after.is_complete(id)
    &&& forall|t: TaskId| #[trigger] after.is_complete(t) ==> before.is_complete(t)
    &&& forall|t: TaskId| #[trigger] before.is_complete(t) && !after.is_complete(t)
        ==> t == id || reach_plus(before.edges(), id.0, t.0)
    &&& fr.restored@.contains(id)
    &&& fr.restored@ == Set::new(|t: TaskId| before.is_complete(t) && !after.is_complete(t))
    &&& forall|t: TaskId| #[trigger] before.is_complete(t) && reach_plus(before.edges(), id.0, t.0) ==> !after.is_complete(t)
    &&& forall|t: TaskId| #[trigger] fr.blocked@.contains(t) ==> after.has(t)
    &&& after.depth_of(id) == Some(0usize)
    &&& forall|t: TaskId| #![trigger after.depth_of(t)] #![trigger after.is_complete(t)]
        t != id && !reach_plus(before.edges(), id.0, t.0)
        ==> after.depth_of(t) == before.depth_of(t) && after.is_complete(t) == before.is_complete(t)
    &&& forall|t: TaskId| #[trigger] fr.blocked@.contains(t)
        ==> reach_plus(before.edges(), id.0, t.0) && after.has_incomplete_dep(t)
    &&& forall|t: TaskId| #[trigger] before.adep_set(id).contains(t)
        && (before.depth_of(t) == Some(0usize) || before.is_complete(t))
        && after.incomplete_dep_set(t) == set![id]
        ==> fr.blocked@.contains(t) && after.depth_of(t) == Some(1usize)
}


/// One step of repairing the tasks that `update_implicits` on the tasks of
/// `sorted` repairs, in turn: after the call on `sorted[i]` (from `mid` to
/// `after`), every task with a wrong walk (at the start, `start`) to one of
/// the first `i + 1` is right, no right task turned wrong, and every task
/// repaired had such a walk.
proof fn lemma_repair_step(
    start: Map<u32, Task>,
    mid: Map<u32, Task>,
    after: Map<u32, Task>,
    es: EdgeMap,
    sorted: Seq<TaskId>,
    i: int,
)
    requires
        closed(start.dom(), es),
        mid.dom() == start.dom(),
        0 <= i < sorted.len(),
        forall|t: u32| #![trigger implicits_right(start, es, t)]
            start.dom().contains(t) && implicits_right(start, es, t) ==> implicits_right(mid, es, t),
        forall|t: u32, j: int| #![trigger wrong_path(start, es, t, sorted[j].0)]
            0 <= j < i && start.dom().contains(t) && wrong_path(start, es, t, sorted[j].0)
            ==> implicits_right(mid, es, t),
        forall|t: u32| #![trigger implicits_right(mid, es, t)]
            start.dom().contains(t) && implicits_right(mid, es, t) && !implicits_right(start, es, t)
            ==> exists|j: int| 0 <= j < i && #[trigger] wrong_path(start, es, t, sorted[j].0),
        forall|t: u32| #![trigger implicits_right(mid, es, t)]
            mid.dom().contains(t) && implicits_right(mid, es, t) ==> implicits_right(after, es, t),
        forall|t: u32| #![trigger wrong_path(mid, es, t, sorted[i].0)]
            mid.dom().contains(t) && wrong_path(mid, es, t, sorted[i].0) ==> implicits_right(after, es, t),
        forall|t: u32| #![trigger implicits_right(after, es, t)]
            mid.dom().contains(t) && implicits_right(after, es, t) && !implicits_right(mid, es, t)
            ==> wrong_path(mid, es, t, sorted[i].0),
    ensures
        forall|t: u32| #![trigger implicits_right(start, es, t)]
            start.dom().contains(t) && implicits_right(start, es, t) ==> implicits_right(after, es, t),
        forall|t: u32, j: int| #![trigger wrong_path(start, es, t, sorted[j].0)]
            0 <= j < i + 1 && start.dom().contains(t) && wrong_path(start, es, t, sorted[j].0)
            ==> implicits_right(after, es, t),
        forall|t: u32| #![trigger implicits_right(after, es, t)]
            start.dom().contains(t) && implicits_right(after, es, t) && !implicits_right(start, es, t)
            ==> exists|j: int| 0 <= j < i + 1 && #[trigger] wrong_path(start, es, t, sorted[j].0),
{
    let dep = sorted[i].0;
    assert forall|t: u32| #![trigger implicits_right(start, es, t)]
        start.dom().contains(t) && implicits_right(start, es, t) implies implicits_right(after, es, t) by {
        assert(implicits_right(mid, es, t));
    }
    assert forall|t: u32| #![trigger implicits_right(after, es, t)]
        start.dom().contains(t) && implicits_right(after, es, t) && !implicits_right(start, es, t)
        implies exists|j: int| 0 <= j < i + 1 && #[trigger] wrong_path(start, es, t, sorted[j].0) by {
        if implicits_right(mid, es, t) {
            let j = choose|j: int| 0 <= j < i && #[trigger] wrong_path(start, es, t, sorted[j].0);
            assert(0 <= j < i + 1 && wrong_path(start, es, t, sorted[j].0));
        } else {
            assert(wrong_path(mid, es, t, dep));
            let p = choose|p: Seq<u32>| #[trigger] wrong_walk(mid, es, p) && p[0] == t && p.last() == dep;
            crate::model::implicit::lemma_walk_in_dom(start.dom(), es, p);
            assert forall|k: int| 0 <= k < p.len() implies !#[trigger] implicits_right(start, es, p[k]) by {
                assert(!implicits_right(mid, es, p[k]));
                assert(start.dom().contains(p[k]));
            }
            crate::model::implicit::lemma_wrong_path_keep(mid, start, es, t, dep, p);
            assert(wrong_path(start, es, t, sorted[i].0));
        }
    }
    assert forall|t: u32, j: int| #![trigger wrong_path(start, es, t, sorted[j].0)]
        0 <= j < i + 1 && start.dom().contains(t) && wrong_path(start, es, t, sorted[j].0)
        implies implicits_right(after, es, t) by {
        if j < i {
            assert(implicits_right(mid, es, t));
        } else if wrong_path(mid, es, t, dep) {
            assert(implicits_right(after, es, t));
        } else {
            crate::model::implicit::lemma_wrong_path_has_right_task(start, mid, es, t, dep);
            let v = choose|v: u32| #[trigger] implicits_right(mid, es, v) && wrong_path(start, es, t, v);
            let q = choose|q: Seq<u32>| #[trigger] wrong_walk(start, es, q) && q[0] == t && q.last() == v;
            crate::model::implicit::lemma_walk_in_dom(start.dom(), es, q);
            assert(q[q.len() - 1] == v);
            assert(!implicits_right(start, es, v));
            assert(start.dom().contains(v));
            let jj = choose|jj: int| 0 <= jj < i && #[trigger] wrong_path(start, es, v, sorted[jj].0);
            crate::model::implicit::lemma_wrong_path_trans(start, es, t, v, sorted[jj].0);
            assert(implicits_right(mid, es, t));
        }
    }
}

/// `a` and `b` are the same due date, or both none.
fn same_due(a: Option<Timestamp>, b: Option<Timestamp>) -> (res: bool)
    ensures
        res == (a == b),
{
    match (a, b) {
        (Some(x), Some(y)) => x.nanos == y.nanos,
        (None, None) => true,
        _ => false,
    }
}

impl TodoList {
    /// Runs `update_implicits` on each task that `id` waits on, in the order
    /// of the list. Returns the tasks whose implicit values changed.
    fn update_implicits_of_deps(&mut self, id: TaskId) -> (res: TaskSet)
        requires
            old(self).wf_shape(),
            old(self).has(id),
        ensures
            final(self).wf_shape(),
            forall|x: TaskId| #[trigger] final(self).violates(x) == old(self).violates(x),
            final(self).edges() == old(self).edges(),
            final(self).complete_seq() == old(self).complete_seq(),
            forall|x: TaskId| #[trigger] final(self).depth_of(x) == old(self).depth_of(x),
            final(self).nodes().dom() == old(self).nodes().dom(),
            explicit_part(final(self).nodes()) == explicit_part(old(self).nodes()),
            final(self).task(id) == old(self).task(id),
            forall|x: TaskId| final(self).has(x) && #[trigger] final(self).task(x) != old(self).task(x)
                ==> reach_plus(old(self).edges(), x.0, id.0) && implicits_right(final(self).nodes(), old(self).edges(), x.0),
            res@ == Set::new(|x: TaskId| old(self).has(x) && final(self).task(x) != old(self).task(x)),
            forall|d: TaskId| #[trigger] old(self).dep_set(id).contains(d)
                ==> implicits_right(final(self).nodes(), old(self).edges(), d.0),
            forall|t: u32| #![trigger implicits_right(old(self).nodes(), old(self).edges(), t)]
                old(self).nodes().dom().contains(t) && implicits_right(old(self).nodes(), old(self).edges(), t)
                ==> implicits_right(final(self).nodes(), old(self).edges(), t),
            forall|t: u32, d: TaskId| #![trigger wrong_path(old(self).nodes(), old(self).edges(), t, d.0)]
                old(self).nodes().dom().contains(t) && old(self).dep_set(id).contains(d)
                && wrong_path(old(self).nodes(), old(self).edges(), t, d.0)
                ==> implicits_right(final(self).nodes(), old(self).edges(), t),
            forall|t: u32| #![trigger implicits_right(final(self).nodes(), old(self).edges(), t)]
                old(self).nodes().dom().contains(t) && implicits_right(final(self).nodes(), old(self).edges(), t)
                && !implicits_right(old(self).nodes(), old(self).edges(), t)
                ==> exists|d: TaskId| old(self).dep_set(id).contains(d)
                    && #[trigger] wrong_path(old(self).nodes(), old(self).edges(), t, d.0),
        decreases ancestors(old(self).edges(), id.0).len(), 0nat,
    {
        let ghost es = self.edges();
        let ghost s1 = *self;
        let ghost s0 = *self;
        proof {
            s1.lemma_wf();
        }
        let deps = self.deps(id);
        let sorted = deps.sorted_vec(self);
        proof {
            lemma_filter_in(s1.all_seq(), s1.dep_set(id));
        }
        let mut acc = TaskSet::new();
        let mut i: usize = 0;
        while i < sorted.len()
            invariant
                self.wf_shape(),
                s1.wf_shape(),
                s0.wf_shape(),
                forall|x: TaskId| #[trigger] self.violates(x) == s1.violates(x),
                *old(self) == s0,
                es == s0.edges(),
                s1.edges() == es,
                self.edges() == es,
                self.complete_seq() == s1.complete_seq(),
                forall|x: TaskId| #[trigger] self.depth_of(x) == s1.depth_of(x),
                self.nodes().dom() == s1.nodes().dom(),
                explicit_part(self.nodes()) == explicit_part(s1.nodes()),
                s1.has(id),
                0 <= i <= sorted@.len(),
                forall|j: int| 0 <= j < sorted@.len() ==> s1.dep_set(id).contains(#[trigger] sorted@[j]),
                acc@ == Set::new(|x: TaskId| s1.has(x) && self.task(x) != s1.task(x)),
                forall|x: TaskId| self.has(x) && #[trigger] self.task(x) != s1.task(x)
                    ==> reach_plus(es, x.0, id.0) && implicits_right(self.nodes(), es, x.0),
                self.task(id) == s1.task(id),
                sorted@ == filter_in(s1.all_seq(), s1.dep_set(id)),
                forall|j: int| 0 <= j < i ==> implicits_right(self.nodes(), es, (#[trigger] sorted@[j]).0),
                forall|t: u32| #![trigger implicits_right(s1.nodes(), es, t)]
                    s1.nodes().dom().contains(t) && implicits_right(s1.nodes(), es, t) ==> implicits_right(self.nodes(), es, t),
                forall|t: u32, j: int| #![trigger wrong_path(s1.nodes(), es, t, sorted@[j].0)]
                    0 <= j < i && s1.nodes().dom().contains(t) && wrong_path(s1.nodes(), es, t, sorted@[j].0)
                    ==> implicits_right(self.nodes(), es, t),
                forall|t: u32| #![trigger implicits_right(self.nodes(), es, t)]
                    s1.nodes().dom().contains(t) && implicits_right(self.nodes(), es, t) && !implicits_right(s1.nodes(), es, t)
                    ==> exists|j: int| 0 <= j < i && #[trigger] wrong_path(s1.nodes(), es, t, sorted@[j].0),
            decreases sorted@.len() - i,
        {
            let dep = sorted[i];
            proof {
                assert(s1.dep_set(id).contains(dep));
                assert(has_edge(es, dep.0, id.0));
                s1.lemma_edge_ends(dep, id);
                s0.lemma_wf();
                lemma_ancestors_shrink(s0.nodes().dom(), es, dep.0, id.0);
            }
            let ghost before = *self;
            let r = self.update_implicits(dep);
            proof {
                assert forall|x: TaskId| self.has(x) && #[trigger] self.task(x) != before.task(x) && before.task(x) != s1.task(x)
                    implies false by {
                    assert(implicits_right(before.nodes(), es, x.0));
                    assert(implicits_right(self.nodes(), es, x.0));
                    lemma_implicits_unique(before.nodes(), self.nodes(), es, x.0);
                }
                assert forall|x: TaskId| self.has(x) && #[trigger] self.task(x) != s1.task(x)
                    implies reach_plus(es, x.0, id.0) && implicits_right(self.nodes(), es, x.0) by {
                    if self.task(x) != before.task(x) {
                        if x == dep {
                            crate::model::graph_spec::lemma_edge_path(es, dep.0, id.0);
                        } else {
                            crate::model::graph_spec::lemma_reach_then_edge(es, x.0, dep.0, id.0);
                        }
                    } else {
                        assert(before.task(x) != s1.task(x));
                        assert(implicits_right(before.nodes(), es, x.0));
                        assert(self.nodes()[x.0] == before.nodes()[x.0]);
                    }
                }
                assert forall|j: int| 0 <= j < i + 1 implies implicits_right(self.nodes(), es, (#[trigger] sorted@[j]).0) by {
                    let x = sorted@[j];
                    if j < i && self.task(x) == before.task(x) {
                        assert(implicits_right(before.nodes(), es, x.0));
                        assert(self.nodes()[x.0] == before.nodes()[x.0]);
                    } else if j < i {
                        s1.lemma_edge_ends(x, id);
                    }
                }
                assert(self.task(id) == before.task(id)) by {
                    if self.task(id) != before.task(id) {
                        if id != dep {
                            assert(reach_plus(es, id.0, dep.0));
                            crate::model::graph_spec::lemma_reach_then_edge(es, id.0, dep.0, id.0);
                        }
                    }
                }
            }
            proof {
                s1.lemma_wf();
                assert(sorted@[i as int] == dep);
                lemma_repair_step(s1.nodes(), before.nodes(), self.nodes(), es, sorted@, i as int);
            }
            acc = acc.union(r);
            proof {
                assert(acc@ =~= Set::new(|x: TaskId| s1.has(x) && self.task(x) != s1.task(x))) by {
                    assert forall|x: TaskId| s1.has(x) && self.task(x) != s1.task(x) implies #[trigger] acc@.contains(x) by {
                        if self.task(x) == before.task(x) {
                        } else {
                            assert(r@.contains(x));
                        }
                    }
                }
            }
            i += 1;
        }
        proof {
            assert forall|d: TaskId| #[trigger] s0.dep_set(id).contains(d)
                implies implicits_right(self.nodes(), es, d.0) by {
                s1.lemma_edge_ends(d, id);
                s1.lemma_all_seq_contains(d);
                assert(filter_in(s1.all_seq(), s1.dep_set(id)).contains(d));
                let j = choose|j: int| 0 <= j < sorted@.len() && sorted@[j] == d;
                assert(implicits_right(self.nodes(), es, sorted@[j].0));
            }
            assert forall|t: u32, d: TaskId| #![trigger wrong_path(s0.nodes(), es, t, d.0)]
                s0.nodes().dom().contains(t) && s0.dep_set(id).contains(d) && wrong_path(s0.nodes(), es, t, d.0)
                implies implicits_right(self.nodes(), es, t) by {
                s1.lemma_edge_ends(d, id);
                s1.lemma_all_seq_contains(d);
                assert(filter_in(s1.all_seq(), s1.dep_set(id)).contains(d));
                let j = choose|j: int| 0 <= j < sorted@.len() && sorted@[j] == d;
                assert(wrong_path(s1.nodes(), es, t, sorted@[j].0));
            }
            assert forall|t: u32| #![trigger implicits_right(self.nodes(), es, t)]
                s0.nodes().dom().contains(t) && implicits_right(self.nodes(), es, t) && !implicits_right(s0.nodes(), es, t)
                implies exists|d: TaskId| s0.dep_set(id).contains(d) && #[trigger] wrong_path(s0.nodes(), es, t, d.0) by {
                let j = choose|j: int| 0 <= j < sorted@.len() && #[trigger] wrong_path(s1.nodes(), es, t, sorted@[j].0);
                assert(s0.dep_set(id).contains(sorted@[j]));
            }
        }
        acc
    }

    /// Recomputes the implicit priority and due date of the task; if either
    /// changed, moves it to where the bisection puts it in its layer and does
    /// the same for the tasks it waits on. Returns the tasks whose implicit
    /// values changed.
    pub fn update_implicits(&mut self, id: TaskId) -> (res: TaskSet)
        requires
            old(self).wf_shape(),
            old(self).has(id),
        ensures
            implicits_outcome(*old(self), *final(self), id, res),
        decreases ancestors(old(self).edges(), id.0).len(), 1nat,
    {
        let ghost es = self.edges();
        proof {
            self.lemma_wf();
        }
        let task = graph_node_weight(&self.tasks, id.0).unwrap();
        let new_priority = self.calculate_implicit_priority(id);
        let new_due = self.calculate_implicit_due_date(id);
        proof {
            lemma_implicit_explicit(self.nodes(), es, id.0, new_priority, new_due);
        }
        if task.implicit_priority == new_priority && same_due(task.implicit_due_date, new_due) {
            proof {
                assert(res_empty_is_unchanged(*self));
                assert(implicits_right(self.nodes(), es, id.0));
                assert forall|t: u32| #![trigger wrong_path(self.nodes(), self.edges(), t, id.0)]
                    self.nodes().dom().contains(t) && wrong_path(self.nodes(), self.edges(), t, id.0)
                    implies implicits_right(self.nodes(), self.edges(), t) by {
                    let p = choose|p: Seq<u32>| #[trigger] wrong_walk(self.nodes(), es, p) && p[0] == t && p.last() == id.0;
                    assert(!implicits_right(self.nodes(), es, p[p.len() - 1]));
                }
            }
            return TaskSet::new();
        }
        let mut t = copy_task(task);
        t.implicit_priority = new_priority;
        t.implicit_due_date = new_due;
        let ghost s0 = *self;
        graph_set_node(&mut self.tasks, id.0, t);
        proof {
            assert(self.nodes().dom() =~= s0.nodes().dom());
            self.lemma_wf_same_shape(s0);
            self.lemma_violates_same(s0);
            assert(explicit_part(self.nodes()) =~= explicit_part(s0.nodes()));
            assert(implicits_right(self.nodes(), es, id.0));
            assert(self.task(id) != s0.task(id));
        }
        let ghost sp = *self;
        let _ = self.punt(id);
        let ghost s1 = *self;
        proof {
            assert(s1.nodes() == sp.nodes());
        }
        let acc = self.update_implicits_of_deps(id);
        proof {
            assert forall|x: TaskId| self.has(x) && #[trigger] self.task(x) != s1.task(x)
                implies reach_plus(es, x.0, id.0) && implicits_right(self.nodes(), es, x.0) by {}
        }
        let res = acc.union(TaskSet::of(id));
        proof {
            assert forall|x: TaskId| x != id implies #[trigger] s1.task(x) == s0.task(x) by {}
            assert(res@ =~= Set::new(|x: TaskId| s0.has(x) && self.task(x) != s0.task(x)));
            assert(implicits_right(self.nodes(), es, id.0)) by {
                assert(self.nodes()[id.0] == s1.nodes()[id.0]);
            }
            assert(explicit_part(self.nodes()) == explicit_part(s0.nodes()));
            assert forall|d: TaskId| #[trigger] old(self).dep_set(id).contains(d)
                implies implicits_right(self.nodes(), self.edges(), d.0) by {
                assert(s1.dep_set(id).contains(d));
            }
            // Rightness of a task other than `id` is the same in `s0` and `s1`.
            assert forall|v: u32| v != id.0 implies
                #[trigger] implicits_right(s1.nodes(), es, v) == implicits_right(s0.nodes(), es, v) by {
                assert(s1.nodes()[v] == s0.nodes()[v]);
            }
            assert(!implicits_right(s0.nodes(), es, id.0)) by {
                if implicits_right(s0.nodes(), es, id.0) {
                    lemma_implicits_unique(s0.nodes(), s1.nodes(), es, id.0);
                }
            }
            s0.lemma_wf();
            assert forall|t: u32| #![trigger implicits_right(s0.nodes(), s0.edges(), t)]
                s0.nodes().dom().contains(t) && implicits_right(s0.nodes(), s0.edges(), t)
                implies implicits_right(self.nodes(), self.edges(), t) by {
                assert(t != id.0);
                assert(implicits_right(s1.nodes(), es, t));
            }
            assert forall|t: u32| #![trigger wrong_path(s0.nodes(), s0.edges(), t, id.0)]
                s0.nodes().dom().contains(t) && wrong_path(s0.nodes(), s0.edges(), t, id.0)
                implies implicits_right(self.nodes(), self.edges(), t) by {
                if t != id.0 {
                    crate::model::implicit::lemma_wrong_path_last_step(s0.nodes(), es, t, id.0);
                    let u = choose|u: u32| #[trigger] has_edge(es, u, id.0) && wrong_path(s0.nodes(), es, t, u)
                        && (t == u || reach_plus(es, t, u));
                    let p = choose|p: Seq<u32>| #[trigger] wrong_walk(s0.nodes(), es, p) && p[0] == t && p.last() == u;
                    assert forall|k: int| 0 <= k < p.len() implies !#[trigger] implicits_right(s1.nodes(), es, p[k]) by {
                        crate::model::implicit::lemma_walk_suffix_reaches(es, p, k);
                        assert(p[k] != id.0) by {
                            if p[k] == id.0 {
                                if id.0 == u {
                                    crate::model::graph_spec::lemma_edge_path(es, u, id.0);
                                } else {
                                    crate::model::graph_spec::lemma_reach_then_edge(es, id.0, u, id.0);
                                }
                            }
                        }
                        assert(!implicits_right(s0.nodes(), es, p[k]));
                    }
                    crate::model::implicit::lemma_wrong_path_keep(s0.nodes(), s1.nodes(), es, t, u, p);
                    assert(s1.dep_set(id).contains(TaskId(u)));
                    assert(wrong_path(s1.nodes(), s1.edges(), t, TaskId(u).0));
                }
            }
            assert forall|t: u32| #![trigger implicits_right(self.nodes(), self.edges(), t)]
                s0.nodes().dom().contains(t) && implicits_right(self.nodes(), self.edges(), t)
                && !implicits_right(s0.nodes(), s0.edges(), t)
                implies wrong_path(s0.nodes(), s0.edges(), t, id.0) by {
                if t == id.0 {
                    crate::model::implicit::lemma_wrong_path_self(s0.nodes(), es, t);
                } else {
                    assert(!implicits_right(s1.nodes(), es, t));
                    let d = choose|d: TaskId| s1.dep_set(id).contains(d) && #[trigger] wrong_path(s1.nodes(), es, t, d.0);
                    let p = choose|p: Seq<u32>| #[trigger] wrong_walk(s1.nodes(), es, p) && p[0] == t && p.last() == d.0;
                    assert forall|k: int| 0 <= k < p.len() implies !#[trigger] implicits_right(s0.nodes(), es, p[k]) by {
                        assert(!implicits_right(s1.nodes(), es, p[k]));
                        if p[k] == id.0 {
                            assert(implicits_right(s1.nodes(), es, id.0));
                        }
                    }
                    crate::model::implicit::lemma_wrong_path_keep(s1.nodes(), s0.nodes(), es, t, d.0, p);
                    assert(!implicits_right(s0.nodes(), es, p[p.len() - 1]));
                    crate::model::implicit::lemma_wrong_path_edge(s0.nodes(), es, d.0, id.0);
                    crate::model::implicit::lemma_wrong_path_trans(s0.nodes(), es, t, d.0, id.0);
                }
            }
        }
        res
    }
}

/// Returning an empty set is right when the list is unchanged.
spec fn res_empty_is_unchanged(list: TodoList) -> bool {
    Set::<TaskId>::empty() =~= Set::new(|x: TaskId| list.has(x) && list.task(x) != list.task(x))
}

/// What `update_implicits` does: only implicit values change, and those of
/// `id` and of every task that changed are right; the tasks that changed are
/// `id` and tasks it waits on, directly or not.
pub open spec fn implicits_outcome(before: TodoList, after: TodoList, id: TaskId, res: TaskSet) -> bool {
    &&& after.wf_shape()
    &&& forall|t: TaskId| #[trigger] after.violates(t) == before.violates(t)
    &&& after.edges() == before.edges()
    &&& after.complete_seq() == before.complete_seq()
    &&& forall|t: TaskId| #[trigger] after.depth_of(t) == before.depth_of(t)
    &&& after.nodes().dom() == before.nodes().dom()
    &&& explicit_part(after.nodes()) == explicit_part(before.nodes())
    &&& implicits_right(after.nodes(), after.edges(), id.0)
    &&& forall|t: TaskId| after.has(t) && #[trigger] after.task(t) != before.task(t)
        ==> (t == id || reach_plus(before.edges(), t.0, id.0)) && implicits_right(after.nodes(), after.edges(), t.0)
    &&& res@ == Set::new(|t: TaskId| before.has(t) && after.task(t) != before.task(t))
    &&& res@.contains(id) ==> forall|d: TaskId| #[trigger] before.dep_set(id).contains(d)
        ==> implicits_right(after.nodes(), after.edges(), d.0)
    &&& forall|t: u32| #![trigger implicits_right(before.nodes(), before.edges(), t)]
        before.nodes().dom().contains(t) && implicits_right(before.nodes(), before.edges(), t)
        ==> implicits_right(after.nodes(), after.edges(), t)
    &&& forall|t: u32| #![trigger wrong_path(before.nodes(), before.edges(), t, id.0)]
        before.nodes().dom().contains(t) && wrong_path(before.nodes(), before.edges(), t, id.0)
        ==> implicits_right(after.nodes(), after.edges(), t)
    &&& forall|t: u32| #![trigger implicits_right(after.nodes(), after.edges(), t)]
        before.nodes().dom().contains(t) && implicits_right(after.nodes(), after.edges(), t)
        && !implicits_right(before.nodes(), before.edges(), t)
        ==> wrong_path(before.nodes(), before.edges(), t, id.0)
}


impl TodoList {
    /// Replaces the task at `id` with `t`, which differs from it in explicit
    /// fields at most; nothing is moved.
    fn replace_task(&mut self, id: TaskId, t: Task)
        requires
            old(self).wf(),
            old(self).has(id),
        ensures
            final(self).wf(),
            final(self).nodes() == old(self).nodes().insert(id.0, t),
            final(self).edges() == old(self).edges(),
            final(self).complete_seq() == old(self).complete_seq(),
            final(self).layering() == old(self).layering(),
    {
        graph_set_node(&mut self.tasks, id.0, t);
        proof {
            assert(self.nodes().dom() =~= old(self).nodes().dom());
            self.lemma_wf_same_shape(*old(self));
            self.lemma_violates_after_move(*old(self), id);
            assert(!self.violates(id)) by {
                assert(!old(self).violates(id));
                assert(self.dep_set(id) =~= old(self).dep_set(id));
            }
        }
    }

    /// Sets the priority of the task, then updates implicit values (see
    /// `update_implicits`). Returns the tasks whose implicit values changed;
    /// none if the list has no such task.
    pub fn set_priority(&mut self, id: TaskId, priority: i32) -> (res: TaskSet)
        requires
            old(self).wf(),
        ensures
            final(self).wf(),
            !old(self).has(id) ==> *final(self) == *old(self) && res@ == Set::<TaskId>::empty(),
            old(self).has(id) ==> exists|mid: TodoList| {
                &&& mid.nodes() == old(self).nodes().insert(id.0, Task { priority, ..old(self).task(id) })
                &&& mid.edges() == old(self).edges()
                &&& mid.complete_seq() == old(self).complete_seq()
                &&& mid.layering() == old(self).layering()
                &&& #[trigger] implicits_outcome(mid, *final(self), id, res)
            },
            old(self).implicits_all_right() ==> final(self).implicits_all_right(),
    {
        match graph_node_weight(&self.tasks, id.0) {
            Some(task) => {
                let mut t = copy_task(task);
                t.priority = priority;
                self.replace_task(id, t);
                let ghost mid = *self;
                let res = self.update_implicits(id);
                assert(implicits_outcome(mid, *self, id, res));
                proof {
                    if old(self).implicits_all_right() {
                        let roots = set![id.0];
                        assert forall|t: u32, x: u32| #![trigger roots.contains(x), wrong_path(mid.nodes(), mid.edges(), t, x)]
                            mid.nodes().dom().contains(t) && roots.contains(x) && wrong_path(mid.nodes(), mid.edges(), t, x)
                            implies implicits_right(self.nodes(), self.edges(), t) by {
                            assert(x == id.0);
                        }
                        TodoList::lemma_all_right_after_repair(*old(self), mid, *self, roots);
                    }
                }
                res
            },
            None => {
                let res = TaskSet::new();
                res
            },
        }
    }

    /// Sets the due date of the task, then updates implicit values (see
    /// `update_implicits`). Returns the tasks whose implicit values changed;
    /// none if the list has no such task.
    pub fn set_due_date(&mut self, id: TaskId, due_date: Option<Timestamp>) -> (res: TaskSet)
        requires
            old(self).wf(),
        ensures
            final(self).wf(),
            !old(self).has(id) ==> *final(self) == *old(self) && res@ == Set::<TaskId>::empty(),
            old(self).has(id) ==> exists|mid: TodoList| {
                &&& mid.nodes() == old(self).nodes().insert(id.0, Task { due_date, ..old(self).task(id) })
                &&& mid.edges() == old(self).edges()
                &&& mid.complete_seq() == old(self).complete_seq()
                &&& mid.layering() == old(self).layering()
                &&& #[trigger] implicits_outcome(mid, *final(self), id, res)
            },
            old(self).implicits_all_right() ==> final(self).implicits_all_right(),
    {
        match graph_node_weight(&self.tasks, id.0) {
            Some(task) => {
                let mut t = copy_task(task);
                t.due_date = due_date;
                self.replace_task(id, t);
                let ghost mid = *self;
                let res = self.update_implicits(id);
                assert(implicits_outcome(mid, *self, id, res));
                proof {
                    if old(self).implicits_all_right() {
                        let roots = set![id.0];
                        assert forall|t: u32, x: u32| #![trigger roots.contains(x), wrong_path(mid.nodes(), mid.edges(), t, x)]
                            mid.nodes().dom().contains(t) && roots.contains(x) && wrong_path(mid.nodes(), mid.edges(), t, x)
                            implies implicits_right(self.nodes(), self.edges(), t) by {
                            assert(x == id.0);
                        }
                        TodoList::lemma_all_right_after_repair(*old(self), mid, *self, roots);
                    }
                }
                res
            },
            None => {
                let res = TaskSet::new();
                res
            },
        }
    }

    /// Sets the budget of the task, then updates the implicit values of the
    /// tasks it waits on (see `update_implicits`). Returns those whose
    /// implicit values changed, and the task itself; none if the list has no
    /// such task.
    pub fn set_budget<D: Into<DurationInSeconds>>(&mut self, id: TaskId, budget: D) -> (res: TaskSet)
        requires
            old(self).wf(),
        ensures
            !old(self).has(id) ==> *final(self) == *old(self) && res@ == Set::<TaskId>::empty(),
            old(self).has(id) ==> exists|mid: TodoList, b: DurationInSeconds| {
                &&& #[trigger] call_ensures(D::into, (budget,), b)
                &&& mid.nodes() == old(self).nodes().insert(id.0, Task { budget: b, ..old(self).task(id) })
                &&& mid.edges() == old(self).edges()
                &&& mid.complete_seq() == old(self).complete_seq()
                &&& mid.layering() == old(self).layering()
                &&& #[trigger] budget_outcome(mid, *final(self), id, res)
            },
            old(self).implicits_all_right() ==> final(self).implicits_all_right(),
    {
        match graph_node_weight(&self.tasks, id.0) {
            Some(task) => {
                let mut t = copy_task(task);
                let b: DurationInSeconds = budget.into();
                t.budget = b;
                self.replace_task(id, t);
                let ghost mid = *self;
                let acc = self.update_implicits_of_deps(id);
                let res = acc.union(TaskSet::of(id));
                assert(res@ =~= Set::new(|x: TaskId| mid.has(x) && self.task(x) != mid.task(x)).insert(id));
                assert(budget_outcome(mid, *self, id, res));
                proof {
                    if old(self).implicits_all_right() {
                        let roots = Set::new(|x: u32| has_edge(mid.edges(), x, id.0));
                        assert forall|t: u32, x: u32| #![trigger roots.contains(x), wrong_path(mid.nodes(), mid.edges(), t, x)]
                            mid.nodes().dom().contains(t) && roots.contains(x) && wrong_path(mid.nodes(), mid.edges(), t, x)
                            implies implicits_right(self.nodes(), self.edges(), t) by {
                            assert(mid.dep_set(id).contains(TaskId(x)));
                            assert(wrong_path(mid.nodes(), mid.edges(), t, TaskId(x).0));
                        }
                        assert forall|a: u32| #[trigger] old(self).nodes().dom().contains(a) && !roots.contains(a) implies
                            (forall|c: u32| #[trigger] has_edge(old(self).edges(), a, c) ==> old(self).nodes()[c].budget == mid.nodes()[c].budget) by {
                            assert forall|c: u32| #[trigger] has_edge(old(self).edges(), a, c) implies old(self).nodes()[c].budget == mid.nodes()[c].budget by {
                                if c == id.0 {
                                    assert(roots.contains(a));
                                }
                            }
                        }
                        TodoList::lemma_all_right_after_repair(*old(self), mid, *self, roots);
                    }
                }
                res
            },
            None => {
                let res = TaskSet::new();
                res
            },
        }
    }
}

/// What `set_budget` does once the budget is set: only implicit values of
/// tasks that `id` waits on, directly or not, change, and those that change
/// are right; the result is those tasks and `id`.
pub open spec fn budget_outcome(before: TodoList, after: TodoList, id: TaskId, res: TaskSet) -> bool {
    &&& after.wf()
    &&& after.edges() == before.edges()
    &&& after.complete_seq() == before.complete_seq()
    &&& forall|t: TaskId| #[trigger] after.depth_of(t) == before.depth_of(t)
    &&& after.nodes().dom() == before.nodes().dom()
    &&& explicit_part(after.nodes()) == explicit_part(before.nodes())
    &&& forall|t: TaskId| after.has(t) && #[trigger] after.task(t) != before.task(t)
        ==> reach_plus(before.edges(), t.0, id.0) && implicits_right(after.nodes(), after.edges(), t.0)
    &&& res@ == Set::new(|t: TaskId| before.has(t) && after.task(t) != before.task(t)).insert(id)
}


/// Why a task could not be blocked on another.
#[derive(Debug)]
pub enum BlockError {
    WouldBlockOnSelf,
    WouldCycle(daggy::WouldCycle<()>),
}

impl From<daggy::WouldCycle<()>> for BlockError {
    fn from(err: daggy::WouldCycle<()>) -> (res: BlockError)
        ensures
            res == BlockError::WouldCycle(err),
    {
        BlockError::WouldCycle(err)
    }
}

impl vstd::std_specs::convert::FromSpecImpl<daggy::WouldCycle<()>> for BlockError {
    open spec fn obeys_from_spec() -> bool {
        true
    }

    open spec fn from_spec(v: daggy::WouldCycle<()>) -> BlockError {
        BlockError::WouldCycle(v)
    }
}

/// Why a task could not be unblocked from another.
#[derive(Debug, PartialEq, Eq, Clone, Copy, Structural)]
pub enum UnblockError {
    WouldUnblockFromSelf,
    WasNotDirectlyBlocking,
}

/// A pending `block`: the list, and the task to block.
pub struct Block<'a> {
    pub list: &'a mut TodoList,
    pub blocked: TaskId,
}

/// A pending `unblock`: the list, and the task to unblock.
pub struct Unblock<'a> {
    pub list: &'a mut TodoList,
    pub blocked: TaskId,
}

impl<'a> Block<'a> {
    /// The list, as it is now.
    pub open spec fn list(&self) -> TodoList {
        *self.list
    }

    pub open spec fn blocked(&self) -> TaskId {
        self.blocked
    }

    /// Makes the task wait on `blocking`: adds the edge from `blocking` to
    /// it, unless there is one. Fails if they are the same task, or if the
    /// edge would close a cycle. Then moves the task to the layer its
    /// dependencies give it, unless it is snoozed (and incomplete), and
    /// updates the implicit values of `blocking` (see `update_implicits`).
    /// Returns the tasks whose implicit values changed, both tasks, and the
    /// tasks that were complete and no longer are.
    pub fn on(self, blocking: TaskId) -> (res: Result<TaskSet, BlockError>)
        requires
            self.list().wf(),
            self.list().has(self.blocked()),
            self.list().has(blocking),
            self.list().edges().dom().len() + 1 < u32::MAX,
        ensures
            block_outcome(*old(self.list), *final(self.list), self.blocked, blocking, res),
            (*final(self.list)).wf(),
    {
        let list = self.list;
        list.block_on(self.blocked, blocking)
    }
}

impl<'a> Unblock<'a> {
    /// The list, as it is now.
    pub open spec fn list(&self) -> TodoList {
        *self.list
    }

    pub open spec fn blocked(&self) -> TaskId {
        self.blocked
    }

    /// Makes the task stop waiting on `blocking`: removes the edge from
    /// `blocking` to it. Fails if they are the same task, or if there is no
    /// such edge. Then moves the task to the layer its dependencies give it,
    /// unless it is snoozed or complete, and updates the implicit values of
    /// `blocking` (see `update_implicits`). Returns the tasks whose implicit
    /// values changed, and both tasks.
    pub fn from(self, blocking: TaskId) -> (res: Result<TaskSet, UnblockError>)
        requires
            self.list().wf(),
        ensures
            unblock_outcome(*old(self.list), *final(self.list), self.blocked, blocking, res),
            (*final(self.list)).wf(),
    {
        let list = self.list;
        list.unblock_from(self.blocked, blocking)
    }
}

impl TodoList {
    /// Starts blocking the task `id`; `on` names the task it will wait on.
    pub fn block(&mut self, id: TaskId) -> (res: Block<'_>)
        ensures
            *res.list == *old(self),
            res.blocked == id,
            *final(res.list) == *final(self),
    {
        Block { list: self, blocked: id }
    }

    /// Starts unblocking the task `blocked`; `from` names the task it will
    /// stop waiting on.
    pub fn unblock(&mut self, blocked: TaskId) -> (res: Unblock<'_>)
        ensures
            *res.list == *old(self),
            res.blocked == blocked,
            *final(res.list) == *final(self),
    {
        Unblock { list: self, blocked }
    }

    /// The two lists hold the same tasks, edges and order.
    pub open spec fn same_as(self, other: TodoList) -> bool {
        &&& self.nodes() == other.nodes()
        &&& self.edges() == other.edges()
        &&& self.complete_seq() == other.complete_seq()
        &&& self.layering() == other.layering()
    }

    /// A list whose graph has the same nodes as a well-formed one, with
    /// edges that still form an acyclic graph without repeats, and the same
    /// complete and incomplete tasks, is well-formed.
    proof fn lemma_wf_new_edges(self, before: TodoList)
        requires
            before.wf_shape(),
            graph_wf(self.tasks_graph()),
            self.nodes().dom() == before.nodes().dom(),
            acyclic(self.edges()),
            no_parallel(self.edges()),
            self.edges().dom().len() < u32::MAX,
            self.complete_seq() == before.complete_seq(),
            self.layering() == before.layering(),
        ensures
            self.wf_shape(),
    {
        assert forall|t: TaskId| #![trigger self.has(t)] self.has(t) <==> (self.is_complete(t) || self.is_incomplete(t)) by {
            assert(before.has(t) <==> (before.is_complete(t) || before.is_incomplete(t)));
        }
        assert forall|t: TaskId| #![trigger self.is_complete(t)] #![trigger self.is_incomplete(t)]
            !(self.is_complete(t) && self.is_incomplete(t)) by {
            assert(!(before.is_complete(t) && before.is_incomplete(t)));
        }
    }

    /// When only the edges into `b` changed, every other task is out of
    /// place exactly when it was.
    proof fn lemma_violates_after_edges_into(self, before: TodoList, b: TaskId)
        requires
            forall|x: u32, y: u32| y != b.0 ==> #[trigger] has_edge(self.edges(), x, y) == has_edge(before.edges(), x, y),
            forall|t: TaskId| #[trigger] self.is_incomplete(t) == before.is_incomplete(t),
            forall|t: TaskId| #[trigger] self.is_complete(t) == before.is_complete(t),
            forall|t: TaskId| #[trigger] self.depth_of(t) == before.depth_of(t),
        ensures
            forall|t: TaskId| t != b ==> #[trigger] self.violates(t) == before.violates(t),
    {
        assert forall|t: TaskId| t != b implies #[trigger] self.violates(t) == before.violates(t) by {
            assert forall|x: TaskId| #[trigger] self.dep_set(t).contains(x) == before.dep_set(t).contains(x) by {
                assert(has_edge(self.edges(), x.0, t.0) == has_edge(before.edges(), x.0, t.0));
            }
            assert(self.dep_set(t) =~= before.dep_set(t));
            if self.has_incomplete_dep(t) {
                let x = choose|x: TaskId| #[trigger] self.dep_set(t).contains(x) && self.is_incomplete(x);
                assert(before.dep_set(t).contains(x) && before.is_incomplete(x));
            }
            if before.has_incomplete_dep(t) {
                let x = choose|x: TaskId| #[trigger] before.dep_set(t).contains(x) && before.is_incomplete(x);
                assert(self.dep_set(t).contains(x) && self.is_incomplete(x));
            }
        }
    }

    /// The complete tasks, in the order they were completed, as a new vector.
    fn complete_copy(&self) -> (res: Vec<TaskId>)
        ensures
            res@ == self.complete_seq(),
    {
        let mut res: Vec<TaskId> = Vec::new();
        let mut i: usize = 0;
        while i < self.complete.len()
            invariant
                0 <= i <= self.complete@.len(),
                res@ == self.complete@.take(i as int),
            decreases self.complete@.len() - i,
        {
            res.push(self.complete[i]);
            proof {
                assert(self.complete@.take(i + 1) =~= self.complete@.take(i as int).push(self.complete@[i as int]));
            }
            i += 1;
        }
        proof {
            assert(self.complete@.take(self.complete@.len() as int) =~= self.complete@);
        }
        res
    }

    /// The tasks of `before` that are not complete now.
    fn reopened(&self, before: &Vec<TaskId>) -> (res: TaskSet)
        ensures
            res@ == Set::new(|t: TaskId| before@.contains(t) && !self.is_complete(t)),
    {
        let mut res = TaskSet::new();
        let mut i: usize = 0;
        while i < before.len()
            invariant
                0 <= i <= before@.len(),
                res@ == Set::new(|t: TaskId| before@.take(i as int).contains(t) && !self.is_complete(t)),
            decreases before@.len() - i,
        {
            let t = before[i];
            if !vec_contains(&self.complete, &t) {
                res.insert(t);
            }
            proof {
                let p = before@.take(i as int);
                let q = before@.take(i + 1);
                assert(q =~= p.push(t));
                assert forall|x: TaskId| #[trigger] q.contains(x) <==> p.contains(x) || x == t by {
                    if q.contains(x) {
                        let k = choose|k: int| 0 <= k < q.len() && q[k] == x;
                        if k < p.len() {
                            assert(p[k] == x);
                        }
                    }
                    if p.contains(x) {
                        let k = choose|k: int| 0 <= k < p.len() && p[k] == x;
                        assert(q[k] == x);
                    }
                    if x == t {
                        assert(q[i as int] == x);
                    }
                }
                assert(res@ =~= Set::new(|x: TaskId| q.contains(x) && !self.is_complete(x)));
            }
            i += 1;
        }
        proof {
            assert(before@.take(before@.len() as int) =~= before@);
        }
        res
    }

    /// `block(blocked).on(blocking)`.
    pub fn block_on(&mut self, blocked: TaskId, blocking: TaskId) -> (res: Result<TaskSet, BlockError>)
        requires
            old(self).wf_shape(),
            old(self).has(blocked),
            old(self).has(blocking),
            old(self).edges().dom().len() + 1 < u32::MAX,
        ensures
            block_outcome(*old(self), *final(self), blocked, blocking, res),
    {
        if blocking == blocked {
            return Err(BlockError::WouldBlockOnSelf);
        }
        let ghost s0 = *self;
        let ghost es0 = self.edges();
        proof {
            s0.lemma_wf();
        }
        let was_complete = self.complete_copy();
        match graph_update_edge(&mut self.tasks, blocking.0, blocked.0) {
            Ok(e) => {
                proof {
                    if !has_edge(es0, blocking.0, blocked.0) {
                        assert(self.edges().dom() =~= es0.dom().insert(e));
                        crate::model::graph_spec::lemma_add_edge_acyclic(es0, e, blocking.0, blocked.0);
                        assert(no_parallel(self.edges())) by {
                            assert forall|e1: usize, e2: usize|
                                self.edges().contains_key(e1) && self.edges().contains_key(e2)
                                && #[trigger] self.edges()[e1] == #[trigger] self.edges()[e2] implies e1 == e2 by {
                                if e1 == e {
                                    if e2 != e {
                                        assert(es0[e2] == (blocking.0, blocked.0));
                                    }
                                } else if e2 == e {
                                    assert(es0[e1] == (blocking.0, blocked.0));
                                }
                            }
                        }
                        assert forall|x: u32, y: u32| #[trigger] has_edge(self.edges(), x, y)
                            == (has_edge(es0, x, y) || (x == blocking.0 && y == blocked.0)) by {
                            if has_edge(self.edges(), x, y) {
                                let f = choose|f: usize| self.edges().contains_key(f) && #[trigger] self.edges()[f] == (x, y);
                                if f != e {
                                    assert(es0.contains_key(f) && es0[f] == (x, y));
                                }
                            }
                            if has_edge(es0, x, y) {
                                let f = choose|f: usize| es0.contains_key(f) && #[trigger] es0[f] == (x, y);
                                assert(self.edges().contains_key(f) && self.edges()[f] == (x, y));
                            }
                            if x == blocking.0 && y == blocked.0 {
                                assert(self.edges().contains_key(e) && self.edges()[e] == (x, y));
                            }
                        }
                    } else {
                        assert forall|x: u32, y: u32| #[trigger] has_edge(self.edges(), x, y)
                            == (has_edge(es0, x, y) || (x == blocking.0 && y == blocked.0)) by {}
                    }
                    self.lemma_wf_new_edges(s0);
                    self.lemma_violates_after_edges_into(s0, blocked);
                }
                let ghost s1 = *self;
                let keep = self.should_keep_snoozed(blocked, None);
                let complete = vec_contains(&self.complete, &blocked);
                if !keep || complete {
                    self.update_depth(blocked);
                    proof {
                        assert forall|t: TaskId| #[trigger] self.violates(t) implies s0.violates(t) && t != blocked by {
                            assert(s1.violates(t) && t != blocked);
                        }
                        if s1.is_incomplete(blocking) {
                            s1.layering().lemma_valid();
                            assert(has_edge(s1.edges(), blocking.0, blocked.0));
                            assert(s1.dep_set(blocked).contains(blocking));
                            assert(s1.has_incomplete_dep(blocked));
                            let d = self.depth_of(blocked)->Some_0;
                            assert(s1.is_target_depth(blocked, d));
                            let m = choose|m: Option<usize>| #[trigger] s1.is_max_dep_depth(blocked, m) && d == match m {
                                Some(k) => if k == usize::MAX { usize::MAX } else { (k + 1) as usize },
                                None => 0,
                            };
                            assert(s1.depth_of(blocking) is Some);
                            assert(m is Some);
                            assert(!descendants(s1.edges(), blocked.0).contains(blocking.0)) by {
                                if reach_plus(s1.edges(), blocked.0, blocking.0) {
                                    crate::model::graph_spec::lemma_edge_then_reach(s1.edges(), blocking.0, blocked.0, blocking.0);
                                }
                            }
                            assert(self.depth_of(blocking) == s1.depth_of(blocking));
                        }
                    }
                } else {
                    proof {
                        assert(s1.depth_of(blocked) == Some(1usize));
                        assert forall|t: TaskId| #[trigger] self.violates(t) implies s0.violates(t) && t != blocked by {
                            if t == blocked {
                                assert(!self.is_complete(blocked));
                            }
                        }
                    }
                }
                let ghost s2 = *self;
                let changed = self.update_implicits(blocking);
                let reopened = self.reopened(&was_complete);
                let res = changed.union(TaskSet::of(blocked)).union(TaskSet::of(blocking)).union(reopened);
                proof {
                    assert(s2.nodes() == s0.nodes());
                    assert(self.edges().dom().len() <= s0.edges().dom().len() + 1);
                    assert forall|t: TaskId| #[trigger] self.is_complete(t) implies s0.is_complete(t) by {
                        assert(self.is_complete(t) == s2.is_complete(t));
                        assert(s2.is_complete(t) ==> s1.is_complete(t));
                        assert(s1.complete_seq() == s0.complete_seq());
                    }
                    assert(res@ =~= Set::new(|t: TaskId| s0.has(t) && self.task(t) != s0.task(t)).insert(blocked).insert(blocking)
                        .union(Set::new(|t: TaskId| s0.is_complete(t) && !self.is_complete(t))));
                    assert(self.depth_of(blocked) == s2.depth_of(blocked));
                    assert(self.depth_of(blocking) == s2.depth_of(blocking));
                    if s0.implicits_all_right() {
                        let roots = set![blocking.0];
                        assert(s2.edges() == s1.edges());
                        assert forall|t: u32, x: u32| #![trigger roots.contains(x), wrong_path(s2.nodes(), s2.edges(), t, x)]
                            s2.nodes().dom().contains(t) && roots.contains(x) && wrong_path(s2.nodes(), s2.edges(), t, x)
                            implies implicits_right(self.nodes(), self.edges(), t) by {
                            assert(x == blocking.0);
                        }
                        TodoList::lemma_all_right_after_repair(s0, s2, *self, roots);
                    }
                    if self.task(blocking) != s0.task(blocking) {
                        assert(changed@.contains(blocking));
                        assert forall|d: TaskId| #[trigger] self.dep_set(blocking).contains(d)
                            implies implicits_right(self.nodes(), self.edges(), d.0) by {
                            assert(s2.dep_set(blocking).contains(d));
                        }
                    }
                    assert(s1.keeps_snoozed(blocked, None) == s0.keeps_snoozed(blocked, None));
                    assert(s1.is_incomplete(blocking) == s0.is_incomplete(blocking));
                    assert forall|t: TaskId| #![trigger self.depth_of(t)] t != blocked && !descendants(self.edges(), blocked.0).contains(t.0)
                        implies self.depth_of(t) == s0.depth_of(t) && self.is_complete(t) == s0.is_complete(t) by {
                        assert(self.depth_of(t) == s2.depth_of(t));
                        assert(self.is_complete(t) == s2.is_complete(t));
                    }
                }
                Ok(res)
            },
            Err(c) => {
                proof {
                    self.lemma_wf_same_shape(s0);
                    self.lemma_violates_same(s0);
                }
                Err(BlockError::WouldCycle(c))
            },
        }
    }

    /// `unblock(blocked).from(blocking)`.
    pub fn unblock_from(&mut self, blocked: TaskId, blocking: TaskId) -> (res: Result<TaskSet, UnblockError>)
        requires
            old(self).wf_shape(),
        ensures
            unblock_outcome(*old(self), *final(self), blocked, blocking, res),
    {
        if blocking == blocked {
            return Err(UnblockError::WouldUnblockFromSelf);
        }
        let ghost s0 = *self;
        let ghost es0 = self.edges();
        proof {
            s0.lemma_wf();
        }
        match graph_find_edge(&self.tasks, blocking.0, blocked.0) {
            Some(e) => {
                graph_remove_edge(&mut self.tasks, e);
                proof {
                    assert(has_edge(es0, blocking.0, blocked.0));
                    s0.lemma_edge_ends(blocking, blocked);
                    assert forall|x: u32, y: u32| #[trigger] has_edge(self.edges(), x, y)
                        == (has_edge(es0, x, y) && !(x == blocking.0 && y == blocked.0)) by {
                        if has_edge(self.edges(), x, y) {
                            let f = choose|f: usize| self.edges().contains_key(f) && #[trigger] self.edges()[f] == (x, y);
                            assert(es0.contains_key(f) && es0[f] == (x, y));
                            assert(f != e);
                        }
                        if has_edge(es0, x, y) && !(x == blocking.0 && y == blocked.0) {
                            let f = choose|f: usize| es0.contains_key(f) && #[trigger] es0[f] == (x, y);
                            assert(f != e);
                            assert(self.edges().contains_key(f) && self.edges()[f] == (x, y));
                        }
                    }
                    crate::model::graph_spec::lemma_sub_edges_acyclic(self.edges(), es0);
                    self.lemma_wf_new_edges(s0);
                    self.lemma_violates_after_edges_into(s0, blocked);
                }
                let ghost s1 = *self;
                if !self.should_keep_snoozed(blocked, None) {
                    proof {
                        s1.layering().lemma_valid();
                        if forall|x: TaskId| #[trigger] s0.dep_set(blocked).contains(x) && x != blocking ==> !s0.is_incomplete(x) {
                            assert forall|t: TaskId| #[trigger] s1.dep_set(blocked).contains(t) implies s1.depth_of(t) is None by {
                                assert(s0.dep_set(blocked).contains(t) && t != blocking);
                                assert(!s1.is_incomplete(t));
                            }
                            assert(s1.is_max_dep_depth(blocked, None));
                            assert(s1.is_target_depth(blocked, 0));
                            assert(s1.is_incomplete(blocked));
                        }
                    }
                    self.update_depth(blocked);
                    proof {
                        assert forall|t: TaskId| #[trigger] self.violates(t) implies s0.violates(t) by {
                            assert(s1.violates(t) && t != blocked);
                        }
                    }
                } else {
                    proof {
                        assert forall|t: TaskId| #[trigger] self.violates(t) implies s0.violates(t) by {
                            if t == blocked {
                                assert(self.is_complete(blocked));
                                assert(self.has_incomplete_dep(blocked));
                                let x = choose|x: TaskId| #[trigger] self.dep_set(blocked).contains(x) && self.is_incomplete(x);
                                assert(s0.dep_set(blocked).contains(x));
                            }
                        }
                    }
                }
                let ghost s2 = *self;
                let changed = self.update_implicits(blocking);
                let res = changed.union(TaskSet::of(blocked)).union(TaskSet::of(blocking));
                proof {
                    assert(s2.nodes() == s0.nodes());
                    assert(res@ =~= Set::new(|t: TaskId| s0.has(t) && self.task(t) != s0.task(t)).insert(blocked).insert(blocking));
                    assert(self.depth_of(blocked) == s2.depth_of(blocked));
                    assert(s1.keeps_snoozed(blocked, None) == s0.keeps_snoozed(blocked, None));
                    if s0.implicits_all_right() {
                        let roots = set![blocking.0];
                        assert(s2.edges() == s1.edges());
                        assert forall|t: u32, x: u32| #![trigger roots.contains(x), wrong_path(s2.nodes(), s2.edges(), t, x)]
                            s2.nodes().dom().contains(t) && roots.contains(x) && wrong_path(s2.nodes(), s2.edges(), t, x)
                            implies implicits_right(self.nodes(), self.edges(), t) by {
                            assert(x == blocking.0);
                        }
                        TodoList::lemma_all_right_after_repair(s0, s2, *self, roots);
                    }
                    if self.task(blocking) != s0.task(blocking) {
                        assert(changed@.contains(blocking));
                        assert forall|d: TaskId| #[trigger] self.dep_set(blocking).contains(d)
                            implies implicits_right(self.nodes(), self.edges(), d.0) by {
                            assert(s2.dep_set(blocking).contains(d));
                        }
                    }
                    assert forall|t: TaskId| #![trigger self.depth_of(t)] t != blocked && !descendants(self.edges(), blocked.0).contains(t.0)
                        implies self.depth_of(t) == s0.depth_of(t) && self.is_complete(t) == s0.is_complete(t) by {
                        assert(self.depth_of(t) == s2.depth_of(t));
                        assert(self.is_complete(t) == s2.is_complete(t));
                    }
                }
                Ok(res)
            },
            None => Err(UnblockError::WasNotDirectlyBlocking),
        }
    }
}

/// What `block(blocked).on(blocking)` does.
pub open spec fn block_outcome(
    before: TodoList,
    after: TodoList,
    blocked: TaskId,
    blocking: TaskId,
    res: Result<TaskSet, BlockError>,
) -> bool {
    &&& after.wf_shape()
    &&& before.implicits_all_right() ==> after.implicits_all_right()
    &&& match res {
        Err(BlockError::WouldBlockOnSelf) => blocked == blocking && after == before,
        Err(BlockError::WouldCycle(_)) => {
            &&& blocked != blocking
            &&& !has_edge(before.edges(), blocking.0, blocked.0)
            &&& reaches(before.edges(), blocked.0, blocking.0)
            &&& after.same_as(before)
            &&& forall|t: TaskId| #[trigger] after.violates(t) == before.violates(t)
        },
        Ok(changed) => {
            &&& blocked != blocking
            &&& !(!has_edge(before.edges(), blocking.0, blocked.0) && reaches(before.edges(), blocked.0, blocking.0))
            &&& forall|x: u32, y: u32| #[trigger] has_edge(after.edges(), x, y)
                == (has_edge(before.edges(), x, y) || (x == blocking.0 && y == blocked.0))
            &&& forall|t: TaskId| #[trigger] after.violates(t) ==> before.violates(t) && t != blocked
            &&& after.edges().dom().len() <= before.edges().dom().len() + 1
            &&& forall|t: TaskId| #[trigger] after.is_complete(t) ==> before.is_complete(t)
            &&& (!before.keeps_snoozed(blocked, None) || before.is_complete(blocked)) && before.is_incomplete(blocking)
                ==> (after.depth_of(blocked) matches Some(d) && after.depth_of(blocking) matches Some(k)
                    && (k < d || k == usize::MAX))
            &&& relinked(before, after, blocked, blocking)
            &&& changed@ == relinked_set(before, after, blocked, blocking)
                .union(Set::new(|t: TaskId| before.is_complete(t) && !after.is_complete(t)))
        },
    }
}

/// What `unblock(blocked).from(blocking)` does.
pub open spec fn unblock_outcome(
    before: TodoList,
    after: TodoList,
    blocked: TaskId,
    blocking: TaskId,
    res: Result<TaskSet, UnblockError>,
) -> bool {
    &&& after.wf_shape()
    &&& before.implicits_all_right() ==> after.implicits_all_right()
    &&& match res {
        Err(e) => {
            &&& after == before
            &&& (e == UnblockError::WouldUnblockFromSelf) == (blocked == blocking)
            &&& (e == UnblockError::WasNotDirectlyBlocking) == (blocked != blocking
                && !has_edge(before.edges(), blocking.0, blocked.0))
        },
        Ok(changed) => {
            &&& blocked != blocking
            &&& has_edge(before.edges(), blocking.0, blocked.0)
            &&& forall|x: u32, y: u32| #[trigger] has_edge(after.edges(), x, y)
                == (has_edge(before.edges(), x, y) && !(x == blocking.0 && y == blocked.0))
            &&& forall|t: TaskId| #[trigger] after.violates(t) ==> before.violates(t)
            &&& !before.keeps_snoozed(blocked, None)
                && (forall|x: TaskId| #[trigger] before.dep_set(blocked).contains(x) && x != blocking ==> !before.is_incomplete(x))
                ==> after.depth_of(blocked) == Some(0usize)
            &&& relinked(before, after, blocked, blocking)
            &&& changed@ == relinked_set(before, after, blocked, blocking)
        },
    }
}

/// After an edge from `blocking` to `blocked` was added or removed: only
/// implicit values changed among the tasks, those of `blocking` and of the
/// tasks that changed are right, the tasks that changed are `blocking` and
/// tasks it waits on. No task changed layer but `blocked` and the tasks that
/// wait on it, directly or not.
pub open spec fn relinked(before: TodoList, after: TodoList, blocked: TaskId, blocking: TaskId) -> bool {
    &&& after.nodes().dom() == before.nodes().dom()
    &&& explicit_part(after.nodes()) == explicit_part(before.nodes())
    &&& implicits_right(after.nodes(), after.edges(), blocking.0)
    &&& after.task(blocking) != before.task(blocking) ==> forall|d: TaskId| #[trigger] after.dep_set(blocking).contains(d)
        ==> implicits_right(after.nodes(), after.edges(), d.0)
    &&& forall|t: TaskId| after.has(t) && #[trigger] after.task(t) != before.task(t)
        ==> (t == blocking || reach_plus(after.edges(), t.0, blocking.0)) && implicits_right(after.nodes(), after.edges(), t.0)
    &&& forall|t: TaskId| #![trigger after.depth_of(t)] t != blocked && !descendants(after.edges(), blocked.0).contains(t.0)
        ==> after.depth_of(t) == before.depth_of(t) && after.is_complete(t) == before.is_complete(t)
}

/// The tasks whose implicit values changed, and both tasks.
pub open spec fn relinked_set(before: TodoList, after: TodoList, blocked: TaskId, blocking: TaskId) -> Set<TaskId> {
    Set::new(|t: TaskId| before.has(t) && after.task(t) != before.task(t)).insert(blocked).insert(blocking)
}


/// Why snoozing a task is refused or questionable.
#[derive(Debug, PartialEq, Eq, Clone, Copy, Structural)]
pub enum SnoozeWarning {
    TaskIsComplete,
    SnoozedUntilAfterDueDate { snoozed_until: Timestamp, due_date: Timestamp },
}

impl TodoList {
    /// Snoozes an incomplete task until `start_date`: a task in layer 0
    /// moves to layer 1, and the start date is set. Fails if the task is not
    /// incomplete; warns, once done, if the start date is after the task's
    /// implicit due date.
    pub fn snooze(&mut self, id: TaskId, start_date: Timestamp) -> (res: Result<(), Vec<SnoozeWarning>>)
        requires
            old(self).wf(),
        ensures
            snooze_outcome(*old(self), *final(self), id, start_date, res),
    {
        match self.incomplete.depth(&id) {
            Some(depth) => {
                proof {
                    self.layering().lemma_valid();
                    assert(self.has(id));
                }
                let ghost s0 = *self;
                if depth == 0 {
                    self.move_to_layer(id, 0, 1);
                    proof {
                        self.lemma_violates_after_move(*old(self), id);
                        assert(!self.violates(id)) by {
                            assert(!self.is_complete(id));
                        }
                    }
                }
                let ghost s1 = *self;
                let task = graph_node_weight(&self.tasks, id.0).unwrap();
                let mut t = copy_task(task);
                t.start_date = start_date;
                let due = t.implicit_due_date;
                self.replace_task(id, t);
                proof {
                    assert(s1.task(id) == old(self).task(id));
                    assert(self.nodes() == old(self).nodes().insert(id.0, Task { start_date, ..old(self).task(id) }));
                    assert(self.depth_of(id) == Some(if old(self).depth_of(id) == Some(0usize) { 1usize } else { old(self).depth_of(id)->Some_0 }));
                    assert forall|t: TaskId| t != id implies #[trigger] self.depth_of(t) == old(self).depth_of(t) by {
                        assert(self.depth_of(t) == s1.depth_of(t));
                    }
                    if old(self).implicits_all_right() {
                        assert(old(self).has(id));
                        assert(self.nodes().dom() =~= old(self).nodes().dom());
                        TodoList::lemma_all_right_same_weights(*old(self), *self);
                    }
                    assert(self.layering() == s1.layering());
                    if depth == 0 {
                        assert(exists|pos: int| placed_in_layer(s0.nodes(),
                            s0.layering().entries().remove(s0.layering().index_of(id)),
                            s1.layering().entries(), id, 1usize, pos));
                    } else {
                        assert(s1.layering() == s0.layering());
                    }
                    assert(s0 == *old(self));
                }
                match due {
                    Some(d) => {
                        if start_date.nanos > d.nanos {
                            let v = vec![SnoozeWarning::SnoozedUntilAfterDueDate { snoozed_until: start_date, due_date: d }];
                            proof {
                                assert(v@ =~= seq![SnoozeWarning::SnoozedUntilAfterDueDate { snoozed_until: start_date, due_date: d }]);
                            }
                            return Err(v);
                        }
                    },
                    None => {},
                }
                Ok(())
            },
            None => {
                let v = vec![SnoozeWarning::TaskIsComplete];
                proof {
                    assert(v@ =~= seq![SnoozeWarning::TaskIsComplete]);
                }
                Err(v)
            },
        }
    }

    /// The incomplete tasks in layer 1 or more whose start date is not after
    /// `now` and that wait on no incomplete task.
    pub open spec fn unsnoozable(self, now: Timestamp) -> Set<TaskId> {
        Set::new(|t: TaskId| {
            &&& self.depth_of(t) matches Some(d)
            &&& d >= 1
            &&& self.task(t).start_date.nanos <= now.nanos
            &&& !self.has_incomplete_dep(t)
        })
    }

    /// Moves every incomplete task whose start date is not after `now`, that
    /// is in layer 1 or more and waits on no incomplete task, to layer 0, and
    /// updates the layers of the tasks that wait on it. Returns those tasks.
    pub fn unsnooze_up_to(&mut self, now: Timestamp) -> (res: TaskSet)
        requires
            old(self).wf(),
        ensures
            final(self).wf(),
            final(self).nodes() == old(self).nodes(),
            final(self).edges() == old(self).edges(),
            final(self).complete_seq() == old(self).complete_seq(),
            old(self).implicits_all_right() ==> final(self).implicits_all_right(),
            res@ == old(self).unsnoozable(now),
            forall|t: TaskId| #[trigger] res@.contains(t) ==> final(self).depth_of(t) == Some(0usize),
    {
        let ghost s0 = *self;
        let ids = self.incomplete.to_vec();
        let mut todo: Vec<TaskId> = Vec::new();
        let mut i: usize = 0;
        while i < ids.len()
            invariant
                *self == s0,
                s0.wf(),
                0 <= i <= ids@.len(),
                ids@ == s0.incomplete_seq(),
                forall|t: TaskId| #[trigger] todo@.contains(t)
                    <==> (exists|j: int| 0 <= j < i && ids@[j] == t) && s0.unsnoozable(now).contains(t),
            decreases ids@.len() - i,
        {
            let id = ids[i];
            proof {
                assert(s0.incomplete_seq().contains(id)) by {
                    assert(s0.incomplete_seq()[i as int] == id);
                }
                assert(s0.has(id));
            }
            let task = graph_node_weight(&self.tasks, id.0).unwrap();
            let start_ok = task.start_date.nanos <= now.nanos;
            let blocked = match self.status(id) {
                Some(st) => st == TaskStatus::Blocked,
                None => false,
            };
            let free = match self.max_depth_of_deps(id) {
                Some(_) => false,
                None => true,
            };
            let ghost prev = todo@;
            if start_ok && blocked && free {
                todo.push(id);
            }
            proof {
                assert(free == !s0.has_incomplete_dep(id)) by {
                    if s0.has_incomplete_dep(id) {
                        let x = choose|x: TaskId| #[trigger] s0.dep_set(id).contains(x) && s0.is_incomplete(x);
                        assert(s0.depth_of(x) is Some);
                    }
                }
                assert(blocked == (s0.depth_of(id) matches Some(d) && d >= 1)) by {
                    assert(!s0.is_complete(id)) by {
                        assert(!(s0.is_complete(id) && s0.is_incomplete(id)));
                    }
                }
                assert forall|t: TaskId| #[trigger] todo@.contains(t)
                    <==> (exists|j: int| 0 <= j < i + 1 && ids@[j] == t) && s0.unsnoozable(now).contains(t) by {
                    if t == id {
                        assert(ids@[i as int] == t);
                        if todo@ != prev {
                            assert(todo@[todo@.len() - 1] == t);
                        }
                    } else {
                        if todo@.contains(t) && todo@ != prev {
                            let m = choose|m: int| 0 <= m < todo@.len() && todo@[m] == t;
                            assert(prev[m] == t);
                        }
                        if prev.contains(t) && todo@ != prev {
                            let m = choose|m: int| 0 <= m < prev.len() && prev[m] == t;
                            assert(todo@[m] == t);
                        }
                        if exists|j: int| 0 <= j < i + 1 && ids@[j] == t {
                            let j = choose|j: int| 0 <= j < i + 1 && ids@[j] == t;
                            assert(j < i);
                        }
                    }
                }
            }
            i += 1;
        }
        proof {
            assert forall|t: TaskId| #[trigger] todo@.contains(t) <==> s0.unsnoozable(now).contains(t) by {
                if s0.unsnoozable(now).contains(t) {
                    assert(s0.incomplete_seq().contains(t));
                    let j = choose|j: int| 0 <= j < ids@.len() && ids@[j] == t;
                }
            }
        }
        let mut res = TaskSet::new();
        let mut k: usize = 0;
        while k < todo.len()
            invariant
                self.wf(),
                s0.wf(),
                self.nodes() == s0.nodes(),
                self.edges() == s0.edges(),
                self.complete_seq() == s0.complete_seq(),
                forall|t: TaskId| #[trigger] self.is_incomplete(t) == s0.is_incomplete(t),
                0 <= k <= todo@.len(),
                forall|t: TaskId| #[trigger] todo@.contains(t) ==> s0.is_incomplete(t) && !s0.has_incomplete_dep(t),
                forall|t: TaskId| #[trigger] res@.contains(t) <==> exists|j: int| 0 <= j < k && todo@[j] == t,
                forall|t: TaskId| #[trigger] res@.contains(t) ==> self.depth_of(t) == Some(0usize),
            decreases todo@.len() - k,
        {
            let id = todo[k];
            proof {
                assert(todo@.contains(id));
                assert(self.is_incomplete(id));
                self.layering().lemma_valid();
            }
            let old_depth = match self.incomplete.depth(&id) {
                Some(d) => d,
                None => 0,
            };
            let ghost sa = *self;
            self.move_to_layer(id, old_depth, 0);
            proof {
                self.lemma_violates_after_move(sa, id);
                assert forall|t: TaskId| !#[trigger] self.violates(t) by {
                    if t != id {
                        assert(!sa.violates(t));
                    } else {
                        assert(self.dep_set(id) =~= s0.dep_set(id));
                        if self.has_incomplete_dep(id) {
                            let y = choose|y: TaskId| #[trigger] self.dep_set(id).contains(y) && self.is_incomplete(y);
                            assert(s0.dep_set(id).contains(y) && s0.is_incomplete(y));
                        }
                    }
                }
            }
            let adep_set = self.adeps(id);
            let adeps = adep_set.sorted_vec(self);
            proof {
                lemma_filter_in(self.all_seq(), adep_set@);
                assert forall|t: TaskId| res@.contains(t) || t == id implies #[trigger] self.depth_of(t) == Some(0usize) by {
                    if t != id {
                        assert(sa.depth_of(t) == Some(0usize));
                    }
                }
                assert forall|t: TaskId| res@.contains(t) || t == id implies !#[trigger] s0.has_incomplete_dep(t) by {
                    if t != id {
                        let m = choose|m: int| 0 <= m < k && todo@[m] == t;
                        assert(todo@.contains(todo@[m]));
                    }
                }
            }
            let mut j: usize = 0;
            while j < adeps.len()
                invariant
                    self.wf(),
                    s0.wf(),
                    self.nodes() == s0.nodes(),
                    self.edges() == s0.edges(),
                    self.complete_seq() == s0.complete_seq(),
                    forall|t: TaskId| #[trigger] self.is_incomplete(t) == s0.is_incomplete(t),
                    0 <= j <= adeps@.len(),
                    forall|m: int| 0 <= m < adeps@.len() ==> has_edge(s0.edges(), id.0, #[trigger] adeps@[m].0),
                    s0.is_incomplete(id),
                    forall|t: TaskId| res@.contains(t) || t == id ==> !#[trigger] s0.has_incomplete_dep(t),
                    forall|t: TaskId| res@.contains(t) || t == id ==> #[trigger] self.depth_of(t) == Some(0usize),
                decreases adeps@.len() - j,
            {
                let ghost before = *self;
                proof {
                    before.lemma_consistent_settled();
                }
                let a = adeps[j];
                self.update_depth(a);
                proof {
                    assert(has_edge(s0.edges(), id.0, a.0));
                    before.lemma_edge_ends(id, a);
                    assert(before.dep_set(a).contains(id) && before.is_incomplete(id));
                    assert(before.has_incomplete_dep(a));
                    assert(before.is_incomplete(a)) by {
                        assert(!before.violates(a));
                    }
                    assert forall|t: TaskId| res@.contains(t) || t == id implies #[trigger] self.depth_of(t) == Some(0usize) by {
                        assert(before.depth_of(t) == Some(0usize));
                        assert(!s0.has_incomplete_dep(t));
                        assert(!before.has_incomplete_dep(t)) by {
                            if before.has_incomplete_dep(t) {
                                let y = choose|y: TaskId| #[trigger] before.dep_set(t).contains(y) && before.is_incomplete(y);
                                assert(s0.dep_set(t).contains(y) && s0.is_incomplete(y));
                            }
                        }
                        if descendants(before.edges(), a.0).contains(t.0) {
                            before.lemma_descendant_of_incomplete_waits(a, t);
                        }
                        assert(t != a);
                    }
                }
                proof {
                    assert forall|t: TaskId| !#[trigger] self.violates(t) by {
                        if self.violates(t) {
                            assert(before.violates(t));
                        }
                    }
                    assert forall|t: TaskId| #[trigger] self.is_incomplete(t) == s0.is_incomplete(t) by {
                        assert(self.is_complete(t) == before.is_complete(t));
                        assert(self.has(t) == before.has(t));
                        assert(before.has(t) <==> (before.is_complete(t) || before.is_incomplete(t)));
                        assert(self.has(t) <==> (self.is_complete(t) || self.is_incomplete(t)));
                        assert(!(before.is_complete(t) && before.is_incomplete(t)));
                        assert(!(self.is_complete(t) && self.is_incomplete(t)));
                    }
                }
                j += 1;
            }
            let ghost prev_res = res@;
            proof {
                assert(self.depth_of(id) == Some(0usize));
            }
            res.insert(id);
            proof {
                assert forall|t: TaskId| #[trigger] res@.contains(t) implies self.depth_of(t) == Some(0usize) by {
                    if t != id {
                        assert(prev_res.contains(t));
                    }
                }
                assert forall|t: TaskId| #[trigger] res@.contains(t) <==> exists|m: int| 0 <= m < k + 1 && todo@[m] == t by {
                    if t == id {
                        assert(todo@[k as int] == t);
                    } else if exists|m: int| 0 <= m < k + 1 && todo@[m] == t {
                        let m = choose|m: int| 0 <= m < k + 1 && todo@[m] == t;
                        assert(m < k);
                    }
                }
            }
            k += 1;
        }
        proof {
            assert forall|t: TaskId| #[trigger] res@.contains(t) <==> s0.unsnoozable(now).contains(t) by {
                if todo@.contains(t) {
                    let m = choose|m: int| 0 <= m < todo@.len() && todo@[m] == t;
                }
            }
            assert(res@ =~= s0.unsnoozable(now));
        }
        res
    }
}


/// Every task that reaches `v` is in `vis`.
pub open spec fn up_closed(vis: Set<TaskId>, es: EdgeMap, v: TaskId) -> bool {
    forall|x: TaskId| #[trigger] reaches(es, x.0, v.0) ==> vis.contains(x)
}

/// Every task that `v` reaches is in `vis`.
pub open spec fn down_closed(vis: Set<TaskId>, es: EdgeMap, v: TaskId) -> bool {
    forall|x: TaskId| #[trigger] reaches(es, v.0, x.0) ==> vis.contains(x)
}

/// The tasks that reach `id`, and `id`.
pub open spec fn up_set(es: EdgeMap, id: TaskId) -> Set<TaskId> {
    Set::new(|t: TaskId| reaches(es, t.0, id.0))
}

/// The tasks that `id` reaches, and `id`.
pub open spec fn down_set(es: EdgeMap, id: TaskId) -> Set<TaskId> {
    Set::new(|t: TaskId| reaches(es, id.0, t.0))
}

impl TodoList {
    /// Adds to `visited` `id` and every task it waits on, directly or not,
    /// going through the tasks it waits on in the order of the list and
    /// skipping tasks already visited.
    fn transitive_deps_impl(&self, visited: &mut TaskSet, id: TaskId)
        requires
            self.wf(),
            forall|v: TaskId| #[trigger] old(visited)@.contains(v)
                ==> up_closed(old(visited)@, self.edges(), v) || reach_plus(self.edges(), id.0, v.0),
        ensures
            final(visited)@ == old(visited)@.union(up_set(self.edges(), id)),
            forall|v: TaskId| #[trigger] final(visited)@.contains(v)
                ==> old(visited)@.contains(v) || up_closed(final(visited)@, self.edges(), v),
        decreases ancestors(self.edges(), id.0).len(),
    {
        let ghost es = self.edges();
        let ghost v0 = visited@;
        if visited.contains(&id) {
            proof {
                assert(!reach_plus(es, id.0, id.0));
                assert(up_closed(v0, es, id));
                assert(visited@ =~= v0.union(up_set(es, id)));
            }
            return;
        }
        visited.insert(id);
        proof {
            self.lemma_wf();
        }
        let deps = self.deps(id).sorted_vec(self);
        proof {
            lemma_filter_in(self.all_seq(), self.dep_set(id));
            assert forall|t: TaskId| #[trigger] self.dep_set(id).contains(t) implies deps@.contains(t) by {
                self.lemma_edge_ends(t, id);
                self.lemma_all_seq_contains(t);
            }
        }
        let mut i: usize = 0;
        while i < deps.len()
            invariant
                self.wf(),
                es == self.edges(),
                0 <= i <= deps@.len(),
                forall|j: int| 0 <= j < deps@.len() ==> self.dep_set(id).contains(#[trigger] deps@[j]),
                forall|t: TaskId| #[trigger] self.dep_set(id).contains(t) ==> deps@.contains(t),
                forall|x: TaskId| #[trigger] visited@.contains(x)
                    <==> v0.contains(x) || x == id || exists|j: int| 0 <= j < i && reaches(es, x.0, #[trigger] deps@[j].0),
                forall|v: TaskId| #[trigger] visited@.contains(v) && !v0.contains(v) && v != id ==> up_closed(visited@, es, v),
                forall|v: TaskId| #[trigger] v0.contains(v) ==> up_closed(v0, es, v) || reach_plus(es, id.0, v.0),
            decreases deps@.len() - i,
        {
            let d = deps[i];
            proof {
                assert(self.dep_set(id).contains(d));
                assert(has_edge(es, d.0, id.0));
                self.lemma_edge_ends(d, id);
                lemma_ancestors_shrink(self.nodes().dom(), es, d.0, id.0);
                assert forall|v: TaskId| #[trigger] visited@.contains(v)
                    implies up_closed(visited@, es, v) || reach_plus(es, d.0, v.0) by {
                    if v == id {
                        crate::model::graph_spec::lemma_edge_path(es, d.0, id.0);
                    } else if v0.contains(v) {
                        if reach_plus(es, id.0, v.0) {
                            crate::model::graph_spec::lemma_edge_then_reach(es, d.0, id.0, v.0);
                        } else {
                            assert forall|x: TaskId| #[trigger] reaches(es, x.0, v.0) implies visited@.contains(x) by {
                                assert(v0.contains(x));
                            }
                        }
                    }
                }
            }
            let ghost vb = visited@;
            self.transitive_deps_impl(visited, d);
            proof {
                assert forall|x: TaskId| #[trigger] visited@.contains(x)
                    <==> v0.contains(x) || x == id || exists|j: int| 0 <= j < i + 1 && reaches(es, x.0, #[trigger] deps@[j].0) by {
                    if visited@.contains(x) && !vb.contains(x) {
                        assert(up_set(es, d).contains(x));
                        assert(reaches(es, x.0, deps@[i as int].0));
                    }
                    if exists|j: int| 0 <= j < i + 1 && reaches(es, x.0, #[trigger] deps@[j].0) {
                        let j = choose|j: int| 0 <= j < i + 1 && reaches(es, x.0, #[trigger] deps@[j].0);
                        if j == i {
                            assert(up_set(es, d).contains(x));
                        } else {
                            assert(vb.contains(x));
                        }
                    }
                }
                assert forall|v: TaskId| #[trigger] visited@.contains(v) && !v0.contains(v) && v != id
                    implies up_closed(visited@, es, v) by {
                    if vb.contains(v) {
                        assert(up_closed(vb, es, v));
                        assert forall|x: TaskId| #[trigger] reaches(es, x.0, v.0) implies visited@.contains(x) by {
                            assert(vb.contains(x));
                        }
                    }
                }
            }
            i += 1;
        }
        proof {
            assert forall|x: TaskId| #[trigger] visited@.contains(x) <==> v0.union(up_set(es, id)).contains(x) by {
                if up_set(es, id).contains(x) && x != id {
                    assert(reach_plus(es, x.0, id.0));
                    crate::model::graph_spec::lemma_reach_plus_last_step(es, x.0, id.0);
                    let c = choose|c: u32| #[trigger] has_edge(es, c, id.0) && reaches(es, x.0, c);
                    let e = choose|e: usize| es.contains_key(e) && #[trigger] es[e] == (c, id.0);
                    assert(self.nodes().dom().contains(c));
                    assert(self.dep_set(id).contains(TaskId(c)));
                    assert(deps@.contains(TaskId(c)));
                    let j = choose|j: int| 0 <= j < deps@.len() && deps@[j] == TaskId(c);
                    assert(reaches(es, x.0, deps@[j].0));
                }
                if exists|j: int| 0 <= j < deps@.len() && reaches(es, x.0, #[trigger] deps@[j].0) {
                    let j = choose|j: int| 0 <= j < deps@.len() && reaches(es, x.0, #[trigger] deps@[j].0);
                    assert(has_edge(es, deps@[j].0, id.0));
                    crate::model::graph_spec::lemma_edge_path(es, deps@[j].0, id.0);
                    if x.0 != deps@[j].0 {
                        crate::model::graph_spec::lemma_reach_plus_trans(es, x.0, deps@[j].0, id.0);
                    }
                    assert(up_set(es, id).contains(x));
                }
            }
            assert(visited@ =~= v0.union(up_set(es, id)));
            assert(up_closed(visited@, es, id));
        }
    }

    /// The tasks that `id` waits on, directly or not.
    pub fn transitive_deps(&self, id: TaskId) -> (res: TaskSet)
        requires
            self.wf(),
        ensures
            res@ == Set::new(|t: TaskId| reach_plus(self.edges(), t.0, id.0)),
    {
        let mut visited = TaskSet::new();
        self.transitive_deps_impl(&mut visited, id);
        let res = visited.difference(&TaskSet::of(id));
        proof {
            assert(!reach_plus(self.edges(), id.0, id.0));
            assert(res@ =~= Set::new(|t: TaskId| reach_plus(self.edges(), t.0, id.0)));
        }
        res
    }

    /// Adds to `visited` `id` and every task that waits on it, directly or
    /// not, going through the tasks that wait on it in the order of the list
    /// and skipping tasks already visited.
    fn transitive_adeps_impl(&self, visited: &mut TaskSet, id: TaskId)
        requires
            self.wf(),
            forall|v: TaskId| #[trigger] old(visited)@.contains(v)
                ==> down_closed(old(visited)@, self.edges(), v) || reach_plus(self.edges(), v.0, id.0),
        ensures
            final(visited)@ == old(visited)@.union(down_set(self.edges(), id)),
            forall|v: TaskId| #[trigger] final(visited)@.contains(v)
                ==> old(visited)@.contains(v) || down_closed(final(visited)@, self.edges(), v),
        decreases descendants(self.edges(), id.0).len(),
    {
        let ghost es = self.edges();
        let ghost v0 = visited@;
        if visited.contains(&id) {
            proof {
                assert(!reach_plus(es, id.0, id.0));
                assert(down_closed(v0, es, id));
                assert(visited@ =~= v0.union(down_set(es, id)));
            }
            return;
        }
        visited.insert(id);
        proof {
            self.lemma_wf();
        }
        let adeps = self.adeps(id).sorted_vec(self);
        proof {
            lemma_filter_in(self.all_seq(), self.adep_set(id));
            assert forall|t: TaskId| #[trigger] self.adep_set(id).contains(t) implies adeps@.contains(t) by {
                self.lemma_edge_ends(id, t);
                self.lemma_all_seq_contains(t);
            }
        }
        let mut i: usize = 0;
        while i < adeps.len()
            invariant
                self.wf(),
                es == self.edges(),
                0 <= i <= adeps@.len(),
                forall|j: int| 0 <= j < adeps@.len() ==> self.adep_set(id).contains(#[trigger] adeps@[j]),
                forall|t: TaskId| #[trigger] self.adep_set(id).contains(t) ==> adeps@.contains(t),
                forall|x: TaskId| #[trigger] visited@.contains(x)
                    <==> v0.contains(x) || x == id || exists|j: int| 0 <= j < i && reaches(es, #[trigger] adeps@[j].0, x.0),
                forall|v: TaskId| #[trigger] visited@.contains(v) && !v0.contains(v) && v != id ==> down_closed(visited@, es, v),
                forall|v: TaskId| #[trigger] v0.contains(v) ==> down_closed(v0, es, v) || reach_plus(es, v.0, id.0),
            decreases adeps@.len() - i,
        {
            let c = adeps[i];
            proof {
                assert(self.adep_set(id).contains(c));
                assert(has_edge(es, id.0, c.0));
                self.lemma_edge_ends(id, c);
                lemma_descendants_shrink(self.nodes().dom(), es, id.0, c.0);
                assert forall|v: TaskId| #[trigger] visited@.contains(v)
                    implies down_closed(visited@, es, v) || reach_plus(es, v.0, c.0) by {
                    if v == id {
                        crate::model::graph_spec::lemma_edge_path(es, id.0, c.0);
                    } else if v0.contains(v) {
                        if reach_plus(es, v.0, id.0) {
                            crate::model::graph_spec::lemma_reach_then_edge(es, v.0, id.0, c.0);
                        } else {
                            assert forall|x: TaskId| #[trigger] reaches(es, v.0, x.0) implies visited@.contains(x) by {
                                assert(v0.contains(x));
                            }
                        }
                    }
                }
            }
            let ghost vb = visited@;
            self.transitive_adeps_impl(visited, c);
            proof {
                assert forall|x: TaskId| #[trigger] visited@.contains(x)
                    <==> v0.contains(x) || x == id || exists|j: int| 0 <= j < i + 1 && reaches(es, #[trigger] adeps@[j].0, x.0) by {
                    if visited@.contains(x) && !vb.contains(x) {
                        assert(down_set(es, c).contains(x));
                        assert(reaches(es, adeps@[i as int].0, x.0));
                    }
                    if exists|j: int| 0 <= j < i + 1 && reaches(es, #[trigger] adeps@[j].0, x.0) {
                        let j = choose|j: int| 0 <= j < i + 1 && reaches(es, #[trigger] adeps@[j].0, x.0);
                        if j == i {
                            assert(down_set(es, c).contains(x));
                        } else {
                            assert(vb.contains(x));
                        }
                    }
                }
                assert forall|v: TaskId| #[trigger] visited@.contains(v) && !v0.contains(v) && v != id
                    implies down_closed(visited@, es, v) by {
                    if vb.contains(v) {
                        assert(down_closed(vb, es, v));
                        assert forall|x: TaskId| #[trigger] reaches(es, v.0, x.0) implies visited@.contains(x) by {
                            assert(vb.contains(x));
                        }
                    }
                }
            }
            i += 1;
        }
        proof {
            assert forall|x: TaskId| #[trigger] visited@.contains(x) <==> v0.union(down_set(es, id)).contains(x) by {
                if down_set(es, id).contains(x) && x != id {
                    assert(reach_plus(es, id.0, x.0));
                    crate::model::graph_spec::lemma_reach_plus_first_step(es, id.0, x.0);
                    let c = choose|c: u32| #[trigger] has_edge(es, id.0, c) && reaches(es, c, x.0);
                    let e = choose|e: usize| es.contains_key(e) && #[trigger] es[e] == (id.0, c);
                    assert(self.nodes().dom().contains(c));
                    assert(self.adep_set(id).contains(TaskId(c)));
                    assert(adeps@.contains(TaskId(c)));
                    let j = choose|j: int| 0 <= j < adeps@.len() && adeps@[j] == TaskId(c);
                    assert(reaches(es, adeps@[j].0, x.0));
                }
                if exists|j: int| 0 <= j < adeps@.len() && reaches(es, #[trigger] adeps@[j].0, x.0) {
                    let j = choose|j: int| 0 <= j < adeps@.len() && reaches(es, #[trigger] adeps@[j].0, x.0);
                    assert(has_edge(es, id.0, adeps@[j].0));
                    crate::model::graph_spec::lemma_edge_path(es, id.0, adeps@[j].0);
                    if x.0 != adeps@[j].0 {
                        crate::model::graph_spec::lemma_reach_plus_trans(es, id.0, adeps@[j].0, x.0);
                    }
                    assert(down_set(es, id).contains(x));
                }
            }
            assert(visited@ =~= v0.union(down_set(es, id)));
            assert(down_closed(visited@, es, id));
        }
    }

    /// The tasks that wait on `id`, directly or not.
    pub fn transitive_adeps(&self, id: TaskId) -> (res: TaskSet)
        requires
            self.wf(),
        ensures
            res@ == Set::new(|t: TaskId| reach_plus(self.edges(), id.0, t.0)),
    {
        let mut visited = TaskSet::new();
        self.transitive_adeps_impl(&mut visited, id);
        let res = visited.difference(&TaskSet::of(id));
        proof {
            assert(!reach_plus(self.edges(), id.0, id.0));
            assert(res@ =~= Set::new(|t: TaskId| reach_plus(self.edges(), id.0, t.0)));
        }
        res
    }
}


/// Every task of a list has a number, and looking that number up gives the
/// task back.
pub proof fn law_number_then_lookup(list: TodoList, id: TaskId)
    requires
        list.wf_shape(),
        list.has(id),
    ensures
        list.number_of(id) is Some,
        list.numbered(list.number_of(id)->Some_0) == Some(id),
{
    list.lemma_wf();
    list.layering().lemma_valid();
    if list.is_incomplete(id) {
        let i = list.layering().index_of(id);
        assert(list.layering().ids()[i] == list.layering().entries()[i].0);
    } else {
        assert(list.is_complete(id));
        let c = list.complete_seq();
        let i = c.index_of(id);
        assert(c[i] == id);
    }
}

/// A number that names a task is that task's number.
pub proof fn law_lookup_then_number(list: TodoList, n: int)
    requires
        list.wf_shape(),
        list.numbered(n) is Some,
    ensures
        list.number_of(list.numbered(n)->Some_0) == Some(n),
{
    list.lemma_wf();
    list.layering().lemma_valid();
    let id = list.numbered(n)->Some_0;
    let c = list.complete_seq();
    if n <= 0 {
        let k = c.len() - 1 + n;
        assert(c[k] == id);
        assert(c.contains(id));
        assert(!list.is_incomplete(id));
        let i = c.index_of(id);
        assert(c[i] == id);
        assert(i == k);
    } else {
        let ids = list.layering().ids();
        assert(ids[n - 1] == id);
        assert(ids.contains(id));
        let i = list.layering().index_of(id);
        assert(list.layering().entries()[i].0 == id);
        assert(ids[i] == id);
        assert(i == n - 1);
    }
}

/// Restoring a task right after checking it gives back the same complete
/// tasks, in the same order, and the same incomplete tasks, and every task
/// other than it has the status it had. The task itself is back in layer 0,
/// so it has its old status too unless it was snoozed in layer 1.
pub proof fn law_check_then_restore(
    s0: TodoList,
    s1: TodoList,
    s2: TodoList,
    options: CheckOptions,
    unblocked: TaskSet,
    blocked: TaskSet,
)
    requires
        s0.wf(),
        check_outcome(s0, s1, options, Ok(unblocked)),
        restore_outcome(s1, s2, options.id, Ok(blocked)),
    ensures
        s2.complete_seq() == s0.complete_seq(),
        forall|t: TaskId| #[trigger] s2.is_incomplete(t) == s0.is_incomplete(t),
        s2.nodes().dom() == s0.nodes().dom(),
        forall|t: TaskId| t != options.id ==> #[trigger] s2.status_of(t) == s0.status_of(t),
        s2.status_of(options.id) == Some(TaskStatus::Incomplete),
        s0.depth_of(options.id) == Some(0usize) ==> s2.status_of(options.id) == s0.status_of(options.id),
{
    let id = options.id;
    s0.lemma_wf();
    s1.lemma_wf();
    let c0 = s0.complete_seq();
    let c1 = s1.complete_seq();
    assert(!c0.contains(id));
    assert(c1[c0.len() as int] == id);
    assert(c1.contains(id));
    assert(c1.index_of(id) == c0.len()) by {
        let i = c1.index_of(id);
        assert(c1[i] == id);
        if i < c0.len() {
            assert(c0[i] == id);
        }
    }
    assert(c1.remove(c0.len() as int) =~= c0);
    assert(s0.has(id));
    assert(s1.nodes().dom() =~= s0.nodes().dom());
    assert(s2.nodes().dom() =~= s1.nodes().dom());
    assert forall|t: TaskId| #[trigger] s2.is_incomplete(t) == s0.is_incomplete(t) by {
        assert(s2.is_complete(t) == s0.is_complete(t));
        assert(s2.has(t) == s0.has(t));
        assert(s0.has(t) <==> (s0.is_complete(t) || s0.is_incomplete(t)));
        assert(s2.has(t) <==> (s2.is_complete(t) || s2.is_incomplete(t)));
        assert(!(s0.is_complete(t) && s0.is_incomplete(t)));
        assert(!(s2.is_complete(t) && s2.is_incomplete(t)));
    }
    s0.lemma_consistent_settled();
    s2.lemma_consistent_settled();
    s0.layering().lemma_valid();
    s2.layering().lemma_valid();
    assert(s2.is_incomplete(id));
    assert forall|t: TaskId| t != id implies #[trigger] s2.status_of(t) == s0.status_of(t) by {
        assert(s2.is_complete(t) == s0.is_complete(t));
        if descendants(s0.edges(), id.0).contains(t.0) {
            s0.lemma_descendant_of_incomplete_waits(id, t);
            s2.lemma_descendant_of_incomplete_waits(id, t);
            assert(!s0.violates(t));
            assert(!s2.violates(t));
            crate::model::graph_spec::lemma_reach_plus_last_step(s0.edges(), id.0, t.0);
            let y = choose|y: u32| #[trigger] has_edge(s0.edges(), y, t.0) && reaches(s0.edges(), id.0, y);
            s0.lemma_edge_ends(TaskId(y), t);
            s2.lemma_edge_ends(TaskId(y), t);
        } else {
            assert(s1.depth_of(t) == s0.depth_of(t));
            assert(!descendants(s1.edges(), id.0).contains(t.0));
            assert(s2.depth_of(t) == s1.depth_of(t));
        }
    }
}

/// Unblocking a task right after blocking it on a task it did not wait on
/// gives back the same dependencies.
pub proof fn law_block_then_unblock(
    s0: TodoList,
    s1: TodoList,
    s2: TodoList,
    blocked: TaskId,
    blocking: TaskId,
    c1: TaskSet,
    c2: TaskSet,
)
    requires
        !has_edge(s0.edges(), blocking.0, blocked.0),
        block_outcome(s0, s1, blocked, blocking, Ok(c1)),
        unblock_outcome(s1, s2, blocked, blocking, Ok(c2)),
    ensures
        forall|x: u32, y: u32| #[trigger] has_edge(s2.edges(), x, y) == has_edge(s0.edges(), x, y),
{
}

/// Blocking a task on another fails exactly when they are the same task,
/// or when the edge is new and would close a cycle.
pub proof fn law_block_fails_iff_cycle(
    s0: TodoList,
    s1: TodoList,
    blocked: TaskId,
    blocking: TaskId,
    res: Result<TaskSet, BlockError>,
)
    requires
        block_outcome(s0, s1, blocked, blocking, res),
    ensures
        res is Err <==> (blocked == blocking || (!has_edge(s0.edges(), blocking.0, blocked.0)
            && reaches(s0.edges(), blocked.0, blocking.0))),
        res is Err ==> s1.same_as(s0),
{
    if res is Err && res->Err_0 is WouldBlockOnSelf {
        assert(s1 == s0);
    }
}


/// Each entry of `product_seq(xs, ys)` pairs a member of `xs` with a member of `ys`.
pub proof fn lemma_product_seq_index(xs: Seq<TaskId>, ys: Seq<TaskId>, j: int)
    requires
        0 <= j < product_seq(xs, ys).len(),
    ensures
        xs.contains(product_seq(xs, ys)[j].0),
        ys.contains(product_seq(xs, ys)[j].1),
    decreases xs.len(),
{
    let t = xs.drop_last();
    let r = product_seq(t, ys);
    let m = ys.map_values(|y: TaskId| (xs.last(), y));
    assert(product_seq(xs, ys) == r + m);
    if j < r.len() {
        lemma_product_seq_index(t, ys, j);
        assert(product_seq(xs, ys)[j] == r[j]);
        let k = choose|k: int| 0 <= k < t.len() && t[k] == r[j].0;
        assert(xs[k] == r[j].0);
    } else {
        assert(product_seq(xs, ys)[j] == m[j - r.len()]);
        assert(ys[j - r.len()] == m[j - r.len()].1);
        assert(xs[xs.len() - 1] == xs.last());
    }
}

/// The pairs in `product_seq(xs, ys)` are those of a member of `xs` and a
/// member of `ys`.
pub proof fn lemma_product_seq_contains(xs: Seq<TaskId>, ys: Seq<TaskId>)
    ensures
        forall|j: int| 0 <= j < product_seq(xs, ys).len() ==> xs.contains(#[trigger] product_seq(xs, ys)[j].0)
            && ys.contains(product_seq(xs, ys)[j].1),
        forall|a: TaskId, b: TaskId| xs.contains(a) && ys.contains(b) ==> #[trigger] product_seq(xs, ys).contains((a, b)),
    decreases xs.len(),
{
    if xs.len() > 0 {
        let t = xs.drop_last();
        lemma_product_seq_contains(t, ys);
        let r = product_seq(t, ys);
        let m = ys.map_values(|y: TaskId| (xs.last(), y));
        assert(product_seq(xs, ys) == r + m);
        assert forall|j: int| 0 <= j < product_seq(xs, ys).len() implies xs.contains(#[trigger] product_seq(xs, ys)[j].0)
            && ys.contains(product_seq(xs, ys)[j].1) by {
            if j < r.len() {
                assert(product_seq(xs, ys)[j] == r[j]);
                assert(t.contains(r[j].0));
                let k = choose|k: int| 0 <= k < t.len() && t[k] == r[j].0;
                assert(xs[k] == r[j].0);
            } else {
                assert(product_seq(xs, ys)[j] == m[j - r.len()]);
                assert(ys[j - r.len()] == m[j - r.len()].1);
                assert(xs[xs.len() - 1] == xs.last());
            }
        }
        assert forall|a: TaskId, b: TaskId| xs.contains(a) && ys.contains(b) implies #[trigger] product_seq(xs, ys).contains((a, b)) by {
            let kb = choose|k: int| 0 <= k < ys.len() && ys[k] == b;
            if a == xs.last() {
                assert(product_seq(xs, ys)[r.len() + kb] == (a, b));
            } else {
                let ka = choose|k: int| 0 <= k < xs.len() && xs[k] == a;
                assert(t[ka] == a);
                assert(r.contains((a, b)));
                let kr = choose|k: int| 0 <= k < r.len() && r[k] == (a, b);
                assert(product_seq(xs, ys)[kr] == (a, b));
            }
        }
    }
}

/// Some pair among the first `k` of `pairs` links `x` to `y`.
pub open spec fn linked(pairs: Seq<(TaskId, TaskId)>, k: int, x: u32, y: u32) -> bool {
    exists|j: int| 0 <= j < k && #[trigger] pairs[j] == (TaskId(x), TaskId(y))
}

impl TodoList {
    /// The pairs of a task that `id` waits on and a task that waits on `id`,
    /// in the order of the list.
    pub open spec fn link_pairs(self, id: TaskId) -> Seq<(TaskId, TaskId)> {
        product_seq(filter_in(self.all_seq(), self.dep_set(id)), filter_in(self.all_seq(), self.adep_set(id)))
    }

    /// Removes the task. The tasks that waited on it are first blocked on the
    /// tasks it waited on, so that what waited on it still waits on what it
    /// waited on; then those not snoozed are moved to the layers their
    /// dependencies give them. Returns the tasks that waited on it.
    pub fn remove(&mut self, id: TaskId) -> (res: TaskSet)
        requires
            old(self).wf(),
            old(self).edges().dom().len() + old(self).link_pairs(id).len() < u32::MAX,
        ensures
            remove_outcome(*old(self), *final(self), id, res),
    {
        let ghost s0 = *self;
        let ghost es0 = self.edges();
        proof {
            s0.lemma_wf();
        }
        let deps = self.deps(id);
        let adeps = self.adeps(id);
        let pairs = deps.product(&adeps, self);
        proof {
            let xs = filter_in(s0.all_seq(), s0.dep_set(id));
            let ys = filter_in(s0.all_seq(), s0.adep_set(id));
            lemma_filter_in(s0.all_seq(), s0.dep_set(id));
            lemma_filter_in(s0.all_seq(), s0.adep_set(id));
            lemma_product_seq_contains(xs, ys);
            assert forall|a: TaskId, b: TaskId| s0.dep_set(id).contains(a) && s0.adep_set(id).contains(b)
                implies #[trigger] pairs@.contains((a, b)) by {
                s0.lemma_edge_ends(a, id);
                s0.lemma_edge_ends(id, b);
                s0.lemma_all_seq_contains(a);
                s0.lemma_all_seq_contains(b);
                assert(xs.contains(a) && ys.contains(b));
            }
        }
        // While the links are made the task is out of the layers: it is kept
        // with the complete tasks, where it is no incomplete dependency of
        // anything and changes the order of no other task.
        match self.incomplete.depth(&id) {
            Some(depth) => {
                proof {
                    self.layering().lemma_valid();
                }
                self.incomplete.remove_from_layer(&id, depth);
                self.complete.push(id);
                proof {
                    let sb = *self;
                    lemma_depth_of_remove(s0.layering(), sb.layering(), id);
                    let k = s0.layering().index_of(id);
                    lemma_entry_ids_remove(s0.layering().entries(), k);
                    lemma_seq_remove_contains(entry_ids(s0.layering().entries()), k);
                    assert(entry_ids(s0.layering().entries())[k] == id);
                    assert forall|x: TaskId| x != id implies #[trigger] sb.is_incomplete(x) == s0.is_incomplete(x) by {}
                    assert forall|x: TaskId| x != id implies #[trigger] sb.is_complete(x) == s0.is_complete(x) by {
                        if s0.complete_seq().contains(x) {
                            let j = choose|j: int| 0 <= j < s0.complete_seq().len() && s0.complete_seq()[j] == x;
                            assert(sb.complete_seq()[j] == x);
                        }
                    }
                    assert(sb.complete_seq()[s0.complete_seq().len() as int] == id);
                    assert(sb.complete_seq().no_duplicates()) by {
                        assert(!s0.complete_seq().contains(id)) by {
                            assert(!(s0.is_complete(id) && s0.is_incomplete(id)));
                        }
                    }
                    assert(s0.has(id));
                    sb.lemma_wf_reassign(s0, id);
                    sb.lemma_violates_after_close(s0, id);
                }
            },
            None => {},
        }
        let ghost s1 = *self;
        proof {
            assert forall|x: TaskId| x != id implies #[trigger] s1.depth_of(x) == s0.depth_of(x)
                && s1.is_complete(x) == s0.is_complete(x) by {}
            assert forall|t: TaskId| #[trigger] s1.violates(t) implies t == id
                || (s0.adep_set(id).contains(t) && s1.is_incomplete(t)) by {
                if t != id {
                    assert(!s0.violates(t));
                }
            }
            assert(!s1.is_incomplete(id));
            assert forall|x: u32, y: u32| #[trigger] has_edge(es0, x, y) implies reach_plus(es0, x, y) by {
                crate::model::graph_spec::lemma_edge_path(es0, x, y);
            }
        }
        let mut i: usize = 0;
        while i < pairs.len()
            invariant
                self.wf_shape(),
                s0.wf(),
                s1.wf_shape(),
                es0 == s0.edges(),
                self.nodes().dom() == s0.nodes().dom(),
                explicit_part(self.nodes()) == explicit_part(s0.nodes()),
                0 <= i <= pairs@.len(),
                pairs@ == s0.link_pairs(id),
                s0.edges().dom().len() + pairs@.len() < u32::MAX,
                forall|j: int| 0 <= j < pairs@.len() ==> s0.dep_set(id).contains(#[trigger] pairs@[j].0)
                    && s0.adep_set(id).contains(pairs@[j].1),
                forall|x: u32, y: u32| #[trigger] has_edge(self.edges(), x, y)
                    == (has_edge(es0, x, y) || linked(pairs@, i as int, x, y)),
                forall|x: u32, y: u32| #[trigger] has_edge(self.edges(), x, y) ==> reach_plus(es0, x, y),
                self.edges().dom().len() <= s0.edges().dom().len() + i,
                forall|t: TaskId| #[trigger] self.violates(t) ==> s1.violates(t),
                forall|t: TaskId| #[trigger] self.is_complete(t) ==> s1.is_complete(t),
                self.is_complete(id) == s1.is_complete(id),
                !self.is_incomplete(id),
                forall|x: TaskId| #![trigger self.depth_of(x)] x != id && !descendants(es0, id.0).contains(x.0)
                    ==> self.depth_of(x) == s0.depth_of(x) && self.is_complete(x) == s0.is_complete(x),
            decreases pairs@.len() - i,
        {
            let (dep, adep) = pairs[i];
            proof {
                assert(s0.dep_set(id).contains(dep) && s0.adep_set(id).contains(adep));
                s0.lemma_edge_ends(dep, id);
                s0.lemma_edge_ends(id, adep);
                assert(self.has(dep) && self.has(adep));
                assert(reach_plus(es0, dep.0, adep.0)) by {
                    crate::model::graph_spec::lemma_edge_path(es0, id.0, adep.0);
                    crate::model::graph_spec::lemma_edge_then_reach(es0, dep.0, id.0, adep.0);
                }
                assert(adep != dep) by {
                    if adep == dep {
                        assert(reach_plus(es0, dep.0, dep.0));
                    }
                }
                assert(!reach_plus(self.edges(), adep.0, dep.0)) by {
                    if reach_plus(self.edges(), adep.0, dep.0) {
                        crate::model::graph_spec::lemma_reach_through_walks(self.edges(), es0, adep.0, dep.0);
                        crate::model::graph_spec::lemma_reach_plus_trans(es0, adep.0, dep.0, adep.0);
                    }
                }
            }
            let ghost before = *self;
            match self.block_on(adep, dep) {
                Ok(_) => {},
                Err(_) => {
                    proof {
                        assert(false);
                    }
                },
            }
            proof {
                assert forall|x: u32, y: u32| #[trigger] has_edge(self.edges(), x, y)
                    == (has_edge(es0, x, y) || linked(pairs@, i + 1, x, y)) by {
                    if linked(pairs@, i + 1, x, y) && !linked(pairs@, i as int, x, y) {
                        let j = choose|j: int| 0 <= j < i + 1 && #[trigger] pairs@[j] == (TaskId(x), TaskId(y));
                        assert(j == i);
                    }
                    if linked(pairs@, i as int, x, y) {
                        let j = choose|j: int| 0 <= j < i && #[trigger] pairs@[j] == (TaskId(x), TaskId(y));
                        assert(linked(pairs@, i + 1, x, y));
                    }
                    if x == dep.0 && y == adep.0 {
                        assert(pairs@[i as int] == (TaskId(x), TaskId(y)));
                    }
                }
                assert forall|x: u32, y: u32| #[trigger] has_edge(self.edges(), x, y) implies reach_plus(es0, x, y) by {
                    if !has_edge(before.edges(), x, y) {
                        assert(x == dep.0 && y == adep.0);
                    }
                }
                assert(!descendants(self.edges(), adep.0).contains(id.0)) by {
                    if reach_plus(self.edges(), adep.0, id.0) {
                        crate::model::graph_spec::lemma_reach_through_walks(self.edges(), es0, adep.0, id.0);
                        crate::model::graph_spec::lemma_edge_path(es0, id.0, adep.0);
                        crate::model::graph_spec::lemma_reach_plus_trans(es0, adep.0, id.0, adep.0);
                    }
                }
                assert(adep != id) by {
                    s0.lemma_edge_ends(id, adep);
                }
                assert(self.depth_of(id) == before.depth_of(id));
                assert(self.is_complete(id) == before.is_complete(id));
                assert forall|x: TaskId| #![trigger self.depth_of(x)] x != id && !descendants(es0, id.0).contains(x.0)
                    implies self.depth_of(x) == s0.depth_of(x) && self.is_complete(x) == s0.is_complete(x) by {
                    assert(x != adep) by {
                        if x == adep {
                            crate::model::graph_spec::lemma_edge_path(es0, id.0, adep.0);
                        }
                    }
                    assert(!descendants(self.edges(), adep.0).contains(x.0)) by {
                        if reach_plus(self.edges(), adep.0, x.0) {
                            crate::model::graph_spec::lemma_reach_through_walks(self.edges(), es0, adep.0, x.0);
                            crate::model::graph_spec::lemma_edge_then_reach(es0, id.0, adep.0, x.0);
                        }
                    }
                    assert(self.depth_of(x) == before.depth_of(x));
                }
            }
            i += 1;
        }
        let ghost s3 = *self;
        graph_remove_node(&mut self.tasks, id.0);
        remove_first_occurrence_from_vec(&mut self.complete, &id);
        let ghost s4 = *self;
        proof {
            assert(s4.layering() == s3.layering());
            assert forall|x: u32, y: u32| #[trigger] has_edge(s4.edges(), x, y)
                == (has_edge(s3.edges(), x, y) && x != id.0 && y != id.0) by {
                if has_edge(s4.edges(), x, y) {
                    let e = choose|e: usize| s4.edges().contains_key(e) && #[trigger] s4.edges()[e] == (x, y);
                    assert(s3.edges().contains_key(e) && s3.edges()[e] == (x, y));
                }
                if has_edge(s3.edges(), x, y) && x != id.0 && y != id.0 {
                    let e = choose|e: usize| s3.edges().contains_key(e) && #[trigger] s3.edges()[e] == (x, y);
                    assert(s4.edges().contains_key(e));
                }
            }
            crate::model::graph_spec::lemma_sub_edges_acyclic(s4.edges(), s3.edges());
            // The complete tasks lose `id`, and nothing else.
            if s3.complete_seq().contains(id) {
                let k = choose|k: int| 0 <= k < s3.complete_seq().len() && s3.complete_seq()[k] == id
                    && (forall|j: int| 0 <= j < k ==> s3.complete_seq()[j] != id) && s4.complete_seq() == s3.complete_seq().remove(k);
                lemma_seq_remove_contains(s3.complete_seq(), k);
            }
            assert forall|t: TaskId| #[trigger] s4.is_complete(t) == (s3.is_complete(t) && t != id) by {}
            assert forall|t: TaskId| #[trigger] s4.is_incomplete(t) == s3.is_incomplete(t) by {}
            assert(s4.nodes().dom() =~= s3.nodes().dom().remove(id.0));
            assert(s4.wf_shape()) by {
                assert forall|t: TaskId| #![trigger s4.has(t)] s4.has(t) <==> (s4.is_complete(t) || s4.is_incomplete(t)) by {
                    assert(s3.has(t) <==> (s3.is_complete(t) || s3.is_incomplete(t)));
                }
                assert forall|t: TaskId| #![trigger s4.is_complete(t)] #![trigger s4.is_incomplete(t)]
                    !(s4.is_complete(t) && s4.is_incomplete(t)) by {
                    assert(!(s3.is_complete(t) && s3.is_incomplete(t)));
                }
                assert(no_parallel(s4.edges())) by {
                    assert forall|e1: usize, e2: usize|
                        s4.edges().contains_key(e1) && s4.edges().contains_key(e2)
                        && #[trigger] s4.edges()[e1] == #[trigger] s4.edges()[e2] implies e1 == e2 by {
                        assert(s3.edges()[e1] == s3.edges()[e2]);
                    }
                }
                vstd::set_lib::lemma_len_subset(s4.nodes().dom(), s3.nodes().dom());
                assert(s4.edges().dom().subset_of(s3.edges().dom()));
                vstd::set_lib::lemma_len_subset(s4.edges().dom(), s3.edges().dom());
            }
            // Out of the layers, `id` was no incomplete dependency, so no other
            // task is out of place because it left.
            assert forall|t: TaskId| #[trigger] s4.violates(t) implies t != id && s3.violates(t) by {
                assert(!s4.is_complete(id));
                assert(s4.depth_of(id) is None);
                if t != id {
                    if s4.has_incomplete_dep(t) {
                        let x = choose|x: TaskId| #[trigger] s4.dep_set(t).contains(x) && s4.is_incomplete(x);
                        assert(s3.dep_set(t).contains(x) && s3.is_incomplete(x));
                    }
                    if s3.has_incomplete_dep(t) {
                        let x = choose|x: TaskId| #[trigger] s3.dep_set(t).contains(x) && s3.is_incomplete(x);
                        assert(x != id);
                        assert(s4.dep_set(t).contains(x) && s4.is_incomplete(x));
                    }
                }
            }
        }
        proof {
            let xs = filter_in(s0.all_seq(), s0.dep_set(id));
            let ys = filter_in(s0.all_seq(), s0.adep_set(id));
            lemma_filter_in(s0.all_seq(), s0.dep_set(id));
            lemma_filter_in(s0.all_seq(), s0.adep_set(id));
            lemma_product_seq_contains(xs, ys);
            assert(pairs@ == product_seq(xs, ys));
            assert forall|x: u32, y: u32| #[trigger] has_edge(s4.edges(), x, y)
                == ((x != id.0 && y != id.0 && has_edge(es0, x, y)) || (has_edge(es0, x, id.0) && has_edge(es0, id.0, y))) by {
                if linked(pairs@, pairs@.len() as int, x, y) {
                    let jj = choose|jj: int| 0 <= jj < pairs@.len() && #[trigger] pairs@[jj] == (TaskId(x), TaskId(y));
                    lemma_product_seq_index(xs, ys, jj);
                    assert(s0.dep_set(id).contains(pairs@[jj].0) && s0.adep_set(id).contains(pairs@[jj].1));
                    s0.lemma_edge_ends(TaskId(x), id);
                    s0.lemma_edge_ends(id, TaskId(y));
                }
                if has_edge(es0, x, id.0) && has_edge(es0, id.0, y) {
                    assert(s0.dep_set(id).contains(TaskId(x)));
                    assert(s0.adep_set(id).contains(TaskId(y)));
                    assert(pairs@.contains((TaskId(x), TaskId(y))));
                    let jj = choose|jj: int| 0 <= jj < pairs@.len() && pairs@[jj] == (TaskId(x), TaskId(y));
                    assert(linked(pairs@, pairs@.len() as int, x, y));
                    s0.lemma_edge_ends(TaskId(x), id);
                    s0.lemma_edge_ends(id, TaskId(y));
                }
            }
            assert forall|t: TaskId| #[trigger] s4.is_complete(t) implies s0.is_complete(t) && t != id by {
                assert(s3.is_complete(t) && t != id);
                assert(s1.is_complete(t));
                if s1.complete_seq() != s0.complete_seq() {
                    let k = choose|k: int| 0 <= k < s1.complete_seq().len() && s1.complete_seq()[k] == t;
                    if k < s0.complete_seq().len() {
                        assert(s0.complete_seq()[k] == t);
                    }
                }
            }
            assert(explicit_part(s4.nodes()) =~= explicit_part(s0.nodes().remove(id.0))) by {
                assert forall|k: u32| #[trigger] explicit_part(s4.nodes()).contains_key(k)
                    implies explicit_part(s4.nodes())[k] == explicit_part(s0.nodes().remove(id.0))[k] by {
                    assert(explicit_part(s3.nodes())[k] == explicit_part(s0.nodes())[k]);
                }
            }
        }
        let sorted = adeps.sorted_vec(self);
        proof {
            lemma_filter_in(s4.all_seq(), s0.adep_set(id));
        }
        let mut todo: Vec<TaskId> = Vec::new();
        let mut j: usize = 0;
        while j < sorted.len()
            invariant
                *self == s4,
                s4.wf_shape(),
                s4.nodes().dom() == s0.nodes().dom().remove(id.0),
                explicit_part(s4.nodes()) == explicit_part(s0.nodes().remove(id.0)),
                forall|x: u32, y: u32| #[trigger] has_edge(s4.edges(), x, y)
                    == ((x != id.0 && y != id.0 && has_edge(es0, x, y)) || (has_edge(es0, x, id.0) && has_edge(es0, id.0, y))),
                forall|t: TaskId| #[trigger] s4.is_complete(t) ==> s0.is_complete(t) && t != id,
                0 <= j <= sorted@.len(),
                sorted@ == filter_in(s4.all_seq(), s0.adep_set(id)),
                forall|x: TaskId| #[trigger] sorted@.contains(x) ==> s4.all_seq().contains(x) && s0.adep_set(id).contains(x),
                forall|k: int| 0 <= k < j && !s4.keeps_snoozed(#[trigger] sorted@[k], None) ==> todo@.contains(sorted@[k]),
                forall|t: TaskId| #[trigger] todo@.contains(t) ==> s0.adep_set(id).contains(t),
            decreases sorted@.len() - j,
        {
            let c = sorted[j];
            proof {
                assert(sorted@.contains(c));
                assert(s4.all_seq().contains(c));
                assert(s4.has(c)) by {
                    let k = choose|k: int| 0 <= k < s4.all_seq().len() && s4.all_seq()[k] == c;
                    if k < s4.complete_seq().len() {
                        assert(s4.is_complete(c));
                    } else {
                        assert(s4.incomplete_seq()[k - s4.complete_seq().len()] == c);
                        assert(s4.is_incomplete(c));
                    }
                }
            }
            let ghost prev = todo@;
            if !self.should_keep_snoozed(c, None) {
                todo.push(c);
            }
            proof {
                assert forall|t: TaskId| #[trigger] todo@.contains(t) implies s0.adep_set(id).contains(t) by {
                    if t != c {
                        if todo@ != prev {
                            let m = choose|m: int| 0 <= m < todo@.len() && todo@[m] == t;
                            assert(prev[m] == t);
                        }
                        assert(prev.contains(t));
                    }
                }
                assert forall|k: int| 0 <= k < j + 1 && !s4.keeps_snoozed(#[trigger] sorted@[k], None)
                    implies todo@.contains(sorted@[k]) by {
                    if k == j {
                        assert(todo@[todo@.len() - 1] == c);
                    } else {
                        assert(prev.contains(sorted@[k]));
                        let m = choose|m: int| 0 <= m < prev.len() && prev[m] == sorted@[k];
                        assert(todo@[m] == sorted@[k]);
                    }
                }
            }
            j += 1;
        }
        proof {
            assert forall|t: TaskId| #[trigger] s4.violates(t) implies todo@.contains(t) by {
                assert(s3.violates(t) && t != id);
                assert(s1.violates(t));
                assert(s0.adep_set(id).contains(t) && s1.is_incomplete(t));
                assert(!s4.is_complete(t)) by {
                    assert(s3.is_complete(t) ==> s1.is_complete(t));
                    assert(!(s1.is_complete(t) && s1.is_incomplete(t)));
                }
                assert(s4.has(t)) by {
                    s0.lemma_edge_ends(id, t);
                }
                assert(s4.is_incomplete(t));
                s4.lemma_all_seq_contains(t);
                assert(sorted@.contains(t));
                let k = choose|k: int| 0 <= k < sorted@.len() && sorted@[k] == t;
                assert(!s4.keeps_snoozed(sorted@[k], None));
            }
        }
        proof {
            assert forall|x: TaskId| #![trigger s4.depth_of(x)] x != id && !descendants(es0, id.0).contains(x.0)
                implies s4.depth_of(x) == s0.depth_of(x) && s4.is_complete(x) == s0.is_complete(x) by {
                assert(s4.depth_of(x) == s3.depth_of(x));
                assert(s3.depth_of(x) == s0.depth_of(x));
            }
        }
        let mut m: usize = 0;
        while m < todo.len()
            invariant
                es0 == s0.edges(),
                self.wf_shape(),
                self.tasks_graph() == s4.tasks_graph(),
                s4.wf_shape(),
                s4.nodes().dom() == s0.nodes().dom().remove(id.0),
                explicit_part(s4.nodes()) == explicit_part(s0.nodes().remove(id.0)),
                forall|x: u32, y: u32| #[trigger] has_edge(s4.edges(), x, y)
                    == ((x != id.0 && y != id.0 && has_edge(es0, x, y)) || (has_edge(es0, x, id.0) && has_edge(es0, id.0, y))),
                forall|t: TaskId| #[trigger] s4.is_complete(t) ==> s0.is_complete(t) && t != id,
                0 <= m <= todo@.len(),
                forall|t: TaskId| #[trigger] s4.violates(t) ==> todo@.contains(t),
                forall|t: TaskId| #[trigger] self.violates(t) ==> s4.violates(t)
                    && forall|k: int| 0 <= k < m ==> todo@[k] != t,
                forall|t: TaskId| #[trigger] self.is_complete(t) ==> s4.is_complete(t),
                forall|t: TaskId| #[trigger] todo@.contains(t) ==> s0.adep_set(id).contains(t),
                forall|x: TaskId| #![trigger self.depth_of(x)] x != id && !descendants(es0, id.0).contains(x.0)
                    ==> self.depth_of(x) == s0.depth_of(x) && self.is_complete(x) == s0.is_complete(x),
            decreases todo@.len() - m,
        {
            let ghost before = *self;
            self.update_depth(todo[m]);
            proof {
                let c = todo@[m as int];
                assert(todo@.contains(c));
                assert forall|x: TaskId| #![trigger self.depth_of(x)] x != id && !descendants(es0, id.0).contains(x.0)
                    implies self.depth_of(x) == s0.depth_of(x) && self.is_complete(x) == s0.is_complete(x) by {
                    assert(has_edge(es0, id.0, c.0));
                    assert(x != c) by {
                        if x == c {
                            crate::model::graph_spec::lemma_edge_path(es0, id.0, c.0);
                        }
                    }
                    assert(!descendants(s4.edges(), c.0).contains(x.0)) by {
                        if reach_plus(s4.edges(), c.0, x.0) {
                            assert forall|a: u32, b: u32| #[trigger] has_edge(s4.edges(), a, b) implies reach_plus(es0, a, b) by {
                                if has_edge(es0, a, b) {
                                    crate::model::graph_spec::lemma_edge_path(es0, a, b);
                                } else {
                                    crate::model::graph_spec::lemma_edge_path(es0, id.0, b);
                                    crate::model::graph_spec::lemma_edge_then_reach(es0, a, id.0, b);
                                }
                            }
                            crate::model::graph_spec::lemma_reach_through_walks(s4.edges(), es0, c.0, x.0);
                            crate::model::graph_spec::lemma_edge_then_reach(es0, id.0, c.0, x.0);
                        }
                    }
                    assert(self.depth_of(x) == before.depth_of(x));
                }
                assert forall|t: TaskId| #[trigger] self.violates(t) implies s4.violates(t)
                    && forall|k: int| 0 <= k < m + 1 ==> todo@[k] != t by {
                    assert(before.violates(t) && t != todo@[m as int]);
                }
            }
            m += 1;
        }
        proof {
            assert forall|t: TaskId| !#[trigger] self.violates(t) by {
                if self.violates(t) {
                    assert(todo@.contains(t));
                    let k = choose|k: int| 0 <= k < todo@.len() && todo@[k] == t;
                    assert(todo@[k] != t);
                }
            }
            assert forall|t: TaskId| #[trigger] self.is_complete(t) implies s0.is_complete(t) && t != id by {
                assert(s4.is_complete(t));
            }
        }
        adeps
    }
}

/// What `remove` does: the task is gone, what waited on it waits on what it
/// waited on, only implicit values change among the other tasks, no task
/// becomes complete, and the result is the tasks that waited on it.
pub open spec fn remove_outcome(before: TodoList, after: TodoList, id: TaskId, res: TaskSet) -> bool {
    &&& after.wf()
    &&& !after.has(id)
    &&& after.nodes().dom() == before.nodes().dom().remove(id.0)
    &&& explicit_part(after.nodes()) == explicit_part(before.nodes().remove(id.0))
    &&& forall|x: u32, y: u32| #[trigger] has_edge(after.edges(), x, y)
        == ((x != id.0 && y != id.0 && has_edge(before.edges(), x, y))
            || (has_edge(before.edges(), x, id.0) && has_edge(before.edges(), id.0, y)))
    &&& forall|t: TaskId| #[trigger] after.is_complete(t) ==> before.is_complete(t) && t != id
    &&& res@ == before.adep_set(id)
    &&& forall|t: TaskId| #![trigger after.depth_of(t)] t != id && !descendants(before.edges(), id.0).contains(t.0)
        ==> after.depth_of(t) == before.depth_of(t) && after.is_complete(t) == before.is_complete(t)
}


/// A task shown as incomplete (in layer 0) waits on no incomplete task, so
/// checking it succeeds.
pub proof fn law_ready_task_can_be_checked(
    list: TodoList,
    after: TodoList,
    options: CheckOptions,
    res: Result<TaskSet, CheckError>,
)
    requires
        list.wf(),
        list.status_of(options.id) == Some(TaskStatus::Incomplete),
        check_outcome(list, after, options, res),
    ensures
        !list.has_incomplete_dep(options.id),
        res is Ok,
        after.status_of(options.id) == Some(TaskStatus::Complete),
{
    assert(!list.violates(options.id));
    assert(!list.is_complete(options.id));
    match res {
        Ok(u) => {
            assert(after.complete_seq()[list.complete_seq().len() as int] == options.id);
        },
        Err(e) => {},
    }
}

/// A task in a layer of 2 or more waits on some incomplete task.
pub proof fn law_deep_task_waits(list: TodoList, id: TaskId)
    requires
        list.wf(),
        list.depth_of(id) matches Some(d) && d >= 2,
    ensures
        list.has_incomplete_dep(id),
{
    assert(!list.violates(id));
}

/// No complete task waits on an incomplete one.
pub proof fn law_complete_tasks_wait_on_complete_tasks(list: TodoList, id: TaskId, dep: TaskId)
    requires
        list.wf(),
        list.is_complete(id),
        list.dep_set(id).contains(dep),
    ensures
        list.is_complete(dep),
{
    assert(!list.violates(id));
    list.lemma_edge_ends(dep, id);
    assert(list.has(dep) ==> (list.is_complete(dep) || list.is_incomplete(dep)));
}

/// The implicit priorities and due dates of a list whose implicit values
/// are right are fixed by the priorities, due dates and budgets of its tasks
/// and by which tasks wait on which: two such lists with the same of these
/// hold the same implicit values.
pub proof fn law_implicit_values_determined(l1: TodoList, l2: TodoList)
    requires
        l1.implicits_all_right(),
        l2.implicits_all_right(),
        explicit_part(l1.nodes()) == explicit_part(l2.nodes()),
        forall|x: u32, y: u32| #[trigger] has_edge(l1.edges(), x, y) == has_edge(l2.edges(), x, y),
    ensures
        l1.nodes().dom() == l2.nodes().dom(),
        forall|t: TaskId| #[trigger] l1.has(t) ==> l1.task(t) == l2.task(t),
{
    assert(l1.nodes().dom() =~= l2.nodes().dom()) by {
        assert(explicit_part(l1.nodes()).dom() == l1.nodes().dom());
        assert(explicit_part(l2.nodes()).dom() == l2.nodes().dom());
    }
    assert forall|t: TaskId| #[trigger] l1.has(t) implies l1.task(t) == l2.task(t) by {
        assert(l2.nodes().dom().contains(t.0));
        lemma_right_same_links(l2.nodes(), l2.edges(), l1.edges(), t.0);
        lemma_implicits_unique(l1.nodes(), l2.nodes(), l1.edges(), t.0);
    }
}

/// Unblocking a task right after blocking it on a task it did not wait on
/// gives back every task as it was, implicit priority and due date
/// included, in a list whose implicit values were right.
pub proof fn law_unblock_restores_implicit_values(
    s0: TodoList,
    s1: TodoList,
    s2: TodoList,
    blocked: TaskId,
    blocking: TaskId,
    c1: TaskSet,
    c2: TaskSet,
)
    requires
        s0.implicits_all_right(),
        !has_edge(s0.edges(), blocking.0, blocked.0),
        block_outcome(s0, s1, blocked, blocking, Ok(c1)),
        unblock_outcome(s1, s2, blocked, blocking, Ok(c2)),
    ensures
        s2.nodes() == s0.nodes(),
{
    law_block_then_unblock(s0, s1, s2, blocked, blocking, c1, c2);
    law_implicit_values_determined(s0, s2);
    assert forall|k: u32| #[trigger] s0.nodes().dom().contains(k) implies s2.nodes()[k] == s0.nodes()[k] by {
        assert(s0.has(TaskId(k)));
    }
    assert(s2.nodes() =~= s0.nodes());
}

/// In a list whose implicit values are right (which every operation but
/// `remove` keeps, starting from an empty list), the implicit priority of a
/// task is the highest of its own priority and the implicit priorities of the
/// tasks that wait on it; its implicit due date is the earliest of its own
/// due date and the implicit due dates of the tasks that wait on it, each
/// moved earlier by that task's budget, and none when there is none of these.
pub proof fn law_implicit_values_from_dependants(list: TodoList, t: TaskId)
    requires
        list.wf(),
        list.implicits_all_right(),
        list.has(t),
    ensures
        list.task(t).implicit_priority >= list.task(t).priority,
        forall|c: TaskId| #[trigger] list.adep_set(t).contains(c) ==> list.task(c).implicit_priority <= list.task(t).implicit_priority,
        list.task(t).implicit_priority == list.task(t).priority
            || exists|c: TaskId| #[trigger] list.adep_set(t).contains(c)
                && list.task(c).implicit_priority == list.task(t).implicit_priority,
        list.task(t).due_date is Some ==> list.task(t).implicit_due_date is Some
            && list.task(t).implicit_due_date->Some_0.nanos <= list.task(t).due_date->Some_0.nanos,
        forall|c: TaskId| #[trigger] list.adep_set(t).contains(c) && list.task(c).implicit_due_date is Some
            ==> list.task(t).implicit_due_date is Some && list.task(t).implicit_due_date->Some_0.nanos
                <= ts_minus_secs(list.task(c).implicit_due_date->Some_0, list.task(c).budget.0).nanos,
        list.task(t).implicit_due_date is Some ==> list.task(t).implicit_due_date == list.task(t).due_date
            || exists|c: TaskId| #[trigger] list.adep_set(t).contains(c) && list.task(c).implicit_due_date is Some
                && list.task(t).implicit_due_date == Some(ts_minus_secs(list.task(c).implicit_due_date->Some_0, list.task(c).budget.0)),
{
    let n = list.nodes();
    let es = list.edges();
    assert forall|c: u32| #[trigger] has_edge(es, t.0, c) implies implicits_right(n, es, c) by {
        let e = choose|e: usize| es.contains_key(e) && #[trigger] es[e] == (t.0, c);
        assert(n.dom().contains(c));
    }
    crate::model::implicit::lemma_right_from_children(n, es, t.0);
    assert forall|c: TaskId| #[trigger] list.adep_set(t).contains(c) implies has_edge(es, t.0, c.0) by {}
    if list.task(t).implicit_priority != list.task(t).priority {
        let c = choose|c: u32| #[trigger] has_edge(es, t.0, c) && n[c].implicit_priority == n[t.0].implicit_priority;
        assert(list.adep_set(t).contains(TaskId(c)));
    }
    if list.task(t).implicit_due_date is Some && list.task(t).implicit_due_date != list.task(t).due_date {
        let c = choose|c: u32| #[trigger] has_edge(es, t.0, c) && n[c].implicit_due_date is Some
            && n[t.0].implicit_due_date == Some(ts_minus_secs(n[c].implicit_due_date->Some_0, n[c].budget.0));
        assert(list.adep_set(t).contains(TaskId(c)));
    }
}

/// The complete and the incomplete tasks together are all the tasks, each
/// counted once.
pub proof fn law_every_task_counted_once(list: TodoList)
    requires
        list.wf(),
    ensures
        list.complete_seq().len() + list.incomplete_seq().len() == list.nodes().dom().len(),
        forall|t: TaskId| #[trigger] list.has(t) <==> list.all_seq().contains(t),
{
    list.lemma_wf();
    assert forall|t: TaskId| #[trigger] list.has(t) <==> list.all_seq().contains(t) by {
        if list.has(t) {
            list.lemma_all_seq_contains(t);
        }
        if list.all_seq().contains(t) {
            let k = choose|k: int| 0 <= k < list.all_seq().len() && list.all_seq()[k] == t;
            if k < list.complete_seq().len() {
                assert(list.is_complete(t));
            } else {
                assert(list.incomplete_seq()[k - list.complete_seq().len()] == t);
                assert(list.is_incomplete(t));
            }
        }
    }
}

} // verus!
