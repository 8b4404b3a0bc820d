use vstd::prelude::*;
use crate::model::graph::{
    graph_add_node, graph_edges, graph_new, graph_node_weight, graph_nodes, graph_parents,
    graph_remove_node, graph_slots, graph_update_edge, graph_wf, TaskGraph,
};
use crate::model::graph_spec::{
    acyclic, has_edge, lemma_reach_then_edge, lemma_sub_edges_acyclic, lemma_sub_edges_reach,
    no_parallel, reach_plus, reaches, EdgeMap,
};
use crate::model::layering::{entry_ids, layers_sorted, Layering};
use crate::model::task::{DurationInSeconds, Task, TaskId, Timestamp};
use crate::model::todo_list::{copy_task, vec_contains, TodoList};

verus! {

/// A todo list as plain values: the form in which it is saved and loaded.
pub struct ListParts {
    /// The task numbered `i` at index `i`; `None` where no task has that
    /// number (it was removed).
    pub nodes: Vec<Option<Task>>,
    /// The dependencies: `(a, b)` means that `b` waits on `a`.
    pub edges: Vec<(TaskId, TaskId)>,
    /// The complete tasks, in the order they were completed.
    pub complete: Vec<TaskId>,
    /// The incomplete tasks with their layers, in order.
    pub incomplete: Vec<(TaskId, usize)>,
}

/// The tasks that `nodes` lists, by number.
pub open spec fn nodes_map(nodes: Seq<Option<Task>>) -> Map<u32, Task> {
    Map::new(|i: u32| (i as int) < nodes.len() && nodes[i as int] is Some, |i: u32| nodes[i as int]->Some_0)
}

/// The dependencies that `edges` lists, numbered by their position.
pub open spec fn edges_map(edges: Seq<(TaskId, TaskId)>) -> EdgeMap {
    Map::new(|e: usize| (e as int) < edges.len(), |e: usize| (edges[e as int].0.0, edges[e as int].1.0))
}

/// The layer of `id` in `entries`, if it is listed there.
pub open spec fn entries_depth(entries: Seq<(TaskId, usize)>, id: TaskId) -> Option<usize> {
    if entry_ids(entries).contains(id) {
        Some(entries[choose|i: int| 0 <= i < entries.len() && #[trigger] entries[i].0 == id].1)
    } else {
        None
    }
}

impl ListParts {
    pub open spec fn has(self, id: TaskId) -> bool {
        nodes_map(self.nodes@).dom().contains(id.0)
    }

    pub open spec fn is_complete(self, id: TaskId) -> bool {
        self.complete@.contains(id)
    }

    pub open spec fn is_incomplete(self, id: TaskId) -> bool {
        entry_ids(self.incomplete@).contains(id)
    }

    pub open spec fn depth_of(self, id: TaskId) -> Option<usize> {
        entries_depth(self.incomplete@, id)
    }

    /// `id` waits on some incomplete task.
    pub open spec fn has_incomplete_dep(self, id: TaskId) -> bool {
        exists|t: TaskId| #[trigger] has_edge(edges_map(self.edges@), t.0, id.0) && self.is_incomplete(t)
    }

    /// `id` is out of place, by the rule that a todo list keeps (see
    /// `TodoList::violates`).
    pub open spec fn violates(self, id: TaskId) -> bool {
        ||| self.is_complete(id) && self.has_incomplete_dep(id)
        ||| (self.depth_of(id) == Some(0usize) && self.has_incomplete_dep(id))
        ||| (self.depth_of(id) matches Some(d) && d >= 2 && !self.has_incomplete_dep(id))
    }

    /// The parts describe a todo list: every dependency joins two tasks and
    /// they form no cycle; every task is either complete (listed once) or
    /// in one layer; no task is out of place; and the counts fit the limits
    /// of the graph (task numbers below `u32::MAX`, fewer than `u32::MAX`
    /// dependencies, fewer than `i32::MAX` tasks).
    pub open spec fn valid(self) -> bool {
        &&& self.nodes@.len() <= u32::MAX
        &&& self.edges@.len() < u32::MAX
        &&& nodes_map(self.nodes@).dom().len() < i32::MAX
        &&& forall|e: int| 0 <= e < self.edges@.len() ==> self.has(#[trigger] self.edges@[e].0) && self.has(self.edges@[e].1)
        &&& acyclic(edges_map(self.edges@))
        &&& self.complete@.no_duplicates()
        &&& entry_ids(self.incomplete@).no_duplicates()
        &&& layers_sorted(self.incomplete@)
        &&& forall|id: TaskId| !(#[trigger] self.is_complete(id) && self.is_incomplete(id))
        &&& forall|id: TaskId| #[trigger] self.has(id) <==> (self.is_complete(id) || self.is_incomplete(id))
        &&& forall|id: TaskId| !#[trigger] self.violates(id)
    }
}

/// `pair` is in `v`.
fn pair_in(v: &Vec<(TaskId, TaskId)>, pair: (TaskId, TaskId)) -> (res: bool)
    ensures
        res == v@.contains(pair),
{
    let mut i: usize = 0;
    while i < v.len()
        invariant
            0 <= i <= v@.len(),
            forall|j: int| 0 <= j < i ==> v@[j] != pair,
        decreases v@.len() - i,
    {
        let (a, b) = v[i];
        if a.0 == pair.0.0 && b.0 == pair.1.0 {
            assert(v@[i as int] == pair);
            return true;
        }
        i += 1;
    }
    false
}

impl TodoList {
    /// `self` is the list that `p` describes.
    pub open spec fn described_by(self, p: ListParts) -> bool {
        &&& self.nodes() == nodes_map(p.nodes@)
        &&& forall|a: u32, b: u32| #[trigger] has_edge(self.edges(), a, b) <==> has_edge(edges_map(p.edges@), a, b)
        &&& self.complete_seq() == p.complete@
        &&& self.layering().entries() == p.incomplete@
    }

    /// The list as plain values, with no trailing empty number.
    pub fn to_parts(&self) -> (res: ListParts)
        requires
            self.wf(),
        ensures
            self.described_by(res),
            res.nodes@.len() <= u32::MAX,
            res.nodes@.len() == 0 || res.nodes@.last() is Some,
            res.edges@.len() <= self.edges().dom().len(),
    {
        proof {
            self.lemma_wf();
        }
        let graph = self.graph();
        let all = self.all_tasks_vec();
        // The number one past the highest task number.
        let mut n: usize = 0;
        let mut i: usize = 0;
        while i < all.len()
            invariant
                0 <= i <= all@.len(),
                all@ == self.all_seq(),
                self.wf(),
                graph_nodes(*graph) == self.nodes(),
                graph_wf(*graph),
                forall|j: int| 0 <= j < i ==> (#[trigger] all@[j].0 as int) < n,
                n == 0 || (exists|j: int| 0 <= j < i && #[trigger] all@[j].0 as int + 1 == n),
                n <= u32::MAX,
            decreases all@.len() - i,
        {
            let id = all[i];
            proof {
                assert(self.all_seq().contains(id)) by {
                    assert(self.all_seq()[i as int] == id);
                }
                assert(self.is_complete(id) || self.is_incomplete(id)) by {
                    assert(self.complete_seq().contains(id) || self.incomplete_seq().contains(id)) by {
                        if !self.complete_seq().contains(id) {
                            let k = i as int;
                            if k < self.complete_seq().len() {
                                assert(self.complete_seq()[k] == id);
                            } else {
                                assert(self.incomplete_seq()[k - self.complete_seq().len()] == id);
                            }
                        }
                    }
                }
                assert(self.has(id));
                assert(graph_nodes(*graph).dom().contains(id.0));
            }
            if id.0 as usize >= n {
                n = id.0 as usize + 1;
            }
            i += 1;
        }
        let mut nodes: Vec<Option<Task>> = Vec::new();
        let mut k: usize = 0;
        while k < n
            invariant
                0 <= k <= n <= u32::MAX,
                nodes@.len() == k,
                graph_nodes(*graph) == self.nodes(),
                forall|j: int| 0 <= j < k ==> (#[trigger] nodes@[j] is Some) == self.nodes().dom().contains(j as u32),
                forall|j: int| 0 <= j < k && #[trigger] nodes@[j] is Some ==> nodes@[j]->Some_0 == self.nodes()[j as u32],
            decreases n - k,
        {
            match graph_node_weight(graph, k as u32) {
                Some(t) => nodes.push(Some(copy_task(t))),
                None => nodes.push(None),
            }
            k += 1;
        }
        let mut edges: Vec<(TaskId, TaskId)> = Vec::new();
        let mut i: usize = 0;
        while i < all.len()
            invariant
                0 <= i <= all@.len(),
                all@ == self.all_seq(),
                graph_edges(*graph) == self.edges(),
                forall|j: int| 0 <= j < edges@.len() ==> has_edge(self.edges(), #[trigger] edges@[j].0.0, edges@[j].1.0),
                forall|a: u32, b: u32| has_edge(self.edges(), a, b) && (exists|j: int| 0 <= j < i && #[trigger] all@[j] == TaskId(b))
                    ==> exists|j: int| 0 <= j < edges@.len() && #[trigger] edges@[j] == (TaskId(a), TaskId(b)),
                edges@.no_duplicates(),
            decreases all@.len() - i,
        {
            let id = all[i];
            let parents = graph_parents(graph, id.0);
            let mut j: usize = 0;
            let ghost before = edges@;
            while j < parents.len()
                invariant
                    0 <= j <= parents@.len(),
                    before.len() <= edges@.len(),
                    forall|k: int| 0 <= k < before.len() ==> edges@[k] == before[k],
                    forall|c: u32| parents@.contains(c) <==> has_edge(self.edges(), c, id.0),
                    forall|k: int| 0 <= k < edges@.len() ==> has_edge(self.edges(), #[trigger] edges@[k].0.0, edges@[k].1.0),
                    forall|k: int| 0 <= k < j ==> edges@.contains((TaskId(#[trigger] parents@[k]), id)),
                    edges@.no_duplicates(),
                decreases parents@.len() - j,
            {
                let ghost prev = edges@;
                let pair = (TaskId(parents[j]), id);
                if !pair_in(&edges, pair) {
                    edges.push(pair);
                }
                proof {
                    assert(parents@.contains(parents@[j as int]));
                    assert forall|k: int| 0 <= k < j + 1 implies edges@.contains((TaskId(#[trigger] parents@[k]), id)) by {
                        if k < j {
                            let m = choose|m: int| 0 <= m < prev.len() && prev[m] == (TaskId(parents@[k]), id);
                            assert(edges@[m] == prev[m]);
                        } else if !prev.contains(pair) {
                            assert(edges@[prev.len() as int] == (TaskId(parents@[k]), id));
                        } else {
                            let m = choose|m: int| 0 <= m < prev.len() && prev[m] == pair;
                            assert(edges@[m] == prev[m]);
                        }
                    }
                    assert forall|k: int| 0 <= k < edges@.len() implies has_edge(self.edges(), #[trigger] edges@[k].0.0, edges@[k].1.0) by {
                        if k < prev.len() {
                            assert(edges@[k] == prev[k]);
                        }
                    }
                }
                j += 1;
            }
            proof {
                assert forall|a: u32, b: u32| has_edge(self.edges(), a, b) && (exists|j: int| 0 <= j < i + 1 && #[trigger] all@[j] == TaskId(b))
                    implies exists|j: int| 0 <= j < edges@.len() && #[trigger] edges@[j] == (TaskId(a), TaskId(b)) by {
                    let jj = choose|j: int| 0 <= j < i + 1 && #[trigger] all@[j] == TaskId(b);
                    if jj < i {
                        let m = choose|j: int| 0 <= j < before.len() && #[trigger] before[j] == (TaskId(a), TaskId(b));
                        assert(edges@[m] == (TaskId(a), TaskId(b)));
                    } else {
                        assert(parents@.contains(a));
                        let k = choose|k: int| 0 <= k < parents@.len() && parents@[k] == a;
                        assert(edges@.contains((TaskId(parents@[k]), id)));
                    }
                }
            }
            i += 1;
        }
        let mut complete: Vec<TaskId> = Vec::new();
        let cv = self.complete_vec();
        let mut i: usize = 0;
        while i < cv.len()
            invariant
                0 <= i <= cv@.len(),
                complete@ == cv@.take(i as int),
            decreases cv@.len() - i,
        {
            complete.push(cv[i]);
            proof {
                assert(cv@.take(i + 1) =~= cv@.take(i as int).push(cv@[i as int]));
            }
            i += 1;
        }
        assert(cv@.take(cv@.len() as int) =~= cv@);
        let incomplete = self.layering_ref().entries_vec();
        proof {
            let es = self.edges();
            let f = |e: usize| (TaskId(es[e].0), TaskId(es[e].1));
            let image = es.dom().map(f);
            vstd::set_lib::lemma_map_size_bound(es.dom(), image, f);
            edges@.unique_seq_to_set();
            assert(edges@.to_set().subset_of(image)) by {
                assert forall|x: (TaskId, TaskId)| #[trigger] edges@.to_set().contains(x) implies image.contains(x) by {
                    let k = choose|k: int| 0 <= k < edges@.len() && edges@[k] == x;
                    assert(has_edge(es, edges@[k].0.0, edges@[k].1.0));
                    let e = choose|e: usize| es.contains_key(e) && #[trigger] es[e] == (x.0.0, x.1.0);
                    assert(f(e) == x);
                }
            }
            vstd::set_lib::lemma_len_subset(edges@.to_set(), image);
        }
        let res = ListParts { nodes, edges, complete, incomplete };
        proof {
            assert(self.nodes() =~= nodes_map(res.nodes@)) by {
                assert forall|j: u32| #[trigger] self.nodes().dom().contains(j) implies (j as int) < n by {
                    assert(self.has(TaskId(j)));
                    assert(self.all_seq().contains(TaskId(j))) by {
                        if self.is_complete(TaskId(j)) {
                            let m = choose|m: int| 0 <= m < self.complete_seq().len() && self.complete_seq()[m] == TaskId(j);
                            assert(self.all_seq()[m] == TaskId(j));
                        } else {
                            let m = choose|m: int| 0 <= m < self.incomplete_seq().len() && self.incomplete_seq()[m] == TaskId(j);
                            assert(self.all_seq()[self.complete_seq().len() + m] == TaskId(j));
                        }
                    }
                    let m = choose|m: int| 0 <= m < all@.len() && all@[m] == TaskId(j);
                    assert((all@[m].0 as int) < n);
                }
                assert forall|j: u32| #[trigger] nodes_map(res.nodes@).dom().contains(j) implies self.nodes().dom().contains(j) by {
                    assert(res.nodes@[j as int] is Some);
                }
            }
            assert forall|a: u32, b: u32| #[trigger] has_edge(self.edges(), a, b) <==> has_edge(edges_map(res.edges@), a, b) by {
                let em = edges_map(res.edges@);
                if has_edge(self.edges(), a, b) {
                    assert(self.nodes().dom().contains(b)) by {
                        let e = choose|e: usize| self.edges().contains_key(e) && #[trigger] self.edges()[e] == (a, b);
                    }
                    assert(self.all_seq().contains(TaskId(b))) by {
                        assert(self.has(TaskId(b)));
                        if self.is_complete(TaskId(b)) {
                            let m = choose|m: int| 0 <= m < self.complete_seq().len() && self.complete_seq()[m] == TaskId(b);
                            assert(self.all_seq()[m] == TaskId(b));
                        } else {
                            let m = choose|m: int| 0 <= m < self.incomplete_seq().len() && self.incomplete_seq()[m] == TaskId(b);
                            assert(self.all_seq()[self.complete_seq().len() + m] == TaskId(b));
                        }
                    }
                    let jb = choose|m: int| 0 <= m < all@.len() && all@[m] == TaskId(b);
                    assert(all@[jb] == TaskId(b));
                    let j = choose|j: int| 0 <= j < res.edges@.len() && #[trigger] res.edges@[j] == (TaskId(a), TaskId(b));
                    assert(res.edges@.len() == res.edges.len());
                    assert((j as usize) as int == j);
                    assert(em.contains_key(j as usize) && em[j as usize] == (a, b));
                }
                if has_edge(em, a, b) {
                    let e = choose|e: usize| em.contains_key(e) && #[trigger] em[e] == (a, b);
                    assert(has_edge(self.edges(), res.edges@[e as int].0.0, res.edges@[e as int].1.0));
                }
            }
            if res.nodes@.len() > 0 {
                let jm = choose|j: int| 0 <= j < all@.len() && #[trigger] all@[j].0 as int + 1 == n;
                assert(self.all_seq().contains(all@[jm])) by {
                    assert(self.all_seq()[jm] == all@[jm]);
                }
                let id = all@[jm];
                assert(self.has(id)) by {
                    if self.complete_seq().contains(id) {
                    } else {
                        let m = choose|m: int| 0 <= m < self.all_seq().len() && self.all_seq()[m] == id;
                        if m < self.complete_seq().len() {
                            assert(self.complete_seq()[m] == id);
                        } else {
                            assert(self.incomplete_seq()[m - self.complete_seq().len()] == id);
                        }
                    }
                }
                assert(res.nodes@[n - 1] is Some);
            }
        }
        res
    }
}

/// The entry at position `k` of `edges` is a dependency of `edges_map(edges)`.
pub proof fn lemma_edges_map_has(edges: Seq<(TaskId, TaskId)>, k: int)
    requires
        0 <= k < edges.len(),
        edges.len() <= usize::MAX,
    ensures
        has_edge(edges_map(edges), edges[k].0.0, edges[k].1.0),
{
    let e = k as usize;
    assert(edges_map(edges).contains_key(e) && edges_map(edges)[e] == (edges[k].0.0, edges[k].1.0));
}

/// Every dependency of `edges_map(edges)` is listed in `edges`.
pub proof fn lemma_edges_map_listed(edges: Seq<(TaskId, TaskId)>, a: u32, b: u32)
    requires
        has_edge(edges_map(edges), a, b),
    ensures
        exists|k: int| 0 <= k < edges.len() && #[trigger] edges[k] == (TaskId(a), TaskId(b)),
{
    let e = choose|e: usize| edges_map(edges).contains_key(e) && #[trigger] edges_map(edges)[e] == (a, b);
    assert(edges[e as int] == (TaskId(a), TaskId(b)));
}

/// A list that `p` describes puts the same tasks out of place as `p` does.
pub proof fn lemma_described_violates(l: TodoList, p: ListParts)
    requires
        l.layering().valid(),
        l.described_by(p),
    ensures
        forall|t: TaskId| #[trigger] l.violates(t) == p.violates(t),
{
    l.layering().lemma_valid();
    assert(l.incomplete_seq() == entry_ids(p.incomplete@));
    assert forall|t: TaskId| #[trigger] l.violates(t) == p.violates(t) by {
        assert(l.is_complete(t) == p.is_complete(t));
        assert(l.is_incomplete(t) == p.is_incomplete(t));
        if p.is_incomplete(t) {
            let es = p.incomplete@;
            let i = choose|i: int| 0 <= i < es.len() && #[trigger] es[i].0 == t;
            assert(es[i].0 == t);
            assert(i == l.layering().index_of(t));
        }
        assert(l.depth_of(t) == p.depth_of(t));
        if l.has_incomplete_dep(t) {
            let x = choose|x: TaskId| #[trigger] l.dep_set(t).contains(x) && l.is_incomplete(x);
            assert(has_edge(l.edges(), x.0, t.0));
            assert(has_edge(edges_map(p.edges@), x.0, t.0) && p.is_incomplete(x));
        }
        if p.has_incomplete_dep(t) {
            let x = choose|x: TaskId| #[trigger] has_edge(edges_map(p.edges@), x.0, t.0) && p.is_incomplete(x);
            assert(l.dep_set(t).contains(x) && l.is_incomplete(x));
        }
        assert(l.has_incomplete_dep(t) == p.has_incomplete_dep(t));
    }
}

/// What a todo list saves describes a todo list: the parts of a well-formed
/// list load again, given that the numbers and dependencies fit the graph's
/// index limits.
pub proof fn law_saved_parts_are_valid(l: TodoList, p: ListParts)
    requires
        l.wf(),
        l.described_by(p),
        p.nodes@.len() <= u32::MAX,
        p.edges@.len() < u32::MAX,
    ensures
        p.valid(),
{
    l.lemma_wf();
    l.lemma_graph_views();
    l.layering().lemma_valid();
    lemma_described_violates(l, p);
    let pe = p.edges@;
    assert forall|e: int| 0 <= e < pe.len() implies p.has(#[trigger] pe[e].0) && p.has(pe[e].1) by {
        lemma_edges_map_has(pe, e);
        assert(has_edge(l.edges(), pe[e].0.0, pe[e].1.0));
        let k = choose|k: usize| l.edges().contains_key(k) && #[trigger] l.edges()[k] == (pe[e].0.0, pe[e].1.0);
        assert(l.edges().contains_key(k));
    }
    lemma_sub_edges_acyclic(edges_map(pe), l.edges());
    assert(l.incomplete_seq() == entry_ids(p.incomplete@));
    assert forall|id: TaskId| !(#[trigger] p.is_complete(id) && p.is_incomplete(id)) by {
        assert(!(l.is_complete(id) && l.is_incomplete(id)));
    }
    assert forall|id: TaskId| #[trigger] p.has(id) <==> (p.is_complete(id) || p.is_incomplete(id)) by {
        assert(l.has(id) <==> (l.is_complete(id) || l.is_incomplete(id)));
    }
    assert forall|id: TaskId| !#[trigger] p.violates(id) by {
        assert(!l.violates(id));
    }
}

/// What `to_parts` gives of a well-formed list (parts that describe it, no
/// more numbers than the graph has room for, and no more dependencies than
/// the list has) is valid: `from_parts` loads it again.
pub proof fn law_saved_list_is_valid(l: TodoList, p: ListParts)
    requires
        l.wf(),
        l.described_by(p),
        p.nodes@.len() <= u32::MAX,
        p.edges@.len() <= l.edges().dom().len(),
    ensures
        p.valid(),
{
    law_saved_parts_are_valid(l, p);
}

/// A list loaded from the parts that another list was saved as shows the
/// same tasks, in the same order and with the same statuses, and the same
/// dependencies.
pub proof fn law_reload_keeps_list(l: TodoList, p: ListParts, loaded: TodoList)
    requires
        l.described_by(p),
        loaded.described_by(p),
    ensures
        loaded.nodes() == l.nodes(),
        forall|a: u32, b: u32| #[trigger] has_edge(loaded.edges(), a, b) == has_edge(l.edges(), a, b),
        loaded.all_seq() == l.all_seq(),
        forall|t: TaskId| #[trigger] loaded.status_of(t) == l.status_of(t),
{
    assert(loaded.incomplete_seq() == l.incomplete_seq());
    assert forall|t: TaskId| #[trigger] loaded.status_of(t) == l.status_of(t) by {
        assert(loaded.depth_of(t) == l.depth_of(t));
    }
}

/// A task that holds a number no task has while a graph is rebuilt; it is
/// removed again before the graph is used.
fn vacant_task() -> (res: Task)
    ensures
        res.desc@ == Seq::<char>::empty(),
        res.creation_time == (Timestamp { nanos: 0 }),
        res.completion_time is None,
        res.priority == 0,
        res.implicit_priority == 0,
        res.due_date is None,
        res.implicit_due_date is None,
        res.budget == DurationInSeconds(0),
        res.start_date == (Timestamp { nanos: 0 }),
{
    Task {
        desc: String::new(),
        creation_time: Timestamp { nanos: 0 },
        completion_time: None,
        priority: 0,
        implicit_priority: 0,
        due_date: None,
        implicit_due_date: None,
        budget: DurationInSeconds(0),
        start_date: Timestamp { nanos: 0 },
    }
}

/// A graph with the tasks of `nodes` at their numbers and no dependencies,
/// and the number of its tasks.
fn graph_of_nodes(nodes: &Vec<Option<Task>>) -> (res: (TaskGraph, usize))
    requires
        nodes@.len() <= u32::MAX,
    ensures
        graph_wf(res.0),
        graph_nodes(res.0) == nodes_map(nodes@),
        graph_edges(res.0) == Map::<usize, (u32, u32)>::empty(),
        graph_nodes(res.0).dom().len() == res.1,
{
    let n = nodes.len();
    let mut g = graph_new();
    let mut i: usize = 0;
    while i < n
        invariant
            n == nodes@.len() <= u32::MAX,
            0 <= i <= n,
            graph_wf(g),
            graph_slots(g) == i,
            forall|k: u32| #[trigger] graph_nodes(g).dom().contains(k) <==> (k as int) < i,
            graph_nodes(g).dom().len() == i,
            forall|k: u32| (k as int) < i && nodes@[k as int] is Some ==> #[trigger] graph_nodes(g)[k] == nodes@[k as int]->Some_0,
            graph_edges(g) == Map::<usize, (u32, u32)>::empty(),
        decreases n - i,
    {
        let weight = match &nodes[i] {
            Some(t) => copy_task(t),
            None => vacant_task(),
        };
        let ghost before = graph_nodes(g);
        let id = graph_add_node(&mut g, weight);
        proof {
            assert(id as int == i);
            assert(graph_nodes(g).dom() =~= before.dom().insert(id));
        }
        i += 1;
    }
    let mut removed: usize = 0;
    let mut i: usize = 0;
    while i < n
        invariant
            n == nodes@.len() <= u32::MAX,
            0 <= i <= n,
            removed <= i,
            graph_wf(g),
            forall|k: u32| #[trigger] graph_nodes(g).dom().contains(k)
                <==> ((k as int) < n && ((k as int) >= i || nodes@[k as int] is Some)),
            graph_nodes(g).dom().len() == n - removed,
            forall|k: u32| (k as int) < n && nodes@[k as int] is Some ==> #[trigger] graph_nodes(g)[k] == nodes@[k as int]->Some_0,
            graph_edges(g) == Map::<usize, (u32, u32)>::empty(),
        decreases n - i,
    {
        if nodes[i].is_none() {
            let ghost before = graph_nodes(g);
            graph_remove_node(&mut g, i as u32);
            proof {
                assert(before.dom().contains(i as u32));
                assert(graph_nodes(g).dom() =~= before.dom().remove(i as u32));
                assert(crate::model::graph::edges_avoiding(Map::<usize, (u32, u32)>::empty(), i as u32)
                    =~= Map::<usize, (u32, u32)>::empty());
            }
            removed += 1;
        }
        i += 1;
    }
    assert(graph_nodes(g) =~= nodes_map(nodes@));
    (g, n - removed)
}

impl TodoList {
    /// The list that `parts` describe, if they describe one (see
    /// `ListParts::valid`); `None` if they do not.
    pub fn from_parts(parts: ListParts) -> (res: Option<TodoList>)
        ensures
            res is Some <==> parts.valid(),
            res matches Some(l) ==> l.wf() && l.described_by(parts),
    {
        let ghost p = parts;
        let nodes = &parts.nodes;
        let edges = &parts.edges;
        let n = nodes.len();
        if n as u64 > 0xffff_ffffu64 || edges.len() as u64 >= 0xffff_ffffu64 {
            return None;
        }
        let (mut g, present) = graph_of_nodes(nodes);
        if present as u64 >= 0x7fff_ffffu64 {
            return None;
        }
        let ghost pe = edges@;
        let ghost dom = nodes_map(nodes@).dom();
        proof {
            assert forall|a: u32| !#[trigger] reach_plus(graph_edges(g), a, a) by {
                if reach_plus(graph_edges(g), a, a) {
                    let w = choose|w: Seq<u32>| #[trigger] crate::model::graph_spec::is_path(graph_edges(g), w)
                        && w.len() >= 2 && w[0] == a && w.last() == a;
                    assert(crate::model::graph_spec::path_step(graph_edges(g), w, 0));
                }
            }
        }
        let mut e: usize = 0;
        while e < edges.len()
            invariant
                p == parts,
                *edges == parts.edges,
                *nodes == parts.nodes,
                edges@ == pe,
                pe == p.edges@,
                nodes@ == p.nodes@,
                pe.len() < u32::MAX,
                dom == nodes_map(nodes@).dom(),
                0 <= e <= pe.len(),
                graph_wf(g),
                graph_nodes(g) == nodes_map(nodes@),
                graph_nodes(g).dom().len() == present,
                graph_edges(g).dom().len() <= e,
                acyclic(graph_edges(g)),
                no_parallel(graph_edges(g)),
                forall|x: u32, y: u32| #[trigger] has_edge(graph_edges(g), x, y)
                    <==> exists|k: int| 0 <= k < e && #[trigger] pe[k] == (TaskId(x), TaskId(y)),
                forall|k: int| 0 <= k < e ==> dom.contains((#[trigger] pe[k]).0.0) && dom.contains(pe[k].1.0),
            decreases pe.len() - e,
        {
            let (a, b) = edges[e];
            if graph_node_weight(&g, a.0).is_none() || graph_node_weight(&g, b.0).is_none() {
                proof {
                    assert(!(p.has(pe[e as int].0) && p.has(pe[e as int].1)));
                    assert(!p.valid());
                }
                return None;
            }
            let ghost before = graph_edges(g);
            proof {
                lemma_edges_map_has(pe, e as int);
            }
            match graph_update_edge(&mut g, a.0, b.0) {
                Ok(_) => {},
                Err(_) => {
                    proof {
                        let full = edges_map(pe);
                        assert forall|x: u32, y: u32| #[trigger] has_edge(before, x, y) implies has_edge(full, x, y) by {
                            let k = choose|k: int| 0 <= k < e && #[trigger] pe[k] == (TaskId(x), TaskId(y));
                            lemma_edges_map_has(pe, k);
                        }
                        assert(reaches(before, b.0, a.0));
                        if b.0 != a.0 {
                            lemma_sub_edges_reach(before, full, b.0, a.0);
                        }
                        lemma_reach_then_edge(full, b.0, a.0, b.0);
                        assert(!acyclic(full));
                        assert(!p.valid());
                    }
                    return None;
                },
            }
            proof {
                let after = graph_edges(g);
                if has_edge(before, a.0, b.0) {
                    assert(after == before);
                } else {
                    let ne = choose|ne: usize| !before.dom().contains(ne) && after == before.insert(ne, (a.0, b.0));
                    assert(after.dom() =~= before.dom().insert(ne));
                    crate::model::graph_spec::lemma_add_edge_acyclic(before, ne, a.0, b.0);
                    assert forall|e1: usize, e2: usize|
                        after.contains_key(e1) && after.contains_key(e2) && #[trigger] after[e1] == #[trigger] after[e2] implies e1 == e2 by {
                        if e1 != ne && e2 != ne {
                        } else if e1 == ne && e2 != ne {
                            assert(before[e2] == (a.0, b.0));
                        } else if e2 == ne && e1 != ne {
                            assert(before[e1] == (a.0, b.0));
                        }
                    }
                }
                assert forall|x: u32, y: u32| #[trigger] has_edge(after, x, y)
                    <==> exists|k: int| 0 <= k < e + 1 && #[trigger] pe[k] == (TaskId(x), TaskId(y)) by {
                    if has_edge(after, x, y) {
                        if has_edge(before, x, y) {
                            let k = choose|k: int| 0 <= k < e && #[trigger] pe[k] == (TaskId(x), TaskId(y));
                            assert(0 <= k < e + 1 && pe[k] == (TaskId(x), TaskId(y)));
                        } else {
                            let w = choose|w: usize| after.contains_key(w) && #[trigger] after[w] == (x, y);
                            assert(!before.contains_key(w) || before[w] != (x, y));
                            assert((x, y) == (a.0, b.0));
                            assert(pe[e as int] == (TaskId(x), TaskId(y)));
                        }
                    }
                    if exists|k: int| 0 <= k < e + 1 && #[trigger] pe[k] == (TaskId(x), TaskId(y)) {
                        let k = choose|k: int| 0 <= k < e + 1 && #[trigger] pe[k] == (TaskId(x), TaskId(y));
                        if k < e {
                            assert(has_edge(before, x, y));
                            let w = choose|w: usize| before.contains_key(w) && #[trigger] before[w] == (x, y);
                            assert(after.contains_key(w) && after[w] == (x, y));
                        } else {
                            assert((x, y) == (a.0, b.0));
                            if has_edge(before, a.0, b.0) {
                                let w = choose|w: usize| before.contains_key(w) && #[trigger] before[w] == (x, y);
                                assert(after.contains_key(w) && after[w] == (x, y));
                            } else {
                                let ne = choose|ne: usize| !before.dom().contains(ne) && after == before.insert(ne, (a.0, b.0));
                                assert(after.contains_key(ne) && after[ne] == (x, y));
                            }
                        }
                    }
                }
            }
            e += 1;
        }
        proof {
            assert forall|x: u32, y: u32| #[trigger] has_edge(graph_edges(g), x, y) <==> has_edge(edges_map(pe), x, y) by {
                if has_edge(graph_edges(g), x, y) {
                    let k = choose|k: int| 0 <= k < pe.len() && #[trigger] pe[k] == (TaskId(x), TaskId(y));
                    lemma_edges_map_has(pe, k);
                }
                if has_edge(edges_map(pe), x, y) {
                    lemma_edges_map_listed(pe, x, y);
                }
            }
        }
        let layering = match Layering::from_entries(parts.incomplete) {
            Some(l) => l,
            None => {
                return None;
            },
        };
        let complete = parts.complete;
        let mut i: usize = 0;
        while i < complete.len()
            invariant
                p == parts,
                complete@ == p.complete@,
                0 <= i <= complete@.len(),
                graph_nodes(g) == nodes_map(p.nodes@),
                layering.entries() == p.incomplete@,
                layering.valid(),
                complete@.take(i as int).no_duplicates(),
                forall|k: int| 0 <= k < i ==> p.has(#[trigger] complete@[k]) && !layering.ids().contains(complete@[k]),
            decreases complete@.len() - i,
        {
            let id = complete[i];
            if graph_node_weight(&g, id.0).is_none() {
                proof {
                    assert(p.is_complete(id));
                    assert(!p.has(id));
                    assert(!p.valid());
                }
                return None;
            }
            if layering.contains(&id) {
                proof {
                    assert(p.is_complete(id) && p.is_incomplete(id));
                    assert(!p.valid());
                }
                return None;
            }
            let mut j: usize = 0;
            while j < i
                invariant
                    p == parts,
                    complete@ == p.complete@,
                    0 <= j <= i < complete@.len(),
                    id == complete@[i as int],
                    forall|k: int| 0 <= k < j ==> complete@[k] != id,
                decreases i - j,
            {
                if complete[j] == id {
                    proof {
                        assert(!p.complete@.no_duplicates());
                        assert(!p.valid());
                    }
                    return None;
                }
                j += 1;
            }
            proof {
                let pre = complete@.take(i as int);
                let next = complete@.take(i + 1);
                assert(next =~= pre.push(id));
                assert forall|a: int, b: int| 0 <= a < b < next.len() implies next[a] != next[b] by {
                    if b < i {
                        assert(pre[a] != pre[b]);
                    }
                }
            }
            i += 1;
        }
        assert(complete@.take(complete@.len() as int) =~= complete@);
        let mut i: usize = 0;
        while i < layering.len()
            invariant
                p == parts,
                0 <= i <= layering.entries().len(),
                graph_nodes(g) == nodes_map(p.nodes@),
                layering.entries() == p.incomplete@,
                layering.valid(),
                forall|k: int| 0 <= k < i ==> p.has(#[trigger] layering.entries()[k].0),
            decreases layering.entries().len() - i,
        {
            let id = layering.get(i);
            if graph_node_weight(&g, id.0).is_none() {
                proof {
                    layering.lemma_valid();
                    assert(layering.ids()[i as int] == id);
                    assert(p.is_incomplete(id));
                    assert(!p.has(id));
                    assert(!p.valid());
                }
                return None;
            }
            i += 1;
        }
        let mut k: usize = 0;
        while k < n
            invariant
                p == parts,
                *nodes == parts.nodes,
                n == p.nodes@.len() <= u32::MAX,
                complete@ == p.complete@,
                layering.entries() == p.incomplete@,
                0 <= k <= n,
                forall|j: u32| (j as int) < k && #[trigger] p.has(TaskId(j)) ==> p.is_complete(TaskId(j)) || p.is_incomplete(TaskId(j)),
            decreases n - k,
        {
            if nodes[k].is_some() {
                let id = TaskId(k as u32);
                if !vec_contains(&complete, &id) && !layering.contains(&id) {
                    proof {
                        assert(p.has(id));
                        assert(!p.valid());
                    }
                    return None;
                }
            }
            k += 1;
        }
        let list = TodoList::from_fields(g, complete, layering);
        proof {
            layering.lemma_valid();
            assert(list.described_by(p));
            assert(list.incomplete_seq() == entry_ids(p.incomplete@));
            assert forall|id: TaskId| #![trigger list.is_complete(id)] #![trigger list.is_incomplete(id)]
                !(list.is_complete(id) && list.is_incomplete(id)) by {
                if list.is_complete(id) {
                    let m = choose|m: int| 0 <= m < complete@.len() && complete@[m] == id;
                    assert(!layering.ids().contains(complete@[m]));
                }
            }
            assert forall|id: TaskId| #![trigger list.has(id)] list.has(id) <==> (list.is_complete(id) || list.is_incomplete(id)) by {
                if list.has(id) {
                    assert(p.has(TaskId(id.0)));
                }
                if list.is_complete(id) {
                    let m = choose|m: int| 0 <= m < complete@.len() && complete@[m] == id;
                    assert(p.has(complete@[m]));
                }
                if list.is_incomplete(id) {
                    let m = choose|m: int| 0 <= m < layering.ids().len() && layering.ids()[m] == id;
                    assert(p.has(layering.entries()[m].0));
                }
            }
            assert(list.wf_shape());
        }
        let mut k: usize = 0;
        while k < n
            invariant
                p == parts,
                n == p.nodes@.len() <= u32::MAX,
                list.wf_shape(),
                list.described_by(p),
                0 <= k <= n,
                forall|j: u32| (j as int) < k ==> !#[trigger] list.violates(TaskId(j)),
            decreases n - k,
        {
            if list.is_out_of_place(TaskId(k as u32)) {
                proof {
                    lemma_described_violates(list, p);
                    assert(p.violates(TaskId(k as u32)));
                    assert(!p.valid());
                }
                return None;
            }
            k += 1;
        }
        proof {
            assert forall|t: TaskId| !#[trigger] list.violates(t) by {
                if list.violates(t) {
                    assert(list.is_complete(t) || list.is_incomplete(t));
                    assert(list.has(t));
                    assert(p.has(t));
                    assert(!list.violates(TaskId(t.0)));
                }
            }
            law_saved_parts_are_valid(list, p);
        }
        Some(list)
    }
}

} // verus!
