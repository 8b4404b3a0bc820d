use vstd::prelude::*;
use crate::model::graph_spec::{
    acyclic, closed, has_edge, is_path, lemma_reach_plus_first_step, lemma_walk_prepend, lemma_walk_reaches,
    lemma_walk_split, path_step, reach_plus, reaches, EdgeMap,
};
use crate::model::task::{ts_minus_secs, Task, Timestamp};

verus! {

/// `p` is the implicit priority of task `a`: the highest priority of `a` and
/// of the tasks that wait on it, directly or not.
pub open spec fn is_implicit_priority(nodes: Map<u32, Task>, es: EdgeMap, a: u32, p: i32) -> bool {
    &&& exists|t: u32| #[trigger] reaches(es, a, t) && nodes[t].priority == p
    &&& forall|t: u32| #[trigger] reaches(es, a, t) ==> nodes[t].priority <= p
}

/// The due date that the walk `p` imposes on its first task: the due date of
/// its last task, moved earlier by the budget of every task after the first.
pub open spec fn walk_due(nodes: Map<u32, Task>, p: Seq<u32>) -> Option<Timestamp>
    decreases p.len(),
{
    if p.len() <= 1 {
        nodes[p[0]].due_date
    } else {
        match walk_due(nodes, p.drop_first()) {
            Some(d) => Some(ts_minus_secs(d, nodes[p[1]].budget.0)),
            None => None,
        }
    }
}

/// A walk along the edges that starts at `a`.
pub open spec fn walk_from(es: EdgeMap, a: u32, p: Seq<u32>) -> bool {
    is_path(es, p) && p[0] == a
}

/// `d` is the implicit due date of task `a`: the earliest due date that a
/// walk from `a` imposes on it, or none when no walk imposes one.
pub open spec fn is_implicit_due_date(nodes: Map<u32, Task>, es: EdgeMap, a: u32, d: Option<Timestamp>) -> bool {
    match d {
        None => forall|p: Seq<u32>| #[trigger] walk_from(es, a, p) ==> walk_due(nodes, p) is None,
        Some(v) => {
            &&& exists|p: Seq<u32>| #[trigger] walk_from(es, a, p) && walk_due(nodes, p) == Some(v)
            &&& forall|p: Seq<u32>| #[trigger] walk_from(es, a, p) && walk_due(nodes, p) is Some
                ==> v.nanos <= walk_due(nodes, p)->Some_0.nanos
        },
    }
}

pub proof fn lemma_ts_minus_monotone(a: Timestamp, b: Timestamp, s: u32)
    requires
        a.nanos <= b.nanos,
    ensures
        ts_minus_secs(a, s).nanos <= ts_minus_secs(b, s).nanos,
{
}

/// Every task that `a` reaches is `a`, or is reached from a child of `a`.
pub proof fn lemma_reaches_split(es: EdgeMap, a: u32, t: u32)
    requires
        reaches(es, a, t),
        a != t,
    ensures
        exists|c: u32| #[trigger] has_edge(es, a, c) && reaches(es, c, t),
{
    lemma_reach_plus_first_step(es, a, t);
}

/// What a child `c` reaches, its parent `a` reaches.
pub proof fn lemma_reaches_through_child(es: EdgeMap, a: u32, c: u32, t: u32)
    requires
        has_edge(es, a, c),
        reaches(es, c, t),
    ensures
        reaches(es, a, t),
{
    crate::model::graph_spec::lemma_edge_then_reach(es, a, c, t);
}

/// The walk `[a] + q` imposes on `a` what `q` imposes on its first task,
/// moved earlier by that task's budget.
pub proof fn lemma_walk_due_prepend(nodes: Map<u32, Task>, es: EdgeMap, a: u32, q: Seq<u32>)
    requires
        is_path(es, q),
        has_edge(es, a, q[0]),
    ensures
        walk_from(es, a, seq![a] + q),
        walk_due(nodes, seq![a] + q) == match walk_due(nodes, q) {
            Some(d) => Some(ts_minus_secs(d, nodes[q[0]].budget.0)),
            None => None,
        },
{
    lemma_walk_prepend(es, a, q);
    let p = seq![a] + q;
    assert(p.drop_first() == q);
    assert(p[1] == q[0]);
}

/// A walk from `a` of two or more tasks is `a` followed by a walk from a child.
pub proof fn lemma_walk_due_split(nodes: Map<u32, Task>, es: EdgeMap, a: u32, p: Seq<u32>)
    requires
        walk_from(es, a, p),
        p.len() >= 2,
    ensures
        has_edge(es, a, p[1]),
        walk_from(es, p[1], p.drop_first()),
        walk_due(nodes, p) == match walk_due(nodes, p.drop_first()) {
            Some(d) => Some(ts_minus_secs(d, nodes[p[1]].budget.0)),
            None => None,
        },
{
    lemma_walk_split(es, p);
}


/// The task `t` without its implicit priority and due date.
pub open spec fn without_implicits(t: Task) -> Task {
    Task { implicit_priority: 0, implicit_due_date: None, ..t }
}

/// The tasks of `nodes` without their implicit priorities and due dates.
pub open spec fn explicit_part(nodes: Map<u32, Task>) -> Map<u32, Task> {
    nodes.map_values(|t: Task| without_implicits(t))
}

/// The implicit priority and due date stored in task `a` are those that the
/// explicit priorities, due dates and budgets of the tasks give it.
pub open spec fn implicits_right(nodes: Map<u32, Task>, es: EdgeMap, a: u32) -> bool {
    &&& is_implicit_priority(explicit_part(nodes), es, a, nodes[a].implicit_priority)
    &&& is_implicit_due_date(explicit_part(nodes), es, a, nodes[a].implicit_due_date)
}

/// On a walk of the graph, the due date imposed depends on the explicit
/// parts of the tasks alone.
pub proof fn lemma_walk_due_explicit(nodes: Map<u32, Task>, es: EdgeMap, p: Seq<u32>)
    requires
        closed(nodes.dom(), es),
        is_path(es, p),
        nodes.dom().contains(p[0]),
    ensures
        walk_due(explicit_part(nodes), p) == walk_due(nodes, p),
    decreases p.len(),
{
    if p.len() >= 2 {
        lemma_walk_split(es, p);
        let e = choose|e: usize| es.contains_key(e) && #[trigger] es[e] == (p[0], p[1]);
        assert(nodes.dom().contains(p[1]));
        lemma_walk_due_explicit(nodes, es, p.drop_first());
    }
}

/// The implicit values that `nodes` give task `a` are those that their
/// explicit parts give it.
pub proof fn lemma_implicit_explicit(nodes: Map<u32, Task>, es: EdgeMap, a: u32, p: i32, d: Option<Timestamp>)
    requires
        closed(nodes.dom(), es),
        nodes.dom().contains(a),
        is_implicit_priority(nodes, es, a, p),
        is_implicit_due_date(nodes, es, a, d),
    ensures
        is_implicit_priority(explicit_part(nodes), es, a, p),
        is_implicit_due_date(explicit_part(nodes), es, a, d),
{
    let ex = explicit_part(nodes);
    assert forall|t: u32| #[trigger] reaches(es, a, t) implies ex[t].priority == nodes[t].priority by {
        if t != a {
            crate::model::graph_spec::lemma_reach_plus_in_dom(nodes.dom(), es, a, t);
        }
    }
    let w = choose|t: u32| #[trigger] reaches(es, a, t) && nodes[t].priority == p;
    assert(reaches(es, a, w) && ex[w].priority == p);
    assert forall|q: Seq<u32>| #[trigger] walk_from(es, a, q) implies walk_due(ex, q) == walk_due(nodes, q) by {
        lemma_walk_due_explicit(nodes, es, q);
    }
    match d {
        Some(v) => {
            let q = choose|q: Seq<u32>| #[trigger] walk_from(es, a, q) && walk_due(nodes, q) == Some(v);
            assert(walk_from(es, a, q) && walk_due(ex, q) == Some(v));
        },
        None => {},
    }
}


/// The stored implicit values of a task are fixed by the explicit parts of
/// the tasks: two maps with the same explicit parts that both store the
/// right values hold the same task at `a`.
pub proof fn lemma_implicits_unique(n1: Map<u32, Task>, n2: Map<u32, Task>, es: EdgeMap, a: u32)
    requires
        explicit_part(n1) == explicit_part(n2),
        n1.dom().contains(a),
        implicits_right(n1, es, a),
        implicits_right(n2, es, a),
    ensures
        n1[a] == n2[a],
{
    let ex = explicit_part(n1);
    let p1 = n1[a].implicit_priority;
    let p2 = n2[a].implicit_priority;
    let w1 = choose|t: u32| #[trigger] reaches(es, a, t) && ex[t].priority == p1;
    let w2 = choose|t: u32| #[trigger] reaches(es, a, t) && ex[t].priority == p2;
    assert(ex[w2].priority <= p1);
    assert(ex[w1].priority <= p2);
    match (n1[a].implicit_due_date, n2[a].implicit_due_date) {
        (Some(v1), Some(v2)) => {
            let q1 = choose|q: Seq<u32>| #[trigger] walk_from(es, a, q) && walk_due(ex, q) == Some(v1);
            let q2 = choose|q: Seq<u32>| #[trigger] walk_from(es, a, q) && walk_due(ex, q) == Some(v2);
            assert(v1.nanos <= v2.nanos);
            assert(v2.nanos <= v1.nanos);
        },
        (Some(v1), None) => {
            let q1 = choose|q: Seq<u32>| #[trigger] walk_from(es, a, q) && walk_due(ex, q) == Some(v1);
        },
        (None, Some(v2)) => {
            let q2 = choose|q: Seq<u32>| #[trigger] walk_from(es, a, q) && walk_due(ex, q) == Some(v2);
        },
        (None, None) => {},
    }
    assert(explicit_part(n2).dom().contains(a));
    assert(without_implicits(n1[a]) == ex[a]);
    assert(without_implicits(n2[a]) == explicit_part(n2)[a]);
}


/// Whether the stored implicit values of `a` are right depends on the
/// edges only through the pairs of tasks that they link.
pub proof fn lemma_right_same_links(n: Map<u32, Task>, e1: EdgeMap, e2: EdgeMap, a: u32)
    requires
        forall|x: u32, y: u32| #[trigger] has_edge(e1, x, y) == has_edge(e2, x, y),
    ensures
        implicits_right(n, e1, a) == implicits_right(n, e2, a),
{
    assert forall|p: Seq<u32>| #![trigger is_path(e1, p)] #![trigger is_path(e2, p)] is_path(e1, p) == is_path(e2, p) by {
        if is_path(e1, p) {
            assert forall|i: int| 0 <= i < p.len() - 1 implies #[trigger] path_step(e2, p, i) by {
                assert(path_step(e1, p, i));
            }
        }
        if is_path(e2, p) {
            assert forall|i: int| 0 <= i < p.len() - 1 implies #[trigger] path_step(e1, p, i) by {
                assert(path_step(e2, p, i));
            }
        }
    }
    assert forall|t: u32| #![trigger reaches(e1, a, t)] #![trigger reaches(e2, a, t)] reaches(e1, a, t) == reaches(e2, a, t) by {
        if reach_plus(e1, a, t) {
            let p = choose|p: Seq<u32>| #[trigger] is_path(e1, p) && p.len() >= 2 && p[0] == a && p.last() == t;
            assert(is_path(e2, p));
        }
        if reach_plus(e2, a, t) {
            let p = choose|p: Seq<u32>| #[trigger] is_path(e2, p) && p.len() >= 2 && p[0] == a && p.last() == t;
            assert(is_path(e1, p));
        }
    }
    assert forall|p: Seq<u32>| #![trigger walk_from(e1, a, p)] #![trigger walk_from(e2, a, p)]
        walk_from(e1, a, p) == walk_from(e2, a, p) by {
        assert(is_path(e1, p) == is_path(e2, p));
    }
}

/// What every implicit value of the children of `a` in `e1` and `e2`
/// shares: the same children, with the same budgets and stored implicit
/// values, right in both.
pub open spec fn children_agree(n1: Map<u32, Task>, e1: EdgeMap, n2: Map<u32, Task>, e2: EdgeMap, a: u32) -> bool {
    &&& forall|c: u32| #[trigger] has_edge(e1, a, c) <==> has_edge(e2, a, c)
    &&& forall|c: u32| #[trigger] has_edge(e1, a, c) ==> {
        &&& n1[c].budget == n2[c].budget
        &&& n1[c].implicit_priority == n2[c].implicit_priority
        &&& n1[c].implicit_due_date == n2[c].implicit_due_date
        &&& implicits_right(n1, e1, c)
        &&& implicits_right(n2, e2, c)
    }
}

/// The implicit values of a task are fixed by its own priority and due date
/// and by the budgets and implicit values of its children: where these agree
/// between two lists, and the children are right in both, the task is right
/// in one exactly when it is in the other.
pub proof fn lemma_implicits_local(n1: Map<u32, Task>, e1: EdgeMap, n2: Map<u32, Task>, e2: EdgeMap, a: u32)
    requires
        closed(n1.dom(), e1),
        closed(n2.dom(), e2),
        n1.dom().contains(a),
        n2.dom().contains(a),
        n1[a].priority == n2[a].priority,
        n1[a].due_date == n2[a].due_date,
        n1[a].implicit_priority == n2[a].implicit_priority,
        n1[a].implicit_due_date == n2[a].implicit_due_date,
        children_agree(n1, e1, n2, e2, a),
        implicits_right(n1, e1, a),
    ensures
        implicits_right(n2, e2, a),
{
    let x1 = explicit_part(n1);
    let x2 = explicit_part(n2);
    let p = n1[a].implicit_priority;
    assert(x1[a].priority == x2[a].priority);
    assert(x1[a].due_date == x2[a].due_date);
    // Every child's implicit priority is at most that of `a`.
    assert forall|c: u32| #[trigger] has_edge(e1, a, c) implies n1[c].implicit_priority <= p by {
        let pc = n1[c].implicit_priority;
        let w = choose|t: u32| #[trigger] reaches(e1, c, t) && x1[t].priority == pc;
        lemma_reaches_through_child(e1, a, c, w);
        assert(reaches(e1, a, w));
    }
    // Priority: the bound.
    assert forall|t: u32| #[trigger] reaches(e2, a, t) implies x2[t].priority <= p by {
        if t == a {
            assert(reaches(e1, a, a));
        } else {
            lemma_reaches_split(e2, a, t);
            let c = choose|c: u32| #[trigger] has_edge(e2, a, c) && reaches(e2, c, t);
            assert(has_edge(e1, a, c));
            assert(implicits_right(n2, e2, c));
        }
    }
    // Priority: the witness.
    let w = choose|t: u32| #[trigger] reaches(e1, a, t) && x1[t].priority == p;
    if w == a {
        assert(reaches(e2, a, a) && x2[a].priority == p);
    } else {
        lemma_reaches_split(e1, a, w);
        let c = choose|c: u32| #[trigger] has_edge(e1, a, c) && reaches(e1, c, w);
        assert(implicits_right(n1, e1, c));
        assert(n1[c].implicit_priority == p);
        assert(implicits_right(n2, e2, c));
        assert(has_edge(e2, a, c));
        let w2 = choose|t: u32| #[trigger] reaches(e2, c, t) && x2[t].priority == p;
        lemma_reaches_through_child(e2, a, c, w2);
    }
    assert(is_implicit_priority(x2, e2, a, p));
    // Due dates.
    let d = n1[a].implicit_due_date;
    let one = seq![a];
    assert(walk_from(e1, a, one)) by {
        assert(one.len() == 1);
    }
    assert(walk_from(e2, a, one));
    assert(walk_due(x1, one) == x1[a].due_date);
    assert(walk_due(x2, one) == x2[a].due_date);
    // A walk of `e2` from `a` through child `c` imposes no earlier date than a
    // walk of `e1` from `a` through the same child does at best.
    assert forall|q: Seq<u32>| #[trigger] walk_from(e2, a, q) && q.len() >= 2 && walk_due(x2, q) is Some implies
        (exists|q1: Seq<u32>| #[trigger] walk_from(e1, a, q1) && walk_due(x1, q1) is Some
            && walk_due(x1, q1)->Some_0.nanos <= walk_due(x2, q)->Some_0.nanos) by {
        lemma_walk_due_split(x2, e2, a, q);
        let c = q[1];
        let r = q.drop_first();
        assert(has_edge(e1, a, c));
        assert(implicits_right(n2, e2, c));
        let v = walk_due(x2, r)->Some_0;
        let dc = n2[c].implicit_due_date;
        assert(walk_from(e2, c, r));
        assert(dc is Some);
        let dd = dc->Some_0;
        assert(dd.nanos <= v.nanos);
        assert(implicits_right(n1, e1, c));
        let r1 = choose|r1: Seq<u32>| #[trigger] walk_from(e1, c, r1) && walk_due(x1, r1) == Some(dd);
        lemma_walk_due_prepend(x1, e1, a, r1);
        let q1 = seq![a] + r1;
        assert(x1[c].budget == x2[c].budget) by {
            assert(n1.dom().contains(c) && n2.dom().contains(c));
        }
        lemma_ts_minus_monotone(dd, v, x1[c].budget.0);
        assert(walk_from(e1, a, q1) && walk_due(x1, q1) is Some);
    }
    match d {
        None => {
            assert forall|q: Seq<u32>| #[trigger] walk_from(e2, a, q) implies walk_due(x2, q) is None by {
                if q.len() < 2 {
                    assert(q =~= one);
                } else if walk_due(x2, q) is Some {
                    let q1 = choose|q1: Seq<u32>| #[trigger] walk_from(e1, a, q1) && walk_due(x1, q1) is Some
                        && walk_due(x1, q1)->Some_0.nanos <= walk_due(x2, q)->Some_0.nanos;
                }
            }
        },
        Some(dv) => {
            assert forall|q: Seq<u32>| #[trigger] walk_from(e2, a, q) && walk_due(x2, q) is Some
                implies dv.nanos <= walk_due(x2, q)->Some_0.nanos by {
                if q.len() < 2 {
                    assert(q =~= one);
                } else {
                    let q1 = choose|q1: Seq<u32>| #[trigger] walk_from(e1, a, q1) && walk_due(x1, q1) is Some
                        && walk_due(x1, q1)->Some_0.nanos <= walk_due(x2, q)->Some_0.nanos;
                }
            }
            let p1 = choose|p1: Seq<u32>| #[trigger] walk_from(e1, a, p1) && walk_due(x1, p1) == Some(dv);
            if p1.len() < 2 {
                assert(p1 =~= one);
                assert(walk_from(e2, a, one) && walk_due(x2, one) == Some(dv));
            } else {
                lemma_walk_due_split(x1, e1, a, p1);
                let c = p1[1];
                let r = p1.drop_first();
                assert(implicits_right(n1, e1, c));
                assert(walk_from(e1, c, r));
                let w = walk_due(x1, r)->Some_0;
                let dd = n1[c].implicit_due_date->Some_0;
                assert(dd.nanos <= w.nanos);
                let b = x1[c].budget.0;
                lemma_ts_minus_monotone(dd, w, b);
                let r1 = choose|r1: Seq<u32>| #[trigger] walk_from(e1, c, r1) && walk_due(x1, r1) == Some(dd);
                lemma_walk_due_prepend(x1, e1, a, r1);
                assert(walk_from(e1, a, seq![a] + r1));
                assert(dv.nanos <= ts_minus_secs(dd, b).nanos);
                assert(dv == ts_minus_secs(dd, b));
                assert(has_edge(e2, a, c));
                assert(implicits_right(n2, e2, c));
                let r2 = choose|r2: Seq<u32>| #[trigger] walk_from(e2, c, r2) && walk_due(x2, r2) == Some(dd);
                lemma_walk_due_prepend(x2, e2, a, r2);
                assert(x1[c].budget == x2[c].budget) by {
                    assert(n1.dom().contains(c) && n2.dom().contains(c));
                }
                assert(walk_from(e2, a, seq![a] + r2) && walk_due(x2, seq![a] + r2) == Some(dv));
            }
        },
    }
}


/// Every task on the walk `p` stores implicit values that are not right.
pub open spec fn wrong_walk(n: Map<u32, Task>, es: EdgeMap, p: Seq<u32>) -> bool {
    &&& is_path(es, p)
    &&& forall|i: int| 0 <= i < p.len() ==> !#[trigger] implicits_right(n, es, p[i])
}

/// There is a walk from `t` to `x` of tasks whose implicit values are all
/// wrong: the path along which `update_implicits` on `x` repairs `t`.
pub open spec fn wrong_path(n: Map<u32, Task>, es: EdgeMap, t: u32, x: u32) -> bool {
    exists|p: Seq<u32>| #[trigger] wrong_walk(n, es, p) && p[0] == t && p.last() == x
}

/// A wrong walk stays wrong where each of its tasks is wrong.
pub proof fn lemma_wrong_path_keep(n1: Map<u32, Task>, n2: Map<u32, Task>, es: EdgeMap, t: u32, x: u32, p: Seq<u32>)
    requires
        wrong_walk(n1, es, p),
        p[0] == t,
        p.last() == x,
        forall|i: int| 0 <= i < p.len() ==> !#[trigger] implicits_right(n2, es, p[i]),
    ensures
        wrong_path(n2, es, t, x),
{
    assert(wrong_walk(n2, es, p));
}

/// The start of a wrong walk, up to any of its tasks, is a wrong walk.
pub proof fn lemma_wrong_walk_prefix(n: Map<u32, Task>, es: EdgeMap, p: Seq<u32>, k: int)
    requires
        wrong_walk(n, es, p),
        0 <= k < p.len(),
    ensures
        wrong_walk(n, es, p.take(k + 1)),
        p.take(k + 1)[0] == p[0],
        p.take(k + 1).last() == p[k],
{
    let q = p.take(k + 1);
    assert forall|i: int| 0 <= i < q.len() - 1 implies #[trigger] path_step(es, q, i) by {
        assert(path_step(es, p, i));
    }
    assert forall|i: int| 0 <= i < q.len() implies !#[trigger] implicits_right(n, es, q[i]) by {
        assert(q[i] == p[i]);
    }
}

/// Two wrong walks that meet join into one.
pub proof fn lemma_wrong_path_trans(n: Map<u32, Task>, es: EdgeMap, t: u32, v: u32, x: u32)
    requires
        wrong_path(n, es, t, v),
        wrong_path(n, es, v, x),
    ensures
        wrong_path(n, es, t, x),
{
    let p = choose|p: Seq<u32>| #[trigger] wrong_walk(n, es, p) && p[0] == t && p.last() == v;
    let q = choose|q: Seq<u32>| #[trigger] wrong_walk(n, es, q) && q[0] == v && q.last() == x;
    crate::model::graph_spec::lemma_path_concat(es, p, q);
    let r = p + q.drop_first();
    assert forall|i: int| 0 <= i < r.len() implies !#[trigger] implicits_right(n, es, r[i]) by {
        if i < p.len() {
            assert(r[i] == p[i]);
        } else {
            assert(r[i] == q[i - p.len() + 1]);
        }
    }
    assert(wrong_walk(n, es, r));
}

/// A wrong task followed by an edge into a task with a wrong walk to `x` has one too.
pub proof fn lemma_wrong_path_prepend(n: Map<u32, Task>, es: EdgeMap, t: u32, c: u32, x: u32)
    requires
        has_edge(es, t, c),
        !implicits_right(n, es, t),
        wrong_path(n, es, c, x),
    ensures
        wrong_path(n, es, t, x),
{
    let q = choose|q: Seq<u32>| #[trigger] wrong_walk(n, es, q) && q[0] == c && q.last() == x;
    lemma_walk_prepend(es, t, q);
    let r = seq![t] + q;
    assert forall|i: int| 0 <= i < r.len() implies !#[trigger] implicits_right(n, es, r[i]) by {
        if i > 0 {
            assert(r[i] == q[i - 1]);
        }
    }
    assert(wrong_walk(n, es, r));
}

/// A wrong walk ending in `x` ends in a wrong task with an edge into `x`,
/// unless it is `x` alone.
pub proof fn lemma_wrong_path_last_step(n: Map<u32, Task>, es: EdgeMap, t: u32, x: u32)
    requires
        wrong_path(n, es, t, x),
        t != x,
    ensures
        exists|u: u32| #[trigger] has_edge(es, u, x) && wrong_path(n, es, t, u)
            && (t == u || reach_plus(es, t, u)),
{
    let p = choose|p: Seq<u32>| #[trigger] wrong_walk(n, es, p) && p[0] == t && p.last() == x;
    let k = p.len() - 2;
    lemma_wrong_walk_prefix(n, es, p, k);
    assert(path_step(es, p, k));
    let q = p.take(k + 1);
    lemma_walk_reaches(es, q);
    assert(has_edge(es, p[k], x));
}

/// A walk of wrong tasks is wrong at each task that lies on it.
pub proof fn lemma_wrong_path_has_right_task(n1: Map<u32, Task>, n2: Map<u32, Task>, es: EdgeMap, t: u32, x: u32)
    requires
        wrong_path(n1, es, t, x),
        !wrong_path(n2, es, t, x),
    ensures
        exists|v: u32| #[trigger] implicits_right(n2, es, v) && wrong_path(n1, es, t, v),
{
    let p = choose|p: Seq<u32>| #[trigger] wrong_walk(n1, es, p) && p[0] == t && p.last() == x;
    if forall|i: int| 0 <= i < p.len() ==> !#[trigger] implicits_right(n2, es, p[i]) {
        lemma_wrong_path_keep(n1, n2, es, t, x, p);
    }
    let i = choose|i: int| 0 <= i < p.len() && #[trigger] implicits_right(n2, es, p[i]);
    lemma_wrong_walk_prefix(n1, es, p, i);
    assert(wrong_walk(n1, es, p.take(i + 1)));
}

/// A task alone is a wrong walk when it is wrong.
pub proof fn lemma_wrong_path_self(n: Map<u32, Task>, es: EdgeMap, t: u32)
    requires
        !implicits_right(n, es, t),
    ensures
        wrong_path(n, es, t, t),
{
    let p = seq![t];
    assert(wrong_walk(n, es, p));
}

/// When two lists differ only at `roots` (in explicit values or in the
/// children of those tasks, the budgets of their children included; a task
/// only the second list has is a root), and every task was right in the
/// first, every wrong task of the second has a walk of wrong tasks to one of
/// the roots.
pub proof fn lemma_wrong_reaches_root(n1: Map<u32, Task>, e1: EdgeMap, n2: Map<u32, Task>, e2: EdgeMap, roots: Set<u32>, t: u32)
    requires
        closed(n1.dom(), e1),
        closed(n2.dom(), e2),
        n1.dom().subset_of(n2.dom()),
        forall|a: u32| #[trigger] n2.dom().contains(a) && !n1.dom().contains(a) ==> roots.contains(a),
        n2.dom().finite(),
        acyclic(e2),
        forall|a: u32| #[trigger] n1.dom().contains(a) ==> implicits_right(n1, e1, a),
        forall|a: u32| #[trigger] n1.dom().contains(a) ==> n1[a].implicit_priority == n2[a].implicit_priority
            && n1[a].implicit_due_date == n2[a].implicit_due_date,
        forall|a: u32| #[trigger] n1.dom().contains(a) && !roots.contains(a) ==> {
            &&& n1[a].priority == n2[a].priority
            &&& n1[a].due_date == n2[a].due_date
            &&& forall|c: u32| #[trigger] has_edge(e1, a, c) <==> has_edge(e2, a, c)
            &&& forall|c: u32| #[trigger] has_edge(e1, a, c) ==> n1[c].budget == n2[c].budget
        },
        n2.dom().contains(t),
        !implicits_right(n2, e2, t),
    ensures
        exists|r: u32| #[trigger] roots.contains(r) && wrong_path(n2, e2, t, r),
    decreases crate::model::graph_spec::descendants(e2, t).len(),
{
    if roots.contains(t) {
        lemma_wrong_path_self(n2, e2, t);
        assert(roots.contains(t) && wrong_path(n2, e2, t, t));
    } else {
        if forall|c: u32| #[trigger] has_edge(e2, t, c) ==> implicits_right(n2, e2, c) {
            assert(children_agree(n1, e1, n2, e2, t)) by {
                assert forall|c: u32| #[trigger] has_edge(e1, t, c) implies {
                    &&& n1[c].budget == n2[c].budget
                    &&& n1[c].implicit_priority == n2[c].implicit_priority
                    &&& n1[c].implicit_due_date == n2[c].implicit_due_date
                    &&& implicits_right(n1, e1, c)
                    &&& implicits_right(n2, e2, c)
                } by {
                    let e = choose|e: usize| e1.contains_key(e) && #[trigger] e1[e] == (t, c);
                    assert(n1.dom().contains(c));
                    assert(has_edge(e2, t, c));
                }
            }
            lemma_implicits_local(n1, e1, n2, e2, t);
        }
        let c = choose|c: u32| #[trigger] has_edge(e2, t, c) && !implicits_right(n2, e2, c);
        let e = choose|e: usize| e2.contains_key(e) && #[trigger] e2[e] == (t, c);
        assert(n2.dom().contains(c));
        crate::model::graph_spec::lemma_descendants_shrink(n2.dom(), e2, t, c);
        lemma_wrong_reaches_root(n1, e1, n2, e2, roots, c);
        let r = choose|r: u32| #[trigger] roots.contains(r) && wrong_path(n2, e2, c, r);
        lemma_wrong_path_prepend(n2, e2, t, c, r);
    }
}


/// The tasks of a walk that starts at a task of `dom` are tasks of `dom`.
pub proof fn lemma_walk_in_dom(dom: Set<u32>, es: EdgeMap, p: Seq<u32>)
    requires
        closed(dom, es),
        is_path(es, p),
        dom.contains(p[0]),
    ensures
        forall|k: int| 0 <= k < p.len() ==> dom.contains(#[trigger] p[k]),
{
    assert forall|k: int| 0 <= k < p.len() implies dom.contains(#[trigger] p[k]) by {
        if k > 0 {
            assert(path_step(es, p, k - 1));
            let e = choose|e: usize| es.contains_key(e) && #[trigger] es[e] == (p[k - 1], p[k]);
        }
    }
}

/// A wrong task with an edge into a wrong task has a wrong walk to it.
pub proof fn lemma_wrong_path_edge(n: Map<u32, Task>, es: EdgeMap, u: u32, x: u32)
    requires
        has_edge(es, u, x),
        !implicits_right(n, es, u),
        !implicits_right(n, es, x),
    ensures
        wrong_path(n, es, u, x),
{
    lemma_wrong_path_self(n, es, x);
    lemma_wrong_path_prepend(n, es, u, x, x);
}


/// Every task of a walk reaches its end.
pub proof fn lemma_walk_suffix_reaches(es: EdgeMap, p: Seq<u32>, k: int)
    requires
        is_path(es, p),
        0 <= k < p.len(),
    ensures
        reaches(es, p[k], p.last()),
{
    let q = p.skip(k);
    assert forall|i: int| 0 <= i < q.len() - 1 implies #[trigger] path_step(es, q, i) by {
        assert(path_step(es, p, i + k));
    }
    lemma_walk_reaches(es, q);
    assert(q[0] == p[k]);
    assert(q.last() == p.last());
}


/// A task that nothing waits on is right when it stores its own priority
/// and due date.
pub proof fn lemma_leaf_right(n: Map<u32, Task>, es: EdgeMap, a: u32)
    requires
        n.dom().contains(a),
        forall|c: u32| !#[trigger] has_edge(es, a, c),
        n[a].implicit_priority == n[a].priority,
        n[a].implicit_due_date == n[a].due_date,
    ensures
        implicits_right(n, es, a),
{
    let x = explicit_part(n);
    assert forall|t: u32| #[trigger] reaches(es, a, t) implies t == a by {
        if t != a {
            lemma_reach_plus_first_step(es, a, t);
        }
    }
    assert(reaches(es, a, a));
    assert forall|p: Seq<u32>| #[trigger] walk_from(es, a, p) implies p =~= seq![a] by {
        if p.len() >= 2 {
            assert(path_step(es, p, 0));
        }
    }
    let one = seq![a];
    assert(walk_from(es, a, one));
    assert(walk_due(x, one) == x[a].due_date);
}


/// What a right task stores, seen from its children when they are right:
/// its implicit priority is the highest of its own priority and the
/// implicit priorities of its children; its implicit due date is the
/// earliest of its own due date and the implicit due dates of its children,
/// each moved earlier by that child's budget.
pub proof fn lemma_right_from_children(n: Map<u32, Task>, es: EdgeMap, a: u32)
    requires
        closed(n.dom(), es),
        n.dom().contains(a),
        implicits_right(n, es, a),
        forall|c: u32| #[trigger] has_edge(es, a, c) ==> implicits_right(n, es, c),
    ensures
        n[a].implicit_priority >= n[a].priority,
        forall|c: u32| #[trigger] has_edge(es, a, c) ==> n[c].implicit_priority <= n[a].implicit_priority,
        n[a].implicit_priority == n[a].priority
            || exists|c: u32| #[trigger] has_edge(es, a, c) && n[c].implicit_priority == n[a].implicit_priority,
        n[a].due_date is Some ==> n[a].implicit_due_date is Some
            && n[a].implicit_due_date->Some_0.nanos <= n[a].due_date->Some_0.nanos,
        forall|c: u32| #[trigger] has_edge(es, a, c) && n[c].implicit_due_date is Some ==> n[a].implicit_due_date is Some
            && n[a].implicit_due_date->Some_0.nanos
                <= ts_minus_secs(n[c].implicit_due_date->Some_0, n[c].budget.0).nanos,
        n[a].implicit_due_date is Some ==> n[a].implicit_due_date == n[a].due_date
            || exists|c: u32| #[trigger] has_edge(es, a, c) && n[c].implicit_due_date is Some
                && n[a].implicit_due_date == Some(ts_minus_secs(n[c].implicit_due_date->Some_0, n[c].budget.0)),
{
    let x = explicit_part(n);
    let p = n[a].implicit_priority;
    assert(reaches(es, a, a));
    assert forall|c: u32| #[trigger] has_edge(es, a, c) implies n[c].implicit_priority <= p by {
        let w = choose|t: u32| #[trigger] reaches(es, c, t) && x[t].priority == n[c].implicit_priority;
        lemma_reaches_through_child(es, a, c, w);
        assert(reaches(es, a, w));
    }
    let w = choose|t: u32| #[trigger] reaches(es, a, t) && x[t].priority == p;
    if w != a {
        lemma_reaches_split(es, a, w);
        let c = choose|c: u32| #[trigger] has_edge(es, a, c) && reaches(es, c, w);
        assert(implicits_right(n, es, c));
        assert(n[c].implicit_priority == p);
    }
    let one = seq![a];
    assert(walk_from(es, a, one));
    assert(walk_due(x, one) == x[a].due_date);
    let d = n[a].implicit_due_date;
    assert forall|c: u32| #[trigger] has_edge(es, a, c) && n[c].implicit_due_date is Some implies d is Some
        && d->Some_0.nanos <= ts_minus_secs(n[c].implicit_due_date->Some_0, n[c].budget.0).nanos by {
        assert(implicits_right(n, es, c));
        let dc = n[c].implicit_due_date->Some_0;
        let r = choose|r: Seq<u32>| #[trigger] walk_from(es, c, r) && walk_due(x, r) == Some(dc);
        lemma_walk_due_prepend(x, es, a, r);
        let e = choose|e: usize| es.contains_key(e) && #[trigger] es[e] == (a, c);
        assert(n.dom().contains(c));
        assert(walk_from(es, a, seq![a] + r));
    }
    if d is Some {
        let p1 = choose|p1: Seq<u32>| #[trigger] walk_from(es, a, p1) && walk_due(x, p1) == d;
        if p1.len() < 2 {
            assert(p1 =~= one);
        } else {
            lemma_walk_due_split(x, es, a, p1);
            let c = p1[1];
            let r = p1.drop_first();
            let e = choose|e: usize| es.contains_key(e) && #[trigger] es[e] == (a, c);
            assert(n.dom().contains(c));
            assert(implicits_right(n, es, c));
            assert(walk_from(es, c, r));
            let wv = walk_due(x, r)->Some_0;
            let dd = n[c].implicit_due_date->Some_0;
            lemma_ts_minus_monotone(dd, wv, n[c].budget.0);
            assert(d == Some(ts_minus_secs(dd, n[c].budget.0)));
        }
    }
}

} // verus!
