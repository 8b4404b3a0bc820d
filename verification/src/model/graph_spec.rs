use vstd::prelude::*;

verus! {

/// The edges of a task graph: edge index to (dependency, antidependency).
pub type EdgeMap = Map<usize, (u32, u32)>;

/// There is an edge from `a` to `b`.
pub open spec fn has_edge(es: EdgeMap, a: u32, b: u32) -> bool {
    exists|e: usize| es.contains_key(e) && #[trigger] es[e] == (a, b)
}

/// Step `i` of `p` follows an edge.
pub open spec fn path_step(es: EdgeMap, p: Seq<u32>, i: int) -> bool {
    has_edge(es, p[i], p[i + 1])
}

/// `p` is a (possibly trivial) walk along edges.
pub open spec fn is_path(es: EdgeMap, p: Seq<u32>) -> bool {
    &&& p.len() >= 1
    &&& forall|i: int| 0 <= i < p.len() - 1 ==> #[trigger] path_step(es, p, i)
}

/// There is a walk of at least one edge from `a` to `b`.
pub open spec fn reach_plus(es: EdgeMap, a: u32, b: u32) -> bool {
    exists|p: Seq<u32>| #[trigger] is_path(es, p) && p.len() >= 2 && p[0] == a && p.last() == b
}

/// `b` is `a` or can be reached from it.
pub open spec fn reaches(es: EdgeMap, a: u32, b: u32) -> bool {
    a == b || reach_plus(es, a, b)
}

/// No walk of at least one edge returns to where it started.
pub open spec fn acyclic(es: EdgeMap) -> bool {
    forall|a: u32| !#[trigger] reach_plus(es, a, a)
}

/// Every edge joins nodes of `dom`.
pub open spec fn closed(dom: Set<u32>, es: EdgeMap) -> bool {
    forall|e: usize| #[trigger] es.contains_key(e) ==> dom.contains(es[e].0) && dom.contains(es[e].1)
}

/// No two edges join the same pair of nodes in the same direction.
pub open spec fn no_parallel(es: EdgeMap) -> bool {
    forall|e1: usize, e2: usize|
        es.contains_key(e1) && es.contains_key(e2) && #[trigger] es[e1] == #[trigger] es[e2] ==> e1 == e2
}

/// The nodes reachable from `a` by at least one edge.
pub open spec fn descendants(es: EdgeMap, a: u32) -> Set<u32> {
    Set::new(|b: u32| reach_plus(es, a, b))
}

/// The nodes from which `a` is reachable by at least one edge.
pub open spec fn ancestors(es: EdgeMap, a: u32) -> Set<u32> {
    Set::new(|b: u32| reach_plus(es, b, a))
}

pub proof fn lemma_edge_path(es: EdgeMap, a: u32, b: u32)
    requires
        has_edge(es, a, b),
    ensures
        is_path(es, seq![a, b]),
        reach_plus(es, a, b),
{
    let p = seq![a, b];
    assert forall|i: int| 0 <= i < p.len() - 1 implies #[trigger] path_step(es, p, i) by {
        assert(i == 0);
    }
    assert(is_path(es, p));
}

pub proof fn lemma_path_concat(es: EdgeMap, p: Seq<u32>, q: Seq<u32>)
    requires
        is_path(es, p),
        is_path(es, q),
        p.last() == q[0],
    ensures
        is_path(es, p + q.drop_first()),
        (p + q.drop_first()).len() == p.len() + q.len() - 1,
        (p + q.drop_first())[0] == p[0],
        (p + q.drop_first()).last() == q.last(),
{
    let r = p + q.drop_first();
    assert forall|i: int| 0 <= i < r.len() - 1 implies #[trigger] path_step(es, r, i) by {
        if i < p.len() - 1 {
            assert(path_step(es, p, i));
            assert(r[i] == p[i] && r[i + 1] == p[i + 1]);
        } else {
            let j = i - (p.len() - 1);
            assert(path_step(es, q, j));
            assert(r[i] == q[j]);
            assert(r[i + 1] == q[j + 1]);
        }
    }
}

pub proof fn lemma_reach_plus_trans(es: EdgeMap, a: u32, b: u32, c: u32)
    requires
        reach_plus(es, a, b),
        reach_plus(es, b, c),
    ensures
        reach_plus(es, a, c),
{
    let p = choose|p: Seq<u32>| #[trigger] is_path(es, p) && p.len() >= 2 && p[0] == a && p.last() == b;
    let q = choose|q: Seq<u32>| #[trigger] is_path(es, q) && q.len() >= 2 && q[0] == b && q.last() == c;
    lemma_path_concat(es, p, q);
    let r = p + q.drop_first();
    assert(is_path(es, r) && r.len() >= 2 && r[0] == a && r.last() == c);
}

pub proof fn lemma_edge_then_reach(es: EdgeMap, a: u32, b: u32, c: u32)
    requires
        has_edge(es, a, b),
        reaches(es, b, c),
    ensures
        reach_plus(es, a, c),
{
    lemma_edge_path(es, a, b);
    if b != c {
        lemma_reach_plus_trans(es, a, b, c);
    }
}

pub proof fn lemma_reach_then_edge(es: EdgeMap, a: u32, b: u32, c: u32)
    requires
        reaches(es, a, b),
        has_edge(es, b, c),
    ensures
        reach_plus(es, a, c),
{
    lemma_edge_path(es, b, c);
    if a != b {
        lemma_reach_plus_trans(es, a, b, c);
    }
}

/// The end of a walk of at least one edge is a node of a closed graph.
pub proof fn lemma_reach_plus_in_dom(dom: Set<u32>, es: EdgeMap, a: u32, b: u32)
    requires
        closed(dom, es),
        reach_plus(es, a, b),
    ensures
        dom.contains(b),
        dom.contains(a),
{
    let p = choose|p: Seq<u32>| #[trigger] is_path(es, p) && p.len() >= 2 && p[0] == a && p.last() == b;
    assert(path_step(es, p, p.len() - 2));
    let e = choose|e: usize| es.contains_key(e) && #[trigger] es[e] == (p[p.len() - 2], p[p.len() - 1]);
    assert(path_step(es, p, 0));
    let e0 = choose|e: usize| es.contains_key(e) && #[trigger] es[e] == (p[0], p[1]);
}

pub proof fn lemma_descendants_finite(dom: Set<u32>, es: EdgeMap, a: u32)
    requires
        closed(dom, es),
        dom.finite(),
    ensures
        descendants(es, a).subset_of(dom),
        descendants(es, a).finite(),
{
    assert forall|b: u32| descendants(es, a).contains(b) implies dom.contains(b) by {
        lemma_reach_plus_in_dom(dom, es, a, b);
    }
    vstd::set_lib::lemma_len_subset(descendants(es, a), dom);
}

pub proof fn lemma_ancestors_finite(dom: Set<u32>, es: EdgeMap, a: u32)
    requires
        closed(dom, es),
        dom.finite(),
    ensures
        ancestors(es, a).subset_of(dom),
        ancestors(es, a).finite(),
{
    assert forall|b: u32| ancestors(es, a).contains(b) implies dom.contains(b) by {
        lemma_reach_plus_in_dom(dom, es, b, a);
    }
    vstd::set_lib::lemma_len_subset(ancestors(es, a), dom);
}

/// Following an edge strictly shrinks the set of descendants of an acyclic graph.
pub proof fn lemma_descendants_shrink(dom: Set<u32>, es: EdgeMap, a: u32, b: u32)
    requires
        closed(dom, es),
        dom.finite(),
        acyclic(es),
        has_edge(es, a, b),
    ensures
        descendants(es, b).len() < descendants(es, a).len(),
{
    lemma_descendants_finite(dom, es, a);
    lemma_descendants_finite(dom, es, b);
    let da = descendants(es, a);
    let db = descendants(es, b);
    assert forall|c: u32| db.contains(c) implies da.remove(b).contains(c) by {
        lemma_edge_then_reach(es, a, b, c);
        assert(!reach_plus(es, b, b));
    }
    lemma_edge_path(es, a, b);
    assert(da.contains(b));
    vstd::set_lib::lemma_len_subset(db, da.remove(b));
}

/// Following an edge backwards strictly shrinks the set of ancestors of an acyclic graph.
pub proof fn lemma_ancestors_shrink(dom: Set<u32>, es: EdgeMap, a: u32, b: u32)
    requires
        closed(dom, es),
        dom.finite(),
        acyclic(es),
        has_edge(es, a, b),
    ensures
        ancestors(es, a).len() < ancestors(es, b).len(),
{
    lemma_ancestors_finite(dom, es, a);
    lemma_ancestors_finite(dom, es, b);
    let aa = ancestors(es, a);
    let ab = ancestors(es, b);
    assert forall|c: u32| aa.contains(c) implies ab.remove(a).contains(c) by {
        lemma_reach_then_edge(es, c, a, b);
        assert(!reach_plus(es, a, a));
    }
    lemma_edge_path(es, a, b);
    assert(ab.contains(a));
    vstd::set_lib::lemma_len_subset(aa, ab.remove(a));
}

/// Every edge of `small` is an edge of `big`, so every walk of `small` is a walk of `big`.
pub proof fn lemma_sub_edges_reach(small: EdgeMap, big: EdgeMap, a: u32, b: u32)
    requires
        forall|x: u32, y: u32| #[trigger] has_edge(small, x, y) ==> has_edge(big, x, y),
        reach_plus(small, a, b),
    ensures
        reach_plus(big, a, b),
{
    let p = choose|p: Seq<u32>| #[trigger] is_path(small, p) && p.len() >= 2 && p[0] == a && p.last() == b;
    assert forall|i: int| 0 <= i < p.len() - 1 implies #[trigger] path_step(big, p, i) by {
        assert(path_step(small, p, i));
    }
    assert(is_path(big, p));
}

pub proof fn lemma_sub_edges_acyclic(small: EdgeMap, big: EdgeMap)
    requires
        forall|x: u32, y: u32| #[trigger] has_edge(small, x, y) ==> has_edge(big, x, y),
        acyclic(big),
    ensures
        acyclic(small),
{
    assert forall|a: u32| !#[trigger] reach_plus(small, a, a) by {
        if reach_plus(small, a, a) {
            lemma_sub_edges_reach(small, big, a, a);
        }
    }
}

/// A walk in a graph with one added edge `a -> b` either avoids the new edge
/// or passes through it.
proof fn lemma_path_with_new_edge(es: EdgeMap, e: usize, a: u32, b: u32, p: Seq<u32>)
    requires
        is_path(es.insert(e, (a, b)), p),
        !es.contains_key(e),
        p.len() >= 2,
    ensures
        reach_plus(es, p[0], p.last()) || (reaches(es, p[0], a) && reaches(es, b, p.last())),
    decreases p.len(),
{
    let es2 = es.insert(e, (a, b));
    let x = p[p.len() - 2];
    let y = p.last();
    assert(path_step(es2, p, p.len() - 2));
    let k = choose|k: usize| es2.contains_key(k) && #[trigger] es2[k] == (x, y);
    let old_edge = k != e;
    if old_edge {
        assert(es.contains_key(k) && es[k] == (x, y));
        assert(has_edge(es, x, y));
    }
    if p.len() == 2 {
        if old_edge {
            lemma_edge_path(es, x, y);
        } else {
            assert(x == a && y == b);
        }
    } else {
        let q = p.drop_last();
        assert forall|i: int| 0 <= i < q.len() - 1 implies #[trigger] path_step(es2, q, i) by {
            assert(path_step(es2, p, i));
        }
        lemma_path_with_new_edge(es, e, a, b, q);
        assert(q[0] == p[0] && q.last() == x);
        if old_edge {
            if reach_plus(es, p[0], x) {
                lemma_reach_then_edge(es, p[0], x, y);
            } else {
                lemma_reach_then_edge(es, b, x, y);
            }
        } else {
            assert(x == a && y == b);
            if reach_plus(es, p[0], x) {
            } else {
            }
        }
    }
}

/// Adding an edge `a -> b` keeps a graph acyclic when `a` cannot be reached from `b`.
pub proof fn lemma_add_edge_acyclic(es: EdgeMap, e: usize, a: u32, b: u32)
    requires
        acyclic(es),
        !es.contains_key(e),
        !reaches(es, b, a),
    ensures
        acyclic(es.insert(e, (a, b))),
{
    let es2 = es.insert(e, (a, b));
    assert forall|x: u32| !#[trigger] reach_plus(es2, x, x) by {
        if reach_plus(es2, x, x) {
            let p = choose|p: Seq<u32>| #[trigger] is_path(es2, p) && p.len() >= 2 && p[0] == x && p.last() == x;
            lemma_path_with_new_edge(es, e, a, b, p);
            if reach_plus(es, x, x) {
            } else {
                assert(reaches(es, x, a) && reaches(es, b, x));
                if b == x {
                } else if x == a {
                } else {
                    lemma_reach_plus_trans(es, b, x, a);
                }
            }
        }
    }
}


/// A walk of `small` whose every edge is a walk of `big` is a walk of `big`.
pub proof fn lemma_path_through_walks(small: EdgeMap, big: EdgeMap, p: Seq<u32>)
    requires
        forall|x: u32, y: u32| #[trigger] has_edge(small, x, y) ==> reach_plus(big, x, y),
        is_path(small, p),
        p.len() >= 2,
    ensures
        reach_plus(big, p[0], p.last()),
    decreases p.len(),
{
    assert(path_step(small, p, p.len() - 2));
    if p.len() > 2 {
        let q = p.drop_last();
        assert forall|i: int| 0 <= i < q.len() - 1 implies #[trigger] path_step(small, q, i) by {
            assert(path_step(small, p, i));
        }
        lemma_path_through_walks(small, big, q);
        lemma_reach_plus_trans(big, p[0], p[p.len() - 2], p.last());
    }
}

/// When every edge of `small` is a walk of `big`, so is every walk of `small`.
pub proof fn lemma_reach_through_walks(small: EdgeMap, big: EdgeMap, a: u32, b: u32)
    requires
        forall|x: u32, y: u32| #[trigger] has_edge(small, x, y) ==> reach_plus(big, x, y),
        reach_plus(small, a, b),
    ensures
        reach_plus(big, a, b),
{
    let p = choose|p: Seq<u32>| #[trigger] is_path(small, p) && p.len() >= 2 && p[0] == a && p.last() == b;
    lemma_path_through_walks(small, big, p);
}

} // verus!

verus! {

/// A walk of at least one edge from `a` starts with an edge out of `a`.
pub proof fn lemma_reach_plus_first_step(es: EdgeMap, a: u32, t: u32)
    requires
        reach_plus(es, a, t),
    ensures
        exists|c: u32| #[trigger] has_edge(es, a, c) && reaches(es, c, t),
{
    let p = choose|p: Seq<u32>| #[trigger] is_path(es, p) && p.len() >= 2 && p[0] == a && p.last() == t;
    let c = p[1];
    assert(path_step(es, p, 0));
    assert(has_edge(es, a, c));
    if p.len() > 2 {
        let q = p.drop_first();
        assert forall|i: int| 0 <= i < q.len() - 1 implies #[trigger] path_step(es, q, i) by {
            assert(path_step(es, p, i + 1));
        }
        assert(is_path(es, q) && q.len() >= 2 && q[0] == c && q.last() == t);
    }
}

/// A walk of at least one edge to `t` ends with an edge into `t`.
pub proof fn lemma_reach_plus_last_step(es: EdgeMap, a: u32, t: u32)
    requires
        reach_plus(es, a, t),
    ensures
        exists|c: u32| #[trigger] has_edge(es, c, t) && reaches(es, a, c),
{
    let p = choose|p: Seq<u32>| #[trigger] is_path(es, p) && p.len() >= 2 && p[0] == a && p.last() == t;
    let c = p[p.len() - 2];
    assert(path_step(es, p, p.len() - 2));
    assert(has_edge(es, c, t));
    if p.len() > 2 {
        let q = p.drop_last();
        assert forall|i: int| 0 <= i < q.len() - 1 implies #[trigger] path_step(es, q, i) by {
            assert(path_step(es, p, i));
        }
        assert(is_path(es, q) && q.len() >= 2 && q[0] == a && q.last() == c);
    }
}

/// A walk from `a` is `a` alone, or `a` followed by a walk from one of its children.
pub proof fn lemma_walk_split(es: EdgeMap, p: Seq<u32>)
    requires
        is_path(es, p),
        p.len() >= 2,
    ensures
        has_edge(es, p[0], p[1]),
        is_path(es, p.drop_first()),
        p.drop_first()[0] == p[1],
{
    assert(path_step(es, p, 0));
    let q = p.drop_first();
    assert forall|i: int| 0 <= i < q.len() - 1 implies #[trigger] path_step(es, q, i) by {
        assert(path_step(es, p, i + 1));
    }
}

/// `a` followed by a walk from a child of `a` is a walk from `a`.
pub proof fn lemma_walk_prepend(es: EdgeMap, a: u32, q: Seq<u32>)
    requires
        is_path(es, q),
        has_edge(es, a, q[0]),
    ensures
        is_path(es, seq![a] + q),
        (seq![a] + q)[0] == a,
        (seq![a] + q).drop_first() == q,
        (seq![a] + q).len() == q.len() + 1,
{
    let p = seq![a] + q;
    assert forall|i: int| 0 <= i < p.len() - 1 implies #[trigger] path_step(es, p, i) by {
        if i > 0 {
            assert(path_step(es, q, i - 1));
        }
    }
    assert(p.drop_first() =~= q);
}

/// The end of a walk from `a` of at least two nodes can be reached from `a`.
pub proof fn lemma_walk_reaches(es: EdgeMap, p: Seq<u32>)
    requires
        is_path(es, p),
    ensures
        reaches(es, p[0], p.last()),
{
    if p.len() >= 2 {
        assert(reach_plus(es, p[0], p.last()));
    }
}

} // verus!
