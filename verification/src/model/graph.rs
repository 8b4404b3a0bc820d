use vstd::prelude::*;
use daggy::petgraph::graph::{EdgeIndex, NodeIndex};
use daggy::stable_dag::StableDag;
use daggy::Walker;
use crate::model::graph_spec::{closed, has_edge, reaches, EdgeMap};
use crate::model::task::Task;

verus! {

/// Declares daggy's cycle error, which `update_edge` returns.
#[verifier::external_type_specification]
#[verifier::external_body]
#[verifier::reject_recursive_types(E)]
pub struct ExWouldCycle<E>(daggy::WouldCycle<E>);

/// The dependency graph of a todo list: daggy's `StableDag` with tasks as
/// node weights. An edge `a -> b` means that `b` depends on `a`.
#[verifier::external_body]
#[derive(Debug)]
pub struct TaskGraph {
    dag: StableDag<Task, (), u32>,
}

/// The nodes of the graph: node index to task.
pub uninterp spec fn graph_nodes(g: TaskGraph) -> Map<u32, Task>;

/// The edges of the graph: edge index to (source, target).
pub uninterp spec fn graph_edges(g: TaskGraph) -> Map<usize, (u32, u32)>;

/// How many node slots the graph's storage has, those of removed nodes
/// included. A new node takes a fresh slot at the end only when no slot is
/// vacant.
pub uninterp spec fn graph_slots(g: TaskGraph) -> nat;

/// What holds of every `StableDag`: finitely many nodes and edges, every
/// edge joins two nodes of the graph, and no node has the index `u32::MAX`,
/// which petgraph keeps for "no node".
pub open spec fn graph_wf(g: TaskGraph) -> bool {
    &&& graph_nodes(g).dom().finite()
    &&& graph_edges(g).dom().finite()
    &&& closed(graph_nodes(g).dom(), graph_edges(g))
    &&& forall|k: u32| #[trigger] graph_nodes(g).dom().contains(k) ==> k < u32::MAX
    &&& forall|e: usize| #[trigger] graph_edges(g).dom().contains(e) ==> e < u32::MAX
}

/// `StableDag::new`: an empty graph.
#[verifier::external_body]
pub(crate) fn graph_new() -> (res: TaskGraph)
    ensures
        graph_nodes(res) =~= Map::empty(),
        graph_edges(res) =~= Map::empty(),
        graph_wf(res),
        graph_slots(res) == 0,
{
    TaskGraph { dag: StableDag::new() }
}

/// `StableDag::add_node`: adds a node holding `weight` at an index that no
/// node of the graph has, and returns that index. A vacant slot is reused if
/// there is one; else the node takes a new slot at the end, whose index is the
/// number of slots before the call. petgraph panics only when the index would
/// be `u32::MAX`, which cannot happen while the graph has fewer than
/// `u32::MAX` nodes.
#[verifier::external_body]
pub(crate) fn graph_add_node(g: &mut TaskGraph, weight: Task) -> (res: u32)
    requires
        graph_nodes(*old(g)).dom().len() < u32::MAX,
    ensures
        !graph_nodes(*old(g)).dom().contains(res),
        graph_nodes(*final(g)) == graph_nodes(*old(g)).insert(res, weight),
        graph_edges(*final(g)) == graph_edges(*old(g)),
        graph_wf(*old(g)) ==> graph_wf(*final(g)),
        (forall|k: u32| (k as nat) < graph_slots(*old(g)) ==> graph_nodes(*old(g)).dom().contains(k)) ==> {
            &&& res as nat == graph_slots(*old(g))
            &&& graph_slots(*final(g)) == graph_slots(*old(g)) + 1
        },
{
    g.dag.add_node(weight).index() as u32
}

/// `StableDag::node_weight`: the task at index `i`, if there is one.
#[verifier::external_body]
pub(crate) fn graph_node_weight(g: &TaskGraph, i: u32) -> (res: Option<&Task>)
    ensures
        match res {
            Some(t) => graph_nodes(*g).dom().contains(i) && *t == graph_nodes(*g)[i],
            None => !graph_nodes(*g).dom().contains(i),
        },
{
    g.dag.node_weight(NodeIndex::new(i as usize))
}

/// `StableDag`'s `IndexMut`: replaces the task at index `i`, which must exist
/// (indexing panics otherwise).
#[verifier::external_body]
pub(crate) fn graph_set_node(g: &mut TaskGraph, i: u32, weight: Task)
    requires
        graph_nodes(*old(g)).dom().contains(i),
    ensures
        graph_nodes(*final(g)) == graph_nodes(*old(g)).insert(i, weight),
        graph_edges(*final(g)) == graph_edges(*old(g)),
        graph_wf(*old(g)) ==> graph_wf(*final(g)),
{
    g.dag[NodeIndex::new(i as usize)] = weight;
}

/// `StableDag::parents`, walked to the end: the sources of the edges into
/// `i`, one entry per edge.
#[verifier::external_body]
pub(crate) fn graph_parents(g: &TaskGraph, i: u32) -> (res: Vec<u32>)
    ensures
        forall|p: u32| res@.contains(p) <==> has_edge(graph_edges(*g), p, i),
{
    g.dag.parents(NodeIndex::new(i as usize)).iter(&g.dag).map(|(_, n)| n.index() as u32).collect()
}

/// `StableDag::children`, walked to the end: the targets of the edges out of
/// `i`, one entry per edge.
#[verifier::external_body]
pub(crate) fn graph_children(g: &TaskGraph, i: u32) -> (res: Vec<u32>)
    ensures
        forall|c: u32| res@.contains(c) <==> has_edge(graph_edges(*g), i, c),
{
    g.dag.children(NodeIndex::new(i as usize)).iter(&g.dag).map(|(_, n)| n.index() as u32).collect()
}

/// `StableDag::update_edge` from `a` to `b`, both nodes of the graph (adding
/// an edge between missing nodes panics). If the edge exists it is kept and
/// its index returned. Otherwise, if `a` can be reached from `b` (also when
/// `a == b`) the graph is unchanged and the cycle error returned; if not, an
/// edge with an unused index is added and its index returned. petgraph panics
/// only when a new edge index would be `u32::MAX`, which cannot happen while
/// the graph has fewer than `u32::MAX` edges.
#[verifier::external_body]
pub(crate) fn graph_update_edge(g: &mut TaskGraph, a: u32, b: u32) -> (res: Result<usize, daggy::WouldCycle<()>>)
    requires
        graph_nodes(*old(g)).dom().contains(a),
        graph_nodes(*old(g)).dom().contains(b),
        graph_edges(*old(g)).dom().len() < u32::MAX,
    ensures
        graph_nodes(*final(g)) == graph_nodes(*old(g)),
        graph_wf(*old(g)) ==> graph_wf(*final(g)),
        has_edge(graph_edges(*old(g)), a, b) ==> {
            &&& res is Ok
            &&& graph_edges(*final(g)) == graph_edges(*old(g))
        },
        !has_edge(graph_edges(*old(g)), a, b) && reaches(graph_edges(*old(g)), b, a) ==> {
            &&& res is Err
            &&& graph_edges(*final(g)) == graph_edges(*old(g))
        },
        !has_edge(graph_edges(*old(g)), a, b) && !reaches(graph_edges(*old(g)), b, a) ==> {
            &&& res is Ok
            &&& !graph_edges(*old(g)).dom().contains(res->Ok_0)
            &&& graph_edges(*final(g)) == graph_edges(*old(g)).insert(res->Ok_0, (a, b))
        },
{
    g.dag.update_edge(NodeIndex::new(a as usize), NodeIndex::new(b as usize), ()).map(|e| e.index())
}

/// `StableDag::find_edge`: the index of an edge from `a` to `b`, if there is one.
#[verifier::external_body]
pub(crate) fn graph_find_edge(g: &TaskGraph, a: u32, b: u32) -> (res: Option<usize>)
    ensures
        match res {
            Some(e) => graph_edges(*g).dom().contains(e) && graph_edges(*g)[e] == (a, b),
            None => !has_edge(graph_edges(*g), a, b),
        },
{
    g.dag.find_edge(NodeIndex::new(a as usize), NodeIndex::new(b as usize)).map(|e| e.index())
}

/// `StableDag::remove_edge`: removes the edge with index `e`, if there is one.
/// petgraph's edge indices are `u32`, so `e` must be below `u32::MAX`
/// (a larger one would be truncated to another edge's index).
#[verifier::external_body]
pub(crate) fn graph_remove_edge(g: &mut TaskGraph, e: usize)
    requires
        e < u32::MAX,
    ensures
        graph_nodes(*final(g)) == graph_nodes(*old(g)),
        graph_edges(*final(g)) == graph_edges(*old(g)).remove(e),
        graph_wf(*old(g)) ==> graph_wf(*final(g)),
{
    g.dag.remove_edge(EdgeIndex::new(e));
}

/// The edges of `es` that neither start nor end at `i`.
pub open spec fn edges_avoiding(es: EdgeMap, i: u32) -> EdgeMap {
    es.restrict(Set::new(|e: usize| es.dom().contains(e) && es[e].0 != i && es[e].1 != i))
}

/// `StableDag::remove_node`: removes node `i`, if there is one, with every
/// edge into or out of it.
#[verifier::external_body]
pub(crate) fn graph_remove_node(g: &mut TaskGraph, i: u32)
    ensures
        graph_nodes(*final(g)) == graph_nodes(*old(g)).remove(i),
        graph_edges(*final(g)) == edges_avoiding(graph_edges(*old(g)), i),
        graph_wf(*old(g)) ==> graph_wf(*final(g)),
{
    g.dag.remove_node(NodeIndex::new(i as usize));
}

} // verus!
