//! The topology graph is a `petgraph` stable undirected graph. Verus cannot see
//! inside it, so its contents are described by two names: the node slots and
//! the edge slots, each a sequence indexed by the slot number, with `None` for
//! a vacant slot. Every operation the routing logic uses is a small trusted
//! wrapper whose contract is read off petgraph's `StableGraph` source.
use petgraph::graph::{EdgeIndex, NodeIndex};
use petgraph::stable_graph::StableGraph;
use petgraph::Undirected;
use vstd::prelude::*;

use crate::routing::Node;

verus! {

#[verifier::external_type_specification]
#[verifier::external_body]
#[verifier::reject_recursive_types(N)]
#[verifier::reject_recursive_types(E)]
#[verifier::reject_recursive_types(Ty)]
#[verifier::reject_recursive_types(Ix)]
pub struct ExStableGraph<N, E, Ty, Ix>(StableGraph<N, E, Ty, Ix>);

#[verifier::external_type_specification]
#[verifier::external_body]
pub struct ExUndirected(Undirected);

/// The node slots of a graph: slot `i` holds `Some(weight)` when node index
/// `i` is live and `None` when it is vacant. Its length is the number of
/// slots the graph has ever used.
pub uninterp spec fn graph_nodes(g: StableGraph<Node, (), Undirected, u32>) -> Seq<Option<Node>>;

/// The edge slots of a graph: slot `e` holds `Some((a, b))` when edge index
/// `e` is live and joins node `a` (its source) to node `b` (its target).
pub uninterp spec fn graph_edges(g: StableGraph<Node, (), Undirected, u32>) -> Seq<Option<(u32, u32)>>;

/// Node slot `i` is live.
pub open spec fn node_live(nodes: Seq<Option<Node>>, i: int) -> bool {
    0 <= i < nodes.len() && nodes[i] is Some
}

/// Some edge slot joins `a` and `b`, in either direction.
pub open spec fn edge_between(edges: Seq<Option<(u32, u32)>>, a: u32, b: u32) -> bool {
    exists|e: int|
        0 <= e < edges.len() && (#[trigger] edges[e] == Some((a, b)) || edges[e] == Some((b, a)))
}

/// Edge slot `e` is live and touches node `a`.
pub open spec fn edge_touches(edges: Seq<Option<(u32, u32)>>, e: int, a: u32) -> bool {
    0 <= e < edges.len() && edges[e] is Some && (edges[e].unwrap().0 == a || edges[e].unwrap().1 == a)
}

/// `StableGraph::default`: a graph with no node slots and no edge slots.
#[verifier::external_body]
pub(crate) fn graph_new() -> (g: StableGraph<Node, (), Undirected, u32>)
    ensures
        graph_nodes(g) == Seq::<Option<Node>>::empty(),
        graph_edges(g) == Seq::<Option<(u32, u32)>>::empty(),
{
    StableGraph::default()
}

/// `StableGraph::add_node`: reuses a vacant slot if there is one (the head of
/// its free list, which the contract leaves open), otherwise appends a slot;
/// it panics when appending would reach the index type's maximum, which the
/// `requires` rules out.
#[verifier::external_body]
pub(crate) fn graph_add_node(g: &mut StableGraph<Node, (), Undirected, u32>, n: Node) -> (i: u32)
    requires
        (exists|j: int| 0 <= j < graph_nodes(*old(g)).len() && graph_nodes(*old(g))[j] is None)
            || graph_nodes(*old(g)).len() + 1 < u32::MAX,
    ensures
        graph_edges(*final(g)) == graph_edges(*old(g)),
        i < graph_nodes(*final(g)).len(),
        i < graph_nodes(*old(g)).len() ==> graph_nodes(*old(g))[i as int] is None && graph_nodes(
            *final(g),
        ) == graph_nodes(*old(g)).update(i as int, Some(n)),
        i >= graph_nodes(*old(g)).len() ==> i == graph_nodes(*old(g)).len() && (forall|j: int|
            0 <= j < graph_nodes(*old(g)).len() ==> graph_nodes(*old(g))[j] is Some) && graph_nodes(
            *final(g),
        ) == graph_nodes(*old(g)).push(Some(n)),
{
    g.add_node(n).index() as u32
}

/// `StableGraph[i]`: the weight of a live node (it panics on a vacant index,
/// which the `requires` rules out).
#[verifier::external_body]
pub(crate) fn graph_node(g: &StableGraph<Node, (), Undirected, u32>, i: u32) -> (n: Node)
    requires
        node_live(graph_nodes(*g), i as int),
    ensures
        graph_nodes(*g)[i as int] == Some(n),
{
    g[NodeIndex::new(i as usize)]
}

/// `StableGraph[i] = n` (through `IndexMut`): replaces the weight of a live node.
#[verifier::external_body]
pub(crate) fn graph_set_node(g: &mut StableGraph<Node, (), Undirected, u32>, i: u32, n: Node)
    requires
        node_live(graph_nodes(*old(g)), i as int),
    ensures
        graph_nodes(*final(g)) == graph_nodes(*old(g)).update(i as int, Some(n)),
        graph_edges(*final(g)) == graph_edges(*old(g)),
{
    g[NodeIndex::new(i as usize)] = n;
}

/// `StableGraph::add_edge`: both ends must be live nodes (it panics otherwise);
/// reuses a vacant edge slot if there is one (which one is left open),
/// otherwise appends a slot, panicking when that would reach the index type's
/// maximum.
#[verifier::external_body]
pub(crate) fn graph_add_edge(g: &mut StableGraph<Node, (), Undirected, u32>, a: u32, b: u32) -> (e: u32)
    requires
        node_live(graph_nodes(*old(g)), a as int),
        node_live(graph_nodes(*old(g)), b as int),
        (exists|j: int| 0 <= j < graph_edges(*old(g)).len() && graph_edges(*old(g))[j] is None)
            || graph_edges(*old(g)).len() + 1 < u32::MAX,
    ensures
        graph_nodes(*final(g)) == graph_nodes(*old(g)),
        e < graph_edges(*final(g)).len(),
        e < graph_edges(*old(g)).len() ==> graph_edges(*old(g))[e as int] is None && graph_edges(
            *final(g),
        ) == graph_edges(*old(g)).update(e as int, Some((a, b))),
        e >= graph_edges(*old(g)).len() ==> e == graph_edges(*old(g)).len() && (forall|j: int|
            0 <= j < graph_edges(*old(g)).len() ==> graph_edges(*old(g))[j] is Some) && graph_edges(
            *final(g),
        ) == graph_edges(*old(g)).push(Some((a, b))),
{
    g.add_edge(NodeIndex::new(a as usize), NodeIndex::new(b as usize), ()).index() as u32
}

/// `StableGraph::contains_edge` on an undirected graph: whether some live edge
/// joins `a` and `b` in either direction (always false when `a` is not live).
#[verifier::external_body]
pub(crate) fn graph_contains_edge(g: &StableGraph<Node, (), Undirected, u32>, a: u32, b: u32) -> (r: bool)
    ensures
        r == (node_live(graph_nodes(*g), a as int) && edge_between(graph_edges(*g), a, b)),
{
    g.contains_edge(NodeIndex::new(a as usize), NodeIndex::new(b as usize))
}

/// `StableGraph::find_edge` on an undirected graph: some live edge joining `a`
/// and `b` in either direction (which one, when there are several, is left
/// open), or `None` when there is none or `a` is not live.
#[verifier::external_body]
pub(crate) fn graph_find_edge(g: &StableGraph<Node, (), Undirected, u32>, a: u32, b: u32) -> (r: Option<u32>)
    ensures
        r is None <==> !(node_live(graph_nodes(*g), a as int) && edge_between(graph_edges(*g), a, b)),
        r matches Some(e) ==> e < graph_edges(*g).len() && (graph_edges(*g)[e as int] == Some((a, b))
            || graph_edges(*g)[e as int] == Some((b, a))),
{
    match g.find_edge(NodeIndex::new(a as usize), NodeIndex::new(b as usize)) {
        Some(e) => Some(e.index() as u32),
        None => None,
    }
}

/// `StableGraph::remove_edge`: vacates a live edge slot; an index that is not
/// a live edge leaves the graph as it was. Returns whether an edge was removed.
#[verifier::external_body]
pub(crate) fn graph_remove_edge(g: &mut StableGraph<Node, (), Undirected, u32>, e: u32) -> (r: bool)
    ensures
        graph_nodes(*final(g)) == graph_nodes(*old(g)),
        r == (e < graph_edges(*old(g)).len() && graph_edges(*old(g))[e as int] is Some),
        r ==> graph_edges(*final(g)) == graph_edges(*old(g)).update(e as int, None),
        !r ==> graph_edges(*final(g)) == graph_edges(*old(g)),
{
    g.remove_edge(EdgeIndex::new(e as usize)).is_some()
}

/// `StableGraph::remove_node`: vacates a live node slot together with every
/// edge slot that touches it; an index that is not live leaves the graph as it
/// was. Returns whether a node was removed.
#[verifier::external_body]
pub(crate) fn graph_remove_node(g: &mut StableGraph<Node, (), Undirected, u32>, a: u32) -> (r: bool)
    ensures
        r == node_live(graph_nodes(*old(g)), a as int),
        r ==> graph_nodes(*final(g)) == graph_nodes(*old(g)).update(a as int, None),
        r ==> graph_edges(*final(g)).len() == graph_edges(*old(g)).len() && (forall|e: int|
            0 <= e < graph_edges(*old(g)).len() ==> #[trigger] graph_edges(*final(g))[e] == (if edge_touches(
                graph_edges(*old(g)),
                e,
                a,
            ) {
                None
            } else {
                graph_edges(*old(g))[e]
            })),
        !r ==> graph_nodes(*final(g)) == graph_nodes(*old(g)) && graph_edges(*final(g))
            == graph_edges(*old(g)),
{
    g.remove_node(NodeIndex::new(a as usize)).is_some()
}

/// `StableGraph::neighbors` on an undirected graph, collected: for a live node,
/// the other end of every edge that touches it (the order is left open); empty
/// for an index that is not live.
#[verifier::external_body]
pub(crate) fn graph_neighbors(g: &StableGraph<Node, (), Undirected, u32>, a: u32) -> (r: Vec<u32>)
    ensures
        forall|x: u32|
            r@.contains(x) <==> (node_live(graph_nodes(*g), a as int) && edge_between(
                graph_edges(*g),
                a,
                x,
            )),
{
    let mut out = Vec::new();
    for n in g.neighbors(NodeIndex::new(a as usize)) {
        out.push(n.index() as u32);
    }
    out
}

} // verus!
