//! Source routing: every edge node keeps its own picture of the topology and
//! computes whole routes itself (drones keep no routing tables).
//!
//! Each known node has a state: 0 while its kind is still to be resolved, 1
//! when the owner may contact it, 2 when it may not. Each node also counts the
//! packets it forwarded for the owner and the ones it dropped; their ratio is
//! the node's reliability, and a route's weight is the product of the
//! reliabilities of its nodes.
use petgraph::stable_graph::StableGraph;
use petgraph::Undirected;
use std::collections::HashMap;
use vstd::prelude::*;

use crate::bignat::BigNat;
use crate::counting::{lemma_injective_bound, lemma_push_contains};
use crate::graph::{edge_between, edge_touches, graph_add_edge, graph_add_node, graph_contains_edge, graph_edges, graph_find_edge, graph_neighbors, graph_new, graph_node, graph_nodes, graph_remove_edge, graph_remove_node, graph_set_node, node_live};
use crate::kinds::NodeType;
use crate::packet::SourceRoutingHeader;

verus! {

broadcast use vstd::std_specs::hash::group_hash_axioms;

/// A node as the topology knows it.
#[derive(Debug, Clone, Copy)]
pub struct Node {
    pub id: u8,
    pub node_type: Option<NodeType>,
    pub forward_count: u32,
    pub dropped_count: u32,
}

/// Key of the unordered pair of node slots an edge joins.
pub open spec fn pair_key(p: (u32, u32)) -> int {
    if p.0 <= p.1 {
        p.0 * 256 + p.1
    } else {
        p.1 * 256 + p.0
    }
}

/// The state a node gets when a route first makes it known: drones and the
/// owner itself can never be destinations, other edges are still unresolved.
pub open spec fn initial_state(src: u8, id: u8, t: NodeType) -> u8 {
    if t == NodeType::Drone {
        2
    } else if id == src {
        2
    } else {
        0
    }
}

/// `id` occurs in the route.
pub open spec fn occurs(r: Seq<(u8, NodeType)>, id: u8) -> bool {
    exists|j: int| 0 <= j < r.len() && (#[trigger] r[j]).0 == id
}

/// The kind the last occurrence of `id` in the route gives it.
pub open spec fn last_type(r: Seq<(u8, NodeType)>, id: u8) -> NodeType
    decreases r.len(),
{
    if r.len() == 0 {
        NodeType::Drone
    } else if r.last().0 == id {
        r.last().1
    } else {
        last_type(r.drop_last(), id)
    }
}

/// The kind the first occurrence of `id` in the route gives it.
pub open spec fn first_type(r: Seq<(u8, NodeType)>, id: u8) -> NodeType
    decreases r.len(),
{
    if r.len() == 0 {
        NodeType::Drone
    } else if occurs(r.drop_last(), id) {
        first_type(r.drop_last(), id)
    } else {
        r.last().1
    }
}

/// `a` and `b` follow each other somewhere in the route.
pub open spec fn route_link(r: Seq<(u8, NodeType)>, a: u8, b: u8) -> bool {
    exists|j: int|
        0 <= j && j + 1 < r.len() && ((#[trigger] r[j]).0 == a && r[j + 1].0 == b || r[j].0 == b
            && r[j + 1].0 == a)
}

/// A count that stops at `u32::MAX`.
pub open spec fn saturated(n: int) -> u32 {
    if n > u32::MAX {
        u32::MAX
    } else {
        n as u32
    }
}

/// How many times `x` occurs in `s`.
pub open spec fn count_of(s: Seq<u8>, x: u8) -> nat
    decreases s.len(),
{
    if s.len() == 0 {
        0
    } else {
        count_of(s.drop_last(), x) + if s.last() == x {
            1nat
        } else {
            0nat
        }
    }
}

/// The node's reliability, forwards over forwards plus drops, is below one
/// in fifty.
pub open spec fn unreliable(n: Node) -> bool {
    n.forward_count * 50 < n.forward_count + n.dropped_count
}

/// The node `x` of `net` after one more drop has been counted for `dst` when
/// `dst` is a known drone.
pub open spec fn dropped_bumped(net: Network, dst: u8, x: u8) -> Node {
    if x == dst && net.is_drone(dst) {
        Node { dropped_count: saturated(net.node(x).dropped_count + 1), ..net.node(x) }
    } else {
        net.node(x)
    }
}

fn slot_in(path: &Vec<u32>, n: u32) -> (r: bool)
    ensures
        r == path@.contains(n),
{
    let mut i: usize = 0;
    while i < path.len()
        invariant
            0 <= i <= path@.len(),
            forall|j: int| 0 <= j < i ==> path@[j] != n,
        decreases path@.len() - i,
    {
        if path[i] == n {
            return true;
        }
        i = i + 1;
    }
    false
}

fn is_drone_type(t: Option<NodeType>) -> (r: bool)
    ensures
        r == (t == Some(NodeType::Drone)),
{
    match t {
        Some(NodeType::Drone) => true,
        _ => false,
    }
}

/// A path through the graph by node slot: live nodes, no repeats, each
/// joined to the next by an edge.
pub open spec fn is_slot_path(ns: Seq<Option<Node>>, es: Seq<Option<(u32, u32)>>, p: Seq<u32>) -> bool {
    &&& p.len() >= 1
    &&& p.no_duplicates()
    &&& forall|i: int| 0 <= i < p.len() ==> node_live(ns, #[trigger] p[i] as int)
    &&& forall|i: int| 0 <= i && i + 1 < p.len() ==> #[trigger] edge_between(es, p[i], p[i + 1])
}

/// A path by node slot from slot `s` to slot `e`.
pub open spec fn is_slot_route(
    ns: Seq<Option<Node>>,
    es: Seq<Option<(u32, u32)>>,
    p: Seq<u32>,
    s: u32,
    e: u32,
) -> bool {
    is_slot_path(ns, es, p) && p[0] == s && p.last() == e
}

/// Product of the forward counts along a path by slot.
pub open spec fn forward_product(ns: Seq<Option<Node>>, p: Seq<u32>) -> nat
    decreases p.len(),
{
    if p.len() == 0 {
        1
    } else {
        forward_product(ns, p.drop_last()) * (ns[p.last() as int].unwrap().forward_count as nat)
    }
}

/// Product of the forward-plus-drop counts along a path by slot.
pub open spec fn total_product(ns: Seq<Option<Node>>, p: Seq<u32>) -> nat
    decreases p.len(),
{
    if p.len() == 0 {
        1
    } else {
        total_product(ns, p.drop_last()) * (ns[p.last() as int].unwrap().forward_count
            + ns[p.last() as int].unwrap().dropped_count) as nat
    }
}

/// Path `p` is strictly preferable to `q`: a higher weight (product of
/// reliabilities), or the same weight with fewer hops.
pub open spec fn slot_path_better(ns: Seq<Option<Node>>, p: Seq<u32>, q: Seq<u32>) -> bool {
    let a = forward_product(ns, p) * total_product(ns, q);
    let b = forward_product(ns, q) * total_product(ns, p);
    a > b || (a == b && p.len() < q.len())
}

/// `q` starts with `p`.
pub open spec fn extends(q: Seq<u32>, p: Seq<u32>) -> bool {
    p.len() <= q.len() && q.take(p.len() as int) == p
}

/// Every node of the path is live and has forwarded at least once.
pub open spec fn counted_path(ns: Seq<Option<Node>>, p: Seq<u32>) -> bool {
    forall|i: int|
        0 <= i < p.len() ==> node_live(ns, #[trigger] p[i] as int) && ns[p[i] as int].unwrap().forward_count
            >= 1
}

pub proof fn lemma_total_positive(ns: Seq<Option<Node>>, p: Seq<u32>)
    requires
        counted_path(ns, p),
    ensures
        total_product(ns, p) >= 1,
    decreases p.len(),
{
    if p.len() > 0 {
        let q = p.drop_last();
        assert(counted_path(ns, q)) by {
            assert forall|i: int| 0 <= i < q.len() implies node_live(ns, #[trigger] q[i] as int)
                && ns[q[i] as int].unwrap().forward_count >= 1 by {
                assert(q[i] == p[i]);
            }
        }
        lemma_total_positive(ns, q);
        let t = total_product(ns, q);
        let n = ns[p.last() as int].unwrap();
        assert(p[p.len() - 1] == p.last());
        assert(n.forward_count >= 1);
        assert(t * (n.forward_count + n.dropped_count) as nat >= 1) by (nonlinear_arith)
            requires
                t >= 1,
                n.forward_count + n.dropped_count >= 1,
        ;
    }
}

/// "Not strictly preferable" is transitive.
pub proof fn lemma_not_better_transitive(
    ns: Seq<Option<Node>>,
    a: Seq<u32>,
    b: Seq<u32>,
    c: Seq<u32>,
)
    requires
        total_product(ns, a) >= 1,
        total_product(ns, b) >= 1,
        total_product(ns, c) >= 1,
        !slot_path_better(ns, a, b),
        !slot_path_better(ns, b, c),
    ensures
        !slot_path_better(ns, a, c),
{
    let fa = forward_product(ns, a) as int;
    let fb = forward_product(ns, b) as int;
    let fc = forward_product(ns, c) as int;
    let ta = total_product(ns, a) as int;
    let tb = total_product(ns, b) as int;
    let tc = total_product(ns, c) as int;
    assert(fa * tc <= fc * ta) by (nonlinear_arith)
        requires
            fa * tb <= fb * ta,
            fb * tc <= fc * tb,
            ta >= 1,
            tb >= 1,
            tc >= 1,
            fa >= 0,
            fb >= 0,
            fc >= 0,
    ;
    if fa * tc == fc * ta {
        assert(fa * tb == fb * ta && fb * tc == fc * tb) by (nonlinear_arith)
            requires
                fa * tb <= fb * ta,
                fb * tc <= fc * tb,
                fa * tc == fc * ta,
                ta >= 1,
                tb >= 1,
                tc >= 1,
                fa >= 0,
                fb >= 0,
                fc >= 0,
        ;
    }
}

/// What `add_route(src, nodes)` makes of `old`.
pub open spec fn route_added(old: Network, new: Network, src: u8, nodes: Seq<(u8, NodeType)>) -> bool {
    &&& new.wf()
    &&& forall|x: u8| #[trigger] new.contains(x) <==> old.contains(x) || occurs(nodes, x)
    &&& forall|x: u8|
            #[trigger] old.contains(x) ==> new.state(x) == old.state(x)
                && new.node(x) == (Node {
                node_type: if occurs(nodes, x) {
                    Some(last_type(nodes, x))
                } else {
                    old.node(x).node_type
                },
                ..old.node(x)
            })
    &&& forall|x: u8|
            !old.contains(x) && occurs(nodes, x) ==> #[trigger] new.state(x)
                == initial_state(src, x, first_type(nodes, x))
    &&& forall|x: u8|
            !old.contains(x) && occurs(nodes, x) ==> #[trigger] new.node(x) == (Node {
                id: x,
                node_type: Some(last_type(nodes, x)),
                forward_count: 1,
                dropped_count: 0,
            })
    &&& forall|a: u8, b: u8|
            #[trigger] new.linked(a, b) <==> old.linked(a, b) || route_link(
                nodes,
                a,
                b,
            )
}

/// What `update_state(dst, new_state)` makes of `old`.
pub open spec fn state_updated(old: Network, new: Network, dst: u8, new_state: u8) -> bool {
    &&& new.wf()
    &&& new.slots() == old.slots()
    &&& new.edge_slots() == old.edge_slots()
    &&& forall|x: u8| #[trigger] new.contains(x) == old.contains(x)
    &&& forall|x: u8| #[trigger] new.index_of(x) == old.index_of(x)
    &&& forall|x: u8|
            #[trigger] new.state(x) == if x == dst && old.contains(dst) {
                new_state
            } else {
                old.state(x)
            }
}

/// What `add_destination_without_path(dst_id)` makes of `old`.
pub open spec fn destination_added(old: Network, new: Network, dst_id: u8) -> bool {
    &&& new.wf()
    &&& forall|x: u8| #[trigger] new.contains(x) == (old.contains(x) || x == dst_id)
    &&& forall|x: u8|
            old.contains(x) ==> #[trigger] new.node(x) == old.node(x)
                && new.state(x) == old.state(x)
    &&& !old.contains(dst_id) ==> new.state(dst_id) == 0 && new.node(dst_id)
            == (Node { id: dst_id, node_type: None, forward_count: 1, dropped_count: 0 })
    &&& forall|a: u8, b: u8| #[trigger] new.linked(a, b) == old.linked(a, b)
}

/// What `remove_faulty_connection(start, dst)` makes of `old`.
pub open spec fn connection_removed(old: Network, new: Network, start: u8, dst: u8) -> bool {
    &&& new.wf()
    &&& new.slots() == old.slots()
    &&& new.table() == old.table()
    &&& forall|a: u8, b: u8|
            #[trigger] new.linked(a, b) == (old.linked(a, b) && !(a == start && b
                == dst || a == dst && b == start))
}

/// What `remove_node(src)` makes of `old`.
pub open spec fn node_removed(old: Network, new: Network, src: u8) -> bool {
    &&& new.wf()
    &&& forall|x: u8| #[trigger] new.contains(x) == (old.contains(x) && x != src)
    &&& forall|x: u8|
            new.contains(x) ==> #[trigger] new.node(x) == old.node(x)
                && new.state(x) == old.state(x)
    &&& forall|a: u8, b: u8|
            #[trigger] new.linked(a, b) == (old.linked(a, b) && a != src && b != src)
}

/// What `positive_feedback(route)` makes of `old`.
pub open spec fn feedback_given(old: Network, new: Network, route: Seq<u8>) -> bool {
    &&& new.wf()
    &&& new.table() == old.table()
    &&& new.edge_slots() == old.edge_slots()
    &&& forall|x: u8|
            old.contains(x) ==> #[trigger] new.node(x) == if old.is_drone(x) {
                Node {
                    forward_count: saturated(
                        old.node(x).forward_count + count_of(route, x),
                    ),
                    ..old.node(x)
                }
            } else {
                old.node(x)
            }
}

/// What `negative_feedback(dst)` makes of `old`.
pub open spec fn drop_recorded(old: Network, new: Network, dst: u8) -> bool {
    &&& new.wf()
    &&& forall|x: u8|
            #[trigger] new.contains(x) == (old.contains(x) && !unreliable(
                dropped_bumped(old, dst, x),
            ))
    &&& forall|x: u8|
            new.contains(x) ==> #[trigger] new.node(x) == dropped_bumped(
                old,
                dst,
                x,
            ) && new.state(x) == old.state(x)
    &&& forall|a: u8, b: u8|
            #[trigger] new.linked(a, b) == (old.linked(a, b) && new.contains(a)
                && new.contains(b))
}

/// The topology known by one edge node.
pub struct Network {
    graph: StableGraph<Node, (), Undirected, u32>,
    node_map: HashMap<u8, (u8, u32)>,
}

impl Network {
    pub closed spec fn slots(&self) -> Seq<Option<Node>> {
        graph_nodes(self.graph)
    }

    pub closed spec fn edge_slots(&self) -> Seq<Option<(u32, u32)>> {
        graph_edges(self.graph)
    }

    /// The table from node id to (state, node slot).
    pub closed spec fn table(&self) -> Map<u8, (u8, u32)> {
        self.node_map@
    }

    pub open spec fn contains(&self, id: u8) -> bool {
        self.table().contains_key(id)
    }

    pub open spec fn state(&self, id: u8) -> u8 {
        self.table()[id].0
    }

    pub open spec fn index_of(&self, id: u8) -> u32 {
        self.table()[id].1
    }

    pub open spec fn node(&self, id: u8) -> Node {
        self.slots()[self.index_of(id) as int].unwrap()
    }

    /// Some edge joins the two known nodes.
    pub open spec fn linked(&self, a: u8, b: u8) -> bool {
        self.contains(a) && self.contains(b) && edge_between(
            self.edge_slots(),
            self.index_of(a),
            self.index_of(b),
        )
    }

    /// Well-formedness: the id table and the live node slots are in one-to-one
    /// correspondence, every node has forwarded at least once, every edge joins
    /// live nodes, no two edges join the same pair, and the slot counts stay
    /// far below petgraph's index limit.
    pub closed spec fn wf(&self) -> bool {
        let m = self.table();
        let ns = self.slots();
        let es = self.edge_slots();
        &&& forall|id: u8|
            #[trigger] m.contains_key(id) ==> node_live(ns, m[id].1 as int) && ns[m[id].1 as int].unwrap().id
                == id
        &&& forall|i: int|
            #[trigger] node_live(ns, i) ==> m.contains_key(ns[i].unwrap().id) && m[ns[i].unwrap().id].1
                == i
        &&& forall|i: int| #[trigger] node_live(ns, i) ==> ns[i].unwrap().forward_count >= 1
        &&& forall|e: int|
            0 <= e < es.len() && #[trigger] es[e] is Some ==> node_live(ns, es[e].unwrap().0 as int)
                && node_live(ns, es[e].unwrap().1 as int)
        &&& forall|e1: int, e2: int|
            0 <= e1 < es.len() && 0 <= e2 < es.len() && e1 != e2 && #[trigger] es[e1] is Some
                && #[trigger] es[e2] is Some ==> pair_key(es[e1].unwrap()) != pair_key(
                es[e2].unwrap(),
            )
        &&& ns.len() <= 256
        &&& es.len() <= 65536
    }

    /// An empty topology.
    pub fn new() -> (r: Self)
        ensures
            r.wf(),
            forall|id: u8| !r.contains(id),
    {
        Network { graph: graph_new(), node_map: HashMap::new() }
    }

    /// Takes in the nodes of a route (a flood's path trace): unknown nodes are
    /// added with one forward and no drop, in the state `initial_state` gives
    /// them; known nodes keep their counts and state but take the kind the
    /// route reports; consecutive nodes of the route get linked.
    pub fn add_route(&mut self, src: u8, nodes: Vec<(u8, NodeType)>)
        requires
            old(self).wf(),
        ensures
            route_added(*old(self), *final(self), src, nodes@),
    {
        let ghost old_self = *self;
        let ghost r = nodes@;
        let mut prev: Option<u32> = None;
        let mut i: usize = 0;
        while i < nodes.len()
            invariant
                old_self.wf(),
                r == nodes@,
                0 <= i <= r.len(),
                self.wf(),
                forall|x: u8|
                    #[trigger] self.contains(x) <==> old_self.contains(x) || occurs(r.take(i as int), x),
                forall|x: u8|
                    #[trigger] old_self.contains(x) ==> self.index_of(x) == old_self.index_of(x)
                        && self.state(x) == old_self.state(x) && self.node(x) == (Node {
                        node_type: if occurs(r.take(i as int), x) {
                            Some(last_type(r.take(i as int), x))
                        } else {
                            old_self.node(x).node_type
                        },
                        ..old_self.node(x)
                    }),
                forall|x: u8|
                    !old_self.contains(x) && occurs(r.take(i as int), x) ==> #[trigger] self.state(x)
                        == initial_state(src, x, first_type(r.take(i as int), x)),
                forall|x: u8|
                    !old_self.contains(x) && occurs(r.take(i as int), x) ==> #[trigger] self.node(x) == (
                    Node {
                        id: x,
                        node_type: Some(last_type(r.take(i as int), x)),
                        forward_count: 1,
                        dropped_count: 0,
                    }),
                forall|a: u8, b: u8|
                    #[trigger] self.linked(a, b) <==> old_self.linked(a, b) || route_link(
                        r.take(i as int),
                        a,
                        b,
                    ),
                i == 0 ==> prev is None,
                i > 0 ==> prev == Some(self.index_of(r[i - 1].0)) && self.contains(r[i - 1].0),
            decreases r.len() - i,
        {
            let (id, t) = nodes[i];
            let ghost before = *self;
            let ghost ti = r.take(i as int);
            let ghost tj = r.take(i + 1);
            assert(tj.drop_last() =~= ti);
            assert(tj.last() == (id, t));
            assert forall|x: u8| occurs(tj, x) <==> occurs(ti, x) || x == id by {
                if occurs(tj, x) && x != id {
                    let j = choose|j: int| 0 <= j < tj.len() && (#[trigger] tj[j]).0 == x;
                    assert(ti[j] == tj[j]);
                }
                if occurs(ti, x) {
                    let j = choose|j: int| 0 <= j < ti.len() && (#[trigger] ti[j]).0 == x;
                    assert(ti[j] == tj[j]);
                }
                if x == id {
                    assert(tj[i as int].0 == x);
                }
            }
            let idx: u32 = match self.node_map.get(&id) {
                Some(entry) => {
                    let existing = entry.1;
                    let mut n = graph_node(&self.graph, existing);
                    n.node_type = Some(t);
                    graph_set_node(&mut self.graph, existing, n);
                    proof {
                        let ns = before.slots();
                        assert forall|x: u8| #[trigger] self.table().contains_key(x) implies node_live(
                            self.slots(),
                            self.table()[x].1 as int,
                        ) && self.slots()[self.table()[x].1 as int].unwrap().id == x by {
                            assert(node_live(ns, before.table()[x].1 as int));
                        }
                        assert forall|k: int| #[trigger] node_live(self.slots(), k) implies self.table().contains_key(
                            self.slots()[k].unwrap().id,
                        ) && self.table()[self.slots()[k].unwrap().id].1 == k by {
                            assert(node_live(ns, k));
                        }
                        assert forall|k: int| #[trigger] node_live(self.slots(), k) implies self.slots()[k].unwrap().forward_count >= 1 by {
                            assert(node_live(ns, k));
                        }
                        assert forall|x: u8| #[trigger] self.contains(x) && x != id implies self.node(x) == before.node(x) by {
                            assert(node_live(ns, before.table()[x].1 as int));
                        }
                        assert forall|e: int| 0 <= e < self.edge_slots().len() && #[trigger] self.edge_slots()[e] is Some implies node_live(self.slots(), self.edge_slots()[e].unwrap().0 as int)
                            && node_live(self.slots(), self.edge_slots()[e].unwrap().1 as int) by {
                            assert(node_live(ns, self.edge_slots()[e].unwrap().0 as int));
                            assert(node_live(ns, self.edge_slots()[e].unwrap().1 as int));
                        }
                    }
                    existing
                },
                None => {
                    let state: u8 = match t {
                        NodeType::Drone => 2,
                        _ => if id == src {
                            2
                        } else {
                            0
                        },
                    };
                    let ni = self.insert_node(id, Some(t), state);
                    ni
                },
            };
            let ghost mid = *self;
            assert(mid.contains(id) && mid.index_of(id) == idx);
            assert(mid.slots()[idx as int].unwrap().id == id);
            assert forall|a: u8, b: u8| #[trigger] mid.linked(a, b) <==> before.linked(a, b) by {
                if mid.linked(a, b) && (a == id || b == id) && !before.contains(id) {
                    let k = choose|k: int|
                        0 <= k < mid.edge_slots().len() && (#[trigger] mid.edge_slots()[k] == Some(
                            (mid.index_of(a), mid.index_of(b)),
                        ) || mid.edge_slots()[k] == Some((mid.index_of(b), mid.index_of(a))));
                }
            }
            assert forall|x: u8| #[trigger] mid.contains(x) && x != id implies mid.node(x) == before.node(x)
                && mid.index_of(x) == before.index_of(x) && mid.state(x) == before.state(x) by {
                assert(before.contains(x));
            }
            if let Some(p) = prev {
                proof {
                    let pid = r[i - 1].0;
                    assert(mid.contains(pid));
                    assert(mid.index_of(pid) == p);
                }
                self.connect(p, idx);
            }
            proof {
                assert forall|a: u8, b: u8| #[trigger] self.linked(a, b) <==> old_self.linked(a, b) || route_link(tj, a, b) by {
                    if i == 0 {
                        if route_link(tj, a, b) {
                            let j = choose|j: int| 0 <= j && j + 1 < tj.len() && ((#[trigger] tj[j]).0 == a && tj[j + 1].0 == b || tj[j].0 == b && tj[j + 1].0 == a);
                        }
                        assert(route_link(ti, a, b) == false);
                    } else {
                        let pid = r[i - 1].0;
                        assert(route_link(tj, a, b) <==> route_link(ti, a, b) || (a == pid && b == id || a == id && b == pid)) by {
                            if route_link(tj, a, b) {
                                let j = choose|j: int| 0 <= j && j + 1 < tj.len() && ((#[trigger] tj[j]).0 == a && tj[j + 1].0 == b || tj[j].0 == b && tj[j + 1].0 == a);
                                if j + 1 < ti.len() {
                                    assert(ti[j] == tj[j] && ti[j + 1] == tj[j + 1]);
                                } else {
                                    assert(j == i - 1);
                                }
                            }
                            if route_link(ti, a, b) {
                                let j = choose|j: int| 0 <= j && j + 1 < ti.len() && ((#[trigger] ti[j]).0 == a && ti[j + 1].0 == b || ti[j].0 == b && ti[j + 1].0 == a);
                                assert(ti[j] == tj[j] && ti[j + 1] == tj[j + 1]);
                            }
                            if a == pid && b == id || a == id && b == pid {
                                assert(tj[i - 1].0 == pid && tj[i as int].0 == id);
                            }
                        }
                        let p = mid.index_of(pid);
                        assert(mid.contains(pid));
                        assert(mid.slots()[p as int].unwrap().id == pid);
                        assert(self.table() == mid.table());
                        if self.linked(a, b) && !mid.linked(a, b) {
                            assert(mid.contains(a) && mid.contains(b));
                            assert(edge_between(self.edge_slots(), mid.index_of(a), mid.index_of(b)));
                            assert(!edge_between(mid.edge_slots(), mid.index_of(a), mid.index_of(b)));
                            assert(mid.index_of(a) == p && mid.index_of(b) == idx || mid.index_of(a) == idx && mid.index_of(b) == p);
                            assert(mid.slots()[mid.index_of(a) as int].unwrap().id == a);
                            assert(mid.slots()[mid.index_of(b) as int].unwrap().id == b);
                            assert(a == pid && b == id || a == id && b == pid);
                            assert(route_link(tj, a, b));
                        }
                        if a == pid && b == id || a == id && b == pid {
                            assert(edge_between(self.edge_slots(), self.index_of(a), self.index_of(b)));
                            assert(self.linked(a, b));
                        }
                        if mid.linked(a, b) {
                            assert(edge_between(self.edge_slots(), mid.index_of(a), mid.index_of(b)));
                            assert(self.linked(a, b));
                        }
                        if self.linked(a, b) {
                            assert(mid.linked(a, b) || route_link(tj, a, b));
                        }
                    }
                }
                assert forall|x: u8| #[trigger] self.contains(x) <==> old_self.contains(x) || occurs(tj, x) by {
                    assert(occurs(tj, x) <==> occurs(ti, x) || x == id);
                    if self.contains(x) && x != id {
                        assert(before.contains(x));
                    }
                    if x != id && (old_self.contains(x) || occurs(ti, x)) {
                        assert(before.contains(x));
                    }
                }
                assert forall|x: u8| #[trigger] old_self.contains(x) implies self.index_of(x) == old_self.index_of(x)
                    && self.state(x) == old_self.state(x) && self.node(x) == (Node {
                    node_type: if occurs(tj, x) {
                        Some(last_type(tj, x))
                    } else {
                        old_self.node(x).node_type
                    },
                    ..old_self.node(x)
                }) by {
                    assert(before.contains(x));
                    assert(mid.contains(x));
                }
                assert forall|x: u8| !old_self.contains(x) && occurs(tj, x) implies self.state(x)
                    == initial_state(src, x, first_type(tj, x)) && self.node(x) == (Node {
                    id: x,
                    node_type: Some(last_type(tj, x)),
                    forward_count: 1,
                    dropped_count: 0,
                }) by {
                    assert(occurs(tj, x) <==> occurs(ti, x) || x == id);
                    if x != id {
                        assert(occurs(ti, x));
                        assert(before.contains(x));
                    }
                    assert(mid.contains(x));
                    if occurs(ti, x) {
                        assert(before.contains(x));
                        assert(tj.drop_last() == ti);
                        assert(first_type(tj, x) == first_type(ti, x));
                        assert(before.state(x) == initial_state(src, x, first_type(ti, x)));
                        assert(before.node(x) == Node { id: x, node_type: Some(last_type(ti, x)), forward_count: 1, dropped_count: 0 });
                        assert(self.state(x) == mid.state(x));
                        assert(self.node(x) == mid.node(x));
                        if x != id {
                            assert(last_type(tj, x) == last_type(ti, x));
                            assert(mid.node(x) == before.node(x));
                            assert(mid.state(x) == before.state(x));
                        } else {
                            assert(last_type(tj, x) == t);
                            assert(mid.state(x) == before.state(x));
                            assert(mid.node(x) == Node { node_type: Some(t), ..before.node(x) });
                        }
                    } else {
                        assert(x == id);
                        assert(!before.contains(x));
                        assert(tj.drop_last() == ti);
                        assert(!occurs(tj.drop_last(), x));
                        assert(first_type(tj, x) == t);
                        assert(last_type(tj, x) == t);
                        assert(self.state(x) == mid.state(x));
                        assert(mid.state(x) == initial_state(src, x, t));
                        assert(self.node(x) == mid.node(x));
                        assert(mid.node(x) == Node { id: x, node_type: Some(t), forward_count: 1, dropped_count: 0 });
                    }
                }
            }
            prev = Some(idx);
            i = i + 1;
            assert(r.take(i as int) == tj);
        }
        assert(r.take(i as int) =~= r);

    }

    /// Sets the state of a known node; an unknown id changes nothing.
    pub fn update_state(&mut self, dst: u8, new_state: u8)
        requires
            old(self).wf(),
        ensures
            state_updated(*old(self), *final(self), dst, new_state),
    {
        match self.node_map.get(&dst) {
            Some(entry) => {
                let index = entry.1;
                self.node_map.insert(dst, (new_state, index));
            },
            None => {},
        }
    }

    /// The state of a known node.
    pub fn get_state(&self, dst: u8) -> (r: Option<u8>)
        ensures
            r == if self.contains(dst) {
                Some(self.state(dst))
            } else {
                None
            },
    {
        match self.node_map.get(&dst) {
            Some(entry) => Some(entry.0),
            None => None,
        }
    }

    /// Makes a destination known before any route to it is: an unknown id is
    /// added unlinked, unresolved and without a kind.
    pub fn add_destination_without_path(&mut self, dst_id: u8)
        requires
            old(self).wf(),
        ensures
            destination_added(*old(self), *final(self), dst_id),
    {
        match self.node_map.get(&dst_id) {
            Some(_) => {},
            None => {
                let ghost before = *self;
                let i = self.insert_node(dst_id, None, 0);
                proof {
                    assert forall|a: u8, b: u8| #[trigger] self.linked(a, b) == before.linked(a, b) by {
                        if self.linked(a, b) && (a == dst_id || b == dst_id) {
                            let k = choose|k: int|
                                0 <= k < self.edge_slots().len() && (#[trigger] self.edge_slots()[k]
                                    == Some((self.index_of(a), self.index_of(b)))
                                    || self.edge_slots()[k] == Some(
                                    (self.index_of(b), self.index_of(a)),
                                ));
                        }
                    }
                }
            },
        }
    }

    /// Removes the edge between two known nodes, if there is one.
    pub fn remove_faulty_connection(&mut self, start: u8, dst: u8)
        requires
            old(self).wf(),
        ensures
            connection_removed(*old(self), *final(self), start, dst),
    {
        let ia = match self.node_map.get(&start) {
            Some(entry) => entry.1,
            None => {
                return ;
            },
        };
        let ib = match self.node_map.get(&dst) {
            Some(entry) => entry.1,
            None => {
                proof {
                    assert forall|a: u8, b: u8| #[trigger] self.linked(a, b) == (self.linked(a, b) && !(a == start && b == dst || a == dst && b == start)) by {}
                }
                return ;
            },
        };
        let ghost es = self.edge_slots();
        match graph_find_edge(&self.graph, ia, ib) {
            Some(e) => {
                graph_remove_edge(&mut self.graph, e);
                proof {
                    let es2 = self.edge_slots();
                    let pe = es[e as int].unwrap();
                    assert forall|a: u8, b: u8| #[trigger] self.linked(a, b) == (old(self).linked(a, b) && !(a == start && b == dst || a == dst && b == start)) by {
                        let xa = self.index_of(a);
                        let xb = self.index_of(b);
                        if self.linked(a, b) {
                            let k = choose|k: int| 0 <= k < es2.len() && (#[trigger] es2[k] == Some((xa, xb)) || es2[k] == Some((xb, xa)));
                            assert(es[k] == es2[k]);
                            assert(k != e as int);
                            if a == start && b == dst || a == dst && b == start {
                                assert(pair_key(es[k].unwrap()) == pair_key(pe));
                            }
                        }
                        if old(self).linked(a, b) && !(a == start && b == dst || a == dst && b == start) {
                            let k = choose|k: int| 0 <= k < es.len() && (#[trigger] es[k] == Some((xa, xb)) || es[k] == Some((xb, xa)));
                            if k == e as int {
                                assert(self.slots()[xa as int].unwrap().id == a);
                                assert(self.slots()[xb as int].unwrap().id == b);
                                assert(self.slots()[ia as int].unwrap().id == start);
                                assert(self.slots()[ib as int].unwrap().id == dst);
                            }
                            assert(es2[k] == es[k]);
                        }
                    }
                }
            },
            None => {
                proof {
                    assert forall|a: u8, b: u8| #[trigger] self.linked(a, b) == (old(self).linked(a, b) && !(a == start && b == dst || a == dst && b == start)) by {
                        if self.linked(a, b) && (a == start && b == dst || a == dst && b == start) {
                            assert(edge_between(es, ia, ib));
                        }
                    }
                }
            },
        }
    }

    /// Forgets a known node with every edge that touches it; an unknown id
    /// changes nothing.
    pub fn remove_node(&mut self, src: u8)
        requires
            old(self).wf(),
        ensures
            node_removed(*old(self), *final(self), src),
    {
        let ind = match self.node_map.remove(&src) {
            Some(entry) => entry.1,
            None => {
                return ;
            },
        };
        let ghost before = *old(self);
        graph_remove_node(&mut self.graph, ind);
        proof {
            let ns = before.slots();
            let es = before.edge_slots();
            let ns2 = self.slots();
            let es2 = self.edge_slots();
            assert(node_live(ns, ind as int));
            assert forall|x: u8| #[trigger] self.table().contains_key(x) implies node_live(ns2, self.table()[x].1 as int)
                && ns2[self.table()[x].1 as int].unwrap().id == x by {
                assert(before.table().contains_key(x));
                assert(node_live(ns, before.table()[x].1 as int));
            }
            assert forall|k: int| #[trigger] node_live(ns2, k) implies self.table().contains_key(ns2[k].unwrap().id)
                && self.table()[ns2[k].unwrap().id].1 == k by {
                assert(node_live(ns, k));
            }
            assert forall|k: int| #[trigger] node_live(ns2, k) implies ns2[k].unwrap().forward_count >= 1 by {
                assert(node_live(ns, k));
            }
            assert forall|e: int| 0 <= e < es2.len() && #[trigger] es2[e] is Some implies node_live(ns2, es2[e].unwrap().0 as int)
                && node_live(ns2, es2[e].unwrap().1 as int) by {
                assert(es2[e] == es[e]);
                assert(!edge_touches(es, e, ind));
            }
            assert forall|e1: int, e2: int|
                0 <= e1 < es2.len() && 0 <= e2 < es2.len() && e1 != e2 && #[trigger] es2[e1] is Some
                    && #[trigger] es2[e2] is Some implies pair_key(es2[e1].unwrap()) != pair_key(es2[e2].unwrap()) by {
                assert(es2[e1] == es[e1]);
                assert(es2[e2] == es[e2]);
            }
            assert forall|x: u8| self.contains(x) implies #[trigger] self.node(x) == before.node(x) && self.state(x) == before.state(x) by {
                assert(before.contains(x));
                assert(node_live(ns, before.table()[x].1 as int));
            }
            assert forall|a: u8, b: u8| #[trigger] self.linked(a, b) == (before.linked(a, b) && a != src && b != src) by {
                let xa = before.index_of(a);
                let xb = before.index_of(b);
                if self.linked(a, b) {
                    let k = choose|k: int| 0 <= k < es2.len() && (#[trigger] es2[k] == Some((xa, xb)) || es2[k] == Some((xb, xa)));
                    assert(es2[k] == es[k]);
                }
                if before.linked(a, b) && a != src && b != src {
                    let k = choose|k: int| 0 <= k < es.len() && (#[trigger] es[k] == Some((xa, xb)) || es[k] == Some((xb, xa)));
                    assert(node_live(ns, xa as int));
                    assert(node_live(ns, xb as int));
                    assert(xa != ind && xb != ind);
                    assert(es2[k] == es[k]);
                }
            }
        }
    }

    /// The node is known and known to be a drone.
    pub open spec fn is_drone(&self, id: u8) -> bool {
        self.contains(id) && self.node(id).node_type == Some(NodeType::Drone)
    }

    /// Replaces the weight of a known node, keeping its id.
    fn set_node(&mut self, id: u8, n: Node)
        requires
            old(self).wf(),
            old(self).contains(id),
            n.id == id,
            n.forward_count >= 1,
        ensures
            final(self).wf(),
            final(self).table() == old(self).table(),
            final(self).edge_slots() == old(self).edge_slots(),
            forall|x: u8|
                old(self).contains(x) ==> #[trigger] final(self).node(x) == if x == id {
                    n
                } else {
                    old(self).node(x)
                },
    {
        let ghost before = *self;
        let index = match self.node_map.get(&id) {
            Some(entry) => entry.1,
            None => {
                return ;
            },
        };
        graph_set_node(&mut self.graph, index, n);
        proof {
            let ns = before.slots();
            assert forall|x: u8| #[trigger] self.table().contains_key(x) implies node_live(self.slots(), self.table()[x].1 as int)
                && self.slots()[self.table()[x].1 as int].unwrap().id == x by {
                assert(node_live(ns, before.table()[x].1 as int));
            }
            assert forall|k: int| #[trigger] node_live(self.slots(), k) implies self.table().contains_key(self.slots()[k].unwrap().id)
                && self.table()[self.slots()[k].unwrap().id].1 == k by {
                assert(node_live(ns, k));
            }
            assert forall|k: int| #[trigger] node_live(self.slots(), k) implies self.slots()[k].unwrap().forward_count >= 1 by {
                assert(node_live(ns, k));
            }
            assert forall|e: int| 0 <= e < self.edge_slots().len() && #[trigger] self.edge_slots()[e] is Some implies node_live(self.slots(), self.edge_slots()[e].unwrap().0 as int)
                && node_live(self.slots(), self.edge_slots()[e].unwrap().1 as int) by {
                assert(node_live(ns, self.edge_slots()[e].unwrap().0 as int));
                assert(node_live(ns, self.edge_slots()[e].unwrap().1 as int));
            }
            assert forall|x: u8| before.contains(x) implies #[trigger] self.node(x) == if x == id { n } else { before.node(x) } by {
                if x != id {
                    assert(node_live(ns, before.table()[x].1 as int));
                }
            }
        }
    }

    /// Every drone of the route gets one more forward per occurrence (the
    /// count stays at `u32::MAX` once it gets there); nothing else changes.
    pub fn positive_feedback(&mut self, route: Vec<u8>)
        requires
            old(self).wf(),
        ensures
            feedback_given(*old(self), *final(self), route@),
    {
        let ghost before = *self;
        let mut i: usize = 0;
        while i < route.len()
            invariant
                before.wf(),
                self.wf(),
                0 <= i <= route.len(),
                self.table() == before.table(),
                self.edge_slots() == before.edge_slots(),
                forall|x: u8|
                    before.contains(x) ==> #[trigger] self.node(x) == if before.is_drone(x) {
                        Node {
                            forward_count: saturated(
                                before.node(x).forward_count + count_of(route@.take(i as int), x),
                            ),
                            ..before.node(x)
                        }
                    } else {
                        before.node(x)
                    },
            decreases route.len() - i,
        {
            let node_id = route[i];
            assert(route@.take(i + 1).drop_last() =~= route@.take(i as int));
            let index = match self.node_map.get(&node_id) {
                Some(entry) => Some(entry.1),
                None => None,
            };
            if let Some(index) = index {
                let mut n = graph_node(&self.graph, index);
                if is_drone_type(n.node_type) {
                    n.forward_count = n.forward_count.saturating_add(1);
                    self.set_node(node_id, n);
                }
            }
            i = i + 1;
        }
        assert(route@.take(i as int) =~= route@);
    }

    /// A known drone gets one more drop (the count stays at `u32::MAX` once it
    /// gets there); then every node whose reliability fell below one in fifty
    /// is forgotten (see `check_for_100`).
    pub fn negative_feedback(&mut self, dst: u8)
        requires
            old(self).wf(),
        ensures
            drop_recorded(*old(self), *final(self), dst),
    {
        let index = match self.node_map.get(&dst) {
            Some(entry) => Some(entry.1),
            None => None,
        };
        if let Some(index) = index {
            let mut n = graph_node(&self.graph, index);
            if is_drone_type(n.node_type) {
                n.dropped_count = n.dropped_count.saturating_add(1);
                self.set_node(dst, n);
            }
        }
        self.check_for_100();
    }

    /// Forgets every known node whose reliability is below one in fifty
    /// (forwards times fifty below forwards plus drops), with its edges.
    pub fn check_for_100(&mut self)
        requires
            old(self).wf(),
        ensures
            final(self).wf(),
            forall|x: u8|
                #[trigger] final(self).contains(x) == (old(self).contains(x) && !unreliable(
                    old(self).node(x),
                )),
            forall|x: u8|
                #[trigger] final(self).contains(x) == (old(self).contains(x) && old(self).node(x).forward_count * 50
                    >= old(self).node(x).forward_count + old(self).node(x).dropped_count),
            forall|x: u8|
                final(self).contains(x) ==> #[trigger] final(self).node(x) == old(self).node(x)
                    && final(self).state(x) == old(self).state(x),
            forall|a: u8, b: u8|
                #[trigger] final(self).linked(a, b) == (old(self).linked(a, b) && final(self).contains(a)
                    && final(self).contains(b)),
    {
        let mut to_remove: Vec<u8> = Vec::new();
        let mut k: u16 = 0;
        while k < 256
            invariant
                self.wf(),
                k <= 256,
                forall|x: u8|
                    to_remove@.contains(x) <==> (x < k && self.contains(x) && unreliable(self.node(x))),
            decreases 256 - k,
        {
            let id = k as u8;
            let ghost prev = to_remove@;
            match self.node_map.get(&id) {
                Some(entry) => {
                    let n = graph_node(&self.graph, entry.1);
                    if (n.forward_count as u64) * 50 < (n.forward_count as u64) + (n.dropped_count as u64) {
                        to_remove.push(id);
                    }
                },
                None => {},
            }
            assert forall|x: u8| to_remove@.contains(x) <==> (x < k + 1 && self.contains(x) && unreliable(self.node(x))) by {
                lemma_push_contains(prev, id, x);
            }
            k = k + 1;
        }
        let ghost before = *self;
        let mut j: usize = 0;
        while j < to_remove.len()
            invariant
                before.wf(),
                self.wf(),
                0 <= j <= to_remove.len(),
                forall|x: u8|
                    to_remove@.contains(x) <==> (before.contains(x) && unreliable(before.node(x))),
                forall|x: u8|
                    #[trigger] self.contains(x) == (before.contains(x) && !to_remove@.take(j as int).contains(x)),
                forall|x: u8|
                    self.contains(x) ==> #[trigger] self.node(x) == before.node(x) && self.state(x)
                        == before.state(x),
                forall|a: u8, b: u8|
                    #[trigger] self.linked(a, b) == (before.linked(a, b) && self.contains(a) && self.contains(b)),
            decreases to_remove.len() - j,
        {
            let id = to_remove[j];
            self.remove_node(id);
            assert forall|x: u8| to_remove@.take(j + 1).contains(x) == (to_remove@.take(j as int).contains(x) || x == id) by {
                assert(to_remove@.take(j + 1) =~= to_remove@.take(j as int).push(id));
                lemma_push_contains(to_remove@.take(j as int), id, x);
            }
            j = j + 1;
        }
        assert(to_remove@.take(j as int) =~= to_remove@);
    }

    /// The known nodes still in state 0 (unresolved), in increasing order.
    pub fn get_unresolved(&self) -> (r: Vec<u8>)
        ensures
            forall|x: u8| r@.contains(x) <==> self.contains(x) && self.state(x) == 0,
            forall|i: int, j: int| 0 <= i < j < r@.len() ==> r@[i] < r@[j],
    {
        let mut out: Vec<u8> = Vec::new();
        let mut k: u16 = 0;
        while k < 256
            invariant
                k <= 256,
                forall|x: u8| out@.contains(x) <==> (x < k && self.contains(x) && self.state(x) == 0),
                forall|i: int, j: int| 0 <= i < j < out@.len() ==> out@[i] < out@[j],
                forall|i: int| 0 <= i < out@.len() ==> out@[i] < k,
            decreases 256 - k,
        {
            let id = k as u8;
            let ghost prev = out@;
            match self.node_map.get(&id) {
                Some(entry) => {
                    if entry.0 == 0 {
                        out.push(id);
                    }
                },
                None => {},
            }
            assert forall|x: u8| out@.contains(x) <==> (x < k + 1 && self.contains(x) && self.state(x) == 0) by {
                lemma_push_contains(prev, id, x);
            }
            k = k + 1;
        }
        out
    }

    proof fn lemma_counted(&self, p: Seq<u32>)
        requires
            self.wf(),
            forall|i: int| 0 <= i < p.len() ==> node_live(self.slots(), #[trigger] p[i] as int),
        ensures
            counted_path(self.slots(), p),
            total_product(self.slots(), p) >= 1,
    {
        assert forall|i: int| 0 <= i < p.len() implies node_live(self.slots(), #[trigger] p[i] as int)
            && self.slots()[p[i] as int].unwrap().forward_count >= 1 by {
            assert(node_live(self.slots(), p[i] as int));
        }
        lemma_total_positive(self.slots(), p);
    }

    /// `acc` times the forward counts of the path's nodes.
    fn mul_forward(&self, acc: BigNat, p: &Vec<u32>) -> (r: BigNat)
        requires
            forall|i: int| 0 <= i < p@.len() ==> node_live(self.slots(), #[trigger] p@[i] as int),
        ensures
            r.value() == acc.value() * forward_product(self.slots(), p@),
    {
        let mut r = acc;
        let mut i: usize = 0;
        assert(p@.take(0) =~= Seq::<u32>::empty());
        assert(r.value() * 1 == r.value());
        while i < p.len()
            invariant
                0 <= i <= p@.len(),
                forall|k: int| 0 <= k < p@.len() ==> node_live(self.slots(), #[trigger] p@[k] as int),
                r.value() == acc.value() * forward_product(self.slots(), p@.take(i as int)),
            decreases p@.len() - i,
        {
            assert(p@.take(i + 1).drop_last() =~= p@.take(i as int));
            assert(node_live(self.slots(), p@[i as int] as int));
            let n = graph_node(&self.graph, p[i]);
            let ghost before = r.value();
            r = r.mul_small(n.forward_count as u64);
            proof {
                let f = forward_product(self.slots(), p@.take(i as int));
                assert(forward_product(self.slots(), p@.take(i + 1)) == f * n.forward_count);
                assert(acc.value() * f * n.forward_count == acc.value() * (f * n.forward_count)) by (nonlinear_arith);
            }
            i = i + 1;
        }
        assert(p@.take(i as int) =~= p@);
        r
    }

    /// `acc` times the forward-plus-drop counts of the path's nodes.
    fn mul_total(&self, acc: BigNat, p: &Vec<u32>) -> (r: BigNat)
        requires
            forall|i: int| 0 <= i < p@.len() ==> node_live(self.slots(), #[trigger] p@[i] as int),
        ensures
            r.value() == acc.value() * total_product(self.slots(), p@),
    {
        let mut r = acc;
        let mut i: usize = 0;
        assert(p@.take(0) =~= Seq::<u32>::empty());
        assert(r.value() * 1 == r.value());
        while i < p.len()
            invariant
                0 <= i <= p@.len(),
                forall|k: int| 0 <= k < p@.len() ==> node_live(self.slots(), #[trigger] p@[k] as int),
                r.value() == acc.value() * total_product(self.slots(), p@.take(i as int)),
            decreases p@.len() - i,
        {
            assert(p@.take(i + 1).drop_last() =~= p@.take(i as int));
            assert(node_live(self.slots(), p@[i as int] as int));
            let n = graph_node(&self.graph, p[i]);
            let t: u64 = (n.forward_count as u64) + (n.dropped_count as u64);
            r = r.mul_small(t);
            proof {
                let f = total_product(self.slots(), p@.take(i as int));
                assert(total_product(self.slots(), p@.take(i + 1)) == f * t);
                assert(acc.value() * f * t == acc.value() * (f * t)) by (nonlinear_arith);
            }
            i = i + 1;
        }
        assert(p@.take(i as int) =~= p@);
        r
    }

    /// Whether path `p` is strictly preferable to `q` (see `slot_path_better`).
    fn slot_better(&self, p: &Vec<u32>, q: &Vec<u32>) -> (r: bool)
        requires
            forall|i: int| 0 <= i < p@.len() ==> node_live(self.slots(), #[trigger] p@[i] as int),
            forall|i: int| 0 <= i < q@.len() ==> node_live(self.slots(), #[trigger] q@[i] as int),
        ensures
            r == slot_path_better(self.slots(), p@, q@),
    {
        let x = self.mul_total(self.mul_forward(BigNat::one(), p), q);
        let y = self.mul_total(self.mul_forward(BigNat::one(), q), p);
        let (less, equal) = y.compare_with(&x);
        less || (equal && p.len() < q.len())
    }

    /// Depth-first search over every simple extension of `path` (whose last
    /// node is `current`) that ends at `end`, keeping in `best` the most
    /// preferable route found. Neighbours are tried last to first, so routes
    /// are met in the order a stack of partial paths would meet them.
    fn search(&self, current: u32, end: u32, path: &mut Vec<u32>, best: &mut Option<Vec<u32>>)
        requires
            self.wf(),
            is_slot_path(self.slots(), self.edge_slots(), old(path)@),
            old(path)@.last() == current,
            *old(best) is Some ==> is_slot_route(
                self.slots(),
                self.edge_slots(),
                (*old(best)).unwrap()@,
                old(path)@[0],
                end,
            ),
        ensures
            final(path)@ == old(path)@,
            *final(best) is Some ==> is_slot_route(
                self.slots(),
                self.edge_slots(),
                (*final(best)).unwrap()@,
                old(path)@[0],
                end,
            ),
            *old(best) is Some ==> *final(best) is Some && !slot_path_better(
                self.slots(),
                (*old(best)).unwrap()@,
                (*final(best)).unwrap()@,
            ),
            forall|q: Seq<u32>|
                is_slot_route(self.slots(), self.edge_slots(), q, old(path)@[0], end) && #[trigger] extends(
                    q,
                    old(path)@,
                ) ==> *final(best) is Some && !slot_path_better(self.slots(), q, (*final(best)).unwrap()@),
        decreases self.slots().len() - old(path)@.len(),
    {
        let ghost ns = self.slots();
        let ghost es = self.edge_slots();
        let ghost p0 = path@;
        let ghost start = path@[0];
        proof {
            crate::counting::lemma_distinct_below(path@, ns.len() as int);
        }
        if current == end {
            let replace = match best {
                None => true,
                Some(b) => self.slot_better(path, b),
            };
            if replace {
                *best = Some(path.clone());
            }
            proof {
                let b = (*best).unwrap()@;
                assert(b == p0 || !slot_path_better(ns, p0, b));
                assert forall|q: Seq<u32>|
                    is_slot_route(ns, es, q, start, end) && #[trigger] extends(q, p0) implies *best is Some && !slot_path_better(ns, q, (*best).unwrap()@) by {
                    if q.len() > p0.len() {
                        // `end` would occur twice
                        assert(q[p0.len() - 1] == p0[p0.len() - 1]);
                        assert(q[q.len() - 1] == end);
                    }
                    assert(q =~= p0);
                }
                if *old(best) is Some {
                    self.lemma_counted((*old(best)).unwrap()@);
                    self.lemma_counted(b);
                }
            }
            return ;
        }
        let neigh = graph_neighbors(&self.graph, current);
        let mut k = neigh.len();
        while k > 0
            invariant
                self.wf(),
                ns == self.slots(),
                es == self.edge_slots(),
                path@ == p0,
                p0 == old(path)@,
                *old(best) is Some ==> is_slot_route(ns, es, (*old(best)).unwrap()@, start, end),
                is_slot_path(ns, es, p0),
                p0.last() == current,
                current != end,
                start == p0[0],
                k <= neigh@.len(),
                forall|x: u32| neigh@.contains(x) <==> (node_live(ns, current as int) && edge_between(es, current, x)),
                *best is Some ==> is_slot_route(ns, es, (*best).unwrap()@, start, end),
                *old(best) is Some ==> *best is Some && !slot_path_better(ns, (*old(best)).unwrap()@, (*best).unwrap()@),
                forall|j: int, q: Seq<u32>|
                    k <= j < neigh@.len() && is_slot_route(ns, es, q, start, end) && #[trigger] extends(
                        q,
                        p0.push(#[trigger] neigh@[j]),
                    ) ==> *best is Some && !slot_path_better(ns, q, (*best).unwrap()@),
            decreases k,
        {
            k = k - 1;
            let n = neigh[k];
            let ghost best_before = *best;
            if !slot_in(path, n) {
                assert(neigh@.contains(n));
                path.push(n);
                proof {
                    let p1 = path@;
                    assert(p1 == p0.push(n));
                    assert forall|i: int| 0 <= i < p1.len() implies node_live(ns, #[trigger] p1[i] as int) by {
                        if i < p0.len() {
                            assert(p1[i] == p0[i]);
                        } else {
                            assert(edge_between(es, current, n));
                            let e = choose|e: int| 0 <= e < es.len() && (#[trigger] es[e] == Some((current, n)) || es[e] == Some((n, current)));
                        }
                    }
                    assert forall|i: int| 0 <= i && i + 1 < p1.len() implies #[trigger] edge_between(es, p1[i], p1[i + 1]) by {
                        if i + 1 < p0.len() {
                            assert(p1[i] == p0[i] && p1[i + 1] == p0[i + 1]);
                            assert(edge_between(es, p0[i], p0[i + 1]));
                        } else {
                            assert(p1[i] == current);
                        }
                    }
                    assert(p1.no_duplicates()) by {
                        assert forall|a: int, b: int| 0 <= a < p1.len() && 0 <= b < p1.len() && a != b implies p1[a] != p1[b] by {
                            if a < p0.len() && b < p0.len() {
                                assert(p1[a] == p0[a] && p1[b] == p0[b]);
                            } else if a < p0.len() {
                                assert(p1[a] == p0[a]);
                                assert(p0.contains(p0[a]));
                            } else {
                                assert(p1[b] == p0[b]);
                                assert(p0.contains(p0[b]));
                            }
                        }
                    }
                    assert(p1[0] == start);
                    crate::counting::lemma_distinct_below(p1, ns.len() as int);
                    assert(p1.len() <= ns.len());
                    assert(ns.len() - p1.len() < ns.len() - p0.len());
                }
                self.search(n, end, path, best);
                path.pop();
                proof {
                    assert(path@ =~= p0);
                    if best_before is Some {
                        self.lemma_counted(best_before.unwrap()@);
                    }
                    if *best is Some {
                        self.lemma_counted((*best).unwrap()@);
                    }
                    if *old(best) is Some {
                        self.lemma_counted((*old(best)).unwrap()@);
                        if best_before is Some {
                            lemma_not_better_transitive(ns, (*old(best)).unwrap()@, best_before.unwrap()@, (*best).unwrap()@);
                        }
                    }
                    assert forall|j: int, q: Seq<u32>|
                        k <= j < neigh@.len() && is_slot_route(ns, es, q, start, end) && #[trigger] extends(
                            q,
                            p0.push(#[trigger] neigh@[j]),
                        ) implies *best is Some && !slot_path_better(ns, q, (*best).unwrap()@) by {
                        if j > k {
                            self.lemma_counted(q);
                            self.lemma_counted(best_before.unwrap()@);
                            lemma_not_better_transitive(ns, q, best_before.unwrap()@, (*best).unwrap()@);
                        }
                    }
                }
            } else {
                proof {
                    assert forall|j: int, q: Seq<u32>|
                        k <= j < neigh@.len() && is_slot_route(ns, es, q, start, end) && #[trigger] extends(
                            q,
                            p0.push(#[trigger] neigh@[j]),
                        ) implies *best is Some && !slot_path_better(ns, q, (*best).unwrap()@) by {
                        if j == k {
                            // `n` would occur twice in `q`
                            let i = choose|i: int| 0 <= i < p0.len() && p0[i] == n;
                            assert(q.take(p0.len() as int + 1) == p0.push(n));
                            assert(q[i] == p0.push(n)[i]);
                            assert(q[p0.len() as int] == p0.push(n)[p0.len() as int]);
                        }
                    }
                }
            }
        }
        proof {
            assert forall|q: Seq<u32>|
                is_slot_route(ns, es, q, start, end) && #[trigger] extends(q, p0) implies *best is Some
                    && !slot_path_better(ns, q, (*best).unwrap()@) by {
                if q.len() == p0.len() {
                    assert(q =~= p0);
                }
                assert(q.len() > p0.len());
                let n = q[p0.len() as int];
                let i = p0.len() - 1;
                assert(q[i] == p0[i]);
                assert(edge_between(es, q[i], q[i + 1]));
                assert(node_live(ns, current as int));
                assert(neigh@.contains(n));
                let j = choose|j: int| 0 <= j < neigh@.len() && neigh@[j] == n;
                assert(q.take(p0.len() as int + 1) =~= p0.push(neigh@[j]));
                assert(extends(q, p0.push(neigh@[j])));
            }
        }
    }

    /// A route by node id from `s` to `e`: known nodes, no repeats, each
    /// linked to the next.
    pub open spec fn is_route(&self, p: Seq<u8>, s: u8, e: u8) -> bool {
        &&& p.len() >= 1
        &&& p[0] == s
        &&& p.last() == e
        &&& p.no_duplicates()
        &&& forall|i: int| 0 <= i < p.len() ==> self.contains(#[trigger] p[i])
        &&& forall|i: int| 0 <= i && i + 1 < p.len() ==> #[trigger] self.linked(p[i], p[i + 1])
    }

    /// Product of the forward counts of the route's nodes.
    pub open spec fn route_forward(&self, p: Seq<u8>) -> nat
        decreases p.len(),
    {
        if p.len() == 0 {
            1
        } else {
            self.route_forward(p.drop_last()) * (self.node(p.last()).forward_count as nat)
        }
    }

    /// Product of the forward-plus-drop counts of the route's nodes.
    pub open spec fn route_total(&self, p: Seq<u8>) -> nat
        decreases p.len(),
    {
        if p.len() == 0 {
            1
        } else {
            self.route_total(p.drop_last()) * ((self.node(p.last()).forward_count + self.node(
                p.last(),
            ).dropped_count) as nat)
        }
    }

    /// Route `p` is strictly preferable to `q`: its weight, the product of
    /// its nodes' reliabilities (`route_forward / route_total`), is higher,
    /// or the weights are equal and `p` has fewer nodes.
    pub open spec fn better(&self, p: Seq<u8>, q: Seq<u8>) -> bool {
        let a = self.route_forward(p) * self.route_total(q);
        let b = self.route_forward(q) * self.route_total(p);
        a > b || (a == b && p.len() < q.len())
    }

    /// Some route joins `s` to `e`.
    pub open spec fn reachable(&self, s: u8, e: u8) -> bool {
        exists|q: Seq<u8>| self.is_route(q, s, e)
    }

    /// `p` is a route from `s` to `e` and no route from `s` to `e` is
    /// strictly preferable.
    pub open spec fn is_best_route(&self, p: Seq<u8>, s: u8, e: u8) -> bool {
        self.is_route(p, s, e) && forall|q: Seq<u8>| #[trigger] self.is_route(q, s, e) ==> !self.better(q, p)
    }

    pub open spec fn to_slots(&self, p: Seq<u8>) -> Seq<u32> {
        p.map_values(|id: u8| self.index_of(id))
    }

    pub open spec fn to_ids(&self, p: Seq<u32>) -> Seq<u8> {
        p.map_values(|i: u32| self.slots()[i as int].unwrap().id)
    }

    proof fn lemma_products_by_slot(&self, p: Seq<u8>)
        requires
            self.wf(),
            forall|i: int| 0 <= i < p.len() ==> self.contains(#[trigger] p[i]),
        ensures
            forward_product(self.slots(), self.to_slots(p)) == self.route_forward(p),
            total_product(self.slots(), self.to_slots(p)) == self.route_total(p),
        decreases p.len(),
    {
        if p.len() > 0 {
            let q = p.drop_last();
            assert(self.to_slots(p).drop_last() =~= self.to_slots(q));
            assert forall|i: int| 0 <= i < q.len() implies self.contains(#[trigger] q[i]) by {
                assert(q[i] == p[i]);
            }
            self.lemma_products_by_slot(q);
            assert(self.to_slots(p).last() == self.index_of(p.last()));
        }
    }

    proof fn lemma_route_by_slot(&self, p: Seq<u8>, s: u8, e: u8)
        requires
            self.wf(),
            self.is_route(p, s, e),
        ensures
            is_slot_route(self.slots(), self.edge_slots(), self.to_slots(p), self.index_of(s), self.index_of(e)),
            self.to_ids(self.to_slots(p)) == p,
    {
        let sp = self.to_slots(p);
        assert forall|i: int| 0 <= i < sp.len() implies node_live(self.slots(), #[trigger] sp[i] as int) by {
            assert(self.contains(p[i]));
        }
        assert forall|i: int| 0 <= i && i + 1 < sp.len() implies #[trigger] edge_between(self.edge_slots(), sp[i], sp[i + 1]) by {
            assert(self.linked(p[i], p[i + 1]));
        }
        assert forall|a: int, b: int| 0 <= a < sp.len() && 0 <= b < sp.len() && a != b implies sp[a] != sp[b] by {
            assert(self.contains(p[a]) && self.contains(p[b]));
            assert(p[a] != p[b]);
        }
        assert forall|i: int| 0 <= i < p.len() implies #[trigger] self.to_ids(sp)[i] == p[i] by {
            assert(self.contains(p[i]));
        }
        assert(self.to_ids(sp) =~= p);
    }

    proof fn lemma_route_from_slots(&self, q: Seq<u32>, si: u32, ei: u32)
        requires
            self.wf(),
            is_slot_route(self.slots(), self.edge_slots(), q, si, ei),
        ensures
            self.is_route(self.to_ids(q), self.slots()[si as int].unwrap().id, self.slots()[ei as int].unwrap().id),
            self.to_slots(self.to_ids(q)) == q,
    {
        let p = self.to_ids(q);
        assert forall|i: int| 0 <= i < p.len() implies self.contains(#[trigger] p[i]) by {
            assert(node_live(self.slots(), q[i] as int));
        }
        assert forall|i: int| 0 <= i < q.len() implies #[trigger] self.to_slots(p)[i] == q[i] by {
            assert(node_live(self.slots(), q[i] as int));
        }
        assert(self.to_slots(p) =~= q);
        assert forall|i: int| 0 <= i && i + 1 < p.len() implies #[trigger] self.linked(p[i], p[i + 1]) by {
            assert(node_live(self.slots(), q[i] as int));
            assert(node_live(self.slots(), q[i + 1] as int));
            assert(edge_between(self.edge_slots(), q[i], q[i + 1]));
        }
        assert forall|a: int, b: int| 0 <= a < p.len() && 0 <= b < p.len() && a != b implies p[a] != p[b] by {
            assert(node_live(self.slots(), q[a] as int));
            assert(node_live(self.slots(), q[b] as int));
            assert(q[a] != q[b]);
        }
        assert(node_live(self.slots(), q[q.len() - 1] as int));
    }

    /// The most preferable route from `start` to `end` (see `better`); `None`
    /// when either end is unknown or no route joins them. Among equally
    /// preferable routes, which one comes back is decided by the order in
    /// which the graph lists neighbours.
    pub fn best_path(&self, start: u8, end: u8) -> (r: Option<Vec<u8>>)
        requires
            self.wf(),
        ensures
            r is None <==> !self.reachable(start, end),
            r matches Some(p) ==> self.is_best_route(p@, start, end),
    {
        let si = match self.node_map.get(&start) {
            Some(entry) => entry.1,
            None => {
                return None;
            },
        };
        let ei = match self.node_map.get(&end) {
            Some(entry) => entry.1,
            None => {
                return None;
            },
        };
        let mut path: Vec<u32> = Vec::new();
        path.push(si);
        let mut best: Option<Vec<u32>> = None;
        proof {
            assert(node_live(self.slots(), si as int));
            assert(path@.no_duplicates());
        }
        self.search(si, ei, &mut path, &mut best);
        let ghost ns = self.slots();
        let ghost es = self.edge_slots();
        match best {
            None => {
                proof {
                    assert forall|q: Seq<u8>| !self.is_route(q, start, end) by {
                        if self.is_route(q, start, end) {
                            self.lemma_route_by_slot(q, start, end);
                            let sq = self.to_slots(q);
                            assert(sq.take(1) =~= seq![si]);
                            assert(extends(sq, seq![si]));
                        }
                    }
                }
                None
            },
            Some(b) => {
                let mut out: Vec<u8> = Vec::new();
                let mut i: usize = 0;
                while i < b.len()
                    invariant
                        self.wf(),
                        0 <= i <= b@.len(),
                        is_slot_route(ns, es, b@, si, ei),
                        ns == self.slots(),
                        out@ == self.to_ids(b@).take(i as int),
                    decreases b@.len() - i,
                {
                    assert(node_live(ns, b@[i as int] as int));
                    let n = graph_node(&self.graph, b[i]);
                    out.push(n.id);
                    assert(out@ =~= self.to_ids(b@).take(i + 1));
                    i = i + 1;
                }
                proof {
                    assert(out@ =~= self.to_ids(b@));
                    self.lemma_route_from_slots(b@, si, ei);
                    assert(ns[si as int].unwrap().id == start);
                    assert(ns[ei as int].unwrap().id == end);
                    let p = out@;
                    assert forall|q: Seq<u8>| #[trigger] self.is_route(q, start, end) implies !self.better(q, p) by {
                        self.lemma_route_by_slot(q, start, end);
                        let sq = self.to_slots(q);
                        assert(sq.take(1) =~= seq![si]);
                        assert(extends(sq, seq![si]));
                        assert(!slot_path_better(ns, sq, b@));
                        self.lemma_products_by_slot(q);
                        self.lemma_products_by_slot(p);
                    }
                }
                Some(out)
            },
        }
    }

    /// The weight of `p` is strictly below the weight of `q`.
    pub open spec fn weight_less(&self, p: Seq<u8>, q: Seq<u8>) -> bool {
        self.route_forward(p) * self.route_total(q) < self.route_forward(q) * self.route_total(p)
    }

    /// One of the most preferable routes from `s` to `e` (all of them weigh
    /// the same).
    pub open spec fn best_route_of(&self, s: u8, e: u8) -> Seq<u8> {
        choose|p: Seq<u8>| self.is_best_route(p, s, e)
    }

    /// The best route to `a` is strictly lighter than the best route to `b`.
    pub open spec fn lighter(&self, s: u8, a: u8, b: u8) -> bool {
        self.weight_less(self.best_route_of(s, a), self.best_route_of(s, b))
    }

    proof fn lemma_route_totals(&self, p: Seq<u8>)
        requires
            self.wf(),
            forall|i: int| 0 <= i < p.len() ==> self.contains(#[trigger] p[i]),
        ensures
            self.route_total(p) >= 1,
    {
        self.lemma_products_by_slot(p);
        let sp = self.to_slots(p);
        assert forall|i: int| 0 <= i < sp.len() implies node_live(self.slots(), #[trigger] sp[i] as int) by {
            assert(self.contains(p[i]));
        }
        self.lemma_counted(sp);
    }

    /// Two most preferable routes between the same nodes weigh the same.
    proof fn lemma_best_routes_same_weight(&self, p: Seq<u8>, q: Seq<u8>, s: u8, e: u8)
        requires
            self.wf(),
            self.is_best_route(p, s, e),
            self.is_best_route(q, s, e),
        ensures
            !self.weight_less(p, q),
            !self.weight_less(q, p),
    {
        assert(!self.better(q, p));
        assert(!self.better(p, q));
    }

    proof fn lemma_weight_less_congruent(&self, p: Seq<u8>, p2: Seq<u8>, q: Seq<u8>, q2: Seq<u8>)
        requires
            self.route_total(p) >= 1,
            self.route_total(p2) >= 1,
            self.route_total(q) >= 1,
            self.route_total(q2) >= 1,
            !self.weight_less(p, p2),
            !self.weight_less(p2, p),
            !self.weight_less(q, q2),
            !self.weight_less(q2, q),
        ensures
            self.weight_less(p, q) == self.weight_less(p2, q2),
    {
        let fp = self.route_forward(p) as int;
        let fp2 = self.route_forward(p2) as int;
        let fq = self.route_forward(q) as int;
        let fq2 = self.route_forward(q2) as int;
        let tp = self.route_total(p) as int;
        let tp2 = self.route_total(p2) as int;
        let tq = self.route_total(q) as int;
        let tq2 = self.route_total(q2) as int;
        assert((fp * tq < fq * tp) == (fp2 * tq2 < fq2 * tp2)) by (nonlinear_arith)
            requires
                fp * tp2 == fp2 * tp,
                fq * tq2 == fq2 * tq,
                tp >= 1,
                tp2 >= 1,
                tq >= 1,
                tq2 >= 1,
        ;
    }

    proof fn lemma_weight_chain(&self, a: Seq<u8>, b: Seq<u8>, c: Seq<u8>)
        requires
            self.route_total(a) >= 1,
            self.route_total(b) >= 1,
            self.route_total(c) >= 1,
            self.weight_less(a, b),
            !self.weight_less(c, b),
        ensures
            self.weight_less(a, c),
    {
        let fa = self.route_forward(a) as int;
        let fb = self.route_forward(b) as int;
        let fc = self.route_forward(c) as int;
        let ta = self.route_total(a) as int;
        let tb = self.route_total(b) as int;
        let tc = self.route_total(c) as int;
        assert(fa * tc < fc * ta) by (nonlinear_arith)
            requires
                fa * tb < fb * ta,
                fb * tc <= fc * tb,
                ta >= 1,
                tb >= 1,
                tc >= 1,
                fa >= 0,
        ;
    }

    /// The slots of a route of known nodes.
    fn slots_of(&self, p: &Vec<u8>) -> (r: Vec<u32>)
        requires
            self.wf(),
            forall|i: int| 0 <= i < p@.len() ==> self.contains(#[trigger] p@[i]),
        ensures
            r@ == self.to_slots(p@),
            forall|i: int| 0 <= i < r@.len() ==> node_live(self.slots(), #[trigger] r@[i] as int),
    {
        let mut out: Vec<u32> = Vec::new();
        let mut i: usize = 0;
        while i < p.len()
            invariant
                self.wf(),
                0 <= i <= p@.len(),
                forall|j: int| 0 <= j < p@.len() ==> self.contains(#[trigger] p@[j]),
                out@ == self.to_slots(p@).take(i as int),
            decreases p@.len() - i,
        {
            let id = p[i];
            assert(self.contains(p@[i as int]));
            let index = match self.node_map.get(&id) {
                Some(entry) => entry.1,
                None => 0,
            };
            out.push(index);
            assert(out@ =~= self.to_slots(p@).take(i + 1));
            i = i + 1;
        }
        assert(out@ =~= self.to_slots(p@));
        assert forall|j: int| 0 <= j < out@.len() implies node_live(self.slots(), #[trigger] out@[j] as int) by {
            assert(self.contains(p@[j]));
        }
        out
    }

    /// The slots of a list of ids, or `None` when some id is unknown.
    pub fn get_indexes_from_vec(&self, ids: Vec<u8>) -> (r: Option<Vec<u32>>)
        ensures
            r is Some <==> forall|i: int| 0 <= i < ids@.len() ==> self.contains(#[trigger] ids@[i]),
            r matches Some(v) ==> v@ == self.to_slots(ids@),
    {
        let mut out: Vec<u32> = Vec::new();
        let mut i: usize = 0;
        while i < ids.len()
            invariant
                0 <= i <= ids@.len(),
                forall|j: int| 0 <= j < i ==> self.contains(#[trigger] ids@[j]),
                out@ == self.to_slots(ids@).take(i as int),
            decreases ids@.len() - i,
        {
            let id = ids[i];
            match self.node_map.get(&id) {
                Some(entry) => {
                    out.push(entry.1);
                },
                None => {
                    return None;
                },
            }
            assert(out@ =~= self.to_slots(ids@).take(i + 1));
            i = i + 1;
        }
        assert(out@ =~= self.to_slots(ids@));
        Some(out)
    }

    /// The weight of a path of live slots, as the exact fraction whose
    /// numerator is the product of the nodes' forward counts and whose
    /// denominator is the product of their forward-plus-drop counts (the
    /// product of the nodes' reliabilities).
    pub fn calculate_path_weight(&self, path: &Vec<u32>) -> (r: (BigNat, BigNat))
        requires
            forall|i: int| 0 <= i < path@.len() ==> node_live(self.slots(), #[trigger] path@[i] as int),
        ensures
            r.0.value() == forward_product(self.slots(), path@),
            r.1.value() == total_product(self.slots(), path@),
    {
        let f = self.mul_forward(BigNat::one(), path);
        let t = self.mul_total(BigNat::one(), path);
        (f, t)
    }

    /// Whether route `p` weighs strictly less than route `q`.
    fn route_weight_less(&self, p: &Vec<u8>, q: &Vec<u8>) -> (r: bool)
        requires
            self.wf(),
            forall|i: int| 0 <= i < p@.len() ==> self.contains(#[trigger] p@[i]),
            forall|i: int| 0 <= i < q@.len() ==> self.contains(#[trigger] q@[i]),
        ensures
            r == self.weight_less(p@, q@),
    {
        let sp = self.slots_of(p);
        let sq = self.slots_of(q);
        let x = self.mul_total(self.mul_forward(BigNat::one(), &sp), &sq);
        let y = self.mul_total(self.mul_forward(BigNat::one(), &sq), &sp);
        proof {
            self.lemma_products_by_slot(p@);
            self.lemma_products_by_slot(q@);
        }
        let (less, _) = x.compare_with(&y);
        less
    }

    /// The header for the most preferable route from `start` to `end`, at
    /// its second hop; `None` when no route joins them.
    pub fn get_srh(&self, start: u8, end: u8) -> (r: Option<SourceRoutingHeader>)
        requires
            self.wf(),
        ensures
            r is None <==> !self.reachable(start, end),
            r matches Some(h) ==> h.hop_index == 1 && self.is_best_route(h.hops@, start, end),
    {
        match self.best_path(start, end) {
            Some(hops) => Some(SourceRoutingHeader { hop_index: 1, hops }),
            None => None,
        }
    }

    /// `d` is the destination of `v` that `get_optimal_dest` picks: the first
    /// reachable one whose best route from `start` weighs least (strictly
    /// lighter than every reachable one before it, no later one lighter).
    pub open spec fn optimal_choice(&self, start: u8, v: Seq<u8>, d: u8) -> bool {
        exists|j: int|
            0 <= j < v.len() && v[j] == d && self.reachable(start, d) && (forall|k: int|
                0 <= k < j && #[trigger] self.reachable(start, v[k]) ==> self.lighter(start, d, v[k]))
                && (forall|k: int|
                j < k < v.len() && #[trigger] self.reachable(start, v[k]) ==> !self.lighter(start, v[k], d))
    }

    /// Some node is known and every known node can be reached from `source`.
    pub open spec fn knows_all_routes(&self, source: u8) -> bool {
        (exists|x: u8| self.contains(x)) && forall|x: u8| self.contains(x) ==> #[trigger] self.reachable(source, x)
    }

    /// Whether every known node can be reached from `source` (false when no
    /// node is known).
    pub fn has_all_routes(&self, source: u8) -> (r: bool)
        requires
            self.wf(),
        ensures
            r == self.knows_all_routes(source),
    {
        if self.node_map.len() == 0 {
            assert forall|x: u8| !self.contains(x) by {
                if self.contains(x) {
                    assert(self.table().dom().contains(x));
                }
            }
            return false;
        }
        let ghost some = choose|x: u8| self.table().dom().contains(x);
        assert(self.table().dom().len() > 0);
        assert(self.table().dom().contains(some)) by {
            assert(self.table().dom().finite());
            if self.table().dom() =~= Set::<u8>::empty() {
            }
        }
        let mut k: u16 = 0;
        while k < 256
            invariant
                self.wf(),
                k <= 256,
                self.contains(some),
                forall|x: u8| x < k && self.contains(x) ==> #[trigger] self.reachable(source, x),
            decreases 256 - k,
        {
            let id = k as u8;
            if self.node_map.contains_key(&id) {
                if self.best_path(source, id).is_none() {
                    return false;
                }
            }
            k = k + 1;
        }
        true
    }

    /// Among the reachable destinations in `v`, the one whose most preferable
    /// route weighs least (the earliest in `v` on a tie); `None` when none of
    /// them is reachable.
    pub fn get_optimal_dest(&self, start: u8, v: &Vec<u8>) -> (r: Option<u8>)
        requires
            self.wf(),
        ensures
            r is None <==> forall|k: int| 0 <= k < v@.len() ==> !#[trigger] self.reachable(start, v@[k]),
            r matches Some(d) ==> self.optimal_choice(start, v@, d),
    {
        let mut out: Option<u8> = None;
        let mut chosen: Vec<u8> = Vec::new();
        let ghost mut j: int = 0;
        let mut i: usize = 0;
        while i < v.len()
            invariant
                self.wf(),
                0 <= i <= v@.len(),
                out is None ==> forall|k: int| 0 <= k < i ==> !#[trigger] self.reachable(start, v@[k]),
                forall|k: int|
                    0 <= k < i && #[trigger] self.reachable(start, v@[k]) ==> self.is_best_route(
                        self.best_route_of(start, v@[k]),
                        start,
                        v@[k],
                    ),
                out matches Some(d) ==> 0 <= j < i && v@[j] == d && self.reachable(start, d)
                    && self.is_best_route(chosen@, start, d) && (forall|k: int|
                    0 <= k < j && #[trigger] self.reachable(start, v@[k]) ==> self.lighter(start, d, v@[k]))
                    && (forall|k: int|
                    j < k < i && #[trigger] self.reachable(start, v@[k]) ==> !self.lighter(start, v@[k], d)),
            decreases v@.len() - i,
        {
            let dst = v[i];
            match self.best_path(start, dst) {
                Some(r) => {
                    let ghost br = self.best_route_of(start, dst);
                    proof {
                        assert(self.is_best_route(br, start, dst));
                        self.lemma_best_routes_same_weight(r@, br, start, dst);
                        assert forall|x: int| 0 <= x < r@.len() implies self.contains(#[trigger] r@[x]) by {}
                        self.lemma_route_totals(r@);
                        self.lemma_route_totals(br);
                    }
                    let replace = match out {
                        None => true,
                        Some(_) => {
                            proof {
                                let d = out->0;
                                let bd = self.best_route_of(start, d);
                                assert(self.is_best_route(bd, start, d));
                                self.lemma_best_routes_same_weight(chosen@, bd, start, d);
                                assert forall|x: int| 0 <= x < chosen@.len() implies self.contains(#[trigger] chosen@[x]) by {}
                                self.lemma_route_totals(chosen@);
                                self.lemma_route_totals(bd);
                                self.lemma_weight_less_congruent(r@, br, chosen@, bd);
                            }
                            self.route_weight_less(&r, &chosen)
                        },
                    };
                    if replace {
                        let last = r[r.len() - 1];
                        proof {
                            if out is Some {
                                let d = out->0;
                                let bd = self.best_route_of(start, d);
                                assert forall|k: int| 0 <= k < i && #[trigger] self.reachable(start, v@[k]) implies self.lighter(start, dst, v@[k]) by {
                                    let bk = self.best_route_of(start, v@[k]);
                                    assert(self.is_best_route(bk, start, v@[k]));
                                    assert forall|x: int| 0 <= x < bk.len() implies self.contains(#[trigger] bk[x]) by {}
                                    self.lemma_route_totals(bk);
                                    assert forall|x: int| 0 <= x < bd.len() implies self.contains(#[trigger] bd[x]) by {}
                                    self.lemma_route_totals(bd);
                                    if k == j {
                                    } else if k < j {
                                        assert(self.lighter(start, d, v@[k]));
                                        self.lemma_weight_chain(br, bd, bk);
                                    } else {
                                        self.lemma_weight_chain(br, bd, bk);
                                    }
                                }
                            }
                        }
                        out = Some(last);
                        chosen = r;
                        proof {
                            j = i as int;
                        }
                    }
                },
                None => {},
            }
            i = i + 1;
        }
        out
    }

    /// Adds a node for an id the table does not hold yet.
    fn insert_node(&mut self, id: u8, node_type: Option<NodeType>, state: u8) -> (i: u32)
        requires
            old(self).wf(),
            !old(self).contains(id),
        ensures
            final(self).wf(),
            final(self).table() == old(self).table().insert(id, (state, i)),
            final(self).edge_slots() == old(self).edge_slots(),
            final(self).slots()[i as int] == Some(
                Node { id, node_type, forward_count: 1, dropped_count: 0 },
            ),
            forall|x: u8| old(self).contains(x) ==> #[trigger] final(self).node(x) == old(self).node(x),
            forall|k: int| 0 <= k < old(self).edge_slots().len() && #[trigger] old(self).edge_slots()[k] is Some
                ==> old(self).edge_slots()[k].unwrap().0 != i && old(self).edge_slots()[k].unwrap().1 != i,
    {
        let ghost ns = self.slots();
        let ghost m = self.table();
        let node = Node { id, node_type, forward_count: 1, dropped_count: 0 };
        let i = graph_add_node(&mut self.graph, node);
        self.node_map.insert(id, (state, i));
        proof {
            let ns2 = self.slots();
            if i as int == ns.len() {
                // every old slot is live and holds a different id, none equal to `id`
                let f = |k: int|
                    if 0 <= k < ns2.len() && ns2[k] is Some {
                        ns2[k].unwrap().id as int
                    } else {
                        0
                    };
                assert forall|a: int, b: int|
                    0 <= a < ns2.len() && 0 <= b < ns2.len() && a != b implies #[trigger] f(a) != #[trigger] f(b) by {
                    if a < ns.len() && b < ns.len() {
                        assert(node_live(ns, a));
                        assert(node_live(ns, b));
                    } else if a < ns.len() {
                        assert(node_live(ns, a));
                    } else {
                        assert(node_live(ns, b));
                    }
                }
                lemma_injective_bound(ns2.len() as int, 256, f);
            }
            assert forall|x: u8| #[trigger] self.table().contains_key(x) implies node_live(
                self.slots(),
                self.table()[x].1 as int,
            ) && self.slots()[self.table()[x].1 as int].unwrap().id == x by {
                if x != id {
                    assert(m.contains_key(x));
                    assert(node_live(ns, m[x].1 as int));
                }
            }
            assert forall|k: int| #[trigger] node_live(self.slots(), k) implies self.table().contains_key(
                self.slots()[k].unwrap().id,
            ) && self.table()[self.slots()[k].unwrap().id].1 == k by {
                if k != i as int {
                    assert(node_live(ns, k));
                }
            }
            assert forall|x: u8| old(self).contains(x) implies #[trigger] self.node(x) == old(self).node(x) by {
                assert(node_live(ns, m[x].1 as int));
            }
        }
        i
    }

    /// Joins the nodes in slots `a` and `b` unless an edge already does.
    fn connect(&mut self, a: u32, b: u32)
        requires
            old(self).wf(),
            node_live(old(self).slots(), a as int),
            node_live(old(self).slots(), b as int),
        ensures
            final(self).wf(),
            final(self).table() == old(self).table(),
            final(self).slots() == old(self).slots(),
            forall|x: u32, y: u32|
                edge_between(final(self).edge_slots(), x, y) <==> edge_between(
                    old(self).edge_slots(),
                    x,
                    y,
                ) || (x == a && y == b) || (x == b && y == a),
    {
        if graph_contains_edge(&self.graph, a, b) {
            return ;
        }
        let ghost es = self.edge_slots();
        let e = graph_add_edge(&mut self.graph, a, b);
        let ghost es2 = self.edge_slots();
        assert forall|x: u32, y: u32|
            edge_between(es2, x, y) <==> edge_between(es, x, y) || (x == a && y == b) || (x == b
                && y == a) by {
            if edge_between(es2, x, y) {
                let k = choose|k: int|
                    0 <= k < es2.len() && (#[trigger] es2[k] == Some((x, y)) || es2[k] == Some(
                        (y, x),
                    ));
                if k != e as int {
                    assert(es[k] == es2[k]);
                }
            }
            if edge_between(es, x, y) {
                let k = choose|k: int|
                    0 <= k < es.len() && (#[trigger] es[k] == Some((x, y)) || es[k] == Some((y, x)));
                assert(es2[k] == es[k]);
            }
            if (x == a && y == b) || (x == b && y == a) {
                assert(es2[e as int] == Some((a, b)));
            }
        }
        // the new edge joins a pair no other edge joins
        assert forall|k: int| 0 <= k < es.len() && #[trigger] es[k] is Some implies pair_key(
            es[k].unwrap(),
        ) != pair_key((a, b)) by {
            let p = es[k].unwrap();
            if pair_key(p) == pair_key((a, b)) {
                assert(p.0 < 256 && p.1 < 256);
                assert(es[k] == Some((a, b)) || es[k] == Some((b, a)));
            }
        }
        proof {
        if e as int == es.len() {
            let f = |i: int|
                if 0 <= i < es2.len() && es2[i] is Some {
                    pair_key(es2[i].unwrap())
                } else {
                    0
                };
            assert forall|i: int| 0 <= i < es2.len() implies 0 <= #[trigger] f(i) < 65536 by {
                let p = es2[i].unwrap();
                assert(node_live(self.slots(), p.0 as int));
                assert(node_live(self.slots(), p.1 as int));
            }
            lemma_injective_bound(es2.len() as int, 65536, f);
        }
        }
    }
}

/// After a drop is counted against `dst`, a node that was known stays
/// known exactly when at least one in fifty of the packets it handled was
/// forwarded (its reliability is not below 0.02), its drops counting the new
/// one when it is the drone `dst`.
pub proof fn lemma_drop_keeps_reliable(old: Network, new: Network, dst: u8, x: u8)
    requires
        drop_recorded(old, new, dst),
        old.contains(x),
    ensures
        ({
            let f = old.node(x).forward_count as int;
            let d0 = old.node(x).dropped_count as int;
            let d = if x == dst && old.is_drone(dst) && d0 < u32::MAX {
                d0 + 1
            } else {
                d0
            };
            new.contains(x) <==> f * 50 >= f + d
        }),
{
}

} // verus!
