//! The simulation controller's picture of the network: every node's nature
//! and the nodes it has a channel to, and the checks and updates the
//! controller makes on it when it changes the topology.
use std::collections::HashMap;
use vstd::prelude::*;

use crate::counting::lemma_push_to_set;
use crate::kinds::NodeType;
use crate::server::{contains_value, remove_value};

verus! {

broadcast use vstd::std_specs::hash::group_hash_axioms;

/// The finer kind of a node the controller keeps.
#[derive(Debug, Clone, Copy, PartialEq, Eq, Structural)]
pub enum NodeNature {
    Drone,
    ChatClient,
    WebBrowser,
    ChatServer,
    TextServer,
    MediaServer,
}

pub open spec fn nature_type(n: NodeNature) -> NodeType {
    match n {
        NodeNature::Drone => NodeType::Drone,
        NodeNature::ChatClient => NodeType::Client,
        NodeNature::WebBrowser => NodeType::Client,
        NodeNature::ChatServer => NodeType::Server,
        NodeNature::TextServer => NodeType::Server,
        NodeNature::MediaServer => NodeType::Server,
    }
}

impl NodeNature {
    /// The role of a node of this nature.
    pub fn simple_type(&self) -> (r: NodeType)
        ensures
            r == nature_type(*self),
    {
        match self {
            NodeNature::Drone => NodeType::Drone,
            NodeNature::ChatClient => NodeType::Client,
            NodeNature::WebBrowser => NodeType::Client,
            NodeNature::ChatServer => NodeType::Server,
            NodeNature::TextServer => NodeType::Server,
            NodeNature::MediaServer => NodeType::Server,
        }
    }
}

/// The controller's network graph: for each node, its nature and the nodes
/// it has a channel to.
pub struct NetworkGraph {
    nodes: HashMap<u8, (NodeNature, Vec<u8>)>,
}

impl NetworkGraph {
    pub closed spec fn natures(&self) -> Map<u8, NodeNature> {
        self.nodes@.map_values(|e: (NodeNature, Vec<u8>)| e.0)
    }

    /// The nodes each node has a channel to.
    pub closed spec fn links(&self) -> Map<u8, Set<u8>> {
        self.nodes@.map_values(|e: (NodeNature, Vec<u8>)| e.1@.to_set())
    }

    pub closed spec fn wf(&self) -> bool {
        forall|id: u8| #[trigger] self.nodes@.contains_key(id) ==> self.nodes@[id].1@.no_duplicates()
    }

    pub open spec fn has(&self, id: u8) -> bool {
        self.natures().contains_key(id)
    }

    pub fn new() -> (r: Self)
        ensures
            r.wf(),
            r.natures() == Map::<u8, NodeNature>::empty(),
            r.links() == Map::<u8, Set<u8>>::empty(),
    {
        let r = NetworkGraph { nodes: HashMap::new() };
        assert(r.natures() =~= Map::<u8, NodeNature>::empty());
        assert(r.links() =~= Map::<u8, Set<u8>>::empty());
        r
    }

    /// Adds (or replaces) a node with its nature and channels.
    pub fn insert_node(&mut self, id: u8, nature: NodeNature, connections: &Vec<u8>)
        requires
            old(self).wf(),
        ensures
            final(self).wf(),
            final(self).natures() == old(self).natures().insert(id, nature),
            final(self).links() == old(self).links().insert(id, connections@.to_set()),
    {
        let mut v: Vec<u8> = Vec::new();
        let mut i: usize = 0;
        while i < connections.len()
            invariant
                0 <= i <= connections@.len(),
                v@.no_duplicates(),
                v@.to_set() == connections@.take(i as int).to_set(),
            decreases connections@.len() - i,
        {
            let c = connections[i];
            let ghost before = v@;
            assert(connections@.take(i + 1) =~= connections@.take(i as int).push(c));
            proof {
                lemma_push_to_set(connections@.take(i as int), c);
            }
            if !contains_value(&v, c) {
                v.push(c);
                proof {
                    lemma_push_to_set(before, c);
                }
            } else {
                assert(before.to_set().insert(c) =~= before.to_set());
            }
            i = i + 1;
        }
        assert(connections@.take(i as int) =~= connections@);
        let ghost n0 = self.natures();
        let ghost l0 = self.links();
        let ghost vs = v@.to_set();
        self.nodes.insert(id, (nature, v));
        assert(self.natures() =~= n0.insert(id, nature));
        assert(self.links() =~= l0.insert(id, vs));
    }

    /// The smallest id from 1 up that no node has: with nodes 1, 3 and 4 it
    /// is 2, with nodes 1, 2 and 3 it is 4.
    pub fn generate_id(&self) -> (r: u8)
        requires
            exists|k: u8| 1 <= k && !self.has(k),
        ensures
            1 <= r,
            !self.has(r),
            forall|k: u8| 1 <= k < r ==> self.has(k),
    {
        let mut k: u16 = 1;
        while k < 256
            invariant
                1 <= k <= 256,
                exists|x: u8| 1 <= x && !self.has(x),
                forall|j: u8| 1 <= j < k ==> self.has(j),
            decreases 256 - k,
        {
            let id = k as u8;
            if !self.nodes.contains_key(&id) {
                assert(!self.has(id));
                return id;
            }
            assert(self.has(id));
            k = k + 1;
        }
        proof {
            let x = choose|x: u8| 1 <= x && !self.has(x);
            assert(self.has(x));
        }
        1
    }

    /// The role of node `id`, if it is in the graph.
    pub fn get_type(&self, id: u8) -> (r: Option<NodeType>)
        ensures
            r == if self.has(id) { Some(nature_type(self.natures()[id])) } else { None::<NodeType> },
    {
        match self.nodes.get(&id) {
            Some(e) => Some(e.0.simple_type()),
            None => None,
        }
    }

    /// Whether node `id` is in the graph.
    pub fn does_drone_exist(&self, id: u8) -> (r: bool)
        ensures
            r == self.has(id),
    {
        self.nodes.contains_key(&id)
    }

    /// Whether neither node lacks a channel to the other: each of `id` and
    /// `rhs` that is in the graph has the other among its channels.
    pub fn is_node_connected(&self, id: u8, rhs: u8) -> (r: bool)
        ensures
            r == ((self.has(id) ==> self.links()[id].contains(rhs)) && (self.has(rhs)
                ==> self.links()[rhs].contains(id))),
    {
        let mut out = true;
        match self.nodes.get(&id) {
            Some(e) => {
                if !contains_value(&e.1, rhs) {
                    out = false;
                }
            },
            None => {},
        }
        match self.nodes.get(&rhs) {
            Some(e) => {
                if !contains_value(&e.1, id) {
                    out = false;
                }
            },
            None => {},
        }
        out
    }

    /// Node `id` gets a channel to `other` (when `id` is in the graph).
    pub fn link(&mut self, id: u8, other: u8)
        requires
            old(self).wf(),
        ensures
            final(self).wf(),
            final(self).natures() == old(self).natures(),
            final(self).links() == if old(self).has(id) {
                old(self).links().insert(id, old(self).links()[id].insert(other))
            } else {
                old(self).links()
            },
    {
        let ghost n0 = self.natures();
        let ghost l0 = self.links();
        match self.nodes.remove(&id) {
            Some(e) => {
                let (nature, mut v) = e;
                let ghost before = v@;
                if !contains_value(&v, other) {
                    v.push(other);
                    proof {
                        lemma_push_to_set(before, other);
                    }
                } else {
                    assert(before.to_set().insert(other) =~= before.to_set());
                }
                let ghost vs = v@.to_set();
                self.nodes.insert(id, (nature, v));
                assert(self.natures() =~= n0);
                assert(self.links() =~= l0.insert(id, vs));
            },
            None => {
                assert(self.natures() =~= n0);
                assert(self.links() =~= l0);
            },
        }
    }

    /// Node `id` loses its channel to `other` (when `id` is in the graph).
    pub fn unlink(&mut self, id: u8, other: u8)
        requires
            old(self).wf(),
        ensures
            final(self).wf(),
            final(self).natures() == old(self).natures(),
            final(self).links() == if old(self).has(id) {
                old(self).links().insert(id, old(self).links()[id].remove(other))
            } else {
                old(self).links()
            },
    {
        let ghost n0 = self.natures();
        let ghost l0 = self.links();
        match self.nodes.remove(&id) {
            Some(e) => {
                let (nature, v) = e;
                let kept = remove_value(&v, other);
                let ghost vs = kept@.to_set();
                self.nodes.insert(id, (nature, kept));
                assert(self.natures() =~= n0);
                assert(self.links() =~= l0.insert(id, vs));
            },
            None => {
                assert(self.natures() =~= n0);
                assert(self.links() =~= l0);
            },
        }
    }

    /// Takes node `id` out of the graph: no node keeps a channel to it and
    /// it is no longer there.
    pub fn forget_node(&mut self, id: u8)
        requires
            old(self).wf(),
        ensures
            final(self).wf(),
            final(self).natures() == old(self).natures().remove(id),
            final(self).links() == old(self).links().remove(id).map_values(|s: Set<u8>| s.remove(id)),
    {
        let ghost n0 = self.natures();
        let ghost l0 = self.links();
        let mut k: u16 = 0;
        while k < 256
            invariant
                0 <= k <= 256,
                self.wf(),
                self.natures() == n0,
                forall|j: u8| #[trigger] self.links().contains_key(j) == l0.contains_key(j),
                forall|j: u8| l0.contains_key(j) && j < k ==> #[trigger] self.links()[j] == l0[j].remove(id),
                forall|j: u8| l0.contains_key(j) && j >= k ==> #[trigger] self.links()[j] == l0[j],
            decreases 256 - k,
        {
            let j = k as u8;
            let ghost before = self.links();
            assert(self.has(j) == before.contains_key(j));
            self.unlink(j, id);
            proof {
                assert forall|x: u8| l0.contains_key(x) && x < k + 1 implies #[trigger] self.links()[x] == l0[x].remove(id) by {
                    if x == j {
                        assert(before[x] == l0[x]);
                    } else {
                        assert(self.links()[x] == before[x]);
                    }
                }
                assert forall|x: u8| l0.contains_key(x) && x >= k + 1 implies #[trigger] self.links()[x] == l0[x] by {
                    assert(x != j);
                    assert(self.links()[x] == before[x]);
                }
            }
            k = k + 1;
        }
        let ghost l1 = self.links();
        self.nodes.remove(&id);
        assert(self.natures() =~= n0.remove(id));
        assert forall|x: u8| #[trigger] self.links().contains_key(x) implies self.links()[x] == l0.remove(id).map_values(|s: Set<u8>| s.remove(id))[x] by {
            assert(l1[x] == l0[x].remove(id));
        }
        assert(self.links() =~= l0.remove(id).map_values(|s: Set<u8>| s.remove(id)));
    }

    /// The nodes `id` has channels to.
    pub fn links_of(&self, id: u8) -> (r: Vec<u8>)
        requires
            self.has(id),
        ensures
            r@.to_set() == self.links()[id],
    {
        match self.nodes.get(&id) {
            Some(e) => {
                let mut out: Vec<u8> = Vec::new();
                let mut i: usize = 0;
                while i < e.1.len()
                    invariant
                        0 <= i <= e.1@.len(),
                        out@ == e.1@.take(i as int),
                    decreases e.1@.len() - i,
                {
                    out.push(e.1[i]);
                    assert(out@ =~= e.1@.take(i + 1));
                    i = i + 1;
                }
                assert(e.1@.take(i as int) =~= e.1@);
                out
            },
            None => Vec::new(),
        }
    }
}

/// The role of each nature of node: drones route, chat clients and web
/// browsers are clients, and chat, text and media servers are servers.
pub proof fn lemma_nature_roles(n: NodeNature)
    ensures
        (nature_type(n) == NodeType::Drone) <==> (n == NodeNature::Drone),
        (nature_type(n) == NodeType::Client) <==> (n == NodeNature::ChatClient || n == NodeNature::WebBrowser),
        (nature_type(n) == NodeType::Server) <==> (n == NodeNature::ChatServer || n == NodeNature::TextServer
            || n == NodeNature::MediaServer),
{
}

} // verus!
