//! The state every server keeps besides its content: the floods it has seen,
//! its topology, the fragments of messages in flight and those still to be
//! sent, and its flood and session counters. The channels to the neighbours
//! stay outside; this state knows the neighbours' ids.
use std::collections::HashMap;
use vstd::prelude::*;

use crate::counting::lemma_push_to_set;
use crate::kinds::NodeType;
use crate::packet::{FloodRequest, FloodResponse, Fragment, Nack, NackType, Packet, SourceRoutingHeader};
use crate::routing::Network;

verus! {

broadcast use vstd::std_specs::hash::group_hash_axioms;

/// The key under which the fragments of session `session_id` started by node
/// `source` are kept.
pub open spec fn session_key(session_id: u64, source: u8) -> u128 {
    (session_id * 256 + source) as u128
}

pub fn make_session_key(session_id: u64, source: u8) -> (r: u128)
    ensures
        r == session_key(session_id, source),
{
    (session_id as u128) * 256 + (source as u128)
}

/// Different sessions or sources never share a key.
pub proof fn lemma_session_key_injective(s1: u64, n1: u8, s2: u64, n2: u8)
    requires
        session_key(s1, n1) == session_key(s2, n2),
    ensures
        s1 == s2 && n1 == n2,
{
    assert(s1 * 256 + n1 < 0x1_0000_0000_0000_0000_00) by (nonlinear_arith)
        requires s1 < 0x1_0000_0000_0000_0000, n1 < 256;
    assert(s2 * 256 + n2 < 0x1_0000_0000_0000_0000_00) by (nonlinear_arith)
        requires s2 < 0x1_0000_0000_0000_0000, n2 < 256;
    assert(s1 * 256 + n1 == s2 * 256 + n2);
    assert(s1 == s2 && n1 == n2) by (nonlinear_arith)
        requires s1 * 256 + n1 == s2 * 256 + n2, 0 <= n1 < 256, 0 <= n2 < 256, s1 >= 0, s2 >= 0;
}

/// Fragments that could not leave yet, with the session, sender and
/// destination they belong to.
#[derive(Debug, Clone)]
pub struct UnsentEntry {
    pub session_id: u64,
    pub source: u8,
    pub destination: u8,
    pub fragments: Vec<Fragment>,
}

/// The key and fragments of an entry of unsent fragments.
pub open spec fn unsent_view(e: UnsentEntry) -> ((u64, u8, u8), Seq<Fragment>) {
    ((e.session_id, e.source, e.destination), e.fragments@)
}

/// The unsent entries after fragment `f` is added under key `k`: appended
/// to the entry with that key, or a new entry at the end.
pub open spec fn with_unsent(
    s: Seq<((u64, u8, u8), Seq<Fragment>)>,
    k: (u64, u8, u8),
    f: Fragment,
) -> Seq<((u64, u8, u8), Seq<Fragment>)> {
    if exists|i: int| 0 <= i < s.len() && s[i].0 == k {
        let i = key_index(s, k);
        s.update(i, (k, s[i].1.push(f)))
    } else {
        s.push((k, seq![f]))
    }
}

/// The position of the unsent entry with key `k` (meaningful when there is one).
pub open spec fn key_index(s: Seq<((u64, u8, u8), Seq<Fragment>)>, k: (u64, u8, u8)) -> int {
    choose|i: int| 0 <= i < s.len() && s[i].0 == k
}

/// Every unsent fragment with its key, entry by entry.
pub open spec fn flatten_unsent(s: Seq<((u64, u8, u8), Seq<Fragment>)>) -> Seq<(Fragment, (u64, u8, u8))>
    decreases s.len(),
{
    if s.len() == 0 {
        Seq::empty()
    } else {
        let last = s.last();
        flatten_unsent(s.drop_last()) + last.1.map_values(|f: Fragment| (f, last.0))
    }
}

/// No two unsent entries share a key.
pub open spec fn keys_distinct(s: Seq<((u64, u8, u8), Seq<Fragment>)>) -> bool {
    forall|i: int, j: int| 0 <= i < j < s.len() ==> #[trigger] s[i].0 != #[trigger] s[j].0
}

/// What a server reports to the simulation controller.
#[derive(Debug, Clone)]
pub enum ServerEvent {
    Flooding(u8),
    PacketSent(Packet),
    PacketReceived(Packet),
    PacketSendingError(Packet),
    AckReceived(Packet),
    NackReceived(Packet),
    MissingDestination(u8, u8),
    MissingRoute(u8, u8),
    LostMessage(u64, u8, String),
    LostFragment(u64, u8, u64),
    DiscardedMessage(u8, u64),
    DroneInsideDestination(u8, u8),
    WrongDestinationType(u8, u8),
    WrongDestination(u8, Packet),
    FileNotFound(u8, u64),
    IncompleteFile(u8, u64),
    FilesState(u8, Vec<(u64, String)>, Vec<(u64, String)>),
    FileNotReadable(u8, String, String),
    MediaNotFound(u8, u64),
    MediaState(u8, Vec<(u64, String)>),
    ClientRegistered(u8, u8),
    ClientAlreadyRegistered(u8, u8),
    ControllerShortcut(crate::packet::DroneEvent),
}

/// What a server's handling of a message asks to be done: a message to
/// send to a node, or an event to report.
#[derive(Debug, Clone)]
pub enum ServerAction {
    Send(crate::message::Message, u8),
    Event(ServerEvent),
}

/// Server `new` is `old` but for its topology and session counter.
pub open spec fn server_kept(old: ServerStruct, new: ServerStruct) -> bool {
    &&& new.wf()
    &&& new.id() == old.id()
    &&& new.neighbor_ids() == old.neighbor_ids()
    &&& new.seen_floods() == old.seen_floods()
    &&& new.pending() == old.pending()
    &&& new.unsent() == old.unsent()
    &&& new.next_flood() == old.next_flood()
    &&& new.flooding() == old.flooding()
    &&& new.flood_attempts() == old.flood_attempts()
    &&& new.type_asked() == old.type_asked()
    &&& new.running() == old.running()
}

/// Action `a` sends a message from `from` in session `session` to `to`.
pub open spec fn is_send(a: ServerAction, from: u8, session: int, to: u8) -> bool {
    a matches ServerAction::Send(m, d) && m.source_id == from && m.session_id == session && d == to
}

/// The content of the message action `a` sends.
pub open spec fn sent_content(a: ServerAction) -> crate::message::ContentType {
    a->Send_0.content
}

/// What to do with a flood request: answer it with a flood response, or
/// pass the packet on to the listed neighbours.
#[derive(Debug, Clone)]
pub enum FloodDecision {
    Respond,
    Forward(Packet, Vec<u8>),
}

/// The flood-attempt count after which a server stops waiting for routes to
/// every known node and may flood again.
pub const MAX_FLOOD_ATTEMPTS: u8 = 200;

pub struct ServerStruct {
    node_id: u8,
    neighbors: Vec<u8>,
    flood_ids: Vec<(u64, u8)>,
    network: Network,
    fragments: HashMap<u128, (u8, Vec<Fragment>)>,
    unsent_fragments: Vec<UnsentEntry>,
    next_flood_id: u64,
    next_session_id: u64,
    is_flooding: bool,
    flood_counter: u8,
    type_checking: Vec<u8>,
    is_running: bool,
}

impl ServerStruct {
    pub closed spec fn id(&self) -> u8 {
        self.node_id
    }

    pub closed spec fn topology(&self) -> Network {
        self.network
    }

    pub closed spec fn running(&self) -> bool {
        self.is_running
    }

    /// The ids of the neighbours the server has a channel to.
    pub closed spec fn neighbor_ids(&self) -> Seq<u8> {
        self.neighbors@
    }

    /// The (flood id, initiator) pairs of the floods already seen.
    pub closed spec fn seen_floods(&self) -> Set<(u64, u8)> {
        self.flood_ids@.to_set()
    }

    /// The messages in flight: for each session key, the destination and
    /// the fragments not yet acknowledged (or, for an incoming message, the
    /// fragments received so far).
    pub closed spec fn pending(&self) -> Map<u128, (u8, Seq<Fragment>)> {
        self.fragments@.map_values(|v: (u8, Vec<Fragment>)| (v.0, v.1@))
    }

    /// What message handling leaves alone is as in `other`.
    pub open spec fn same_control(&self, other: Self) -> bool {
        &&& self.id() == other.id()
        &&& self.neighbor_ids() == other.neighbor_ids()
        &&& self.seen_floods() == other.seen_floods()
        &&& self.next_flood() == other.next_flood()
        &&& self.next_session() == other.next_session()
        &&& self.flooding() == other.flooding()
        &&& self.flood_attempts() == other.flood_attempts()
        &&& self.type_asked() == other.type_asked()
        &&& self.running() == other.running()
    }

    pub closed spec fn unsent(&self) -> Seq<((u64, u8, u8), Seq<Fragment>)> {
        self.unsent_fragments@.map_values(|e: UnsentEntry| unsent_view(e))
    }

    pub closed spec fn next_flood(&self) -> u64 {
        self.next_flood_id
    }

    pub closed spec fn next_session(&self) -> u64 {
        self.next_session_id
    }

    pub closed spec fn flooding(&self) -> bool {
        self.is_flooding
    }

    pub closed spec fn flood_attempts(&self) -> u8 {
        self.flood_counter
    }

    /// The nodes whose kind the server has asked for.
    pub closed spec fn type_asked(&self) -> Set<u8> {
        self.type_checking@.to_set()
    }

    /// Well-formedness: the topology is well formed, no neighbour, flood or
    /// asked node is listed twice, and no two unsent entries share a key.
    pub closed spec fn wf(&self) -> bool {
        &&& self.network.wf()
        &&& self.neighbors@.no_duplicates()
        &&& self.flood_ids@.no_duplicates()
        &&& self.type_checking@.no_duplicates()
        &&& keys_distinct(self.unsent())
    }

    /// A server with the given neighbours, knowing nothing else yet.
    pub fn new(node_id: u8, neighbors: Vec<u8>) -> (r: Self)
        requires
            neighbors@.no_duplicates(),
        ensures
            r.wf(),
            r.id() == node_id,
            r.neighbor_ids() == neighbors@,
            r.seen_floods() == Set::<(u64, u8)>::empty(),
            r.pending() == Map::<u128, (u8, Seq<Fragment>)>::empty(),
            r.unsent() == Seq::<((u64, u8, u8), Seq<Fragment>)>::empty(),
            r.next_flood() == 0,
            r.next_session() == 0,
            !r.flooding(),
            r.flood_attempts() == 0,
            r.type_asked() == Set::<u8>::empty(),
            r.running(),
            forall|id: u8| !r.topology().contains(id),
    {
        let r = ServerStruct {
            node_id,
            neighbors,
            flood_ids: Vec::new(),
            network: Network::new(),
            fragments: HashMap::new(),
            unsent_fragments: Vec::new(),
            next_flood_id: 0,
            next_session_id: 0,
            is_flooding: false,
            flood_counter: 0,
            type_checking: Vec::new(),
            is_running: true,
        };
        assert(r.flood_ids@.to_set() =~= Set::<(u64, u8)>::empty());
        assert(r.pending() =~= Map::<u128, (u8, Seq<Fragment>)>::empty());
        assert(r.type_checking@.to_set() =~= Set::<u8>::empty());
        assert(r.unsent() =~= Seq::<((u64, u8, u8), Seq<Fragment>)>::empty());
        r
    }

    pub fn get_src_id(&self) -> (r: u8)
        ensures
            r == self.id(),
    {
        self.node_id
    }

    pub fn is_running(&self) -> (r: bool)
        ensures
            r == self.running(),
    {
        self.is_running
    }

    /// Whether fresh flood and session ids can still be drawn (`has_ids`).
    pub fn ids_fit(&self) -> (r: bool)
        ensures
            r == self.has_ids(),
    {
        self.next_flood_id < u64::MAX - 1 && self.next_session_id < u64::MAX - 2
    }

    /// The counter the next session id is drawn from.
    pub fn session_counter(&self) -> (r: u64)
        ensures
            r == self.next_session(),
    {
        self.next_session_id
    }

    /// Stops the server's loop.
    pub fn crash(&mut self)
        ensures
            !final(self).running(),
            final(self).wf() == old(self).wf(),
            final(self).id() == old(self).id(),
            final(self).topology() == old(self).topology(),
            final(self).pending() == old(self).pending(),
            final(self).unsent() == old(self).unsent(),
            final(self).neighbor_ids() == old(self).neighbor_ids(),
    {
        self.is_running = false;
    }

    pub fn network(&self) -> (r: &Network)
        ensures
            *r == self.topology(),
            self.wf() ==> r.wf(),
    {
        &self.network
    }

    /// A fresh flood id: the counter's value, after which it moves on by one.
    pub fn get_flood_id(&mut self) -> (r: u64)
        requires
            old(self).next_flood() < u64::MAX,
        ensures
            r == old(self).next_flood(),
            final(self).next_flood() == old(self).next_flood() + 1,
            final(self).next_session() == old(self).next_session(),
            final(self).wf() == old(self).wf(),
            final(self).id() == old(self).id(),
            final(self).topology() == old(self).topology(),
            final(self).pending() == old(self).pending(),
            final(self).unsent() == old(self).unsent(),
            final(self).neighbor_ids() == old(self).neighbor_ids(),
            final(self).seen_floods() == old(self).seen_floods(),
            final(self).flooding() == old(self).flooding(),
            final(self).flood_attempts() == old(self).flood_attempts(),
            final(self).type_asked() == old(self).type_asked(),
            final(self).running() == old(self).running(),
    {
        self.next_flood_id = self.next_flood_id + 1;
        self.next_flood_id - 1
    }

    /// A fresh session id: the counter's value, after which it moves on by one.
    pub fn get_session_id(&mut self) -> (r: u64)
        requires
            old(self).next_session() < u64::MAX,
        ensures
            r == old(self).next_session(),
            final(self).next_session() == old(self).next_session() + 1,
            final(self).next_flood() == old(self).next_flood(),
            final(self).wf() == old(self).wf(),
            final(self).id() == old(self).id(),
            final(self).topology() == old(self).topology(),
            final(self).pending() == old(self).pending(),
            final(self).unsent() == old(self).unsent(),
            final(self).neighbor_ids() == old(self).neighbor_ids(),
            final(self).seen_floods() == old(self).seen_floods(),
            final(self).flooding() == old(self).flooding(),
            final(self).flood_attempts() == old(self).flood_attempts(),
            final(self).type_asked() == old(self).type_asked(),
            final(self).running() == old(self).running(),
    {
        self.next_session_id = self.next_session_id + 1;
        self.next_session_id - 1
    }

    /// A new flood may start only when none is going on.
    pub fn can_flood(&self) -> (r: bool)
        ensures
            r == !self.flooding(),
    {
        !self.is_flooding
    }

    pub fn starting_to_flood(&mut self)
        ensures
            final(self).flooding(),
            final(self).flood_attempts() == old(self).flood_attempts(),
            final(self).next_flood() == old(self).next_flood(),
            final(self).next_session() == old(self).next_session(),
            final(self).wf() == old(self).wf(),
            final(self).id() == old(self).id(),
            final(self).topology() == old(self).topology(),
            final(self).pending() == old(self).pending(),
            final(self).unsent() == old(self).unsent(),
            final(self).neighbor_ids() == old(self).neighbor_ids(),
            final(self).seen_floods() == old(self).seen_floods(),
            final(self).running() == old(self).running(),
    {
        self.is_flooding = true;
    }

    /// Records that the kind of `dst` is being asked for; true when it was
    /// not being asked already.
    pub fn can_type_check(&mut self, dst: u8) -> (r: bool)
        requires
            old(self).wf(),
        ensures
            final(self).wf(),
            r == !old(self).type_asked().contains(dst),
            final(self).type_asked() == old(self).type_asked().insert(dst),
            final(self).id() == old(self).id(),
            final(self).topology() == old(self).topology(),
            final(self).pending() == old(self).pending(),
            final(self).unsent() == old(self).unsent(),
            final(self).neighbor_ids() == old(self).neighbor_ids(),
            final(self).seen_floods() == old(self).seen_floods(),
            final(self).next_flood() == old(self).next_flood(),
            final(self).next_session() == old(self).next_session(),
            final(self).flooding() == old(self).flooding(),
            final(self).flood_attempts() == old(self).flood_attempts(),
            final(self).running() == old(self).running(),
    {
        if contains_value(&self.type_checking, dst) {
            proof {
                assert(self.type_checking@.to_set().insert(dst) =~= self.type_checking@.to_set());
            }
            return false;
        }
        let ghost before = self.type_checking@;
        self.type_checking.push(dst);
        proof {
            lemma_push_to_set(before, dst);
            assert(!before.contains(dst));
        }
        true
    }

    /// Forgets that the kind of `src` was asked for.
    pub fn type_checked(&mut self, src: u8)
        requires
            old(self).wf(),
        ensures
            final(self).wf(),
            final(self).type_asked() == old(self).type_asked().remove(src),
            final(self).id() == old(self).id(),
            final(self).topology() == old(self).topology(),
            final(self).pending() == old(self).pending(),
            final(self).unsent() == old(self).unsent(),
            final(self).neighbor_ids() == old(self).neighbor_ids(),
            final(self).seen_floods() == old(self).seen_floods(),
            final(self).next_flood() == old(self).next_flood(),
            final(self).next_session() == old(self).next_session(),
            final(self).flooding() == old(self).flooding(),
            final(self).running() == old(self).running(),
    {
        let ghost before = self.type_checking@;
        self.type_checking = remove_value(&self.type_checking, src);
        proof {
            assert(self.type_checking@.to_set() =~= before.to_set().remove(src));
        }
    }

    /// Whether some fragment waits to be sent again.
    pub fn check_to_resend_fragments(&self) -> (r: bool)
        ensures
            r == (self.unsent().len() > 0),
    {
        self.unsent_fragments.len() > 0
    }

    /// Forgets every unsent fragment.
    pub fn reset_unsent_fragments(&mut self)
        requires
            old(self).wf(),
        ensures
            final(self).wf(),
            final(self).unsent() == Seq::<((u64, u8, u8), Seq<Fragment>)>::empty(),
            final(self).id() == old(self).id(),
            final(self).topology() == old(self).topology(),
            final(self).pending() == old(self).pending(),
            final(self).neighbor_ids() == old(self).neighbor_ids(),
            final(self).seen_floods() == old(self).seen_floods(),
            final(self).next_flood() == old(self).next_flood(),
            final(self).next_session() == old(self).next_session(),
            final(self).flooding() == old(self).flooding(),
            final(self).running() == old(self).running(),
    {
        self.unsent_fragments = Vec::new();
        assert(self.unsent() =~= Seq::<((u64, u8, u8), Seq<Fragment>)>::empty());
    }

    /// A new channel to neighbour `id` (a channel already there is replaced).
    pub fn add_sender(&mut self, id: u8)
        requires
            old(self).wf(),
        ensures
            final(self).wf(),
            final(self).neighbor_ids().to_set() == old(self).neighbor_ids().to_set().insert(id),
            final(self).id() == old(self).id(),
            final(self).topology() == old(self).topology(),
            final(self).pending() == old(self).pending(),
            final(self).unsent() == old(self).unsent(),
            final(self).seen_floods() == old(self).seen_floods(),
            final(self).next_flood() == old(self).next_flood(),
            final(self).next_session() == old(self).next_session(),
            final(self).flooding() == old(self).flooding(),
            final(self).running() == old(self).running(),
    {
        let ghost before = self.neighbors@;
        if !contains_value(&self.neighbors, id) {
            self.neighbors.push(id);
            proof {
                lemma_push_to_set(before, id);
            }
        } else {
            assert(before.to_set().insert(id) =~= before.to_set());
        }
    }

    /// Drops the channel to neighbour `id`.
    pub fn remove_sender(&mut self, id: u8)
        requires
            old(self).wf(),
        ensures
            final(self).wf(),
            final(self).neighbor_ids().to_set() == old(self).neighbor_ids().to_set().remove(id),
            final(self).id() == old(self).id(),
            final(self).topology() == old(self).topology(),
            final(self).pending() == old(self).pending(),
            final(self).unsent() == old(self).unsent(),
            final(self).seen_floods() == old(self).seen_floods(),
            final(self).next_flood() == old(self).next_flood(),
            final(self).next_session() == old(self).next_session(),
            final(self).flooding() == old(self).flooding(),
            final(self).running() == old(self).running(),
    {
        let ghost before = self.neighbors@;
        self.neighbors = remove_value(&self.neighbors, id);
        proof {
            assert(self.neighbors@.to_set() =~= before.to_set().remove(id));
        }
    }
}

/// The node a flood request came from: the one before the last of its
/// trace, or its initiator when the trace holds only one node.
pub open spec fn flood_prev(fr: FloodRequest) -> u8 {
    if fr.path_trace@.len() > 1 {
        fr.path_trace@[fr.path_trace@.len() - 2].0
    } else {
        fr.initiator_id
    }
}

impl ServerStruct {
    /// Takes in a flood request that already carries this server in its
    /// trace. A flood seen before, or any flood when the server has a single
    /// neighbour, is to be answered; a new one is passed on to every
    /// neighbour but the one it came from, in a packet with an empty route.
    pub fn handle_flood_request(&mut self, flood_request: FloodRequest, session_id: u64) -> (r: FloodDecision)
        requires
            old(self).wf(),
        ensures
            final(self).wf(),
            final(self).seen_floods() == old(self).seen_floods().insert(
                (flood_request.flood_id, flood_request.initiator_id),
            ),
            final(self).topology() == old(self).topology(),
            final(self).pending() == old(self).pending(),
            final(self).unsent() == old(self).unsent(),
            final(self).neighbor_ids() == old(self).neighbor_ids(),
            final(self).id() == old(self).id(),
            final(self).next_flood() == old(self).next_flood(),
            final(self).next_session() == old(self).next_session(),
            final(self).flooding() == old(self).flooding(),
            final(self).type_asked() == old(self).type_asked(),
            final(self).running() == old(self).running(),
            (r is Respond) == (old(self).seen_floods().contains(
                (flood_request.flood_id, flood_request.initiator_id),
            ) || old(self).neighbor_ids().len() == 1),
            r matches FloodDecision::Forward(p, targets) ==> {
                &&& p.pack_type == crate::packet::PacketType::FloodRequest(flood_request)
                &&& p.routing_header.hops@ == Seq::<u8>::empty()
                &&& p.routing_header.hop_index == 0
                &&& p.session_id == session_id
                &&& targets@.no_duplicates()
                &&& forall|n: u8| #[trigger] targets@.contains(n) == (old(self).neighbor_ids().contains(n)
                    && n != flood_prev(flood_request))
            },
    {
        let key = (flood_request.flood_id, flood_request.initiator_id);
        let mut i: usize = 0;
        let mut seen = false;
        while i < self.flood_ids.len()
            invariant
                0 <= i <= self.flood_ids@.len(),
                seen == exists|j: int| 0 <= j < i && self.flood_ids@[j] == key,
            decreases self.flood_ids@.len() - i,
        {
            if self.flood_ids[i].0 == key.0 && self.flood_ids[i].1 == key.1 {
                seen = true;
            }
            i = i + 1;
        }
        let ghost before = self.flood_ids@;
        if seen {
            proof {
                let j = choose|j: int| 0 <= j < before.len() && before[j] == key;
                assert(before.contains(key));
                assert(before.to_set().insert(key) =~= before.to_set());
            }
            return FloodDecision::Respond;
        }
        self.flood_ids.push(key);
        proof {
            lemma_push_to_set(before, key);
            assert(!before.contains(key));
        }
        if self.neighbors.len() == 1 {
            return FloodDecision::Respond;
        }
        let n = flood_request.path_trace.len();
        let prev = if n > 1 {
            flood_request.path_trace[n - 2].0
        } else {
            flood_request.initiator_id
        };
        let targets = remove_value(&self.neighbors, prev);
        let packet = Packet::new_flood_request(SourceRoutingHeader::empty_route(), session_id, flood_request);
        FloodDecision::Forward(packet, targets)
    }

    /// Keeps an incoming fragment with the others of its message, under the
    /// session and the first hop of the packet that brought it; a new
    /// message starts with this server as its destination.
    pub fn handle_fragment(&mut self, fragment: Fragment, packet: &Packet)
        requires
            old(self).wf(),
            packet.routing_header.hops@.len() > 0,
        ensures
            final(self).wf(),
            final(self).same_control(*old(self)),
            final(self).topology() == old(self).topology(),
            final(self).unsent() == old(self).unsent(),
            ({
                let k = session_key(packet.session_id, packet.routing_header.hops@[0]);
                final(self).pending() == old(self).pending().insert(
                    k,
                    if old(self).pending().contains_key(k) {
                        (old(self).pending()[k].0, old(self).pending()[k].1.push(fragment))
                    } else {
                        (old(self).id(), seq![fragment])
                    },
                )
            }),
    {
        let key = make_session_key(packet.session_id, packet.routing_header.hops[0]);
        let ghost before = self.pending();
        let ghost raw = self.fragments@;
        match self.fragments.remove(&key) {
            Some(entry) => {
                let (d, mut v) = entry;
                assert(raw.contains_key(key) && raw[key] == (d, v));
                v.push(fragment);
                self.fragments.insert(key, (d, v));
                assert(self.pending() =~= before.insert(key, (before[key].0, before[key].1.push(fragment))));
            },
            None => {
                assert(!raw.contains_key(key));
                let v: Vec<Fragment> = vec![fragment];
                self.fragments.insert(key, (self.node_id, v));
                assert(v@ =~= seq![fragment]);
                assert(self.pending() =~= before.insert(key, (self.node_id, seq![fragment])));
            },
        }
    }
}

/// The unsent entries without the one under key `k`.
pub open spec fn without_key(s: Seq<((u64, u8, u8), Seq<Fragment>)>, k: (u64, u8, u8)) -> Seq<((u64, u8, u8), Seq<Fragment>)> {
    if exists|i: int| 0 <= i < s.len() && s[i].0 == k {
        s.remove(choose|i: int| 0 <= i < s.len() && s[i].0 == k)
    } else {
        s
    }
}

/// The fragments other than those with index `fi`, in order.
pub open spec fn without_index(s: Seq<Fragment>, fi: u64) -> Seq<Fragment>
    decreases s.len(),
{
    if s.len() == 0 {
        s
    } else if s.last().fragment_index == fi {
        without_index(s.drop_last(), fi)
    } else {
        without_index(s.drop_last(), fi).push(s.last())
    }
}

/// The first of the fragments `s` whose index is `fi`, if any.
pub open spec fn fragment_with_index(s: Seq<Fragment>, fi: u64) -> Option<Fragment>
    decreases s.len(),
{
    if s.len() == 0 {
        None
    } else {
        match fragment_with_index(s.drop_last(), fi) {
            Some(f) => Some(f),
            None => if s.last().fragment_index == fi {
                Some(s.last())
            } else {
                None
            },
        }
    }
}

/// The first fragment of `v` whose index is `fi`, if any.
pub fn find_fragment(v: &Vec<Fragment>, fi: u64) -> (r: Option<Fragment>)
    ensures
        r == fragment_with_index(v@, fi),
{
    let mut found: Option<Fragment> = None;
    let mut i: usize = 0;
    while i < v.len()
        invariant
            0 <= i <= v@.len(),
            found == fragment_with_index(v@.take(i as int), fi),
        decreases v@.len() - i,
    {
        assert(v@.take(i + 1).drop_last() =~= v@.take(i as int));
        if found.is_none() && v[i].fragment_index == fi {
            found = Some(v[i]);
        }
        i = i + 1;
    }
    assert(v@.take(i as int) =~= v@);
    found
}

/// Where the fragment a nack asks for again stands.
#[derive(Debug, Clone, Copy)]
pub enum NackLookup {
    /// The fragment, and the destination of its message.
    Resend(Fragment, u8),
    /// The message is no longer kept.
    LostMessage,
    /// The message has no fragment with that index.
    LostFragment,
}

/// Where the fragment with index `fi` of the message kept under key `k`
/// stands: resent with its message's destination, or lost with its message,
/// or lost alone.
pub open spec fn nack_lookup(pending: Map<u128, (u8, Seq<Fragment>)>, k: u128, fi: u64) -> NackLookup {
    if !pending.contains_key(k) {
        NackLookup::LostMessage
    } else {
        match fragment_with_index(pending[k].1, fi) {
            Some(f) => NackLookup::Resend(f, pending[k].0),
            None => NackLookup::LostFragment,
        }
    }
}

/// What a nack makes of the server's state `old` (`new`): a routing error
/// or an unexpected recipient removes the node it names from the topology;
/// a destination that turned out to be a drone removes that node (the
/// route's last hop) and forgets the message with its unsent fragments; a
/// drop counts against the drone that dropped (the route's first hop).
pub open spec fn nack_handled(old: ServerStruct, new: ServerStruct, nack: Nack, packet: Packet) -> bool {
    match nack.nack_type {
        NackType::ErrorInRouting(w) => {
            &&& crate::routing::node_removed(old.topology(), new.topology(), w)
            &&& new.pending() == old.pending()
            &&& new.unsent() == old.unsent()
        },
        NackType::UnexpectedRecipient(w) => {
            &&& crate::routing::node_removed(old.topology(), new.topology(), w)
            &&& new.pending() == old.pending()
            &&& new.unsent() == old.unsent()
        },
        NackType::DestinationIsDrone => {
            let w = packet.routing_header.hops@.last();
            &&& crate::routing::node_removed(old.topology(), new.topology(), w)
            &&& new.pending() == old.pending().remove(session_key(packet.session_id, old.id()))
            &&& new.unsent() == without_key(old.unsent(), (packet.session_id, old.id(), w))
        },
        NackType::Dropped => {
            &&& crate::routing::drop_recorded(old.topology(), new.topology(), packet.routing_header.hops@[0])
            &&& new.pending() == old.pending()
            &&& new.unsent() == old.unsent()
        },
    }
}

/// The messages kept after an ack of fragment `fi` of the message under
/// key `k`: the fragments with that index are dropped, and the message is
/// forgotten once none is left; nothing changes when no message is kept
/// under `k`.
pub open spec fn acked_pending(pending: Map<u128, (u8, Seq<Fragment>)>, k: u128, fi: u64) -> Map<u128, (u8, Seq<Fragment>)> {
    if !pending.contains_key(k) {
        pending
    } else {
        let rest = without_index(pending[k].1, fi);
        if rest.len() == 0 {
            pending.remove(k)
        } else {
            pending.insert(k, (pending[k].0, rest))
        }
    }
}

impl ServerStruct {
    /// Reacts to a nack for one of this server's messages. A routing error
    /// or an unexpected recipient makes the server forget the node named in
    /// the nack; a drop counts against the drone that dropped (the packet's
    /// first hop); in these cases the fragment is to be sent again (true). A
    /// destination that turned out to be a drone is forgotten together with
    /// the message (its fragments in flight and unsent): nothing is resent.
    pub fn handle_nack(&mut self, nack: Nack, packet: &Packet) -> (r: bool)
        requires
            old(self).wf(),
            packet.routing_header.hops@.len() > 0,
        ensures
            final(self).wf(),
            final(self).same_control(*old(self)),
            r == !(nack.nack_type is DestinationIsDrone),
            nack_handled(*old(self), *final(self), nack, *packet),
    {
        match nack.nack_type {
            NackType::UnexpectedRecipient(wrong_node) => {
                self.network.remove_node(wrong_node);
                true
            },
            NackType::ErrorInRouting(wrong_node) => {
                self.network.remove_node(wrong_node);
                true
            },
            NackType::DestinationIsDrone => {
                let wrong_node = packet.routing_header.hops[packet.routing_header.hops.len() - 1];
                self.network.remove_node(wrong_node);
                let key = make_session_key(packet.session_id, self.node_id);
                let ghost before = self.pending();
                self.fragments.remove(&key);
                assert(self.pending() =~= before.remove(key));
                self.remove_unsent(packet.session_id, self.node_id, wrong_node);
                false
            },
            NackType::Dropped => {
                let dropper = packet.routing_header.hops[0];
                self.network.negative_feedback(dropper);
                true
            },
        }
    }

    /// Forgets the unsent fragments under one key.
    fn remove_unsent(&mut self, session_id: u64, source: u8, destination: u8)
        requires
            old(self).wf(),
        ensures
            final(self).wf(),
            final(self).same_control(*old(self)),
            final(self).topology() == old(self).topology(),
            final(self).pending() == old(self).pending(),
            final(self).unsent() == without_key(old(self).unsent(), (session_id, source, destination)),
    {
        let ghost k = (session_id, source, destination);
        let ghost s = self.unsent();
        let mut i: usize = 0;
        while i < self.unsent_fragments.len()
            invariant
                0 <= i <= self.unsent_fragments@.len(),
                *self == *old(self),
                old(self).wf(),
                s == self.unsent(),
                k == (session_id, source, destination),
                forall|j: int| 0 <= j < i ==> s[j].0 != k,
            decreases self.unsent_fragments@.len() - i,
        {
            let e = &self.unsent_fragments[i];
            if e.session_id == session_id && e.source == source && e.destination == destination {
                proof {
                    assert(s[i as int] == unsent_view(self.unsent_fragments@[i as int]));
                    assert(s[i as int].0 == k);
                    let c = choose|c: int| 0 <= c < s.len() && s[c].0 == k;
                    assert(keys_distinct(s));
                    if c != i {
                        if c < i {
                            assert(s[c].0 != s[i as int].0);
                        } else {
                            assert(s[i as int].0 != s[c].0);
                        }
                    }
                }
                self.unsent_fragments.remove(i);
                proof {
                    assert(self.unsent() =~= s.remove(i as int));
                    assert forall|a: int, b: int| 0 <= a < b < self.unsent().len() implies #[trigger] self.unsent()[a].0
                        != #[trigger] self.unsent()[b].0 by {
                        let a2 = if a < i { a } else { a + 1 };
                        let b2 = if b < i { b } else { b + 1 };
                        assert(self.unsent()[a] == s[a2]);
                        assert(self.unsent()[b] == s[b2]);
                    }
                }
                return;
            }
            i = i + 1;
        }
    }

    /// Adds a fragment that could not leave to those waiting to be sent
    /// again, under its session, this server and its destination.
    pub fn add_unsent_fragment(&mut self, fragment: Fragment, session_id: u64, destination: u8)
        requires
            old(self).wf(),
        ensures
            final(self).wf(),
            final(self).same_control(*old(self)),
            final(self).topology() == old(self).topology(),
            final(self).pending() == old(self).pending(),
            final(self).unsent() == with_unsent(old(self).unsent(), (session_id, old(self).id(), destination), fragment),
    {
        let ghost k = (session_id, self.node_id, destination);
        let ghost s = self.unsent();
        let mut i: usize = 0;
        while i < self.unsent_fragments.len()
            invariant
                0 <= i <= self.unsent_fragments@.len(),
                *self == *old(self),
                old(self).wf(),
                s == self.unsent(),
                k == (session_id, self.node_id, destination),
                forall|j: int| 0 <= j < i ==> s[j].0 != k,
            decreases self.unsent_fragments@.len() - i,
        {
            if self.unsent_fragments[i].session_id == session_id && self.unsent_fragments[i].source
                == self.node_id && self.unsent_fragments[i].destination == destination {
                let mut e = self.unsent_fragments.remove(i);
                e.fragments.push(fragment);
                self.unsent_fragments.insert(i, e);
                proof {
                    assert(s[i as int] == unsent_view(old(self).unsent_fragments@[i as int]));
                    assert(s[i as int].0 == k);
                    let c = choose|c: int| 0 <= c < s.len() && s[c].0 == k;
                    if c != i {
                        if c < i {
                            assert(s[c].0 != s[i as int].0);
                        } else {
                            assert(s[i as int].0 != s[c].0);
                        }
                    }
                    assert(self.unsent() =~= s.update(i as int, (k, s[i as int].1.push(fragment))));
                }
                return;
            }
            i = i + 1;
        }
        let v: Vec<Fragment> = vec![fragment];
        let e = UnsentEntry { session_id, source: self.node_id, destination, fragments: v };
        self.unsent_fragments.push(e);
        proof {
            assert(v@ =~= seq![fragment]);
            assert(self.unsent() =~= s.push((k, seq![fragment])));
        }
    }

    /// Every unsent fragment with its key, entry after entry.
    pub fn get_fragment_to_process(&self) -> (r: Vec<(Fragment, (u64, u8, u8))>)
        ensures
            r@ == flatten_unsent(self.unsent()),
    {
        let mut out: Vec<(Fragment, (u64, u8, u8))> = Vec::new();
        let ghost s = self.unsent();
        let mut i: usize = 0;
        while i < self.unsent_fragments.len()
            invariant
                0 <= i <= self.unsent_fragments@.len(),
                s == self.unsent(),
                out@ == flatten_unsent(s.take(i as int)),
            decreases self.unsent_fragments@.len() - i,
        {
            let e = &self.unsent_fragments[i];
            let key = (e.session_id, e.source, e.destination);
            let ghost base = out@;
            let mut j: usize = 0;
            while j < e.fragments.len()
                invariant
                    0 <= j <= e.fragments@.len(),
                    out@ == base + e.fragments@.take(j as int).map_values(|f: Fragment| (f, key)),
                decreases e.fragments@.len() - j,
            {
                out.push((e.fragments[j], key));
                assert(e.fragments@.take(j + 1).map_values(|f: Fragment| (f, key)) =~= e.fragments@.take(
                    j as int,
                ).map_values(|f: Fragment| (f, key)).push((e.fragments@[j as int], key)));
                j = j + 1;
            }
            proof {
                assert(e.fragments@.take(j as int) =~= e.fragments@);
                assert(s.take(i + 1).drop_last() =~= s.take(i as int));
                assert(s.take(i + 1).last() == s[i as int]);
            }
            i = i + 1;
        }
        assert(s.take(i as int) =~= s);
        out
    }

    /// Keeps the fragments of a message this server sends, under its session
    /// and sender, with its destination.
    pub fn store_fragments(&mut self, session_id: u64, source: u8, destination: u8, fragments: Vec<Fragment>)
        requires
            old(self).wf(),
        ensures
            final(self).wf(),
            final(self).same_control(*old(self)),
            final(self).topology() == old(self).topology(),
            final(self).unsent() == old(self).unsent(),
            final(self).pending() == old(self).pending().insert(session_key(session_id, source), (destination, fragments@)),
    {
        let key = make_session_key(session_id, source);
        let ghost before = self.pending();
        let ghost fv = fragments@;
        self.fragments.insert(key, (destination, fragments));
        assert(self.pending() =~= before.insert(key, (destination, fv)));
    }

    /// Takes in the ack of fragment `fragment_index` of this server's message
    /// in session `session_id`: the fragment is no longer waited for, and the
    /// message is forgotten once no fragment is. False when no such message
    /// is kept.
    pub fn acknowledge(&mut self, session_id: u64, fragment_index: u64) -> (r: bool)
        requires
            old(self).wf(),
        ensures
            final(self).wf(),
            final(self).same_control(*old(self)),
            final(self).topology() == old(self).topology(),
            final(self).unsent() == old(self).unsent(),
            ({
                let k = session_key(session_id, old(self).id());
                &&& r == old(self).pending().contains_key(k)
                &&& !r ==> final(self).pending() == old(self).pending()
                &&& r ==> {
                    let rest = without_index(old(self).pending()[k].1, fragment_index);
                    final(self).pending() == if rest.len() == 0 {
                        old(self).pending().remove(k)
                    } else {
                        old(self).pending().insert(k, (old(self).pending()[k].0, rest))
                    }
                }
            }),
    {
        let key = make_session_key(session_id, self.node_id);
        let ghost before = self.pending();
        let ghost raw = self.fragments@;
        match self.fragments.remove(&key) {
            None => {
                assert(self.pending() =~= before);
                false
            },
            Some(entry) => {
                let (d, v) = entry;
                assert(raw.contains_key(key) && raw[key] == (d, v));
                let rest = keep_other_fragments(&v, fragment_index);
                if rest.len() == 0 {
                    assert(self.pending() =~= before.remove(key));
                } else {
                    let ghost rv = rest@;
                    self.fragments.insert(key, (d, rest));
                    assert(self.pending() =~= before.insert(key, (d, rv)));
                }
                true
            },
        }
    }

    /// The kept fragment with index `fragment_index` of this server's
    /// message in session `session_id`, to send again after a nack.
    pub fn fragment_for_nack(&self, session_id: u64, fragment_index: u64) -> (r: NackLookup)
        ensures
            r == nack_lookup(self.pending(), session_key(session_id, self.id()), fragment_index),
    {
        let key = make_session_key(session_id, self.node_id);
        match self.fragments.get(&key) {
            None => NackLookup::LostMessage,
            Some(entry) => match find_fragment(&entry.1, fragment_index) {
                Some(f) => NackLookup::Resend(f, entry.0),
                None => NackLookup::LostFragment,
            },
        }
    }

    /// Once `total` fragments of the message of session `session_id` from
    /// `source` are in, hands them out and forgets the message.
    pub fn take_if_complete(&mut self, session_id: u64, source: u8, total: u64) -> (r: Option<Vec<Fragment>>)
        requires
            old(self).wf(),
        ensures
            final(self).wf(),
            final(self).same_control(*old(self)),
            final(self).topology() == old(self).topology(),
            final(self).unsent() == old(self).unsent(),
            ({
                let k = session_key(session_id, source);
                if old(self).pending().contains_key(k) && old(self).pending()[k].1.len() == total {
                    &&& r matches Some(v) && v@ == old(self).pending()[k].1
                    &&& final(self).pending() == old(self).pending().remove(k)
                } else {
                    &&& r is None
                    &&& final(self).pending() == old(self).pending()
                }
            }),
    {
        let key = make_session_key(session_id, source);
        let complete = match self.fragments.get(&key) {
            Some(entry) => entry.1.len() as u64 == total,
            None => false,
        };
        if !complete {
            return None;
        }
        let ghost before = self.pending();
        match self.fragments.remove(&key) {
            Some(entry) => {
                assert(self.pending() =~= before.remove(key));
                Some(entry.1)
            },
            None => None,
        }
    }
}

impl ServerStruct {
    /// Takes in a flood response: its trace becomes part of the topology;
    /// when the trace ends at an edge node whose kind was not asked for yet,
    /// the server starts asking (true). Once every known node is reachable,
    /// or after `MAX_FLOOD_ATTEMPTS` responses, the flood counts as over.
    pub fn save_flood_response(&mut self, flood_response: FloodResponse) -> (r: bool)
        requires
            old(self).wf(),
            flood_response.path_trace@.len() > 0,
        ensures
            final(self).wf(),
            ({
                let last = flood_response.path_trace@.last();
                &&& r == (last.1 != NodeType::Drone && !old(self).type_asked().contains(last.0))
                &&& final(self).type_asked() == if last.1 != NodeType::Drone {
                    old(self).type_asked().insert(last.0)
                } else {
                    old(self).type_asked()
                }
            }),
            crate::routing::route_added(
                old(self).topology(),
                final(self).topology(),
                old(self).id(),
                flood_response.path_trace@,
            ),
            ({
                let over = final(self).topology().knows_all_routes(old(self).id())
                    || old(self).flood_attempts() >= MAX_FLOOD_ATTEMPTS;
                &&& final(self).flooding() == (!over && old(self).flooding())
                &&& final(self).flood_attempts() == if over {
                    0
                } else {
                    old(self).flood_attempts() + 1
                }
            }),
            final(self).id() == old(self).id(),
            final(self).pending() == old(self).pending(),
            final(self).unsent() == old(self).unsent(),
            final(self).neighbor_ids() == old(self).neighbor_ids(),
            final(self).seen_floods() == old(self).seen_floods(),
            final(self).next_flood() == old(self).next_flood(),
            final(self).next_session() == old(self).next_session(),
            final(self).running() == old(self).running(),
    {
        let n = flood_response.path_trace.len();
        let last = flood_response.path_trace[n - 1];
        let mut res = false;
        if last.1 != NodeType::Drone {
            if self.can_type_check(last.0) {
                res = true;
            }
        }
        self.network.add_route(self.node_id, flood_response.path_trace);
        if self.network.has_all_routes(self.node_id) || self.flood_counter >= MAX_FLOOD_ATTEMPTS {
            self.is_flooding = false;
            self.flood_counter = 0;
        } else {
            self.flood_counter = self.flood_counter + 1;
        }
        res
    }

    /// Sets the state of a known node of the topology.
    pub fn update_node_state(&mut self, node: u8, value: u8)
        requires
            old(self).wf(),
        ensures
            final(self).wf(),
            final(self).same_control(*old(self)),
            crate::routing::state_updated(old(self).topology(), final(self).topology(), node, value),
            final(self).pending() == old(self).pending(),
            final(self).unsent() == old(self).unsent(),
    {
        self.network.update_state(node, value);
    }

    /// Makes a destination known before any route to it is.
    pub fn add_destination_without_path(&mut self, destination: u8)
        requires
            old(self).wf(),
        ensures
            final(self).wf(),
            final(self).same_control(*old(self)),
            crate::routing::destination_added(old(self).topology(), final(self).topology(), destination),
            final(self).pending() == old(self).pending(),
            final(self).unsent() == old(self).unsent(),
    {
        self.network.add_destination_without_path(destination);
    }

    /// Credits the drones of a route that delivered.
    pub fn positive_feed(&mut self, nodes: Vec<u8>)
        requires
            old(self).wf(),
        ensures
            final(self).wf(),
            final(self).same_control(*old(self)),
            crate::routing::feedback_given(old(self).topology(), final(self).topology(), nodes@),
            final(self).pending() == old(self).pending(),
            final(self).unsent() == old(self).unsent(),
    {
        self.network.positive_feedback(nodes);
    }

    /// Forgets the link between this server and `node`.
    pub fn remove_faulty_connection(&mut self, node: u8)
        requires
            old(self).wf(),
        ensures
            final(self).wf(),
            final(self).same_control(*old(self)),
            crate::routing::connection_removed(old(self).topology(), final(self).topology(), old(self).id(), node),
            final(self).pending() == old(self).pending(),
            final(self).unsent() == old(self).unsent(),
    {
        self.network.remove_faulty_connection(self.node_id, node);
    }

    /// The header of the best route from this server to `destination`.
    pub fn get_srh(&self, destination: u8) -> (r: Option<SourceRoutingHeader>)
        requires
            self.wf(),
        ensures
            r is None <==> !self.topology().reachable(self.id(), destination),
            r matches Some(h) ==> h.hop_index == 1 && self.topology().is_best_route(
                h.hops@,
                self.id(),
                destination,
            ),
    {
        self.network.get_srh(self.node_id, destination)
    }

    pub fn get_node_state(&self, destination: u8) -> (r: Option<u8>)
        ensures
            r == if self.topology().contains(destination) {
                Some(self.topology().state(destination))
            } else {
                None
            },
    {
        self.network.get_state(destination)
    }

    /// Whether `destination` is known and reachable-state (1).
    pub fn server_is_state_ok(&self, destination: u8) -> (r: bool)
        ensures
            r == (self.topology().contains(destination) && self.topology().state(destination) == 1),
    {
        match self.network.get_state(destination) {
            Some(state) => state == 1,
            None => false,
        }
    }

    pub fn get_unresolved(&self) -> (r: Vec<u8>)
        ensures
            forall|x: u8| r@.contains(x) <==> self.topology().contains(x) && self.topology().state(x) == 0,
            forall|i: int, j: int| 0 <= i < j < r@.len() ==> r@[i] < r@[j],
    {
        self.network.get_unresolved()
    }
}

/// What became of a fragment the server tried to route.
#[derive(Debug, Clone)]
pub enum FragmentRoute {
    /// Hand the packet to this neighbour.
    Send(Packet, u8),
    /// No route: the fragment waits, and a flood starts unless one is going
    /// on (its packet, to send to every neighbour).
    NoRoute(Option<Packet>),
}

/// The unsent entries after every fragment of `fs` is added under key `k`.
pub open spec fn with_all_unsent(
    s: Seq<((u64, u8, u8), Seq<Fragment>)>,
    k: (u64, u8, u8),
    fs: Seq<Fragment>,
) -> Seq<((u64, u8, u8), Seq<Fragment>)>
    decreases fs.len(),
{
    if fs.len() == 0 {
        s
    } else {
        with_unsent(with_all_unsent(s, k, fs.drop_last()), k, fs.last())
    }
}

impl ServerStruct {
    /// The counters can give out one more flood id and two more session ids.
    pub open spec fn has_ids(&self) -> bool {
        self.next_flood() < u64::MAX - 1 && self.next_session() < u64::MAX - 2
    }

    /// Starts a flood unless one is going on: the flood request, with a
    /// fresh flood id, this server as initiator and only itself in the
    /// trace, in a packet with an empty route and a fresh session id.
    pub fn start_flood(&mut self) -> (r: Option<Packet>)
        requires
            old(self).wf(),
            old(self).has_ids(),
        ensures
            final(self).wf(),
            final(self).flooding(),
            final(self).id() == old(self).id(),
            final(self).topology() == old(self).topology(),
            final(self).pending() == old(self).pending(),
            final(self).unsent() == old(self).unsent(),
            final(self).neighbor_ids() == old(self).neighbor_ids(),
            final(self).seen_floods() == old(self).seen_floods(),
            final(self).type_asked() == old(self).type_asked(),
            final(self).flood_attempts() == old(self).flood_attempts(),
            final(self).running() == old(self).running(),
            (r is Some) == !old(self).flooding(),
            final(self).next_flood() == old(self).next_flood() + if r is Some { 1int } else { 0int },
            final(self).next_session() == old(self).next_session() + if r is Some { 1int } else { 0int },
            r matches Some(p) ==> {
                &&& p.pack_type matches crate::packet::PacketType::FloodRequest(f) && f.flood_id
                    == old(self).next_flood() && f.initiator_id == old(self).id() && f.path_trace@ == seq![
                    (old(self).id(), NodeType::Server),
                ]
                &&& p.routing_header.hops@ == Seq::<u8>::empty()
                &&& p.routing_header.hop_index == 0
                &&& p.session_id == old(self).next_session()
            },
    {
        if !self.can_flood() {
            return None;
        }
        self.is_flooding = true;
        let flood_id = self.next_flood_id;
        self.next_flood_id = self.next_flood_id + 1;
        let trace: Vec<(u8, NodeType)> = vec![(self.node_id, NodeType::Server)];
        let ghost tv = trace@;
        let flood_request = FloodRequest { flood_id, initiator_id: self.node_id, path_trace: trace };
        let session_id = self.next_session_id;
        self.next_session_id = self.next_session_id + 1;
        assert(tv =~= seq![(self.node_id, NodeType::Server)]);
        Some(Packet::new_flood_request(SourceRoutingHeader::empty_route(), session_id, flood_request))
    }

    /// Routes one fragment of a message towards `destination` along the best
    /// known route. Without a route the destination becomes known (if it
    /// was not), the fragment waits with the unsent ones and a flood starts.
    pub fn route_fragment(&mut self, fragment: Fragment, destination: u8, session_id: u64) -> (r: FragmentRoute)
        requires
            old(self).wf(),
            old(self).has_ids(),
            destination != old(self).id(),
        ensures
            final(self).wf(),
            final(self).id() == old(self).id(),
            final(self).pending() == old(self).pending(),
            final(self).neighbor_ids() == old(self).neighbor_ids(),
            final(self).seen_floods() == old(self).seen_floods(),
            final(self).type_asked() == old(self).type_asked(),
            final(self).running() == old(self).running(),
            old(self).topology().reachable(old(self).id(), destination) ==> {
                &&& *final(self) == *old(self)
                &&& r matches FragmentRoute::Send(p, hop) && p.pack_type == crate::packet::PacketType::MsgFragment(
                    fragment,
                ) && p.session_id == session_id && p.routing_header.hop_index == 1
                    && old(self).topology().is_best_route(p.routing_header.hops@, old(self).id(), destination)
                    && hop == p.routing_header.hops@[1]
            },
            !old(self).topology().reachable(old(self).id(), destination) ==> {
                &&& r matches FragmentRoute::NoRoute(flood) && (flood is Some) == !old(self).flooding()
                &&& crate::routing::destination_added(old(self).topology(), final(self).topology(), destination)
                &&& final(self).unsent() == with_unsent(old(self).unsent(), (session_id, old(self).id(), destination), fragment)
                &&& final(self).flooding()
                &&& final(self).next_flood() == old(self).next_flood() + if old(self).flooding() { 0int } else { 1int }
                &&& final(self).next_session() == old(self).next_session() + if old(self).flooding() { 0int } else { 1int }
            },
    {
        match self.get_srh(destination) {
            None => {
                self.add_destination_without_path(destination);
                let flood = self.start_flood();
                self.add_unsent_fragment(fragment, session_id, destination);
                FragmentRoute::NoRoute(flood)
            },
            Some(srh) => {
                proof {
                    assert(srh.hops@.len() >= 2) by {
                        assert(srh.hops@[0] == self.id());
                        assert(srh.hops@.last() == destination);
                    }
                }
                let first_hop = srh.hops[1];
                let packet = Packet::new_fragment(srh, session_id, fragment);
                FragmentRoute::Send(packet, first_hop)
            },
        }
    }

    /// A fragment could not be handed to `first_hop`: the fragment waits,
    /// the link to that neighbour is forgotten, the destination stays known
    /// and a flood starts unless one is going on (its packet is returned).
    pub fn fragment_not_sent(&mut self, fragment: Fragment, destination: u8, session_id: u64, first_hop: u8) -> (r: Option<Packet>)
        requires
            old(self).wf(),
            old(self).has_ids(),
        ensures
            final(self).wf(),
            final(self).id() == old(self).id(),
            final(self).pending() == old(self).pending(),
            final(self).neighbor_ids() == old(self).neighbor_ids(),
            final(self).seen_floods() == old(self).seen_floods(),
            final(self).type_asked() == old(self).type_asked(),
            final(self).running() == old(self).running(),
            final(self).unsent() == with_unsent(old(self).unsent(), (session_id, old(self).id(), destination), fragment),
            exists|mid: Network|
                crate::routing::connection_removed(old(self).topology(), mid, old(self).id(), first_hop)
                    && crate::routing::destination_added(mid, final(self).topology(), destination),
            (r is Some) == !old(self).flooding(),
            final(self).flooding(),
            final(self).next_flood() == old(self).next_flood() + if old(self).flooding() { 0int } else { 1int },
            final(self).next_session() == old(self).next_session() + if old(self).flooding() { 0int } else { 1int },
    {
        self.add_unsent_fragment(fragment, session_id, destination);
        self.remove_faulty_connection(first_hop);
        let ghost mid = self.topology();
        self.add_destination_without_path(destination);
        assert(crate::routing::destination_added(mid, self.topology(), destination));
        self.start_flood()
    }

    /// Starts sending a message of `bytes` (the encoded `content`) to
    /// `destination` in session `session_id`. When the message may go (see
    /// `may_send`) its fragments are kept under this server and the session
    /// until acked, and are returned to be routed one by one; otherwise they
    /// all wait with the unsent ones and `None` is returned.
    pub fn start_message(&mut self, content: &crate::message::ContentType, session_id: u64, bytes: &Vec<u8>, destination: u8) -> (r: Option<Vec<Fragment>>)
        requires
            old(self).wf(),
            bytes@.len() < u64::MAX,
        ensures
            final(self).wf(),
            final(self).same_control(*old(self)),
            final(self).topology() == old(self).topology(),
            ({
                let ok = crate::message::needs_no_state_check(*content) || (old(self).topology().contains(destination)
                    && old(self).topology().state(destination) == 1);
                if ok {
                    &&& r matches Some(v) && crate::fragmentation::fragmented(v@, bytes@)
                        && final(self).pending() == old(self).pending().insert(
                        session_key(session_id, old(self).id()),
                        (destination, v@),
                    )
                    &&& final(self).unsent() == old(self).unsent()
                } else {
                    &&& r is None
                    &&& final(self).pending() == old(self).pending()
                    &&& exists|fs: Seq<Fragment>| crate::fragmentation::fragmented(fs, bytes@)
                        && final(self).unsent() == with_all_unsent(
                        old(self).unsent(),
                        (session_id, old(self).id(), destination),
                        fs,
                    )
                }
            }),
    {
        let state = self.network.get_state(destination);
        let check = crate::message::may_send(content, state);
        let frags = crate::fragmentation::fragment_message(bytes);
        if check {
            let out = copy_fragments(&frags);
            self.store_fragments(session_id, self.node_id, destination, frags);
            Some(out)
        } else {
            let mut i: usize = 0;
            let ghost s0 = self.unsent();
            while i < frags.len()
                invariant
                    0 <= i <= frags@.len(),
                    self.wf(),
                    self.same_control(*old(self)),
                    self.topology() == old(self).topology(),
                    self.pending() == old(self).pending(),
                    s0 == old(self).unsent(),
                    self.unsent() == with_all_unsent(s0, (session_id, old(self).id(), destination), frags@.take(i as int)),
                decreases frags@.len() - i,
            {
                let f = frags[i];
                self.add_unsent_fragment(f, session_id, destination);
                assert(frags@.take(i + 1).drop_last() =~= frags@.take(i as int));
                i = i + 1;
            }
            assert(frags@.take(i as int) =~= frags@);
            assert(crate::fragmentation::fragmented(frags@, bytes@));
            None
        }
    }
}

impl ServerStruct {
    /// The nack a server sends back to `dst` when it cannot forward a packet
    /// as a drone would: along the best route to `dst` (handed to that
    /// route's next hop, or to itself when there is none), or, without a
    /// route, with a route holding only `dst` and no neighbour to hand it to
    /// (it goes through the controller).
    pub fn drone_nack_route(&self, dst: u8, nack_type: NackType, session_id: u64) -> (r: (Packet, Option<u8>))
        requires
            self.wf(),
        ensures
            r.0.pack_type == crate::packet::PacketType::Nack(Nack { fragment_index: 0, nack_type }),
            r.0.session_id == session_id,
            !self.topology().reachable(self.id(), dst) ==> r.1 is None && r.0.routing_header.hops@ == seq![dst]
                && r.0.routing_header.hop_index == 1,
            self.topology().reachable(self.id(), dst) ==> r.0.routing_header.hop_index == 1
                && self.topology().is_best_route(r.0.routing_header.hops@, self.id(), dst) && r.1 == Some(
                if r.0.routing_header.hops@.len() > 2 { r.0.routing_header.hops@[2] } else { self.id() },
            ),
    {
        match self.get_srh(dst) {
            None => {
                let hops: Vec<u8> = vec![dst];
                assert(hops@ =~= seq![dst]);
                (crate::edge::drone_nack(SourceRoutingHeader::new(hops, 1), session_id, nack_type), None)
            },
            Some(srh) => {
                let first = match srh.next_hop() {
                    Some(h) => h,
                    None => self.node_id,
                };
                (crate::edge::drone_nack(srh, session_id, nack_type), Some(first))
            },
        }
    }
}

/// What a packet that reached a server leaves to be done.
#[derive(Debug)]
pub enum ServerReceived {
    /// A flood request to answer: the response, one hop on its way (see
    /// `edge::forward_step`).
    FloodAnswer(crate::edge::ForwardStep),
    /// A flood request to pass on to the listed neighbours.
    FloodForward(Packet, Vec<u8>),
    /// A packet for another node, one hop on its way.
    Relay(crate::edge::ForwardStep),
    /// A fragment of a message to this server: the ack to send back (with
    /// the neighbour to hand it to) and, once every fragment is in, the
    /// fragments of the message (then no longer kept).
    Fragment { ack: (Packet, u8), complete: Option<Vec<Fragment>> },
    /// An ack for a message of this server; false when no such message is kept.
    Ack(bool),
    /// A nack for a message of this server, with the fragment to send again
    /// when it is to be resent.
    Nack(Option<NackLookup>),
    /// A flood response, taken in; with the node to ask for its kind, if any.
    FloodResponse(Option<u8>),
}

/// What taking in fragment `f` of the message kept under key `k` (for
/// server `id`) makes of the messages being received: the fragment joins its
/// message (a new one is started when none is kept); once the message has
/// as many fragments as `f` says it has, it is handed out and forgotten.
pub open spec fn fragment_taken(
    pending: Map<u128, (u8, Seq<Fragment>)>,
    k: u128,
    id: u8,
    f: Fragment,
) -> (Map<u128, (u8, Seq<Fragment>)>, Option<Seq<Fragment>>) {
    let got = if pending.contains_key(k) {
        (pending[k].0, pending[k].1.push(f))
    } else {
        (id, seq![f])
    };
    if got.1.len() == f.total_n_fragments {
        (pending.remove(k), Some(got.1))
    } else {
        (pending.insert(k, got), None)
    }
}

/// The messages being received after taking in the fragments `fs`, in
/// order, all under key `k`, and the messages handed out meanwhile.
pub open spec fn fragments_taken(
    pending: Map<u128, (u8, Seq<Fragment>)>,
    k: u128,
    id: u8,
    fs: Seq<Fragment>,
) -> (Map<u128, (u8, Seq<Fragment>)>, Seq<Seq<Fragment>>)
    decreases fs.len(),
{
    if fs.len() == 0 {
        (pending, Seq::empty())
    } else {
        let before = fragments_taken(pending, k, id, fs.drop_last());
        let step = fragment_taken(before.0, k, id, fs.last());
        (step.0, match step.1 {
            Some(whole) => before.1.push(whole),
            None => before.1,
        })
    }
}

/// Every fragment of a message, arriving in any order, makes the server
/// hand out the message exactly once, on the last fragment, as the
/// fragments received; nothing of it stays kept. When they are the
/// fragments of `bytes`, what is handed out reassembles into `bytes`.
pub proof fn lemma_message_handed_out_once(
    pending: Map<u128, (u8, Seq<Fragment>)>,
    k: u128,
    id: u8,
    fs: Seq<Fragment>,
)
    requires
        !pending.contains_key(k),
        fs.len() > 0,
        forall|i: int| 0 <= i < fs.len() ==> (#[trigger] fs[i]).total_n_fragments == fs.len(),
    ensures
        fragments_taken(pending, k, id, fs) == (pending, seq![fs]),
        forall|bytes: Seq<u8>, made: Seq<Fragment>|
            bytes.len() < u64::MAX && crate::fragmentation::fragmented(made, bytes) && fs.to_multiset()
                == made.to_multiset() ==> #[trigger] crate::fragmentation::assembled(fs) == bytes,
{
    lemma_taken_prefix(pending, k, id, fs, fs.len() - 1);
    let m = (fs.len() - 1) as int;
    assert(fs.take(m + 1) =~= fs);
    assert(fs.take(m + 1).drop_last() =~= fs.take(m));
    assert(fs.take(m).push(fs.last()) =~= fs);
    if m == 0 {
        assert(fs.take(0) =~= Seq::<Fragment>::empty());
        assert(seq![fs.last()] =~= fs);
    } else {
        assert(pending.insert(k, (id, fs.take(m))).remove(k) =~= pending);
    }
    assert forall|bytes: Seq<u8>, made: Seq<Fragment>|
        bytes.len() < u64::MAX && crate::fragmentation::fragmented(made, bytes) && fs.to_multiset()
            == made.to_multiset() implies #[trigger] crate::fragmentation::assembled(fs) == bytes by {
        crate::fragmentation::lemma_reassemble_any_order(bytes, made, fs);
    }
}

proof fn lemma_taken_prefix(pending: Map<u128, (u8, Seq<Fragment>)>, k: u128, id: u8, fs: Seq<Fragment>, m: int)
    requires
        !pending.contains_key(k),
        0 <= m < fs.len(),
        forall|i: int| 0 <= i < fs.len() ==> (#[trigger] fs[i]).total_n_fragments == fs.len(),
    ensures
        fragments_taken(pending, k, id, fs.take(m)) == (if m == 0 {
            (pending, Seq::<Seq<Fragment>>::empty())
        } else {
            (pending.insert(k, (id, fs.take(m))), Seq::<Seq<Fragment>>::empty())
        }),
    decreases m,
{
    if m == 0 {
        assert(fs.take(0) =~= Seq::<Fragment>::empty());
    } else {
        lemma_taken_prefix(pending, k, id, fs, m - 1);
        assert(fs.take(m).drop_last() =~= fs.take(m - 1));
        assert(fs.take(m).last() == fs[m - 1]);
        assert(fs[m - 1].total_n_fragments == fs.len());
        if m == 1 {
            assert(fs.take(0) =~= Seq::<Fragment>::empty());
            assert(seq![fs[0]] =~= fs.take(1));
        } else {
            assert(fs.take(m - 1).push(fs[m - 1]) =~= fs.take(m));
        }
    }
}

/// The packet's route has a last hop.
pub open spec fn has_destination(p: Packet) -> bool {
    p.routing_header.hops@.len() > 0
}

/// The server can take in packet `p`: it has what its handling reads. A
/// packet for it needs a route, a fragment
/// a route of at least two hops, a flood response a trace; a packet to
/// relay needs room to move its position.
pub open spec fn receivable(id: u8, p: Packet) -> bool {
    match p.pack_type {
        crate::packet::PacketType::FloodRequest(_) => true,
        _ => {
            &&& has_destination(p)
            &&& p.routing_header.hop_index < usize::MAX
            &&& p.routing_header.hops@.last() == id ==> match p.pack_type {
                crate::packet::PacketType::MsgFragment(_) => p.routing_header.hops@.len() >= 2,
                crate::packet::PacketType::FloodResponse(r) => r.path_trace@.len() > 0,
                _ => true,
            }
        },
    }
}

/// Whether the server `id` can take in packet `p` (see `receivable`).
pub fn is_receivable(id: u8, p: &Packet) -> (r: bool)
    ensures
        r == receivable(id, *p),
{
    match &p.pack_type {
        crate::packet::PacketType::FloodRequest(_) => true,
        _ => {
            let n = p.routing_header.hops.len();
            if n == 0 || p.routing_header.hop_index == usize::MAX {
                return false;
            }
            if p.routing_header.hops[n - 1] != id {
                return true;
            }
            match &p.pack_type {
                crate::packet::PacketType::MsgFragment(_) => n >= 2,
                crate::packet::PacketType::FloodResponse(r) => r.path_trace.len() > 0,
                _ => true,
            }
        },
    }
}

impl ServerStruct {
    /// Takes in a packet that reached this server, as a server does: a flood
    /// request (with this server added to its trace) is answered or passed
    /// on; a packet whose route ends elsewhere is relayed; a packet for this
    /// server is handled by its type (see the variants of `ServerReceived`).
    pub fn receive(&mut self, packet: Packet) -> (r: ServerReceived)
        requires
            old(self).wf(),
            receivable(old(self).id(), packet),
        ensures
            final(self).wf(),
            final(self).id() == old(self).id(),
            final(self).neighbor_ids() == old(self).neighbor_ids(),
            final(self).running() == old(self).running(),
            final(self).next_session() == old(self).next_session(),
            final(self).next_flood() == old(self).next_flood(),
            match packet.pack_type {
                crate::packet::PacketType::FloodRequest(fr) => {
                    let key = (fr.flood_id, fr.initiator_id);
                    let answer = old(self).seen_floods().contains(key) || old(self).neighbor_ids().len() == 1;
                    &&& final(self).seen_floods() == old(self).seen_floods().insert(key)
                    &&& final(self).topology() == old(self).topology()
                    &&& final(self).pending() == old(self).pending()
                    &&& final(self).unsent() == old(self).unsent()
                    &&& answer ==> (r matches ServerReceived::FloodAnswer(step) && crate::edge::answer_step(
                        step,
                        fr.flood_id,
                        fr.initiator_id,
                        fr.path_trace@.push((old(self).id(), NodeType::Server)),
                    ))
                    &&& !answer ==> (r matches ServerReceived::FloodForward(p, targets) && (p.pack_type matches crate::packet::PacketType::FloodRequest(f)
                        && f.flood_id == fr.flood_id && f.initiator_id == fr.initiator_id && f.path_trace@ == fr.path_trace@.push(
                        (old(self).id(), NodeType::Server),
                    )) && p.session_id == packet.session_id && forall|n: u8| #[trigger] targets@.contains(n) == (
                    old(self).neighbor_ids().contains(n) && n != (if fr.path_trace@.len() > 0 {
                        fr.path_trace@.last().0
                    } else {
                        fr.initiator_id
                    })))
                },
                _ => if packet.routing_header.hops@.last() != old(self).id() {
                    &&& r matches ServerReceived::Relay(step) && crate::edge::step_of(packet, step)
                    &&& *final(self) == *old(self)
                } else {
                    match packet.pack_type {
                        crate::packet::PacketType::MsgFragment(f) => {
                            let k = session_key(packet.session_id, packet.routing_header.hops@[0]);
                            let taken = fragment_taken(old(self).pending(), k, old(self).id(), f);
                            &&& r matches ServerReceived::Fragment { ack, complete } && ack.0.pack_type
                                == crate::packet::PacketType::Ack(crate::packet::Ack { fragment_index: f.fragment_index })
                                && ack.0.routing_header.hops@ == packet.routing_header.hops@.reverse()
                                && ack.1 == packet.routing_header.hops@.reverse()[1] && final(self).pending() == taken.0
                                && (match taken.1 {
                                Some(whole) => complete matches Some(v) && v@ == whole,
                                None => complete is None,
                            })
                            &&& final(self).topology() == old(self).topology()
                            &&& final(self).unsent() == old(self).unsent()
                        },
                        crate::packet::PacketType::Ack(a) => {
                            let k = session_key(packet.session_id, old(self).id());
                            &&& r == ServerReceived::Ack(old(self).pending().contains_key(k))
                            &&& final(self).pending() == acked_pending(old(self).pending(), k, a.fragment_index)
                            &&& final(self).unsent() == old(self).unsent()
                            &&& final(self).same_control(*old(self))
                            &&& old(self).pending().contains_key(k) ==> crate::routing::feedback_given(
                                old(self).topology(),
                                final(self).topology(),
                                packet.routing_header.hops@,
                            )
                            &&& !old(self).pending().contains_key(k) ==> final(self).topology() == old(self).topology()
                        },
                        crate::packet::PacketType::Nack(n) => {
                            &&& nack_handled(*old(self), *final(self), n, packet)
                            &&& r matches ServerReceived::Nack(lookup) && (lookup is Some) == !(n.nack_type is DestinationIsDrone)
                                && (lookup matches Some(l) ==> l == nack_lookup(
                                final(self).pending(),
                                session_key(packet.session_id, old(self).id()),
                                n.fragment_index,
                            ))
                        },
                        crate::packet::PacketType::FloodResponse(resp) => {
                            let last = resp.path_trace@.last();
                            &&& crate::routing::route_added(
                                old(self).topology(),
                                final(self).topology(),
                                old(self).id(),
                                resp.path_trace@,
                            )
                            &&& r == ServerReceived::FloodResponse(
                                if last.1 != NodeType::Drone && !old(self).type_asked().contains(last.0) {
                                    Some(packet.routing_header.hops@[0])
                                } else {
                                    None
                                },
                            )
                            &&& final(self).type_asked() == if last.1 != NodeType::Drone {
                                old(self).type_asked().insert(last.0)
                            } else {
                                old(self).type_asked()
                            }
                            &&& ({
                                let over = final(self).topology().knows_all_routes(old(self).id())
                                    || old(self).flood_attempts() >= MAX_FLOOD_ATTEMPTS;
                                &&& final(self).flooding() == (!over && old(self).flooding())
                                &&& final(self).flood_attempts() == if over {
                                    0
                                } else {
                                    old(self).flood_attempts() + 1
                                }
                            })
                            &&& final(self).pending() == old(self).pending()
                            &&& final(self).unsent() == old(self).unsent()
                            &&& final(self).seen_floods() == old(self).seen_floods()
                        },
                        _ => true,
                    }
                },
            },
    {
        let me = self.node_id;
        match packet.pack_type {
            crate::packet::PacketType::FloodRequest(fr) => {
                let mut fr = fr;
                let ghost trace0 = fr.path_trace@;
                let prev = if fr.path_trace.len() > 0 {
                    fr.path_trace[fr.path_trace.len() - 1].0
                } else {
                    fr.initiator_id
                };
                fr.path_trace.push((me, NodeType::Server));
                proof {
                    if trace0.len() > 0 {
                        assert(fr.path_trace@[fr.path_trace@.len() - 2] == trace0.last());
                    }
                }
                let copy = FloodRequest { flood_id: fr.flood_id, initiator_id: fr.initiator_id, path_trace: crate::edge::copy_trace(&fr.path_trace) };
                match self.handle_flood_request(fr, packet.session_id) {
                    FloodDecision::Respond => {
                        let resp = crate::edge::flood_response_packet(copy);
                        ServerReceived::FloodAnswer(crate::edge::forward_step(resp))
                    },
                    FloodDecision::Forward(p, targets) => ServerReceived::FloodForward(p, targets),
                }
            },
            _ => {
                let n = packet.routing_header.hops.len();
                if packet.routing_header.hops[n - 1] != me {
                    return ServerReceived::Relay(crate::edge::forward_step(packet));
                }
                match packet.pack_type {
                    crate::packet::PacketType::MsgFragment(f) => {
                        self.handle_fragment(f, &packet);
                        let ack = crate::edge::ack_packet(&packet, f.fragment_index);
                        let complete = self.take_if_complete(packet.session_id, packet.routing_header.hops[0], f.total_n_fragments);
                        ServerReceived::Fragment { ack, complete }
                    },
                    crate::packet::PacketType::Ack(a) => {
                        let known = self.acknowledge(packet.session_id, a.fragment_index);
                        if known {
                            let hops = crate::edge::copy_ids(&packet.routing_header.hops);
                            self.positive_feed(hops);
                        }
                        ServerReceived::Ack(known)
                    },
                    crate::packet::PacketType::Nack(nack) => {
                        if self.handle_nack(nack, &packet) {
                            ServerReceived::Nack(Some(self.fragment_for_nack(packet.session_id, nack.fragment_index)))
                        } else {
                            ServerReceived::Nack(None)
                        }
                    },
                    crate::packet::PacketType::FloodResponse(resp) => {
                        let src = packet.routing_header.hops[0];
                        if self.save_flood_response(resp) {
                            ServerReceived::FloodResponse(Some(src))
                        } else {
                            ServerReceived::FloodResponse(None)
                        }
                    },
                    crate::packet::PacketType::FloodRequest(_) => ServerReceived::Ack(false),
                }
            },
        }
    }
}

impl ServerStruct {
    /// The periodic retry of unsent fragments: they are all handed out (see
    /// `get_fragment_to_process`) and forgotten, each destination becomes
    /// known (if it was not), and a flood starts unless one is going on (its
    /// packet is returned too). The fragments are then to be routed again.
    pub fn process_unsent(&mut self) -> (r: (Vec<(Fragment, (u64, u8, u8))>, Option<Packet>))
        requires
            old(self).wf(),
            old(self).has_ids(),
        ensures
            final(self).wf(),
            r.0@ == flatten_unsent(old(self).unsent()),
            final(self).unsent() == Seq::<((u64, u8, u8), Seq<Fragment>)>::empty(),
            final(self).pending() == old(self).pending(),
            final(self).id() == old(self).id(),
            final(self).neighbor_ids() == old(self).neighbor_ids(),
            forall|x: u8| #[trigger] final(self).topology().contains(x) == (old(self).topology().contains(x)
                || exists|i: int| 0 <= i < r.0@.len() && r.0@[i].1.2 == x),
            (r.1 is Some) == !old(self).flooding(),
            final(self).flooding(),
    {
        let todo = self.get_fragment_to_process();
        self.reset_unsent_fragments();
        let mut i: usize = 0;
        while i < todo.len()
            invariant
                0 <= i <= todo@.len(),
                self.wf(),
                self.has_ids(),
                self.id() == old(self).id(),
                self.neighbor_ids() == old(self).neighbor_ids(),
                self.pending() == old(self).pending(),
                self.flooding() == old(self).flooding(),
                self.unsent() == Seq::<((u64, u8, u8), Seq<Fragment>)>::empty(),
                forall|x: u8| #[trigger] self.topology().contains(x) == (old(self).topology().contains(x)
                    || exists|j: int| 0 <= j < i && todo@[j].1.2 == x),
            decreases todo@.len() - i,
        {
            let dst = todo[i].1.2;
            let ghost before = self.topology();
            self.add_destination_without_path(dst);
            proof {
                assert forall|x: u8| #[trigger] self.topology().contains(x) == (old(self).topology().contains(x)
                    || exists|j: int| 0 <= j < i + 1 && todo@[j].1.2 == x) by {
                    if x == dst {
                        assert(todo@[i as int].1.2 == x);
                    }
                    if exists|j: int| 0 <= j < i + 1 && todo@[j].1.2 == x {
                        let j = choose|j: int| 0 <= j < i + 1 && todo@[j].1.2 == x;
                        if j < i {
                            assert(exists|j2: int| 0 <= j2 < i && todo@[j2].1.2 == x);
                        }
                    }
                }
            }
            i = i + 1;
        }
        let flood = self.start_flood();
        (todo, flood)
    }
}

/// A copy of a list of fragments.
pub fn copy_fragments(v: &Vec<Fragment>) -> (r: Vec<Fragment>)
    ensures
        r@ == v@,
{
    let mut out: Vec<Fragment> = Vec::new();
    let mut i: usize = 0;
    while i < v.len()
        invariant
            0 <= i <= v@.len(),
            out@ == v@.take(i as int),
        decreases v@.len() - i,
    {
        out.push(v[i]);
        assert(out@ =~= v@.take(i + 1));
        i = i + 1;
    }
    assert(v@.take(i as int) =~= v@);
    out
}

/// The fragments of `v` whose index is not `fi`, in order.
pub fn keep_other_fragments(v: &Vec<Fragment>, fi: u64) -> (r: Vec<Fragment>)
    ensures
        r@ == without_index(v@, fi),
{
    let mut out: Vec<Fragment> = Vec::new();
    let mut i: usize = 0;
    while i < v.len()
        invariant
            0 <= i <= v@.len(),
            out@ == without_index(v@.take(i as int), fi),
        decreases v@.len() - i,
    {
        assert(v@.take(i + 1).drop_last() =~= v@.take(i as int));
        if v[i].fragment_index != fi {
            out.push(v[i]);
        }
        i = i + 1;
    }
    assert(v@.take(i as int) =~= v@);
    out
}

/// Whether `x` occurs in `v`.
pub fn contains_value(v: &Vec<u8>, x: u8) -> (r: bool)
    ensures
        r == v@.contains(x),
{
    let mut i: usize = 0;
    while i < v.len()
        invariant
            0 <= i <= v@.len(),
            forall|j: int| 0 <= j < i ==> v@[j] != x,
        decreases v@.len() - i,
    {
        if v[i] == x {
            return true;
        }
        i = i + 1;
    }
    false
}

/// `s` without the occurrences of `x`, the rest in order.
pub open spec fn without_value(s: Seq<u8>, x: u8) -> Seq<u8>
    decreases s.len(),
{
    if s.len() == 0 {
        s
    } else if s.last() == x {
        without_value(s.drop_last(), x)
    } else {
        without_value(s.drop_last(), x).push(s.last())
    }
}

/// `v` without the occurrences of `x`, the rest in order.
pub fn remove_value(v: &Vec<u8>, x: u8) -> (r: Vec<u8>)
    ensures
        r@ == without_value(v@, x),
        forall|y: u8| #[trigger] r@.contains(y) == (v@.contains(y) && y != x),
        r@.to_set() == v@.to_set().remove(x),
        v@.no_duplicates() ==> r@.no_duplicates(),
{
    let mut out: Vec<u8> = Vec::new();
    let mut i: usize = 0;
    while i < v.len()
        invariant
            0 <= i <= v@.len(),
            forall|y: u8| #[trigger] out@.contains(y) == (v@.take(i as int).contains(y) && y != x),
            v@.no_duplicates() ==> out@.no_duplicates(),
            out@ == without_value(v@.take(i as int), x),
        decreases v@.len() - i,
    {
        let ghost before = out@;
        assert(v@.take(i + 1) =~= v@.take(i as int).push(v@[i as int]));
        assert(v@.take(i + 1).drop_last() =~= v@.take(i as int));
        if v[i] != x {
            out.push(v[i]);
            proof {
                assert forall|y: u8| #[trigger] out@.contains(y) == (v@.take(i + 1).contains(y) && y != x) by {
                    crate::counting::lemma_push_contains(before, v@[i as int], y);
                    crate::counting::lemma_push_contains(v@.take(i as int), v@[i as int], y);
                }
                if v@.no_duplicates() {
                    assert(!v@.take(i as int).contains(v@[i as int]));
                    assert(!before.contains(v@[i as int]));
                }
            }
        } else {
            proof {
                assert forall|y: u8| #[trigger] out@.contains(y) == (v@.take(i + 1).contains(y) && y != x) by {
                    crate::counting::lemma_push_contains(v@.take(i as int), v@[i as int], y);
                }
            }
        }
        i = i + 1;
    }
    assert(v@.take(v@.len() as int) =~= v@);
    assert(out@.to_set() =~= v@.to_set().remove(x));
    out
}

proof fn lemma_flatten_has(t: Seq<((u64, u8, u8), Seq<Fragment>)>, i: int, f: Fragment)
    requires
        0 <= i < t.len(),
        t[i].1.contains(f),
    ensures
        flatten_unsent(t).contains((f, t[i].0)),
    decreases t.len(),
{
    if i == t.len() - 1 {
        let last = t.last();
        let k = choose|k: int| 0 <= k < last.1.len() && last.1[k] == f;
        let tail = last.1.map_values(|g: Fragment| (g, last.0));
        assert(tail[k] == (f, last.0));
        assert(flatten_unsent(t)[flatten_unsent(t.drop_last()).len() + k] == (f, t[i].0));
    } else {
        assert(t.drop_last()[i] == t[i]);
        lemma_flatten_has(t.drop_last(), i, f);
        let a = flatten_unsent(t.drop_last());
        let k = choose|k: int| 0 <= k < a.len() && a[k] == (f, t[i].0);
        assert(flatten_unsent(t)[k] == (f, t[i].0));
    }
}

/// A fragment that could not leave is among those processed again later:
/// once added under key `k`, it is listed, with `k`, by
/// `get_fragment_to_process`.
pub proof fn lemma_unsent_fragment_processed(s: Seq<((u64, u8, u8), Seq<Fragment>)>, k: (u64, u8, u8), f: Fragment)
    ensures
        flatten_unsent(with_unsent(s, k, f)).contains((f, k)),
{
    let t = with_unsent(s, k, f);
    if exists|i: int| 0 <= i < s.len() && s[i].0 == k {
        let i = key_index(s, k);
        assert(t[i].1 == s[i].1.push(f));
        assert(t[i].1[s[i].1.len() as int] == f);
        lemma_flatten_has(t, i, f);
    } else {
        assert(t[s.len() as int].1 == seq![f]);
        assert(t[s.len() as int].1[0] == f);
        lemma_flatten_has(t, s.len() as int, f);
    }
}

/// The fragments still waited for after the acks of `acks`, in turn.
pub open spec fn after_acks(s: Seq<Fragment>, acks: Seq<u64>) -> Seq<Fragment>
    decreases acks.len(),
{
    if acks.len() == 0 {
        s
    } else {
        without_index(after_acks(s, acks.drop_last()), acks.last())
    }
}

proof fn lemma_without_index_contains(s: Seq<Fragment>, fi: u64, x: Fragment)
    ensures
        without_index(s, fi).contains(x) == (s.contains(x) && x.fragment_index != fi),
    decreases s.len(),
{
    if s.len() > 0 {
        lemma_without_index_contains(s.drop_last(), fi, x);
        crate::counting::lemma_push_contains(s.drop_last(), s.last(), x);
        assert(s == s.drop_last().push(s.last()));
        crate::counting::lemma_push_contains(without_index(s.drop_last(), fi), s.last(), x);
    }
}

proof fn lemma_after_acks_contains(s: Seq<Fragment>, acks: Seq<u64>, x: Fragment)
    ensures
        after_acks(s, acks).contains(x) == (s.contains(x) && !acks.contains(x.fragment_index)),
    decreases acks.len(),
{
    if acks.len() > 0 {
        lemma_after_acks_contains(s, acks.drop_last(), x);
        lemma_without_index_contains(after_acks(s, acks.drop_last()), acks.last(), x);
        assert(acks == acks.drop_last().push(acks.last()));
        crate::counting::lemma_push_contains(acks.drop_last(), acks.last(), x.fragment_index);
    }
}

/// Once every fragment of a message has been acked, in any order and with
/// repeats, no fragment of it is waited for any more (and `acknowledge`
/// then forgets the message).
pub proof fn lemma_all_acked(s: Seq<Fragment>, acks: Seq<u64>)
    requires
        forall|i: int| 0 <= i < s.len() ==> acks.contains(#[trigger] s[i].fragment_index),
    ensures
        after_acks(s, acks).len() == 0,
{
    let r = after_acks(s, acks);
    if r.len() > 0 {
        lemma_after_acks_contains(s, acks, r[0]);
        assert(r.contains(r[0]));
        let i = choose|i: int| 0 <= i < s.len() && s[i] == r[0];
        assert(acks.contains(s[i].fragment_index));
    }
}

/// A flood the server has handled is answered when it comes again: after
/// `handle_flood_request`, its (flood id, initiator) pair is among those
/// seen.
pub proof fn lemma_flood_answered_again(seen: Set<(u64, u8)>, flood_id: u64, initiator: u8)
    ensures
        seen.insert((flood_id, initiator)).contains((flood_id, initiator)),
{
}

} // verus!
