//! The state every client keeps besides what its role needs: the floods and
//! sessions it has used or seen, its topology, the fragments of messages in
//! flight and those still to be sent. The channels to the neighbours stay
//! outside; this state knows the neighbours' ids.
use std::collections::HashMap;
use vstd::prelude::*;

use crate::counting::lemma_push_to_set;
use crate::kinds::NodeType;
use crate::message::ContentType;
use crate::packet::{FloodRequest, FloodResponse, Fragment, Nack, NackType, Packet, PacketType, SourceRoutingHeader};
use crate::routing::Network;
use crate::server::{contains_value, copy_fragments, find_fragment, fragment_with_index, keep_other_fragments, make_session_key, remove_value, session_key, without_index, FloodDecision};

verus! {

broadcast use vstd::std_specs::hash::group_hash_axioms;

/// A random `u64` in `low .. high`.
///
/// Trusted: wraps `fastrand::u64(low..high)`, which draws from the
/// thread-local generator a value of the range and panics only when the
/// range is empty (excluded by `requires`). Nothing else is stated: the
/// value depends on the generator's state.
#[verifier::external_body]
fn random_in(low: u64, high: u64) -> (r: u64)
    requires
        low < high,
    ensures
        low <= r < high,
{
    fastrand::u64(low..high)
}

/// The smallest first component of a non-empty list of pairs.
pub open spec fn min_first(s: Seq<(u64, u8)>) -> u64
    decreases s.len(),
{
    if s.len() <= 1 {
        s[0].0
    } else if s.last().0 < min_first(s.drop_last()) {
        s.last().0
    } else {
        min_first(s.drop_last())
    }
}

/// The smallest value of a non-empty list.
pub open spec fn min_value(s: Seq<u64>) -> u64
    decreases s.len(),
{
    if s.len() <= 1 {
        s[0]
    } else if s.last() < min_value(s.drop_last()) {
        s.last()
    } else {
        min_value(s.drop_last())
    }
}

fn smallest_first(v: &Vec<(u64, u8)>) -> (r: u64)
    requires
        v@.len() > 0,
    ensures
        r == min_first(v@),
{
    let mut m = v[0].0;
    let mut i: usize = 1;
    while i < v.len()
        invariant
            1 <= i <= v@.len(),
            m == min_first(v@.take(i as int)),
        decreases v@.len() - i,
    {
        assert(v@.take(i + 1).drop_last() =~= v@.take(i as int));
        if v[i].0 < m {
            m = v[i].0;
        }
        i = i + 1;
    }
    assert(v@.take(i as int) =~= v@);
    m
}

fn smallest(v: &Vec<u64>) -> (r: u64)
    requires
        v@.len() > 0,
    ensures
        r == min_value(v@),
{
    let mut m = v[0];
    let mut i: usize = 1;
    while i < v.len()
        invariant
            1 <= i <= v@.len(),
            m == min_value(v@.take(i as int)),
        decreases v@.len() - i,
    {
        assert(v@.take(i + 1).drop_last() =~= v@.take(i as int));
        if v[i] < m {
            m = v[i];
        }
        i = i + 1;
    }
    assert(v@.take(i as int) =~= v@);
    m
}

/// The id window a client draws a fresh id from: `0 .. first_cap` while it
/// has used none, otherwise the forty ids from the smallest one used.
pub open spec fn id_window(used_min: Option<u64>, first_cap: u64) -> (u64, u64) {
    match used_min {
        None => (0, first_cap),
        Some(m) => (m, (m + 40) as u64),
    }
}

/// Fragments a client could not send yet, for one of its sessions.
#[derive(Debug, Clone)]
pub struct ClientUnsent {
    pub session_id: u64,
    pub destination: u8,
    pub fragments: Vec<Fragment>,
}

pub open spec fn client_unsent_view(e: ClientUnsent) -> (u64, (u8, Seq<Fragment>)) {
    (e.session_id, (e.destination, e.fragments@))
}

/// No two unsent entries are for the same session.
pub open spec fn sessions_distinct(s: Seq<(u64, (u8, Seq<Fragment>))>) -> bool {
    forall|i: int, j: int| 0 <= i < j < s.len() ==> #[trigger] s[i].0 != #[trigger] s[j].0
}

/// The unsent entries after fragment `f` for `destination` is added in
/// session `session`: appended to that session's entry (whose destination
/// stays), or a new entry at the end.
pub open spec fn with_client_unsent(
    s: Seq<(u64, (u8, Seq<Fragment>))>,
    session: u64,
    destination: u8,
    f: Fragment,
) -> Seq<(u64, (u8, Seq<Fragment>))> {
    if exists|i: int| 0 <= i < s.len() && s[i].0 == session {
        let i = choose|i: int| 0 <= i < s.len() && s[i].0 == session;
        s.update(i, (session, (s[i].1.0, s[i].1.1.push(f))))
    } else {
        s.push((session, (destination, seq![f])))
    }
}

/// Every unsent fragment with its session and destination, entry by entry.
pub open spec fn flatten_client_unsent(s: Seq<(u64, (u8, Seq<Fragment>))>) -> Seq<(Fragment, u64, u8)>
    decreases s.len(),
{
    if s.len() == 0 {
        Seq::empty()
    } else {
        let last = s.last();
        flatten_client_unsent(s.drop_last()) + last.1.1.map_values(|f: Fragment| (f, last.0, last.1.0))
    }
}

/// What the flood id limit and session id limit leave room for.
pub open spec fn window_fits(used_min: Option<u64>) -> bool {
    match used_min {
        None => true,
        Some(m) => m + 40 <= u64::MAX,
    }
}

pub struct ClientStruct {
    node_id: u8,
    neighbors: Vec<u8>,
    flood_ids: Vec<(u64, u8)>,
    used_session_ids: Vec<u64>,
    network: Network,
    fragments: HashMap<u128, (u8, Option<ContentType>, Vec<Fragment>)>,
    unsent_fragments: Vec<ClientUnsent>,
    is_flooding: bool,
    flood_count: u64,
    is_running: bool,
}

impl ClientStruct {
    pub closed spec fn id(&self) -> u8 {
        self.node_id
    }

    pub closed spec fn neighbor_ids(&self) -> Seq<u8> {
        self.neighbors@
    }

    /// The (flood id, initiator) pairs seen or used, in the order met.
    pub closed spec fn floods(&self) -> Seq<(u64, u8)> {
        self.flood_ids@
    }

    /// The session ids used, in the order drawn.
    pub closed spec fn sessions(&self) -> Seq<u64> {
        self.used_session_ids@
    }

    pub closed spec fn topology(&self) -> Network {
        self.network
    }

    /// The messages in flight: per session key, the destination, the
    /// content (for outgoing messages) and the fragments.
    pub closed spec fn pending(&self) -> Map<u128, (u8, Option<ContentType>, Seq<Fragment>)> {
        self.fragments@.map_values(|v: (u8, Option<ContentType>, Vec<Fragment>)| (v.0, v.1, v.2@))
    }

    pub closed spec fn unsent(&self) -> Seq<(u64, (u8, Seq<Fragment>))> {
        self.unsent_fragments@.map_values(|e: ClientUnsent| client_unsent_view(e))
    }

    pub closed spec fn flooding(&self) -> bool {
        self.is_flooding
    }

    pub closed spec fn flood_attempts(&self) -> u64 {
        self.flood_count
    }

    pub closed spec fn running(&self) -> bool {
        self.is_running
    }

    /// The smallest flood id met, if any.
    pub open spec fn flood_min(&self) -> Option<u64> {
        if self.floods().len() == 0 {
            None
        } else {
            Some(min_first(self.floods()))
        }
    }

    /// The smallest session id used, if any.
    pub open spec fn session_min(&self) -> Option<u64> {
        if self.sessions().len() == 0 {
            None
        } else {
            Some(min_value(self.sessions()))
        }
    }

    pub closed spec fn wf(&self) -> bool {
        &&& self.network.wf()
        &&& self.neighbors@.no_duplicates()
        &&& sessions_distinct(self.unsent())
    }

    /// What message handling leaves alone is as in `other`.
    pub open spec fn same_control(&self, other: Self) -> bool {
        &&& self.id() == other.id()
        &&& self.neighbor_ids() == other.neighbor_ids()
        &&& self.floods() == other.floods()
        &&& self.sessions() == other.sessions()
        &&& self.flooding() == other.flooding()
        &&& self.flood_attempts() == other.flood_attempts()
        &&& self.running() == other.running()
    }

    pub fn new(node_id: u8, neighbors: Vec<u8>) -> (r: Self)
        requires
            neighbors@.no_duplicates(),
        ensures
            r.wf(),
            r.id() == node_id,
            r.neighbor_ids() == neighbors@,
            r.floods() == Seq::<(u64, u8)>::empty(),
            r.sessions() == Seq::<u64>::empty(),
            r.pending() == Map::<u128, (u8, Option<ContentType>, Seq<Fragment>)>::empty(),
            r.unsent() == Seq::<(u64, (u8, Seq<Fragment>))>::empty(),
            !r.flooding(),
            r.flood_attempts() == 0,
            r.running(),
            forall|x: u8| !r.topology().contains(x),
    {
        let r = ClientStruct {
            node_id,
            neighbors,
            flood_ids: Vec::new(),
            used_session_ids: Vec::new(),
            network: Network::new(),
            fragments: HashMap::new(),
            unsent_fragments: Vec::new(),
            is_flooding: false,
            flood_count: 0,
            is_running: true,
        };
        assert(r.pending() =~= Map::<u128, (u8, Option<ContentType>, Seq<Fragment>)>::empty());
        assert(r.unsent() =~= Seq::<(u64, (u8, Seq<Fragment>))>::empty());
        r
    }

    pub fn get_src_id(&self) -> (r: u8)
        ensures
            r == self.id(),
    {
        self.node_id
    }

    pub fn is_running(&self) -> (r: bool)
        ensures
            r == self.running(),
    {
        self.is_running
    }

    pub fn network(&self) -> (r: &Network)
        ensures
            *r == self.topology(),
            self.wf() ==> r.wf(),
    {
        &self.network
    }

    /// Stops the client's loop.
    pub fn crash(&mut self)
        ensures
            !final(self).running(),
            final(self).wf() == old(self).wf(),
            final(self).id() == old(self).id(),
            final(self).topology() == old(self).topology(),
            final(self).pending() == old(self).pending(),
            final(self).unsent() == old(self).unsent(),
    {
        self.is_running = false;
    }

    /// A flood id drawn from the window of `id_window` (first window
    /// `0 .. 20`), recorded as used by this client.
    pub fn get_flood_id(&mut self) -> (r: u64)
        requires
            old(self).wf(),
            window_fits(old(self).flood_min()),
        ensures
            final(self).wf(),
            id_window(old(self).flood_min(), 20).0 <= r < id_window(old(self).flood_min(), 20).1,
            final(self).floods() == old(self).floods().push((r, old(self).id())),
            final(self).sessions() == old(self).sessions(),
            final(self).id() == old(self).id(),
            final(self).neighbor_ids() == old(self).neighbor_ids(),
            final(self).topology() == old(self).topology(),
            final(self).pending() == old(self).pending(),
            final(self).unsent() == old(self).unsent(),
            final(self).flooding() == old(self).flooding(),
            final(self).flood_attempts() == old(self).flood_attempts(),
            final(self).running() == old(self).running(),
    {
        let value = if self.flood_ids.len() == 0 {
            random_in(0, 20)
        } else {
            let m = smallest_first(&self.flood_ids);
            random_in(m, m + 40)
        };
        self.flood_ids.push((value, self.node_id));
        value
    }

    /// A session id drawn from the window of `id_window` (first window
    /// `0 .. 30`), recorded as used.
    pub fn get_session_id(&mut self) -> (r: u64)
        requires
            old(self).wf(),
            window_fits(old(self).session_min()),
        ensures
            final(self).wf(),
            id_window(old(self).session_min(), 30).0 <= r < id_window(old(self).session_min(), 30).1,
            final(self).sessions() == old(self).sessions().push(r),
            final(self).floods() == old(self).floods(),
            final(self).id() == old(self).id(),
            final(self).neighbor_ids() == old(self).neighbor_ids(),
            final(self).topology() == old(self).topology(),
            final(self).pending() == old(self).pending(),
            final(self).unsent() == old(self).unsent(),
            final(self).flooding() == old(self).flooding(),
            final(self).flood_attempts() == old(self).flood_attempts(),
            final(self).running() == old(self).running(),
    {
        let value = if self.used_session_ids.len() == 0 {
            random_in(0, 30)
        } else {
            let m = smallest(&self.used_session_ids);
            random_in(m, m + 40)
        };
        self.used_session_ids.push(value);
        value
    }
}

/// What a client reports to the simulation controller.
#[derive(Debug, Clone)]
pub enum ClientEvent {
    Flooding(u8),
    PacketSent(Packet),
    PacketReceived(Packet),
    PacketSendingError(Packet),
    AckReceived(Packet),
    NackReceived(Packet),
    MissingDestination(u8, u8),
    MissingRoute(u8, u8),
    LostMessage(u64, u8),
    LostFragment(u64, u8, u64),
    DroneInsideDestination(u8),
    WrongDestinationType(u8, u8),
    SendDestinations(u8, u8),
    ErrorReassembling(u8),
    SendContactsToSC(u8, u8),
    MissingContacts(u8, u8),
    ReceivedChatText(u8, u8, String),
    RegisterSuccessfully(u8, u8),
    SendTextList(u8, u64, String),
    SendCatalogue(u8, u64, String),
    SendMedia(u8, u64, String, Vec<u8>),
    MissingDestForMedia(u8, u64),
    MissingTextList(u8, u64),
}

/// What a client's handling asks to be done: a message to send to a node,
/// an event to report, or media to show.
#[derive(Debug, Clone)]
pub enum ClientAction {
    Send(crate::message::Message, u8),
    Event(ClientEvent),
    Open(Vec<u8>),
}

/// Action `a` sends a message from `from` in session `session` to `to`.
pub open spec fn sends(a: ClientAction, from: u8, session: u64, to: u8) -> bool {
    a matches ClientAction::Send(m, d) && m.source_id == from && m.session_id == session && d == to
}

/// The content of the message action `a` sends.
pub open spec fn content_of(a: ClientAction) -> ContentType {
    a->Send_0.content
}

/// What became of a fragment the client tried to route.
#[derive(Debug, Clone)]
pub enum ClientRoute {
    /// The destination is the client itself: nothing is sent.
    ToSelf,
    /// Hand the packet to this neighbour.
    Send(Packet, u8),
    /// No route: the fragment waits, and a flood starts unless one is going
    /// on (its packet, to send to every neighbour).
    NoRoute(Option<Packet>),
}

/// Where the fragment a nack asks for again stands.
#[derive(Debug, Clone, Copy)]
pub enum ClientNackLookup {
    /// The fragment, and the destination of its message.
    Resend(Fragment, u8),
    /// The message is no longer kept.
    LostMessage,
    /// The message has no fragment with that index.
    LostFragment,
}

/// The node a flood request came from (see `server::flood_prev`).
pub open spec fn came_from(fr: FloodRequest) -> u8 {
    crate::server::flood_prev(fr)
}

impl ClientStruct {
    /// The id counters can give out one more flood id and two more session
    /// ids without leaving `u64`.
    pub open spec fn has_ids(&self) -> bool {
        &&& self.flood_min() matches Some(m) ==> m + 40 <= u64::MAX
        &&& self.session_min() matches Some(m) ==> m + 40 <= u64::MAX
    }

    /// Starts a flood when the client has a neighbour: a flood request with
    /// a fresh flood id, this client as initiator and only itself in the
    /// trace, in a packet with an empty route and a fresh session id.
    pub fn flood(&mut self) -> (r: Option<Packet>)
        requires
            old(self).wf(),
            old(self).has_ids(),
        ensures
            final(self).wf(),
            (r is Some) == (old(self).neighbor_ids().len() > 0),
            r is None ==> *final(self) == *old(self),
            r matches Some(p) ==> {
                &&& final(self).flooding()
                &&& final(self).floods().len() == old(self).floods().len() + 1
                &&& final(self).floods().drop_last() == old(self).floods()
                &&& final(self).sessions().len() == old(self).sessions().len() + 1
                &&& final(self).sessions().drop_last() == old(self).sessions()
                &&& p.pack_type matches PacketType::FloodRequest(f) && f.flood_id == final(self).floods().last().0
                    && final(self).floods().last().1 == old(self).id() && f.initiator_id == old(self).id()
                    && f.path_trace@ == seq![(old(self).id(), NodeType::Client)]
                &&& id_window(old(self).flood_min(), 20).0 <= final(self).floods().last().0 < id_window(
                    old(self).flood_min(),
                    20,
                ).1
                &&& p.session_id == final(self).sessions().last()
                &&& id_window(old(self).session_min(), 30).0 <= p.session_id < id_window(old(self).session_min(), 30).1
                &&& p.routing_header.hops@ == Seq::<u8>::empty()
                &&& p.routing_header.hop_index == 0
                &&& final(self).id() == old(self).id()
                &&& final(self).neighbor_ids() == old(self).neighbor_ids()
                &&& final(self).topology() == old(self).topology()
                &&& final(self).pending() == old(self).pending()
                &&& final(self).unsent() == old(self).unsent()
                &&& final(self).flood_attempts() == old(self).flood_attempts()
                &&& final(self).running() == old(self).running()
            },
    {
        if self.neighbors.len() == 0 {
            return None;
        }
        self.is_flooding = true;
        let flood_id = self.get_flood_id();
        let trace: Vec<(u8, NodeType)> = vec![(self.node_id, NodeType::Client)];
        let ghost tv = trace@;
        let fr = FloodRequest { flood_id, initiator_id: self.node_id, path_trace: trace };
        let session_id = self.get_session_id();
        assert(tv =~= seq![(self.node_id, NodeType::Client)]);
        assert(self.floods().drop_last() =~= old(self).floods());
        assert(self.sessions().drop_last() =~= old(self).sessions());
        Some(Packet::new_flood_request(SourceRoutingHeader::empty_route(), session_id, fr))
    }

    /// Takes in a flood request that already carries this client in its
    /// trace. A new flood is passed on to every neighbour but the one it
    /// came from, unless the client has a single neighbour; a flood seen
    /// before, or one met with a single neighbour, is to be answered.
    pub fn handle_flood_request(&mut self, packet: Packet) -> (r: FloodDecision)
        requires
            old(self).wf(),
            packet.pack_type is FloodRequest,
        ensures
            final(self).wf(),
            ({
                let fr = packet.pack_type->FloodRequest_0;
                let key = (fr.flood_id, fr.initiator_id);
                let seen = old(self).floods().contains(key);
                &&& final(self).floods() == if seen { old(self).floods() } else { old(self).floods().push(key) }
                &&& (r is Respond) == (seen || old(self).neighbor_ids().len() == 1)
                &&& r matches FloodDecision::Forward(p, targets) ==> {
                    &&& p == packet
                    &&& targets@.no_duplicates()
                    &&& forall|n: u8| #[trigger] targets@.contains(n) == (old(self).neighbor_ids().contains(n)
                        && n != came_from(fr))
                }
            }),
            final(self).sessions() == old(self).sessions(),
            final(self).id() == old(self).id(),
            final(self).neighbor_ids() == old(self).neighbor_ids(),
            final(self).topology() == old(self).topology(),
            final(self).pending() == old(self).pending(),
            final(self).unsent() == old(self).unsent(),
            final(self).flooding() == old(self).flooding(),
            final(self).flood_attempts() == old(self).flood_attempts(),
            final(self).running() == old(self).running(),
    {
        let (fid, init, prev) = match &packet.pack_type {
            PacketType::FloodRequest(fr) => {
                let n = fr.path_trace.len();
                let prev = if n > 1 {
                    fr.path_trace[n - 2].0
                } else {
                    fr.initiator_id
                };
                (fr.flood_id, fr.initiator_id, prev)
            },
            _ => {
                return FloodDecision::Respond;
            },
        };
        let mut i: usize = 0;
        while i < self.flood_ids.len()
            invariant
                0 <= i <= self.flood_ids@.len(),
                *self == *old(self),
                old(self).wf(),
                packet.pack_type is FloodRequest,
                fid == packet.pack_type->FloodRequest_0.flood_id,
                init == packet.pack_type->FloodRequest_0.initiator_id,
                forall|j: int| 0 <= j < i ==> self.flood_ids@[j] != (fid, init),
            decreases self.flood_ids@.len() - i,
        {
            if self.flood_ids[i].0 == fid && self.flood_ids[i].1 == init {
                assert(self.flood_ids@[i as int] == (fid, init));
                return FloodDecision::Respond;
            }
            i = i + 1;
        }
        self.flood_ids.push((fid, init));
        if self.neighbors.len() == 1 {
            return FloodDecision::Respond;
        }
        let targets = remove_value(&self.neighbors, prev);
        FloodDecision::Forward(packet, targets)
    }

    /// Keeps an incoming fragment with the others of its message, under the
    /// session and the first hop of the packet that brought it; a new
    /// message starts with this client as its destination and no content.
    pub fn handle_fragment(&mut self, fragment: Fragment, packet: &Packet)
        requires
            old(self).wf(),
            packet.routing_header.hops@.len() > 0,
        ensures
            final(self).wf(),
            final(self).same_control(*old(self)),
            final(self).topology() == old(self).topology(),
            final(self).unsent() == old(self).unsent(),
            ({
                let k = session_key(packet.session_id, packet.routing_header.hops@[0]);
                final(self).pending() == old(self).pending().insert(
                    k,
                    if old(self).pending().contains_key(k) {
                        (old(self).pending()[k].0, old(self).pending()[k].1, old(self).pending()[k].2.push(fragment))
                    } else {
                        (old(self).id(), None, seq![fragment])
                    },
                )
            }),
    {
        let key = make_session_key(packet.session_id, packet.routing_header.hops[0]);
        let ghost before = self.pending();
        let ghost raw = self.fragments@;
        match self.fragments.remove(&key) {
            Some(entry) => {
                let (d, c, mut v) = entry;
                assert(raw.contains_key(key) && raw[key] == (d, c, v));
                v.push(fragment);
                self.fragments.insert(key, (d, c, v));
                assert(self.pending() =~= before.insert(key, (before[key].0, before[key].1, before[key].2.push(fragment))));
            },
            None => {
                assert(!raw.contains_key(key));
                let v: Vec<Fragment> = vec![fragment];
                self.fragments.insert(key, (self.node_id, None, v));
                assert(v@ =~= seq![fragment]);
                assert(self.pending() =~= before.insert(key, (self.node_id, None, seq![fragment])));
            },
        }
    }

    /// Keeps the fragments of an outgoing message with its content, under
    /// its session and this client, until they are all acked.
    pub fn store_message(&mut self, session_id: u64, destination: u8, content: ContentType, fragments: Vec<Fragment>)
        requires
            old(self).wf(),
        ensures
            final(self).wf(),
            final(self).same_control(*old(self)),
            final(self).topology() == old(self).topology(),
            final(self).unsent() == old(self).unsent(),
            final(self).pending() == old(self).pending().insert(
                session_key(session_id, old(self).id()),
                (destination, Some(content), fragments@),
            ),
    {
        let key = make_session_key(session_id, self.node_id);
        let ghost before = self.pending();
        let ghost fv = fragments@;
        self.fragments.insert(key, (destination, Some(content), fragments));
        assert(self.pending() =~= before.insert(key, (destination, Some(content), fv)));
    }

    /// Once `total` fragments of the message of session `session_id` from
    /// `source` are in, gives them (the entry stays until `forget`).
    pub fn complete_fragments(&self, session_id: u64, source: u8, total: u64) -> (r: Option<Vec<Fragment>>)
        ensures
            ({
                let k = session_key(session_id, source);
                if self.pending().contains_key(k) && self.pending()[k].2.len() == total {
                    r matches Some(v) && v@ == self.pending()[k].2
                } else {
                    r is None
                }
            }),
    {
        let key = make_session_key(session_id, source);
        match self.fragments.get(&key) {
            Some(entry) => {
                if entry.2.len() as u64 == total {
                    Some(copy_fragments(&entry.2))
                } else {
                    None
                }
            },
            None => None,
        }
    }

    /// Forgets the message kept under a session and sender.
    pub fn forget(&mut self, session_id: u64, source: u8)
        requires
            old(self).wf(),
        ensures
            final(self).wf(),
            final(self).same_control(*old(self)),
            final(self).topology() == old(self).topology(),
            final(self).unsent() == old(self).unsent(),
            final(self).pending() == old(self).pending().remove(session_key(session_id, source)),
    {
        let key = make_session_key(session_id, source);
        let ghost before = self.pending();
        self.fragments.remove(&key);
        assert(self.pending() =~= before.remove(key));
    }

    /// Takes in the ack of fragment `fragment_index` of this client's message
    /// in session `session_id`: the fragment is no longer waited for; once
    /// none is, the message is forgotten and its content is returned.
    /// `None` also when no such message is kept.
    pub fn acknowledge(&mut self, session_id: u64, fragment_index: u64) -> (r: Option<Option<ContentType>>)
        requires
            old(self).wf(),
        ensures
            final(self).wf(),
            final(self).same_control(*old(self)),
            final(self).topology() == old(self).topology(),
            final(self).unsent() == old(self).unsent(),
            ({
                let k = session_key(session_id, old(self).id());
                let old_p = old(self).pending();
                if !old_p.contains_key(k) {
                    &&& r is None
                    &&& final(self).pending() == old_p
                } else {
                    let rest = without_index(old_p[k].2, fragment_index);
                    if rest.len() == 0 {
                        &&& r == Some(old_p[k].1)
                        &&& final(self).pending() == old_p.remove(k)
                    } else {
                        &&& r is None
                        &&& final(self).pending() == old_p.insert(k, (old_p[k].0, old_p[k].1, rest))
                    }
                }
            }),
    {
        let key = make_session_key(session_id, self.node_id);
        let ghost before = self.pending();
        let ghost raw = self.fragments@;
        match self.fragments.remove(&key) {
            None => {
                assert(self.pending() =~= before);
                None
            },
            Some(entry) => {
                let (d, c, v) = entry;
                assert(raw.contains_key(key) && raw[key] == (d, c, v));
                let rest = keep_other_fragments(&v, fragment_index);
                if rest.len() == 0 {
                    assert(self.pending() =~= before.remove(key));
                    Some(c)
                } else {
                    let ghost rv = rest@;
                    self.fragments.insert(key, (d, c, rest));
                    assert(self.pending() =~= before.insert(key, (d, c, rv)));
                    None
                }
            },
        }
    }

    /// The kept fragment with index `fragment_index` of this client's
    /// message in session `session_id`, to send again after a nack.
    pub fn fragment_for_nack(&self, session_id: u64, fragment_index: u64) -> (r: ClientNackLookup)
        ensures
            r == client_nack_lookup(self.pending(), session_key(session_id, self.id()), fragment_index),
    {
        let key = make_session_key(session_id, self.node_id);
        match self.fragments.get(&key) {
            None => ClientNackLookup::LostMessage,
            Some(entry) => match find_fragment(&entry.2, fragment_index) {
                Some(f) => ClientNackLookup::Resend(f, entry.0),
                None => ClientNackLookup::LostFragment,
            },
        }
    }
}

/// Where the fragment with index `fi` of the message kept under key `k`
/// stands: resent with its message's destination, or lost with its message,
/// or lost alone.
pub open spec fn client_nack_lookup(
    pending: Map<u128, (u8, Option<ContentType>, Seq<Fragment>)>,
    k: u128,
    fi: u64,
) -> ClientNackLookup {
    if !pending.contains_key(k) {
        ClientNackLookup::LostMessage
    } else {
        match fragment_with_index(pending[k].2, fi) {
            Some(f) => ClientNackLookup::Resend(f, pending[k].0),
            None => ClientNackLookup::LostFragment,
        }
    }
}

impl ClientStruct {
    /// Adds a fragment that could not leave to those waiting to be sent
    /// again: to its session's entry, or to a new entry for `destination`.
    pub fn add_unsent_fragment(&mut self, fragment: Fragment, session_id: u64, destination: u8)
        requires
            old(self).wf(),
        ensures
            final(self).wf(),
            final(self).same_control(*old(self)),
            final(self).topology() == old(self).topology(),
            final(self).pending() == old(self).pending(),
            final(self).unsent() == with_client_unsent(old(self).unsent(), session_id, destination, fragment),
    {
        let ghost s = self.unsent();
        let mut i: usize = 0;
        while i < self.unsent_fragments.len()
            invariant
                0 <= i <= self.unsent_fragments@.len(),
                *self == *old(self),
                old(self).wf(),
                s == self.unsent(),
                forall|j: int| 0 <= j < i ==> s[j].0 != session_id,
            decreases self.unsent_fragments@.len() - i,
        {
            if self.unsent_fragments[i].session_id == session_id {
                proof {
                    assert(s[i as int] == client_unsent_view(old(self).unsent_fragments@[i as int]));
                    let c = choose|c: int| 0 <= c < s.len() && s[c].0 == session_id;
                    if c != i {
                        if c < i {
                            assert(s[c].0 != s[i as int].0);
                        } else {
                            assert(s[i as int].0 != s[c].0);
                        }
                    }
                }
                let mut e = self.unsent_fragments.remove(i);
                e.fragments.push(fragment);
                self.unsent_fragments.insert(i, e);
                proof {
                    assert(self.unsent() =~= s.update(i as int, (session_id, (s[i as int].1.0, s[i as int].1.1.push(fragment)))));
                }
                return;
            }
            i = i + 1;
        }
        let v: Vec<Fragment> = vec![fragment];
        let e = ClientUnsent { session_id, destination, fragments: v };
        self.unsent_fragments.push(e);
        proof {
            assert(v@ =~= seq![fragment]);
            assert(self.unsent() =~= s.push((session_id, (destination, seq![fragment]))));
        }
    }

    /// Hands out every unsent fragment with its session and destination,
    /// entry after entry, and forgets them all.
    pub fn take_unsent(&mut self) -> (r: Vec<(Fragment, u64, u8)>)
        requires
            old(self).wf(),
        ensures
            final(self).wf(),
            final(self).same_control(*old(self)),
            final(self).topology() == old(self).topology(),
            final(self).pending() == old(self).pending(),
            final(self).unsent() == Seq::<(u64, (u8, Seq<Fragment>))>::empty(),
            r@ == flatten_client_unsent(old(self).unsent()),
    {
        let mut out: Vec<(Fragment, u64, u8)> = Vec::new();
        let ghost s = self.unsent();
        let mut i: usize = 0;
        while i < self.unsent_fragments.len()
            invariant
                0 <= i <= self.unsent_fragments@.len(),
                s == self.unsent(),
                out@ == flatten_client_unsent(s.take(i as int)),
            decreases self.unsent_fragments@.len() - i,
        {
            let e = &self.unsent_fragments[i];
            let ghost base = out@;
            let mut j: usize = 0;
            while j < e.fragments.len()
                invariant
                    0 <= j <= e.fragments@.len(),
                    out@ == base + e.fragments@.take(j as int).map_values(|f: Fragment| (f, e.session_id, e.destination)),
                decreases e.fragments@.len() - j,
            {
                out.push((e.fragments[j], e.session_id, e.destination));
                assert(e.fragments@.take(j + 1).map_values(|f: Fragment| (f, e.session_id, e.destination)) =~= e.fragments@.take(
                    j as int,
                ).map_values(|f: Fragment| (f, e.session_id, e.destination)).push((e.fragments@[j as int], e.session_id, e.destination)));
                j = j + 1;
            }
            proof {
                assert(e.fragments@.take(j as int) =~= e.fragments@);
                assert(s.take(i + 1).drop_last() =~= s.take(i as int));
                assert(s.take(i + 1).last() == s[i as int]);
            }
            i = i + 1;
        }
        assert(s.take(i as int) =~= s);
        self.unsent_fragments = Vec::new();
        assert(self.unsent() =~= Seq::<(u64, (u8, Seq<Fragment>))>::empty());
        out
    }

    /// Routes one fragment towards `destination` along the best known route.
    /// Without a route the fragment waits with the unsent ones and, when no
    /// flood is going on, a flood starts.
    pub fn route_fragment(&mut self, fragment: Fragment, destination: u8, session_id: u64) -> (r: ClientRoute)
        requires
            old(self).wf(),
            old(self).has_ids(),
        ensures
            final(self).wf(),
            final(self).id() == old(self).id(),
            final(self).pending() == old(self).pending(),
            final(self).topology() == old(self).topology(),
            final(self).neighbor_ids() == old(self).neighbor_ids(),
            final(self).running() == old(self).running(),
            destination == old(self).id() ==> r is ToSelf && *final(self) == *old(self),
            destination != old(self).id() && old(self).topology().reachable(old(self).id(), destination) ==> {
                &&& *final(self) == *old(self)
                &&& r matches ClientRoute::Send(p, hop) && p.pack_type == PacketType::MsgFragment(fragment)
                    && p.session_id == session_id && p.routing_header.hop_index == 1
                    && old(self).topology().is_best_route(p.routing_header.hops@, old(self).id(), destination)
                    && hop == p.routing_header.hops@[1]
            },
            destination != old(self).id() && !old(self).topology().reachable(old(self).id(), destination) ==> {
                &&& r matches ClientRoute::NoRoute(fl) && (fl is Some) == (!old(self).flooding()
                    && old(self).neighbor_ids().len() > 0)
                &&& final(self).unsent() == with_client_unsent(old(self).unsent(), session_id, destination, fragment)
                &&& final(self).flooding() == (old(self).flooding() || old(self).neighbor_ids().len() > 0)
            },
    {
        if destination == self.node_id {
            return ClientRoute::ToSelf;
        }
        match self.network.get_srh(self.node_id, destination) {
            None => {
                self.add_unsent_fragment(fragment, session_id, destination);
                let fl = if !self.is_flooding {
                    self.flood()
                } else {
                    None
                };
                ClientRoute::NoRoute(fl)
            },
            Some(srh) => {
                proof {
                    assert(srh.hops@.len() >= 2) by {
                        assert(srh.hops@[0] == self.id());
                        assert(srh.hops@.last() == destination);
                    }
                }
                let first = srh.hops[1];
                ClientRoute::Send(Packet::new_fragment(srh, session_id, fragment), first)
            },
        }
    }

    /// The next hop of a route turned out not to be a neighbour: the fragment
    /// waits with the unsent ones and the link to that hop is forgotten.
    pub fn fragment_not_sent(&mut self, fragment: Fragment, destination: u8, session_id: u64, first_hop: u8)
        requires
            old(self).wf(),
        ensures
            final(self).wf(),
            final(self).same_control(*old(self)),
            final(self).pending() == old(self).pending(),
            final(self).unsent() == with_client_unsent(old(self).unsent(), session_id, destination, fragment),
            crate::routing::connection_removed(old(self).topology(), final(self).topology(), old(self).id(), first_hop),
    {
        self.add_unsent_fragment(fragment, session_id, destination);
        self.network.remove_faulty_connection(self.node_id, first_hop);
    }

    /// Reacts to a nack for one of this client's messages: a routing error
    /// or an unexpected recipient makes the client forget the node named in
    /// the nack; a drop counts against the drone that dropped (the packet's
    /// first hop); in these cases the fragment is to be sent again (true). A
    /// destination that turned out to be a drone becomes unreachable.
    pub fn handle_nack(&mut self, nack: Nack, packet: &Packet) -> (r: bool)
        requires
            old(self).wf(),
            packet.routing_header.hops@.len() > 0,
        ensures
            final(self).wf(),
            final(self).same_control(*old(self)),
            final(self).pending() == old(self).pending(),
            final(self).unsent() == old(self).unsent(),
            r == !(nack.nack_type is DestinationIsDrone),
            match nack.nack_type {
                NackType::ErrorInRouting(w) => crate::routing::node_removed(old(self).topology(), final(self).topology(), w),
                NackType::UnexpectedRecipient(w) => crate::routing::node_removed(
                    old(self).topology(),
                    final(self).topology(),
                    w,
                ),
                NackType::DestinationIsDrone => crate::routing::state_updated(
                    old(self).topology(),
                    final(self).topology(),
                    packet.routing_header.hops@.last(),
                    2,
                ),
                NackType::Dropped => crate::routing::drop_recorded(
                    old(self).topology(),
                    final(self).topology(),
                    packet.routing_header.hops@[0],
                ),
            },
    {
        match nack.nack_type {
            NackType::UnexpectedRecipient(w) => {
                self.network.remove_node(w);
                true
            },
            NackType::ErrorInRouting(w) => {
                self.network.remove_node(w);
                true
            },
            NackType::DestinationIsDrone => {
                let w = packet.routing_header.hops[packet.routing_header.hops.len() - 1];
                self.network.update_state(w, 2);
                false
            },
            NackType::Dropped => {
                let dropper = packet.routing_header.hops[0];
                self.network.negative_feedback(dropper);
                true
            },
        }
    }

    /// Sets the state of a known node of the topology (an edge nack from a
    /// node makes it 2, unreachable).
    pub fn update_state(&mut self, node: u8, value: u8)
        requires
            old(self).wf(),
        ensures
            final(self).wf(),
            final(self).same_control(*old(self)),
            crate::routing::state_updated(old(self).topology(), final(self).topology(), node, value),
            final(self).pending() == old(self).pending(),
            final(self).unsent() == old(self).unsent(),
    {
        self.network.update_state(node, value);
    }

    /// Credits the drones of a route that delivered.
    pub fn positive_feed(&mut self, nodes: Vec<u8>)
        requires
            old(self).wf(),
        ensures
            final(self).wf(),
            final(self).same_control(*old(self)),
            crate::routing::feedback_given(old(self).topology(), final(self).topology(), nodes@),
            final(self).pending() == old(self).pending(),
            final(self).unsent() == old(self).unsent(),
    {
        self.network.positive_feedback(nodes);
    }

    /// Takes in a flood response: its trace becomes part of the topology.
    /// Once every known node is reachable, or after 200 responses, the
    /// flood counts as over.
    pub fn save_flood_response(&mut self, flood_response: FloodResponse)
        requires
            old(self).wf(),
            old(self).flood_attempts() < u64::MAX,
        ensures
            final(self).wf(),
            crate::routing::route_added(old(self).topology(), final(self).topology(), old(self).id(), flood_response.path_trace@),
            ({
                let over = final(self).topology().knows_all_routes(old(self).id()) || old(self).flood_attempts() >= 200;
                &&& final(self).flooding() == (!over && old(self).flooding())
                &&& final(self).flood_attempts() == if over { 0 } else { old(self).flood_attempts() + 1 }
            }),
            final(self).id() == old(self).id(),
            final(self).neighbor_ids() == old(self).neighbor_ids(),
            final(self).floods() == old(self).floods(),
            final(self).sessions() == old(self).sessions(),
            final(self).pending() == old(self).pending(),
            final(self).unsent() == old(self).unsent(),
            final(self).running() == old(self).running(),
    {
        self.network.add_route(self.node_id, flood_response.path_trace);
        if self.network.has_all_routes(self.node_id) || self.flood_count >= 200 {
            self.is_flooding = false;
            self.flood_count = 0;
        } else {
            self.flood_count = self.flood_count + 1;
        }
    }

    /// A new channel to neighbour `id`.
    pub fn add_sender(&mut self, id: u8)
        requires
            old(self).wf(),
        ensures
            final(self).wf(),
            final(self).neighbor_ids().to_set() == old(self).neighbor_ids().to_set().insert(id),
            final(self).topology() == old(self).topology(),
            final(self).pending() == old(self).pending(),
            final(self).unsent() == old(self).unsent(),
            final(self).id() == old(self).id(),
    {
        let ghost before = self.neighbors@;
        if !contains_value(&self.neighbors, id) {
            self.neighbors.push(id);
            proof {
                lemma_push_to_set(before, id);
            }
        } else {
            assert(before.to_set().insert(id) =~= before.to_set());
        }
    }

    /// Drops the channel to neighbour `id`.
    pub fn remove_sender(&mut self, id: u8)
        requires
            old(self).wf(),
        ensures
            final(self).wf(),
            final(self).neighbor_ids().to_set() == old(self).neighbor_ids().to_set().remove(id),
            final(self).topology() == old(self).topology(),
            final(self).pending() == old(self).pending(),
            final(self).unsent() == old(self).unsent(),
            final(self).id() == old(self).id(),
    {
        self.neighbors = remove_value(&self.neighbors, id);
    }

    /// Whether `destination` is known and in the reachable state 1.
    pub fn is_state_ok(&self, destination: u8) -> (r: bool)
        ensures
            r == (self.topology().contains(destination) && self.topology().state(destination) == 1),
    {
        match self.network.get_state(destination) {
            Some(state) => state == 1,
            None => false,
        }
    }
}

impl ClientStruct {
    /// Starts sending a message of `bytes` (the encoded `content`) to
    /// `destination` in session `session_id`: when the message may go (see
    /// `may_send`) its fragments are kept with the content until acked and
    /// returned to be routed one by one; otherwise nothing changes and
    /// `None` is returned.
    pub fn start_message(&mut self, content: ContentType, session_id: u64, bytes: &Vec<u8>, destination: u8) -> (r: Option<Vec<Fragment>>)
        requires
            old(self).wf(),
            bytes@.len() < u64::MAX,
        ensures
            final(self).wf(),
            final(self).same_control(*old(self)),
            final(self).topology() == old(self).topology(),
            final(self).unsent() == old(self).unsent(),
            ({
                let ok = crate::message::needs_no_state_check(content) || (old(self).topology().contains(destination)
                    && old(self).topology().state(destination) == 1);
                if ok {
                    r matches Some(v) && crate::fragmentation::fragmented(v@, bytes@) && final(self).pending()
                        == old(self).pending().insert(
                        session_key(session_id, old(self).id()),
                        (destination, Some(content), v@),
                    )
                } else {
                    r is None && final(self).pending() == old(self).pending()
                }
            }),
    {
        let state = self.network.get_state(destination);
        if !crate::message::may_send(&content, state) {
            return None;
        }
        let frags = crate::fragmentation::fragment_message(bytes);
        let out = copy_fragments(&frags);
        self.store_message(session_id, destination, content, frags);
        Some(out)
    }
}

impl ClientStruct {
    /// The nack a client sends back to `dst` when it cannot forward a packet
    /// as a drone would: along the best route to `dst`, handed to the hop
    /// at the route's position (the client itself); `None` without a route.
    pub fn drone_nack_route(&self, dst: u8, nack_type: NackType, session_id: u64) -> (r: Option<(Packet, u8)>)
        requires
            self.wf(),
        ensures
            (r is None) == !self.topology().reachable(self.id(), dst),
            r matches Some((p, hop)) ==> p.pack_type == PacketType::Nack(Nack { fragment_index: 0, nack_type })
                && p.session_id == session_id && p.routing_header.hop_index == 1 && self.topology().is_best_route(
                p.routing_header.hops@,
                self.id(),
                dst,
            ) && hop == if p.routing_header.hops@.len() > 1 { p.routing_header.hops@[1] } else { self.id() },
    {
        match self.network.get_srh(self.node_id, dst) {
            None => None,
            Some(srh) => {
                proof {
                    assert(srh.hops@.len() >= 1) by {
                        assert(srh.hops@[0] == self.id());
                    }
                }
                let hop = match srh.current_hop() {
                    Some(h) => h,
                    None => self.node_id,
                };
                Some((crate::edge::drone_nack(srh, session_id, nack_type), hop))
            },
        }
    }
}

/// What a packet that reached a client leaves to be done.
#[derive(Debug)]
pub enum ClientReceived {
    /// A flood request to answer: the response, one hop on its way.
    FloodAnswer(crate::edge::ForwardStep),
    /// A flood request (with this client in its trace) to pass on to the
    /// listed neighbours.
    FloodForward(Packet, Vec<u8>),
    /// A packet for another node, one hop on its way.
    Relay(crate::edge::ForwardStep),
    /// A fragment of a message to this client: the ack to send back (with
    /// the neighbour to hand it to) and, once every fragment is in, the
    /// fragments of the message (kept until `forget`).
    Fragment { ack: (Packet, u8), complete: Option<Vec<Fragment>> },
    /// An ack: the content of the message it completed, if it did.
    Ack(Option<Option<ContentType>>),
    /// A nack, with the fragment to send again when it is to be resent.
    Nack(Option<ClientNackLookup>),
    /// A flood response, taken in.
    FloodResponse,
}

/// What taking in fragment `f` of the message kept under key `k` (for
/// client `id`) makes of the messages being received: the fragment joins its
/// message (a new one is started when none is kept), and once the message
/// has as many fragments as `f` says it has, they are handed out (the
/// message stays kept until `forget`).
pub open spec fn client_fragment_taken(
    pending: Map<u128, (u8, Option<ContentType>, Seq<Fragment>)>,
    k: u128,
    id: u8,
    f: Fragment,
) -> (Map<u128, (u8, Option<ContentType>, Seq<Fragment>)>, Option<Seq<Fragment>>) {
    let got = if pending.contains_key(k) {
        (pending[k].0, pending[k].1, pending[k].2.push(f))
    } else {
        (id, None, seq![f])
    };
    (pending.insert(k, got), if got.2.len() == f.total_n_fragments {
        Some(got.2)
    } else {
        None
    })
}

/// The messages being received after taking in the fragments `fs`, in
/// order, all under key `k`, each message handed out being handled and then
/// forgotten (`forget`); and the messages handed out meanwhile.
pub open spec fn client_fragments_handled(
    pending: Map<u128, (u8, Option<ContentType>, Seq<Fragment>)>,
    k: u128,
    id: u8,
    fs: Seq<Fragment>,
) -> (Map<u128, (u8, Option<ContentType>, Seq<Fragment>)>, Seq<Seq<Fragment>>)
    decreases fs.len(),
{
    if fs.len() == 0 {
        (pending, Seq::empty())
    } else {
        let before = client_fragments_handled(pending, k, id, fs.drop_last());
        let step = client_fragment_taken(before.0, k, id, fs.last());
        match step.1 {
            Some(whole) => (step.0.remove(k), before.1.push(whole)),
            None => (step.0, before.1),
        }
    }
}

/// Every fragment of a message, arriving in any order, makes the client
/// hand out the message exactly once, on the last fragment, as the
/// fragments received; once it is handled and forgotten, nothing of it
/// stays kept. When they are the fragments of `bytes`, what is handed out
/// reassembles into `bytes`.
pub proof fn lemma_client_message_handled_once(
    pending: Map<u128, (u8, Option<ContentType>, Seq<Fragment>)>,
    k: u128,
    id: u8,
    fs: Seq<Fragment>,
)
    requires
        !pending.contains_key(k),
        fs.len() > 0,
        forall|i: int| 0 <= i < fs.len() ==> (#[trigger] fs[i]).total_n_fragments == fs.len(),
    ensures
        client_fragments_handled(pending, k, id, fs) == (pending, seq![fs]),
        forall|bytes: Seq<u8>, made: Seq<Fragment>|
            bytes.len() < u64::MAX && crate::fragmentation::fragmented(made, bytes) && fs.to_multiset()
                == made.to_multiset() ==> #[trigger] crate::fragmentation::assembled(fs) == bytes,
{
    lemma_client_handled_prefix(pending, k, id, fs, fs.len() - 1);
    let m = (fs.len() - 1) as int;
    assert(fs.take(m + 1) =~= fs);
    assert(fs.take(m + 1).drop_last() =~= fs.take(m));
    assert(fs.take(m).push(fs.last()) =~= fs);
    if m == 0 {
        assert(fs.take(0) =~= Seq::<Fragment>::empty());
        assert(seq![fs.last()] =~= fs);
        assert(pending.insert(k, (id, None, fs)).remove(k) =~= pending);
    } else {
        assert(pending.insert(k, (id, None, fs.take(m))).insert(k, (id, None, fs)).remove(k) =~= pending);
    }
    assert forall|bytes: Seq<u8>, made: Seq<Fragment>|
        bytes.len() < u64::MAX && crate::fragmentation::fragmented(made, bytes) && fs.to_multiset()
            == made.to_multiset() implies #[trigger] crate::fragmentation::assembled(fs) == bytes by {
        crate::fragmentation::lemma_reassemble_any_order(bytes, made, fs);
    }
}

proof fn lemma_client_handled_prefix(
    pending: Map<u128, (u8, Option<ContentType>, Seq<Fragment>)>,
    k: u128,
    id: u8,
    fs: Seq<Fragment>,
    m: int,
)
    requires
        !pending.contains_key(k),
        0 <= m < fs.len(),
        forall|i: int| 0 <= i < fs.len() ==> (#[trigger] fs[i]).total_n_fragments == fs.len(),
    ensures
        client_fragments_handled(pending, k, id, fs.take(m)) == (if m == 0 {
            (pending, Seq::<Seq<Fragment>>::empty())
        } else {
            (pending.insert(k, (id, None::<ContentType>, fs.take(m))), Seq::<Seq<Fragment>>::empty())
        }),
    decreases m,
{
    if m == 0 {
        assert(fs.take(0) =~= Seq::<Fragment>::empty());
    } else {
        lemma_client_handled_prefix(pending, k, id, fs, m - 1);
        assert(fs.take(m).drop_last() =~= fs.take(m - 1));
        assert(fs.take(m).last() == fs[m - 1]);
        assert(fs[m - 1].total_n_fragments == fs.len());
        if m == 1 {
            assert(fs.take(0) =~= Seq::<Fragment>::empty());
            assert(seq![fs[0]] =~= fs.take(1));
        } else {
            assert(fs.take(m - 1).push(fs[m - 1]) =~= fs.take(m));
            assert(pending.insert(k, (id, None::<ContentType>, fs.take(m - 1))).insert(k, (id, None::<ContentType>, fs.take(m)))
                =~= pending.insert(k, (id, None::<ContentType>, fs.take(m))));
        }
    }
}

/// The client can take in packet `p`: it has what its handling reads (see
/// `server::receivable`).
pub open spec fn client_receivable(id: u8, p: Packet) -> bool {
    match p.pack_type {
        PacketType::FloodRequest(_) => true,
        _ => {
            &&& p.routing_header.hops@.len() > 0
            &&& p.routing_header.hop_index < usize::MAX
            &&& p.routing_header.hops@.last() == id ==> match p.pack_type {
                PacketType::MsgFragment(_) => p.routing_header.hops@.len() >= 2,
                _ => true,
            }
        },
    }
}

/// Whether the client `id` can take in packet `p` (see `client_receivable`).
pub fn is_client_receivable(id: u8, p: &Packet) -> (r: bool)
    ensures
        r == client_receivable(id, *p),
{
    match p.pack_type {
        PacketType::FloodRequest(_) => true,
        _ => {
            let n = p.routing_header.hops.len();
            if n == 0 || p.routing_header.hop_index == usize::MAX {
                return false;
            }
            if p.routing_header.hops[n - 1] != id {
                return true;
            }
            match p.pack_type {
                PacketType::MsgFragment(_) => n >= 2,
                _ => true,
            }
        },
    }
}

impl ClientStruct {
    /// Takes in a packet that reached this client, as a client does: a flood
    /// request (with this client added to its trace) is passed on or
    /// answered; a packet whose route ends elsewhere is relayed; a packet
    /// for this client is handled by its type (see `ClientReceived`). Every
    /// ack credits the drones of its route.
    pub fn receive(&mut self, packet: Packet) -> (r: ClientReceived)
        requires
            old(self).wf(),
            client_receivable(old(self).id(), packet),
            old(self).flood_attempts() < u64::MAX,
        ensures
            final(self).wf(),
            final(self).id() == old(self).id(),
            final(self).neighbor_ids() == old(self).neighbor_ids(),
            final(self).running() == old(self).running(),
            final(self).sessions() == old(self).sessions(),
            final(self).unsent() == old(self).unsent(),
            match packet.pack_type {
                PacketType::FloodRequest(fr) => {
                    let key = (fr.flood_id, fr.initiator_id);
                    let seen = old(self).floods().contains(key);
                    let answer = seen || old(self).neighbor_ids().len() == 1;
                    &&& final(self).floods() == if seen { old(self).floods() } else { old(self).floods().push(key) }
                    &&& final(self).topology() == old(self).topology()
                    &&& final(self).pending() == old(self).pending()
                    &&& answer ==> (r matches ClientReceived::FloodAnswer(step) && crate::edge::answer_step(
                        step,
                        fr.flood_id,
                        fr.initiator_id,
                        fr.path_trace@.push((old(self).id(), NodeType::Client)),
                    ))
                    &&& !answer ==> (r matches ClientReceived::FloodForward(p, targets) && (p.pack_type matches PacketType::FloodRequest(f)
                        && f.flood_id == fr.flood_id && f.initiator_id == fr.initiator_id && f.path_trace@ == fr.path_trace@.push(
                        (old(self).id(), NodeType::Client),
                    )) && p.session_id == packet.session_id && forall|n: u8| #[trigger] targets@.contains(n) == (
                    old(self).neighbor_ids().contains(n) && n != (if fr.path_trace@.len() > 0 {
                        fr.path_trace@.last().0
                    } else {
                        fr.initiator_id
                    })))
                },
                _ => if packet.routing_header.hops@.last() != old(self).id() {
                    &&& r matches ClientReceived::Relay(step) && crate::edge::step_of(packet, step)
                    &&& *final(self) == *old(self)
                } else {
                    match packet.pack_type {
                        PacketType::MsgFragment(f) => {
                            let k = session_key(packet.session_id, packet.routing_header.hops@[0]);
                            let taken = client_fragment_taken(old(self).pending(), k, old(self).id(), f);
                            &&& final(self).pending() == taken.0
                            &&& final(self).topology() == old(self).topology()
                            &&& r matches ClientReceived::Fragment { ack, complete } && ack.0.pack_type == PacketType::Ack(
                                crate::packet::Ack { fragment_index: f.fragment_index },
                            ) && ack.0.routing_header.hops@ == packet.routing_header.hops@.reverse() && ack.1
                                == packet.routing_header.hops@.reverse()[1] && (match taken.1 {
                                Some(whole) => complete matches Some(v) && v@ == whole,
                                None => complete is None,
                            })
                        },
                        PacketType::Ack(a) => {
                            let k = session_key(packet.session_id, old(self).id());
                            let old_p = old(self).pending();
                            &&& if !old_p.contains_key(k) {
                                r == ClientReceived::Ack(None) && final(self).pending() == old_p
                            } else {
                                let rest = without_index(old_p[k].2, a.fragment_index);
                                if rest.len() == 0 {
                                    r == ClientReceived::Ack(Some(old_p[k].1)) && final(self).pending() == old_p.remove(k)
                                } else {
                                    r == ClientReceived::Ack(None) && final(self).pending() == old_p.insert(
                                        k,
                                        (old_p[k].0, old_p[k].1, rest),
                                    )
                                }
                            }
                            &&& crate::routing::feedback_given(
                                old(self).topology(),
                                final(self).topology(),
                                packet.routing_header.hops@,
                            )
                        },
                        PacketType::Nack(n) => {
                            &&& r matches ClientReceived::Nack(lookup) && (lookup is Some) == !(n.nack_type is DestinationIsDrone)
                                && (lookup matches Some(l) ==> l == client_nack_lookup(
                                final(self).pending(),
                                session_key(packet.session_id, old(self).id()),
                                n.fragment_index,
                            ))
                            &&& final(self).pending() == old(self).pending()
                            &&& final(self).flooding() == old(self).flooding()
                            &&& final(self).flood_attempts() == old(self).flood_attempts()
                            &&& match n.nack_type {
                                NackType::ErrorInRouting(w) => crate::routing::node_removed(
                                    old(self).topology(),
                                    final(self).topology(),
                                    w,
                                ),
                                NackType::UnexpectedRecipient(w) => crate::routing::node_removed(
                                    old(self).topology(),
                                    final(self).topology(),
                                    w,
                                ),
                                NackType::DestinationIsDrone => crate::routing::state_updated(
                                    old(self).topology(),
                                    final(self).topology(),
                                    packet.routing_header.hops@.last(),
                                    2,
                                ),
                                NackType::Dropped => crate::routing::drop_recorded(
                                    old(self).topology(),
                                    final(self).topology(),
                                    packet.routing_header.hops@[0],
                                ),
                            }
                        },
                        PacketType::FloodResponse(resp) => {
                            &&& r is FloodResponse
                            &&& crate::routing::route_added(
                                old(self).topology(),
                                final(self).topology(),
                                old(self).id(),
                                resp.path_trace@,
                            )
                            &&& final(self).pending() == old(self).pending()
                            &&& ({
                                let over = final(self).topology().knows_all_routes(old(self).id())
                                    || old(self).flood_attempts() >= 200;
                                &&& final(self).flooding() == (!over && old(self).flooding())
                                &&& final(self).flood_attempts() == if over {
                                    0
                                } else {
                                    old(self).flood_attempts() + 1
                                }
                            })
                        },
                        _ => true,
                    }
                },
            },
    {
        let me = self.node_id;
        match packet.pack_type {
            PacketType::FloodRequest(fr) => {
                let mut fr = fr;
                let ghost trace0 = fr.path_trace@;
                fr.path_trace.push((me, NodeType::Client));
                proof {
                    if trace0.len() > 0 {
                        assert(fr.path_trace@[fr.path_trace@.len() - 2] == trace0.last());
                    }
                }
                let copy = FloodRequest { flood_id: fr.flood_id, initiator_id: fr.initiator_id, path_trace: crate::edge::copy_trace(&fr.path_trace) };
                let p = Packet { pack_type: PacketType::FloodRequest(fr), routing_header: packet.routing_header, session_id: packet.session_id };
                match self.handle_flood_request(p) {
                    FloodDecision::Respond => {
                        let resp = crate::edge::flood_response_packet(copy);
                        ClientReceived::FloodAnswer(crate::edge::forward_step(resp))
                    },
                    FloodDecision::Forward(p, targets) => ClientReceived::FloodForward(p, targets),
                }
            },
            _ => {
                let n = packet.routing_header.hops.len();
                if packet.routing_header.hops[n - 1] != me {
                    return ClientReceived::Relay(crate::edge::forward_step(packet));
                }
                match packet.pack_type {
                    PacketType::MsgFragment(f) => {
                        self.handle_fragment(f, &packet);
                        let ack = crate::edge::ack_packet(&packet, f.fragment_index);
                        let complete = self.complete_fragments(packet.session_id, packet.routing_header.hops[0], f.total_n_fragments);
                        ClientReceived::Fragment { ack, complete }
                    },
                    PacketType::Ack(a) => {
                        let done = self.acknowledge(packet.session_id, a.fragment_index);
                        let hops = crate::edge::copy_ids(&packet.routing_header.hops);
                        self.positive_feed(hops);
                        ClientReceived::Ack(done)
                    },
                    PacketType::Nack(nack) => {
                        if self.handle_nack(nack, &packet) {
                            ClientReceived::Nack(Some(self.fragment_for_nack(packet.session_id, nack.fragment_index)))
                        } else {
                            ClientReceived::Nack(None)
                        }
                    },
                    PacketType::FloodResponse(resp) => {
                        self.save_flood_response(resp);
                        ClientReceived::FloodResponse
                    },
                    PacketType::FloodRequest(_) => ClientReceived::FloodResponse,
                }
            },
        }
    }
}

impl ClientStruct {
    /// Whether fresh flood and session ids can still be drawn (`has_ids`).
    pub fn ids_fit(&self) -> (r: bool)
        ensures
            r == self.has_ids(),
    {
        let floods_ok = if self.flood_ids.len() == 0 {
            true
        } else {
            smallest_first(&self.flood_ids) <= u64::MAX - 40
        };
        let sessions_ok = if self.used_session_ids.len() == 0 {
            true
        } else {
            smallest(&self.used_session_ids) <= u64::MAX - 40
        };
        floods_ok && sessions_ok
    }

    /// How many flood responses came in since flooding was last allowed.
    pub fn flood_count(&self) -> (r: u64)
        ensures
            r == self.flood_attempts(),
    {
        self.flood_count
    }

    pub fn is_flooding(&self) -> (r: bool)
        ensures
            r == self.flooding(),
    {
        self.is_flooding
    }

    /// Forgets the link between this client and `node`.
    pub fn remove_faulty_connection(&mut self, node: u8)
        requires
            old(self).wf(),
        ensures
            final(self).wf(),
            final(self).same_control(*old(self)),
            crate::routing::connection_removed(old(self).topology(), final(self).topology(), old(self).id(), node),
            final(self).pending() == old(self).pending(),
            final(self).unsent() == old(self).unsent(),
    {
        self.network.remove_faulty_connection(self.node_id, node);
    }
}

} // verus!
