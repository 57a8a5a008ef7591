//! A chat client: it learns from chat servers which clients it can talk
//! to (and through which servers), keeps the conversations, and registers
//! with servers.
use std::collections::HashMap;
use vstd::prelude::*;

use crate::client::{content_of, id_window, sends, ClientAction, ClientEvent, ClientStruct};
use crate::kinds::{ClientType, EdgeType, ServerType};
use crate::message::{create_nack, ChatRequest, ChatResponse, ContentType, EdgeNackType, Message, TypeExchange};
use crate::routing::state_updated;
use crate::server::{contains_value, remove_value, without_value};

verus! {

broadcast use vstd::std_specs::hash::group_hash_axioms;

/// The contact table after a client list from server `source`: each listed
/// client gets `source` as one more server to reach it through; with the
/// clients that became contacts only now, in list order.
pub open spec fn add_contacts(m: Map<u8, Seq<u8>>, list: Seq<u8>, source: u8) -> (Map<u8, Seq<u8>>, Seq<u8>)
    decreases list.len(),
{
    if list.len() == 0 {
        (m, Seq::empty())
    } else {
        let (m1, fresh) = add_contacts(m, list.drop_last(), source);
        let i = list.last();
        let v = if m1.contains_key(i) { m1[i].push(source) } else { seq![source] };
        (m1.insert(i, v), if v.len() == 1 { fresh.push(i) } else { fresh })
    }
}

/// The transcript with `line` added to the conversation with `who`; a new
/// conversation starts with the line twice: once when the conversation is
/// created and once more when the line is appended to it.
pub open spec fn with_line(m: Map<u8, Seq<(u8, Seq<char>)>>, who: u8, line: (u8, Seq<char>)) -> Map<u8, Seq<(u8, Seq<char>)>> {
    if m.contains_key(who) {
        m.insert(who, m[who].push(line))
    } else {
        m.insert(who, seq![line, line])
    }
}

/// The servers of `s` the client is registered with, in order.
pub open spec fn only_registered(s: Seq<u8>, reg: Set<u8>) -> Seq<u8>
    decreases s.len(),
{
    if s.len() == 0 {
        s
    } else if reg.contains(s.last()) {
        only_registered(s.drop_last(), reg).push(s.last())
    } else {
        only_registered(s.drop_last(), reg)
    }
}

pub open spec fn lines_view(v: Seq<(u8, String)>) -> Seq<(u8, Seq<char>)> {
    v.map_values(|l: (u8, String)| (l.0, l.1@))
}

pub struct ChatClient {
    node_id: u8,
    contact_list: HashMap<u8, Vec<u8>>,
    all_messages: HashMap<u8, Vec<(u8, String)>>,
    registered_to: Vec<u8>,
}

impl ChatClient {
    pub closed spec fn node(&self) -> u8 {
        self.node_id
    }

    /// For each contact, the servers it can be reached through.
    pub closed spec fn contacts(&self) -> Map<u8, Seq<u8>> {
        self.contact_list@.map_values(|v: Vec<u8>| v@)
    }

    /// For each contact, the lines exchanged (sender and text).
    pub closed spec fn transcript(&self) -> Map<u8, Seq<(u8, Seq<char>)>> {
        self.all_messages@.map_values(|v: Vec<(u8, String)>| lines_view(v@))
    }

    /// The servers this client is registered with.
    pub closed spec fn registered(&self) -> Set<u8> {
        self.registered_to@.to_set()
    }

    pub fn new(node_id: u8) -> (r: Self)
        ensures
            r.node() == node_id,
            r.contacts() == Map::<u8, Seq<u8>>::empty(),
            r.transcript() == Map::<u8, Seq<(u8, Seq<char>)>>::empty(),
            r.registered() == Set::<u8>::empty(),
    {
        let r = ChatClient {
            node_id,
            contact_list: HashMap::new(),
            all_messages: HashMap::new(),
            registered_to: Vec::new(),
        };
        assert(r.contacts() =~= Map::<u8, Seq<u8>>::empty());
        assert(r.transcript() =~= Map::<u8, Seq<(u8, Seq<char>)>>::empty());
        assert(r.registered() =~= Set::<u8>::empty());
        r
    }

    /// The servers `contact` can be reached through, if it is a contact.
    pub fn servers_for(&self, contact: u8) -> (r: Option<Vec<u8>>)
        ensures
            r is Some == self.contacts().contains_key(contact),
            r matches Some(v) ==> v@ == self.contacts()[contact],
    {
        match self.contact_list.get(&contact) {
            Some(v) => Some(copy_ids(v)),
            None => None,
        }
    }
}

fn copy_ids(v: &Vec<u8>) -> (r: Vec<u8>)
    ensures
        r@ == v@,
{
    let mut out: Vec<u8> = Vec::new();
    let mut i: usize = 0;
    while i < v.len()
        invariant
            0 <= i <= v@.len(),
            out@ == v@.take(i as int),
        decreases v@.len() - i,
    {
        out.push(v[i]);
        assert(out@ =~= v@.take(i + 1));
        i = i + 1;
    }
    assert(v@.take(i as int) =~= v@);
    out
}

impl ChatClient {
    /// Takes in a client list from server `source` (see `add_contacts`) and
    /// returns the clients that became contacts only now.
    pub fn add_contacts(&mut self, list: &Vec<u8>, source: u8) -> (r: Vec<u8>)
        ensures
            (final(self).contacts(), r@) == add_contacts(old(self).contacts(), list@, source),
            final(self).node() == old(self).node(),
            final(self).transcript() == old(self).transcript(),
            final(self).registered() == old(self).registered(),
    {
        let mut fresh: Vec<u8> = Vec::new();
        let mut i: usize = 0;
        while i < list.len()
            invariant
                0 <= i <= list@.len(),
                self.node_id == old(self).node_id,
                self.all_messages == old(self).all_messages,
                self.registered_to == old(self).registered_to,
                (self.contacts(), fresh@) == add_contacts(old(self).contacts(), list@.take(i as int), source),
            decreases list@.len() - i,
        {
            let c = list[i];
            let ghost before = self.contacts();
            let v = match self.contact_list.remove(&c) {
                Some(mut v) => {
                    v.push(source);
                    v
                },
                None => {
                    let v: Vec<u8> = vec![source];
                    v
                },
            };
            let n = v.len();
            let ghost vv = v@;
            self.contact_list.insert(c, v);
            proof {
                assert(list@.take(i + 1).drop_last() =~= list@.take(i as int));
                assert(list@.take(i + 1).last() == c);
                assert(vv == if before.contains_key(c) { before[c].push(source) } else { seq![source] });
                assert(self.contacts() =~= before.insert(c, vv));
            }
            if n == 1 {
                fresh.push(c);
            }
            i = i + 1;
        }
        assert(list@.take(i as int) =~= list@);
        fresh
    }

    /// Adds a line to the conversation with `who` (see `with_line`).
    pub fn add_line(&mut self, who: u8, from: u8, text: String)
        ensures
            final(self).transcript() == with_line(old(self).transcript(), who, (from, text@)),
            final(self).node() == old(self).node(),
            final(self).contacts() == old(self).contacts(),
            final(self).registered() == old(self).registered(),
    {
        let ghost before = self.transcript();
        let ghost tv = text@;
        match self.all_messages.remove(&who) {
            Some(mut v) => {
                let ghost old_v = v@;
                v.push((from, text));
                assert(lines_view(v@) =~= lines_view(old_v).push((from, tv)));
                let ghost nv = lines_view(v@);
                self.all_messages.insert(who, v);
                assert(self.transcript() =~= before.insert(who, nv));
            },
            None => {
                let copy = text.clone();
                let v: Vec<(u8, String)> = vec![(from, copy), (from, text)];
                assert(lines_view(v@) =~= seq![(from, tv), (from, tv)]);
                self.all_messages.insert(who, v);
                assert(self.transcript() =~= before.insert(who, seq![(from, tv), (from, tv)]));
            },
        }
    }

    /// Handles a whole message that reached this chat client, and says what
    /// to send and report:
    /// - a client list from a server adds that server for each listed
    ///   client, reporting the clients that became contacts;
    /// - a chat line is reported and added to the conversation with its
    ///   sender;
    /// - a "client not found" from a server stops using that server for
    ///   that client;
    /// - a type request is answered with this client's kind; a type
    ///   response makes a chat server reachable (reported as a destination)
    ///   and any other node unreachable;
    /// - an edge nack makes its sender unreachable;
    /// - anything else is refused with an edge nack.
    pub fn handle_message(&mut self, base: &mut ClientStruct, message: Message) -> (r: Vec<ClientAction>)
        requires
            old(base).wf(),
            old(base).has_ids(),
            old(base).id() == old(self).node(),
        ensures
            final(self).node() == old(self).node(),
            final(base).wf(),
            final(base).id() == old(base).id(),
            final(base).neighbor_ids() == old(base).neighbor_ids(),
            final(base).floods() == old(base).floods(),
            final(base).pending() == old(base).pending(),
            final(base).unsent() == old(base).unsent(),
            final(base).flooding() == old(base).flooding(),
            final(base).running() == old(base).running(),
            final(self).registered() == old(self).registered(),
            ({
                let me = old(base).id();
                let src = message.source_id;
                let window = id_window(old(base).session_min(), 30);
                match message.content {
                    ContentType::ChatResponse(ChatResponse::ClientList(list)) => {
                        let (m, fresh) = add_contacts(old(self).contacts(), list@, src);
                        &&& final(self).contacts() == m
                        &&& final(self).transcript() == old(self).transcript()
                        &&& final(base).topology() == old(base).topology()
                        &&& final(base).sessions() == old(base).sessions()
                        &&& r@.len() == fresh.len()
                        &&& forall|k: int| 0 <= k < fresh.len() ==> #[trigger] r@[k] == ClientAction::Event(
                            ClientEvent::SendContactsToSC(me, fresh[k]),
                        )
                    },
                    ContentType::ChatResponse(ChatResponse::MessageFrom { from, message: text }) => {
                        &&& final(self).contacts() == old(self).contacts()
                        &&& final(self).transcript() == with_line(old(self).transcript(), from, (from, text@))
                        &&& final(base).topology() == old(base).topology()
                        &&& final(base).sessions() == old(base).sessions()
                        &&& r@.len() == 1
                        &&& r@[0] matches ClientAction::Event(ClientEvent::ReceivedChatText(f, to, t)) && f == from
                            && to == me && t@ == text@
                    },
                    ContentType::ChatResponse(ChatResponse::ClientNotFound(node)) => {
                        &&& final(self).contacts() == if old(self).contacts().contains_key(node) {
                            old(self).contacts().insert(node, without_value(old(self).contacts()[node], src))
                        } else {
                            old(self).contacts()
                        }
                        &&& final(self).transcript() == old(self).transcript()
                        &&& final(base).topology() == old(base).topology()
                        &&& final(base).sessions() == old(base).sessions()
                        &&& r@.len() == 0
                    },
                    ContentType::TypeExchange(TypeExchange::TypeRequest { from }) => {
                        &&& final(self).contacts() == old(self).contacts()
                        &&& final(self).transcript() == old(self).transcript()
                        &&& final(base).topology() == old(base).topology()
                        &&& final(base).sessions().drop_last() == old(base).sessions()
                        &&& final(base).sessions().len() == old(base).sessions().len() + 1
                        &&& window.0 <= final(base).sessions().last() < window.1
                        &&& r@.len() == 1
                        &&& sends(r@[0], me, final(base).sessions().last(), from)
                        &&& content_of(r@[0]) == ContentType::TypeExchange(TypeExchange::TypeResponse {
                            edge_type: EdgeType::Client(ClientType::ChatClient),
                            from: me,
                        })
                    },
                    ContentType::TypeExchange(TypeExchange::TypeResponse { edge_type, from }) => {
                        let chat = edge_type == EdgeType::Server(ServerType::Chat);
                        &&& final(self).contacts() == old(self).contacts()
                        &&& final(self).transcript() == old(self).transcript()
                        &&& state_updated(old(base).topology(), final(base).topology(), from, if chat { 1u8 } else { 2u8 })
                        &&& final(base).sessions() == old(base).sessions()
                        &&& r@ == if chat {
                            seq![ClientAction::Event(ClientEvent::SendDestinations(me, from))]
                        } else {
                            Seq::<ClientAction>::empty()
                        }
                    },
                    ContentType::EdgeNack(_) => {
                        &&& final(self).contacts() == old(self).contacts()
                        &&& final(self).transcript() == old(self).transcript()
                        &&& state_updated(old(base).topology(), final(base).topology(), src, 2u8)
                        &&& final(base).sessions() == old(base).sessions()
                        &&& r@.len() == 0
                    },
                    _ => {
                        &&& final(self).contacts() == old(self).contacts()
                        &&& final(self).transcript() == old(self).transcript()
                        &&& final(base).topology() == old(base).topology()
                        &&& final(base).sessions().drop_last() == old(base).sessions()
                        &&& final(base).sessions().len() == old(base).sessions().len() + 1
                        &&& window.0 <= final(base).sessions().last() < window.1
                        &&& r@.len() == 1
                        &&& sends(r@[0], me, final(base).sessions().last(), src)
                        &&& content_of(r@[0]) == ContentType::EdgeNack(EdgeNackType::UnexpectedMessage)
                    },
                }
            }),
    {
        let src = message.source_id;
        let me = base.get_src_id();
        let mut out: Vec<ClientAction> = Vec::new();
        match message.content {
            ContentType::ChatResponse(ChatResponse::ClientList(list)) => {
                let fresh = self.add_contacts(&list, src);
                let mut k: usize = 0;
                while k < fresh.len()
                    invariant
                        0 <= k <= fresh@.len(),
                        out@.len() == k,
                        forall|j: int| 0 <= j < k ==> #[trigger] out@[j] == ClientAction::Event(
                            ClientEvent::SendContactsToSC(me, fresh@[j]),
                        ),
                    decreases fresh@.len() - k,
                {
                    out.push(ClientAction::Event(ClientEvent::SendContactsToSC(me, fresh[k])));
                    k = k + 1;
                }
            },
            ContentType::ChatResponse(ChatResponse::MessageFrom { from, message: text }) => {
                let copy = text.clone();
                out.push(ClientAction::Event(ClientEvent::ReceivedChatText(from, me, copy)));
                self.add_line(from, from, text);
            },
            ContentType::ChatResponse(ChatResponse::ClientNotFound(node)) => {
                let ghost before = self.contacts();
                match self.contact_list.remove(&node) {
                    Some(v) => {
                        let kept = remove_value(&v, src);
                        let ghost kv = kept@;
                        self.contact_list.insert(node, kept);
                        assert(self.contacts() =~= before.insert(node, without_value(before[node], src)));
                    },
                    None => {
                        assert(self.contacts() =~= before);
                    },
                }
            },
            ContentType::TypeExchange(TypeExchange::TypeRequest { from }) => {
                let resp = TypeExchange::TypeResponse { edge_type: EdgeType::Client(ClientType::ChatClient), from: me };
                let session = base.get_session_id();
                out.push(ClientAction::Send(Message::new(me, session, ContentType::TypeExchange(resp)), from));
            },
            ContentType::TypeExchange(TypeExchange::TypeResponse { edge_type, from }) => {
                match edge_type {
                    EdgeType::Server(ServerType::Chat) => {
                        base.update_state(from, 1);
                        out.push(ClientAction::Event(ClientEvent::SendDestinations(me, from)));
                        assert(out@ =~= seq![ClientAction::Event(ClientEvent::SendDestinations(me, from))]);
                    },
                    _ => {
                        base.update_state(from, 2);
                        assert(out@ =~= Seq::<ClientAction>::empty());
                    },
                }
            },
            ContentType::EdgeNack(_) => {
                base.update_state(src, 2);
            },
            _ => {
                let session = base.get_session_id();
                out.push(ClientAction::Send(create_nack(me, session, EdgeNackType::UnexpectedMessage), src));
            },
        }
        out
    }
}

impl ChatClient {
    /// The servers of `servers` this client is registered with, in order.
    fn registered_among(&self, servers: &Vec<u8>) -> (r: Vec<u8>)
        ensures
            r@ == only_registered(servers@, self.registered()),
    {
        let mut out: Vec<u8> = Vec::new();
        let mut i: usize = 0;
        while i < servers.len()
            invariant
                0 <= i <= servers@.len(),
                out@ == only_registered(servers@.take(i as int), self.registered()),
            decreases servers@.len() - i,
        {
            assert(servers@.take(i + 1).drop_last() =~= servers@.take(i as int));
            if contains_value(&self.registered_to, servers[i]) {
                out.push(servers[i]);
            }
            i = i + 1;
        }
        assert(servers@.take(i as int) =~= servers@);
        out
    }

    /// Sends `text` to contact `to` through the best server, among those it
    /// can be reached through, that this client is registered with; the
    /// line is added to the conversation. A client that is not a contact is
    /// reported missing; with no reachable server nothing happens.
    pub fn send_chat_text(&mut self, base: &mut ClientStruct, to: u8, text: String) -> (r: Vec<ClientAction>)
        requires
            old(base).wf(),
            old(base).has_ids(),
            old(base).id() == old(self).node(),
        ensures
            final(self).node() == old(self).node(),
            final(self).contacts() == old(self).contacts(),
            final(self).registered() == old(self).registered(),
            final(base).wf(),
            final(base).id() == old(base).id(),
            final(base).topology() == old(base).topology(),
            final(base).pending() == old(base).pending(),
            final(base).unsent() == old(base).unsent(),
            final(base).floods() == old(base).floods(),
            ({
                let me = old(base).id();
                let net = old(base).topology();
                if !old(self).contacts().contains_key(to) {
                    &&& r@ == seq![ClientAction::Event(ClientEvent::MissingContacts(me, to))]
                    &&& final(self).transcript() == old(self).transcript()
                    &&& final(base).sessions() == old(base).sessions()
                } else {
                    let avail = only_registered(old(self).contacts()[to], old(self).registered());
                    if forall|k: int| 0 <= k < avail.len() ==> !#[trigger] net.reachable(me, avail[k]) {
                        &&& r@.len() == 0
                        &&& final(self).transcript() == old(self).transcript()
                        &&& final(base).sessions() == old(base).sessions()
                    } else {
                        &&& r@.len() == 1
                        &&& final(base).sessions().drop_last() == old(base).sessions()
                        &&& final(base).sessions().len() == old(base).sessions().len() + 1
                        &&& r@[0] matches ClientAction::Send(m, server) && net.optimal_choice(me, avail, server)
                            && m.source_id == me && m.session_id == final(base).sessions().last()
                            && (m.content matches ContentType::ChatRequest(ChatRequest::SendMessage { from, to: t, message: x })
                            && from == me && t == to && x@ == text@)
                        &&& final(self).transcript() == with_line(old(self).transcript(), to, (me, text@))
                    }
                }
            }),
    {
        let me = base.get_src_id();
        let servers = match self.servers_for(to) {
            Some(v) => v,
            None => {
                let mut out: Vec<ClientAction> = Vec::new();
                out.push(ClientAction::Event(ClientEvent::MissingContacts(me, to)));
                assert(out@ =~= seq![ClientAction::Event(ClientEvent::MissingContacts(me, to))]);
                return out;
            },
        };
        let available = self.registered_among(&servers);
        let mut out: Vec<ClientAction> = Vec::new();
        match base.network().get_optimal_dest(me, &available) {
            Some(server) => {
                let session = base.get_session_id();
                let copy = text.clone();
                self.add_line(to, me, copy);
                let content = ContentType::ChatRequest(ChatRequest::SendMessage { from: me, to, message: text });
                out.push(ClientAction::Send(Message::new(me, session, content), server));
            },
            None => {},
        }
        out
    }

    /// Asks chat server `server` for its list of clients.
    pub fn get_list(&self, base: &mut ClientStruct, server: u8) -> (r: ClientAction)
        requires
            old(base).wf(),
            old(base).has_ids(),
        ensures
            final(base).wf(),
            final(base).id() == old(base).id(),
            final(base).topology() == old(base).topology(),
            final(base).pending() == old(base).pending(),
            final(base).unsent() == old(base).unsent(),
            final(base).sessions().drop_last() == old(base).sessions(),
            final(base).sessions().len() == old(base).sessions().len() + 1,
            sends(r, old(base).id(), final(base).sessions().last(), server),
            content_of(r) == ContentType::ChatRequest(ChatRequest::ClientList),
    {
        let session = base.get_session_id();
        ClientAction::Send(Message::new(base.get_src_id(), session, ContentType::ChatRequest(ChatRequest::ClientList)), server)
    }

    /// Asks chat server `server` to register this client.
    pub fn register(&self, base: &mut ClientStruct, server: u8) -> (r: ClientAction)
        requires
            old(base).wf(),
            old(base).has_ids(),
        ensures
            final(base).wf(),
            final(base).id() == old(base).id(),
            final(base).topology() == old(base).topology(),
            final(base).pending() == old(base).pending(),
            final(base).unsent() == old(base).unsent(),
            final(base).sessions().drop_last() == old(base).sessions(),
            final(base).sessions().len() == old(base).sessions().len() + 1,
            sends(r, old(base).id(), final(base).sessions().last(), server),
            content_of(r) == ContentType::ChatRequest(ChatRequest::Register(old(base).id())),
    {
        let session = base.get_session_id();
        let me = base.get_src_id();
        ClientAction::Send(Message::new(me, session, ContentType::ChatRequest(ChatRequest::Register(me))), server)
    }

    /// Every fragment of a message this client sent has been acked. When it
    /// was a registration, the server (the ack's first hop) now counts as
    /// registered with, which is reported.
    pub fn message_delivered(&mut self, content: Option<ContentType>, server: u8) -> (r: Option<ClientAction>)
        ensures
            final(self).node() == old(self).node(),
            final(self).contacts() == old(self).contacts(),
            final(self).transcript() == old(self).transcript(),
            content matches Some(ContentType::ChatRequest(ChatRequest::Register(_))) ==> {
                &&& final(self).registered() == old(self).registered().insert(server)
                &&& r == Some(ClientAction::Event(ClientEvent::RegisterSuccessfully(old(self).node(), server)))
            },
            !(content matches Some(ContentType::ChatRequest(ChatRequest::Register(_)))) ==> {
                &&& final(self).registered() == old(self).registered()
                &&& r is None
            },
    {
        match content {
            Some(ContentType::ChatRequest(ChatRequest::Register(_))) => {
                let ghost before = self.registered_to@;
                if !contains_value(&self.registered_to, server) {
                    self.registered_to.push(server);
                    proof {
                        crate::counting::lemma_push_to_set(before, server);
                    }
                } else {
                    assert(before.to_set().insert(server) =~= before.to_set());
                }
                Some(ClientAction::Event(ClientEvent::RegisterSuccessfully(self.node_id, server)))
            },
            _ => None,
        }
    }
}

/// Every client a server lists becomes a contact reachable through that
/// server, and every contact stays one.
pub proof fn lemma_listed_become_contacts(m: Map<u8, Seq<u8>>, list: Seq<u8>, source: u8)
    ensures
        forall|x: u8| list.contains(x) ==> #[trigger] add_contacts(m, list, source).0.contains_key(x) && add_contacts(
            m,
            list,
            source,
        ).0[x].contains(source),
        forall|x: u8| m.contains_key(x) ==> #[trigger] add_contacts(m, list, source).0.contains_key(x),
    decreases list.len(),
{
    if list.len() > 0 {
        let rest = list.drop_last();
        lemma_listed_become_contacts(m, rest, source);
        let m1 = add_contacts(m, rest, source).0;
        let i = list.last();
        let v = if m1.contains_key(i) { m1[i].push(source) } else { seq![source] };
        assert(v[v.len() - 1] == source);
        assert forall|x: u8| list.contains(x) implies #[trigger] add_contacts(m, list, source).0.contains_key(x) && add_contacts(
            m,
            list,
            source,
        ).0[x].contains(source) by {
            if x != i {
                let k = choose|k: int| 0 <= k < list.len() && list[k] == x;
                assert(rest[k] == x);
                assert(rest.contains(x));
            }
        }
    }
}

} // verus!
