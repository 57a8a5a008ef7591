//! A chat (communication) server: clients register with it, learn from it
//! who else is registered, and send each other messages through it.
use vstd::prelude::*;

use crate::counting::lemma_push_to_set;
use crate::kinds::{ClientType, EdgeType, ServerType};
use crate::message::{create_nack, ChatRequest, ChatResponse, ContentType, EdgeNackType, Message, TypeExchange};
use crate::routing::state_updated;
use crate::server::{contains_value, is_send, remove_value, sent_content, server_kept, ServerAction, ServerEvent, ServerStruct};

verus! {

/// A list of client ids that holds exactly the registered clients other
/// than `dst`, each once.
pub open spec fn client_list_for(l: Seq<u8>, registered: Seq<u8>, dst: u8) -> bool {
    &&& l.no_duplicates()
    &&& forall|x: u8| #[trigger] l.contains(x) == (registered.contains(x) && x != dst)
}

pub struct ChatServer {
    node_id: u8,
    registered_clients: Vec<u8>,
}

impl ChatServer {
    pub closed spec fn node(&self) -> u8 {
        self.node_id
    }

    /// The registered clients, in the order they registered.
    pub closed spec fn registered(&self) -> Seq<u8> {
        self.registered_clients@
    }

    pub closed spec fn wf(&self) -> bool {
        self.registered_clients@.no_duplicates()
    }

    pub fn new(node_id: u8) -> (r: Self)
        ensures
            r.wf(),
            r.node() == node_id,
            r.registered() == Seq::<u8>::empty(),
    {
        ChatServer { node_id, registered_clients: Vec::new() }
    }

    /// How many clients are registered.
    pub fn registered_count(&self) -> (r: usize)
        ensures
            r == self.registered().len(),
    {
        self.registered_clients.len()
    }

    /// The list of clients sent to `destination`: every registered client
    /// but `destination` itself.
    pub fn client_list(&self, destination: u8) -> (r: Vec<u8>)
        requires
            self.wf(),
        ensures
            client_list_for(r@, self.registered(), destination),
    {
        remove_value(&self.registered_clients, destination)
    }

    /// Registers a client; true when it was not registered yet.
    pub fn register(&mut self, client: u8) -> (r: bool)
        requires
            old(self).wf(),
        ensures
            final(self).wf(),
            final(self).node() == old(self).node(),
            r == !old(self).registered().contains(client),
            final(self).registered() == if r {
                old(self).registered().push(client)
            } else {
                old(self).registered()
            },
    {
        if contains_value(&self.registered_clients, client) {
            false
        } else {
            self.registered_clients.push(client);
            true
        }
    }

    /// Handles a whole message that reached this chat server, and says what
    /// to send and report:
    /// - a request for the client list is answered with every registered
    ///   client but the requester;
    /// - a registration registers the client (reported as new or as
    ///   already done) and sends every registered client its list;
    /// - a chat message goes on to its addressee when registered, otherwise
    ///   the sender is told the addressee was not found;
    /// - a type request is answered with this server's kind; a type response
    ///   makes a chat client reachable and any other node unreachable;
    /// - an edge nack makes its sender unreachable and the message it refused
    ///   is reported as discarded;
    /// - anything else is refused with an edge nack.
    pub fn handle_message(&mut self, server: &mut ServerStruct, message: Message) -> (r: Vec<ServerAction>)
        requires
            old(self).wf(),
            old(server).wf(),
            old(server).id() == old(self).node(),
            old(server).next_session() + old(self).registered().len() + 2 < u64::MAX,
        ensures
            final(self).wf(),
            final(self).node() == old(self).node(),
            server_kept(*old(server), *final(server)),
            ({
                let me = old(server).id();
                let src = message.source_id;
                let s0 = old(server).next_session() as int;
                match message.content {
                    ContentType::ChatRequest(ChatRequest::ClientList) => {
                        &&& final(self).registered() == old(self).registered()
                        &&& final(server).topology() == old(server).topology()
                        &&& final(server).next_session() == s0 + 1
                        &&& r@.len() == 1
                        &&& is_send(r@[0], me, s0, src)
                        &&& sent_content(r@[0]) matches ContentType::ChatResponse(ChatResponse::ClientList(l))
                            && client_list_for(l@, old(self).registered(), src)
                    },
                    ContentType::ChatRequest(ChatRequest::Register(c)) => {
                        let new_one = !old(self).registered().contains(c);
                        let reg = final(self).registered();
                        &&& reg == if new_one { old(self).registered().push(c) } else { old(self).registered() }
                        &&& final(server).topology() == old(server).topology()
                        &&& final(server).next_session() == s0 + reg.len()
                        &&& r@.len() == 1 + reg.len()
                        &&& r@[0] == if new_one {
                            ServerAction::Event(ServerEvent::ClientRegistered(me, c))
                        } else {
                            ServerAction::Event(ServerEvent::ClientAlreadyRegistered(me, c))
                        }
                        &&& forall|k: int| 0 <= k < reg.len() ==> is_send(#[trigger] r@[1 + k], me, s0 + k, reg[k])
                            && (sent_content(r@[1 + k]) matches ContentType::ChatResponse(ChatResponse::ClientList(l))
                            && client_list_for(l@, reg, reg[k]))
                    },
                    ContentType::ChatRequest(ChatRequest::SendMessage { from, to, message: text }) => {
                        &&& final(self).registered() == old(self).registered()
                        &&& final(server).topology() == old(server).topology()
                        &&& final(server).next_session() == s0 + 1
                        &&& r@.len() == 1
                        &&& old(self).registered().contains(to) ==> is_send(r@[0], me, s0, to) && (sent_content(r@[0])
                            matches ContentType::ChatResponse(ChatResponse::MessageFrom { from: f, message: t })
                            && f == from && t == text)
                        &&& !old(self).registered().contains(to) ==> is_send(r@[0], me, s0, from) && sent_content(r@[0])
                            == ContentType::ChatResponse(ChatResponse::ClientNotFound(to))
                    },
                    ContentType::TypeExchange(TypeExchange::TypeRequest { from }) => {
                        &&& final(self).registered() == old(self).registered()
                        &&& final(server).topology() == old(server).topology()
                        &&& final(server).next_session() == s0 + 1
                        &&& r@.len() == 1
                        &&& is_send(r@[0], me, s0, from)
                        &&& sent_content(r@[0]) == ContentType::TypeExchange(TypeExchange::TypeResponse {
                            edge_type: EdgeType::Server(ServerType::Chat),
                            from: me,
                        })
                    },
                    ContentType::TypeExchange(TypeExchange::TypeResponse { edge_type, from }) => {
                        &&& final(self).registered() == old(self).registered()
                        &&& state_updated(
                            old(server).topology(),
                            final(server).topology(),
                            from,
                            if edge_type == EdgeType::Client(ClientType::ChatClient) { 1u8 } else { 2u8 },
                        )
                        &&& final(server).next_session() == s0
                        &&& r@.len() == 0
                    },
                    ContentType::EdgeNack(_) => {
                        &&& final(self).registered() == old(self).registered()
                        &&& state_updated(old(server).topology(), final(server).topology(), src, 2u8)
                        &&& final(server).next_session() == s0
                        &&& r@ == seq![ServerAction::Event(ServerEvent::DiscardedMessage(me, message.session_id))]
                    },
                    _ => {
                        &&& final(self).registered() == old(self).registered()
                        &&& final(server).topology() == old(server).topology()
                        &&& final(server).next_session() == s0 + 1
                        &&& r@.len() == 1
                        &&& is_send(r@[0], me, s0, src)
                        &&& sent_content(r@[0]) == ContentType::EdgeNack(EdgeNackType::UnexpectedMessage)
                    },
                }
            }),
    {
        let src = message.source_id;
        let me = server.get_src_id();
        let mut out: Vec<ServerAction> = Vec::new();
        match message.content {
            ContentType::ChatRequest(ChatRequest::ClientList) => {
                let l = self.client_list(src);
                let session = server.get_session_id();
                out.push(ServerAction::Send(Message::new(me, session, ContentType::ChatResponse(ChatResponse::ClientList(l))), src));
            },
            ContentType::ChatRequest(ChatRequest::Register(c)) => {
                let fresh = self.register(c);
                if fresh {
                    out.push(ServerAction::Event(ServerEvent::ClientRegistered(me, c)));
                } else {
                    out.push(ServerAction::Event(ServerEvent::ClientAlreadyRegistered(me, c)));
                }
                let ghost s0 = server.next_session() as int;
                let ghost first = out@[0];
                let mut k: usize = 0;
                while k < self.registered_clients.len()
                    invariant
                        0 <= k <= self.registered_clients@.len(),
                        self.wf(),
                        self.node_id == me,
                        server.wf(),
                        server.id() == me,
                        server_kept(*old(server), *server),
                        server.topology() == old(server).topology(),
                        server.next_session() == s0 + k,
                        s0 == old(server).next_session(),
                        s0 + self.registered_clients@.len() + 1 < u64::MAX,
                        out@.len() == 1 + k,
                        out@[0] == first,
                        forall|j: int| 0 <= j < k ==> is_send(#[trigger] out@[1 + j], me, s0 + j, self.registered_clients@[j])
                            && (sent_content(out@[1 + j]) matches ContentType::ChatResponse(ChatResponse::ClientList(l))
                            && client_list_for(l@, self.registered_clients@, self.registered_clients@[j])),
                    decreases self.registered_clients@.len() - k,
                {
                    let id = self.registered_clients[k];
                    let l = self.client_list(id);
                    let session = server.get_session_id();
                    out.push(ServerAction::Send(Message::new(me, session, ContentType::ChatResponse(ChatResponse::ClientList(l))), id));
                    k = k + 1;
                }
            },
            ContentType::ChatRequest(ChatRequest::SendMessage { from, to, message: text }) => {
                let session = server.get_session_id();
                if contains_value(&self.registered_clients, to) {
                    let resp = ChatResponse::MessageFrom { from, message: text };
                    out.push(ServerAction::Send(Message::new(me, session, ContentType::ChatResponse(resp)), to));
                } else {
                    let resp = ChatResponse::ClientNotFound(to);
                    out.push(ServerAction::Send(Message::new(me, session, ContentType::ChatResponse(resp)), from));
                }
            },
            ContentType::TypeExchange(TypeExchange::TypeRequest { from }) => {
                let resp = TypeExchange::TypeResponse { edge_type: EdgeType::Server(ServerType::Chat), from: me };
                let session = server.get_session_id();
                out.push(ServerAction::Send(Message::new(me, session, ContentType::TypeExchange(resp)), from));
            },
            ContentType::TypeExchange(TypeExchange::TypeResponse { edge_type, from }) => {
                match edge_type {
                    EdgeType::Client(ClientType::ChatClient) => {
                        server.update_node_state(from, 1);
                    },
                    _ => {
                        server.update_node_state(from, 2);
                    },
                }
            },
            ContentType::EdgeNack(_) => {
                server.update_node_state(src, 2);
                out.push(ServerAction::Event(ServerEvent::DiscardedMessage(me, message.session_id)));
                assert(out@ =~= seq![ServerAction::Event(ServerEvent::DiscardedMessage(me, message.session_id))]);
            },
            _ => {
                let session = server.get_session_id();
                let msg = create_nack(me, session, EdgeNackType::UnexpectedMessage);
                out.push(ServerAction::Send(msg, src));
            },
        }
        out
    }
}

/// A client never finds itself in the client list it is sent.
pub proof fn lemma_not_listed_to_itself(l: Seq<u8>, registered: Seq<u8>, dst: u8)
    requires
        client_list_for(l, registered, dst),
    ensures
        !l.contains(dst),
{
}

} // verus!
