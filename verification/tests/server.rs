use skylink_network::chat_server::ChatServer;
use skylink_network::edge::{ack_packet, flood_response_packet, forward_step, ForwardStep};
use skylink_network::fragmentation::fragment_message;
use skylink_network::kinds::{ClientType, ContentServerType, EdgeType, NodeType, ServerType};
use skylink_network::message::{
    create_nack, may_send, ChatRequest, ChatResponse, ContentType, EdgeNackType, MediaRequest, MediaResponse,
    Message, TextRequest, TextResponse, TypeExchange,
};
use skylink_network::packet::{FloodRequest, FloodResponse, Fragment, Nack, NackType, Packet, PacketType, SourceRoutingHeader};
use skylink_network::server::{FloodDecision, FragmentRoute, NackLookup, ServerAction, ServerEvent, ServerStruct};
use skylink_network::text_server::TextServer;

fn frag(i: u64, n: u64) -> Fragment {
    Fragment { fragment_index: i, total_n_fragments: n, length: 1, data: [i as u8; 128] }
}

fn packet(hops: Vec<u8>, hop_index: usize, session_id: u64, pack_type: PacketType) -> Packet {
    Packet { pack_type, routing_header: SourceRoutingHeader { hop_index, hops }, session_id }
}

fn connected_server() -> ServerStruct {
    let mut s = ServerStruct::new(5, vec![10, 11]);
    let resp = FloodResponse {
        flood_id: 0,
        path_trace: vec![(5, NodeType::Server), (10, NodeType::Drone), (1, NodeType::Client)],
    };
    assert!(s.save_flood_response(resp));
    s.update_node_state(1, 1);
    s
}

#[test]
fn flood_request_forwarded_then_answered() {
    let mut s = ServerStruct::new(5, vec![10, 11, 12]);
    let fr = FloodRequest { flood_id: 7, initiator_id: 1, path_trace: vec![(1, NodeType::Client), (10, NodeType::Drone), (5, NodeType::Server)] };
    match s.handle_flood_request(fr.clone(), 3) {
        FloodDecision::Forward(p, mut targets) => {
            targets.sort();
            assert_eq!(targets, vec![11, 12]);
            assert_eq!(p.session_id, 3);
            assert!(p.routing_header.hops.is_empty());
        },
        FloodDecision::Respond => panic!("a new flood should go on"),
    }
    assert!(matches!(s.handle_flood_request(fr, 3), FloodDecision::Respond));
}

#[test]
fn flood_request_with_single_neighbour_is_answered() {
    let mut s = ServerStruct::new(5, vec![10]);
    let fr = FloodRequest { flood_id: 1, initiator_id: 1, path_trace: vec![(1, NodeType::Client), (5, NodeType::Server)] };
    assert!(matches!(s.handle_flood_request(fr, 0), FloodDecision::Respond));
}

#[test]
fn flood_response_route() {
    let fr = FloodRequest { flood_id: 9, initiator_id: 1, path_trace: vec![(1, NodeType::Client), (10, NodeType::Drone), (5, NodeType::Server)] };
    let p = flood_response_packet(fr);
    assert_eq!(p.routing_header.hops, vec![5, 10, 1]);
    assert_eq!(p.routing_header.hop_index, 0);
    assert_eq!(p.session_id, 9);
    let fr2 = FloodRequest { flood_id: 2, initiator_id: 1, path_trace: vec![(10, NodeType::Drone), (5, NodeType::Server)] };
    assert_eq!(flood_response_packet(fr2).routing_header.hops, vec![5, 10, 1]);
}

#[test]
fn ids_count_up() {
    let mut s = ServerStruct::new(5, vec![10]);
    assert_eq!(s.get_session_id(), 0);
    assert_eq!(s.get_session_id(), 1);
    assert_eq!(s.get_flood_id(), 0);
    assert_eq!(s.get_flood_id(), 1);
}

#[test]
fn incoming_fragments_complete_a_message() {
    let mut s = ServerStruct::new(5, vec![10]);
    let p = packet(vec![1, 10, 5], 2, 4, PacketType::MsgFragment(frag(1, 2)));
    s.handle_fragment(frag(1, 2), &p);
    assert!(s.take_if_complete(4, 1, 2).is_none());
    s.handle_fragment(frag(0, 2), &p);
    let frags = s.take_if_complete(4, 1, 2).unwrap();
    assert_eq!(frags.len(), 2);
    assert!(s.take_if_complete(4, 1, 2).is_none());
}

#[test]
fn acks_empty_the_message() {
    let mut s = ServerStruct::new(5, vec![10]);
    s.store_fragments(8, 5, 1, vec![frag(0, 2), frag(1, 2)]);
    assert!(matches!(s.fragment_for_nack(8, 1), NackLookup::Resend(f, 1) if f.fragment_index == 1));
    assert!(matches!(s.fragment_for_nack(8, 2), NackLookup::LostFragment));
    assert!(s.acknowledge(8, 0));
    assert!(s.acknowledge(8, 1));
    assert!(!s.acknowledge(8, 1));
    assert!(matches!(s.fragment_for_nack(8, 0), NackLookup::LostMessage));
}

#[test]
fn unsent_fragments_wait_and_come_back() {
    let mut s = ServerStruct::new(5, vec![10]);
    assert!(!s.check_to_resend_fragments());
    s.add_unsent_fragment(frag(0, 2), 3, 1);
    s.add_unsent_fragment(frag(1, 2), 3, 1);
    s.add_unsent_fragment(frag(0, 1), 4, 2);
    assert!(s.check_to_resend_fragments());
    let todo = s.get_fragment_to_process();
    let keys: Vec<(u64, (u64, u8, u8))> = todo.iter().map(|(f, k)| (f.fragment_index, *k)).collect();
    assert_eq!(keys, vec![(0, (3, 5, 1)), (1, (3, 5, 1)), (0, (4, 5, 2))]);
    s.reset_unsent_fragments();
    assert!(!s.check_to_resend_fragments());
}

#[test]
fn routing_without_a_route_starts_a_flood() {
    let mut s = ServerStruct::new(5, vec![10]);
    match s.route_fragment(frag(0, 1), 1, 0) {
        FragmentRoute::NoRoute(Some(p)) => {
            assert!(matches!(p.pack_type, PacketType::FloodRequest(ref f) if f.initiator_id == 5 && f.path_trace == vec![(5, NodeType::Server)]));
        },
        _ => panic!("expected a flood"),
    }
    assert!(!s.can_flood());
    assert!(matches!(s.route_fragment(frag(0, 1), 1, 0), FragmentRoute::NoRoute(None)));
    assert_eq!(s.get_fragment_to_process().len(), 2);
}

#[test]
fn routing_along_a_known_route() {
    let mut s = connected_server();
    match s.route_fragment(frag(0, 1), 1, 6) {
        FragmentRoute::Send(p, hop) => {
            assert_eq!(hop, 10);
            assert_eq!(p.routing_header.hops, vec![5, 10, 1]);
            assert_eq!(p.session_id, 6);
        },
        _ => panic!("expected a route"),
    }
}

#[test]
fn message_needs_reachable_destination() {
    let mut s = ServerStruct::new(5, vec![10]);
    let content = ContentType::TextRequest(TextRequest::TextList);
    assert!(!may_send(&content, None));
    assert!(may_send(&ContentType::EdgeNack(EdgeNackType::UnexpectedMessage), None));
    let bytes = vec![1u8; 300];
    assert!(s.start_message(&content, 2, &bytes, 1).is_none());
    assert_eq!(s.get_fragment_to_process().len(), 3);
    let mut s = connected_server();
    let frags = s.start_message(&content, 2, &bytes, 1).unwrap();
    assert_eq!(frags.len(), 3);
    assert_eq!(fragment_message(&bytes).len(), frags.len());
}

#[test]
fn nack_handling() {
    let mut s = connected_server();
    let p = packet(vec![10, 5], 1, 0, PacketType::Nack(Nack { fragment_index: 0, nack_type: NackType::ErrorInRouting(1) }));
    assert!(s.handle_nack(Nack { fragment_index: 0, nack_type: NackType::ErrorInRouting(1) }, &p));
    assert_eq!(s.get_node_state(1), None);
    let mut s = connected_server();
    s.store_fragments(3, 5, 10, vec![frag(0, 1)]);
    let p = packet(vec![5, 10], 1, 3, PacketType::Nack(Nack { fragment_index: 0, nack_type: NackType::DestinationIsDrone }));
    assert!(!s.handle_nack(Nack { fragment_index: 0, nack_type: NackType::DestinationIsDrone }, &p));
    assert!(matches!(s.fragment_for_nack(3, 0), NackLookup::LostMessage));
}

#[test]
fn type_checks_are_asked_once() {
    let mut s = ServerStruct::new(5, vec![10]);
    assert!(s.can_type_check(1));
    assert!(!s.can_type_check(1));
    s.type_checked(1);
    assert!(s.can_type_check(1));
}

#[test]
fn ack_goes_back_along_the_route() {
    let p = packet(vec![1, 10, 5], 2, 4, PacketType::MsgFragment(frag(0, 1)));
    let (ack, next) = ack_packet(&p, 0);
    assert_eq!(next, 10);
    assert_eq!(ack.routing_header.hops, vec![5, 10, 1]);
    assert_eq!(ack.routing_header.hop_index, 1);
}

#[test]
fn forwarding_moves_one_hop() {
    let p = packet(vec![1, 5, 10, 2], 1, 0, PacketType::MsgFragment(frag(0, 1)));
    match forward_step(p) {
        ForwardStep::Forward(q, next) => {
            assert_eq!(next, 10);
            assert_eq!(q.routing_header.hop_index, 2);
        },
        _ => panic!("expected a next hop"),
    }
    let p = packet(vec![1, 5], 1, 0, PacketType::MsgFragment(frag(0, 1)));
    assert!(matches!(forward_step(p), ForwardStep::NoNextHop(_)));
}

#[test]
fn text_server_answers_requests() {
    let mut core = ServerStruct::new(3, vec![10]);
    let mut text = TextServer::new(3, vec![("f/doc.txt".to_string(), "media/pic.jpg\n".to_string())]);
    let id = 3u64 << 56;
    let out = text.handle_message(&mut core, Message::new(1, 0, ContentType::TextRequest(TextRequest::TextList)));
    assert!(matches!(&out[0], ServerAction::Send(m, 1) if matches!(&m.content, ContentType::TextResponse(TextResponse::TextList(l)) if l == &vec![(id, "doc".to_string())])));
    let out = text.handle_message(&mut core, Message::new(1, 1, ContentType::TextRequest(TextRequest::TextFile(id))));
    assert!(matches!(&out[0], ServerAction::Send(m, 1) if matches!(m.content, ContentType::TextResponse(TextResponse::Incomplete(x)) if x == id)));
    assert!(matches!(&out[1], ServerAction::Event(ServerEvent::IncompleteFile(3, x)) if *x == id));
    let out = text.handle_message(&mut core, Message::new(1, 2, ContentType::TextRequest(TextRequest::TextFile(42))));
    assert!(matches!(&out[1], ServerAction::Event(ServerEvent::FileNotFound(3, 42))));
    // A media server answers its type, then lists the media.
    let out = text.handle_message(
        &mut core,
        Message::new(9, 0, ContentType::TypeExchange(TypeExchange::TypeResponse {
            edge_type: EdgeType::Server(ServerType::Content(ContentServerType::Media)),
            from: 9,
        })),
    );
    assert!(matches!(&out[0], ServerAction::Send(m, 9) if matches!(m.content, ContentType::MediaRequest(MediaRequest::MediaList))));
    let out = text.handle_message(&mut core, Message::new(9, 1, ContentType::MediaResponse(MediaResponse::MediaList(vec![(77, "pic".to_string())]))));
    assert!(matches!(&out[0], ServerAction::Event(ServerEvent::FilesState(3, done, missing)) if done.len() == 1 && missing.is_empty()));
    let out = text.handle_message(&mut core, Message::new(1, 3, ContentType::TextRequest(TextRequest::TextFile(id))));
    assert!(matches!(&out[0], ServerAction::Send(m, 1) if matches!(&m.content, ContentType::TextResponse(TextResponse::MediaReferences(r)) if r == &vec![(77, ("pic".to_string(), vec![9u8]))])));
}

#[test]
fn text_server_refuses_chat() {
    let mut core = ServerStruct::new(3, vec![10]);
    let mut text = TextServer::new(3, vec![]);
    let out = text.handle_message(&mut core, Message::new(1, 0, ContentType::ChatRequest(ChatRequest::ClientList)));
    assert!(matches!(&out[0], ServerAction::Send(m, 1) if matches!(m.content, ContentType::EdgeNack(EdgeNackType::UnexpectedMessage))));
    let nack = create_nack(3, 7, EdgeNackType::UnexpectedMessage);
    assert_eq!(nack.session_id, 7);
}

#[test]
fn chat_server_registration_and_forwarding() {
    let mut core = ServerStruct::new(4, vec![10]);
    let mut chat = ChatServer::new(4);
    let out = chat.handle_message(&mut core, Message::new(1, 0, ContentType::ChatRequest(ChatRequest::Register(1))));
    assert!(matches!(&out[0], ServerAction::Event(ServerEvent::ClientRegistered(4, 1))));
    assert_eq!(out.len(), 2);
    let out = chat.handle_message(&mut core, Message::new(2, 0, ContentType::ChatRequest(ChatRequest::Register(2))));
    assert_eq!(out.len(), 3);
    assert!(matches!(&out[1], ServerAction::Send(m, 1) if matches!(&m.content, ContentType::ChatResponse(ChatResponse::ClientList(l)) if l == &vec![2u8])));
    let out = chat.handle_message(&mut core, Message::new(2, 0, ContentType::ChatRequest(ChatRequest::Register(2))));
    assert!(matches!(&out[0], ServerAction::Event(ServerEvent::ClientAlreadyRegistered(4, 2))));
    let out = chat.handle_message(
        &mut core,
        Message::new(1, 5, ContentType::ChatRequest(ChatRequest::SendMessage { from: 1, to: 2, message: "hi".to_string() })),
    );
    assert!(matches!(&out[0], ServerAction::Send(m, 2) if matches!(&m.content, ContentType::ChatResponse(ChatResponse::MessageFrom { from: 1, message }) if message == "hi")));
    let out = chat.handle_message(
        &mut core,
        Message::new(1, 6, ContentType::ChatRequest(ChatRequest::SendMessage { from: 1, to: 9, message: "?".to_string() })),
    );
    assert!(matches!(&out[0], ServerAction::Send(m, 1) if matches!(m.content, ContentType::ChatResponse(ChatResponse::ClientNotFound(9)))));
    let l = chat.client_list(1);
    assert_eq!(l, vec![2]);
    let out = chat.handle_message(
        &mut core,
        Message::new(1, 7, ContentType::TypeExchange(TypeExchange::TypeRequest { from: 1 })),
    );
    assert!(matches!(&out[0], ServerAction::Send(m, 1) if matches!(m.content, ContentType::TypeExchange(TypeExchange::TypeResponse { edge_type: EdgeType::Server(ServerType::Chat), from: 4 }))));
    let _ = ClientType::ChatClient;
}

#[test]
fn nack_after_earlier_ack_resends_the_named_fragment() {
    let mut s = ServerStruct::new(5, vec![10]);
    s.store_fragments(8, 5, 1, vec![frag(0, 3), frag(1, 3), frag(2, 3)]);
    assert!(s.acknowledge(8, 0));
    assert!(matches!(s.fragment_for_nack(8, 2), NackLookup::Resend(f, 1) if f.fragment_index == 2));
    assert!(matches!(s.fragment_for_nack(8, 0), NackLookup::LostFragment));
}
