use skylink_network::chat_client::ChatClient;
use skylink_network::client::{ClientAction, ClientEvent, ClientNackLookup, ClientRoute, ClientStruct};
use skylink_network::kinds::{ClientType, ContentServerType, EdgeType, NodeType, ServerType};
use skylink_network::message::{ChatRequest, ChatResponse, ContentType, MediaRequest, MediaResponse, Message, TextRequest, TextResponse, TypeExchange};
use skylink_network::packet::{FloodRequest, FloodResponse, Fragment, Nack, NackType, Packet, PacketType, SourceRoutingHeader};
use skylink_network::server::FloodDecision;
use skylink_network::web_browser::{media_page, WebBrowser, PAGE_HEAD, PAGE_TAIL};

fn frag(i: u64, n: u64) -> Fragment {
    Fragment { fragment_index: i, total_n_fragments: n, length: 1, data: [0u8; 128] }
}

/// A client 1 linked through drone 10 to server 5 (state 1) and server 6.
fn connected_client() -> ClientStruct {
    let mut c = ClientStruct::new(1, vec![10]);
    c.save_flood_response(FloodResponse {
        flood_id: 0,
        path_trace: vec![(1, NodeType::Client), (10, NodeType::Drone), (5, NodeType::Server)],
    });
    c.save_flood_response(FloodResponse {
        flood_id: 0,
        path_trace: vec![(1, NodeType::Client), (10, NodeType::Drone), (6, NodeType::Server)],
    });
    c.update_state(5, 1);
    c.update_state(6, 1);
    c
}

#[test]
fn random_ids_stay_in_their_windows() {
    let mut c = ClientStruct::new(1, vec![10]);
    let first = c.get_flood_id();
    assert!(first < 20);
    let second = c.get_flood_id();
    assert!(first <= second && second < first + 40);
    let s = c.get_session_id();
    assert!(s < 30);
}

#[test]
fn flooding_needs_a_neighbour() {
    let mut lonely = ClientStruct::new(1, vec![]);
    assert!(lonely.flood().is_none());
    let mut c = ClientStruct::new(1, vec![10]);
    let p = c.flood().unwrap();
    assert!(matches!(p.pack_type, PacketType::FloodRequest(ref f) if f.initiator_id == 1 && f.path_trace == vec![(1, NodeType::Client)]));
}

#[test]
fn client_flood_request_handling() {
    let mut c = ClientStruct::new(1, vec![10, 11]);
    let fr = FloodRequest { flood_id: 3, initiator_id: 7, path_trace: vec![(7, NodeType::Client), (10, NodeType::Drone), (1, NodeType::Client)] };
    let p = Packet { pack_type: PacketType::FloodRequest(fr), routing_header: SourceRoutingHeader { hop_index: 0, hops: vec![] }, session_id: 0 };
    match c.handle_flood_request(p.clone()) {
        FloodDecision::Forward(_, targets) => assert_eq!(targets, vec![11]),
        FloodDecision::Respond => panic!("new flood should be passed on"),
    }
    assert!(matches!(c.handle_flood_request(p), FloodDecision::Respond));
}

#[test]
fn client_routes_and_defers() {
    let mut c = connected_client();
    assert!(matches!(c.route_fragment(frag(0, 1), 1, 0), ClientRoute::ToSelf));
    assert!(matches!(c.route_fragment(frag(0, 1), 5, 0), ClientRoute::Send(_, 10)));
    assert!(matches!(c.route_fragment(frag(0, 1), 9, 0), ClientRoute::NoRoute(Some(_))));
    let todo = c.take_unsent();
    assert_eq!(todo.len(), 1);
    assert_eq!((todo[0].1, todo[0].2), (0, 9));
    assert!(c.take_unsent().is_empty());
}

#[test]
fn client_acks_report_the_content() {
    let mut c = connected_client();
    c.store_message(4, 5, ContentType::ChatRequest(ChatRequest::Register(1)), vec![frag(0, 2), frag(1, 2)]);
    assert!(matches!(c.fragment_for_nack(4, 1), ClientNackLookup::Resend(_, 5)));
    assert!(c.acknowledge(4, 0).is_none());
    assert!(matches!(c.acknowledge(4, 1), Some(Some(ContentType::ChatRequest(ChatRequest::Register(1))))));
    assert!(matches!(c.fragment_for_nack(4, 1), ClientNackLookup::LostMessage));
}

#[test]
fn client_nack_for_drone_destination_marks_it_unreachable() {
    let mut c = connected_client();
    let p = Packet {
        pack_type: PacketType::Nack(Nack { fragment_index: 0, nack_type: NackType::DestinationIsDrone }),
        routing_header: SourceRoutingHeader { hop_index: 1, hops: vec![10, 1] },
        session_id: 0,
    };
    assert!(!c.handle_nack(Nack { fragment_index: 0, nack_type: NackType::DestinationIsDrone }, &p));
    assert!(!c.is_state_ok(1));
}

#[test]
fn chat_client_contacts_and_messages() {
    let mut base = connected_client();
    let mut chat = ChatClient::new(1);
    let out = chat.handle_message(&mut base, Message::new(5, 0, ContentType::ChatResponse(ChatResponse::ClientList(vec![2, 3]))));
    assert_eq!(out.len(), 2);
    assert!(matches!(out[0], ClientAction::Event(ClientEvent::SendContactsToSC(1, 2))));
    let out = chat.handle_message(&mut base, Message::new(6, 0, ContentType::ChatResponse(ChatResponse::ClientList(vec![2]))));
    assert!(out.is_empty());
    assert_eq!(chat.servers_for(2), Some(vec![5, 6]));
    chat.handle_message(&mut base, Message::new(5, 0, ContentType::ChatResponse(ChatResponse::ClientNotFound(2))));
    assert_eq!(chat.servers_for(2), Some(vec![6]));
    let out = chat.handle_message(
        &mut base,
        Message::new(5, 0, ContentType::ChatResponse(ChatResponse::MessageFrom { from: 2, message: "yo".to_string() })),
    );
    assert!(matches!(&out[0], ClientAction::Event(ClientEvent::ReceivedChatText(2, 1, t)) if t == "yo"));
}

#[test]
fn chat_text_goes_through_a_registered_server() {
    let mut base = connected_client();
    let mut chat = ChatClient::new(1);
    let out = chat.send_chat_text(&mut base, 2, "hello".to_string());
    assert!(matches!(out[0], ClientAction::Event(ClientEvent::MissingContacts(1, 2))));
    chat.handle_message(&mut base, Message::new(6, 0, ContentType::ChatResponse(ChatResponse::ClientList(vec![2]))));
    assert!(chat.send_chat_text(&mut base, 2, "hello".to_string()).is_empty());
    assert!(matches!(chat.message_delivered(Some(ContentType::ChatRequest(ChatRequest::Register(1))), 6), Some(ClientAction::Event(ClientEvent::RegisterSuccessfully(1, 6)))));
    let out = chat.send_chat_text(&mut base, 2, "hello".to_string());
    assert!(matches!(&out[0], ClientAction::Send(m, 6) if matches!(&m.content, ContentType::ChatRequest(ChatRequest::SendMessage { from: 1, to: 2, message }) if message == "hello")));
    let reg = chat.register(&mut base, 6);
    assert!(matches!(reg, ClientAction::Send(ref m, 6) if matches!(m.content, ContentType::ChatRequest(ChatRequest::Register(1)))));
}

#[test]
fn chat_client_type_exchange() {
    let mut base = connected_client();
    let mut chat = ChatClient::new(1);
    let out = chat.handle_message(
        &mut base,
        Message::new(5, 0, ContentType::TypeExchange(TypeExchange::TypeResponse { edge_type: EdgeType::Server(ServerType::Chat), from: 5 })),
    );
    assert!(matches!(out[0], ClientAction::Event(ClientEvent::SendDestinations(1, 5))));
    let out = chat.handle_message(&mut base, Message::new(5, 0, ContentType::TypeExchange(TypeExchange::TypeRequest { from: 5 })));
    assert!(matches!(&out[0], ClientAction::Send(m, 5) if matches!(m.content, ContentType::TypeExchange(TypeExchange::TypeResponse { edge_type: EdgeType::Client(ClientType::ChatClient), from: 1 }))));
}

#[test]
fn web_browser_lists_catalogue_and_media() {
    let mut base = connected_client();
    let mut web = WebBrowser::new(1);
    let out = web.get_text_file(&mut base, 40);
    assert!(matches!(out[0], ClientAction::Event(ClientEvent::MissingTextList(1, 40))));
    let out = web.handle_message(&mut base, Message::new(5, 0, ContentType::TextResponse(TextResponse::TextList(vec![(40, "doc".to_string())]))));
    assert!(matches!(&out[0], ClientAction::Event(ClientEvent::SendTextList(1, 40, n)) if n == "doc"));
    let out = web.get_text_file(&mut base, 40);
    assert!(matches!(&out[0], ClientAction::Send(m, 5) if matches!(m.content, ContentType::TextRequest(TextRequest::TextFile(40)))));
    let out = web.handle_message(
        &mut base,
        Message::new(5, 0, ContentType::TextResponse(TextResponse::MediaReferences(vec![(70, ("pic".to_string(), vec![6]))]))),
    );
    assert!(matches!(&out[0], ClientAction::Event(ClientEvent::SendCatalogue(1, 70, n)) if n == "pic"));
    let out = web.get_media(&mut base, 70);
    assert!(matches!(&out[0], ClientAction::Send(m, 6) if matches!(m.content, ContentType::MediaRequest(MediaRequest::Media(70)))));
    let out = web.handle_message(&mut base, Message::new(6, 0, ContentType::MediaResponse(MediaResponse::Media(70, "pic".to_string(), vec![1, 2, 3]))));
    assert_eq!(out.len(), 2);
    assert!(matches!(&out[1], ClientAction::Open(b) if b == &vec![1u8, 2, 3]));
    let out = web.get_media(&mut base, 70);
    assert!(matches!(&out[0], ClientAction::Open(b) if b == &vec![1u8, 2, 3]));
    let out = web.get_media(&mut base, 71);
    assert!(matches!(out[0], ClientAction::Event(ClientEvent::MissingDestForMedia(1, 71))));
    let out = web.handle_message(
        &mut base,
        Message::new(5, 0, ContentType::TypeExchange(TypeExchange::TypeResponse {
            edge_type: EdgeType::Server(ServerType::Content(ContentServerType::Text)),
            from: 5,
        })),
    );
    assert!(matches!(out[0], ClientAction::Event(ClientEvent::SendDestinations(1, 5))));
}

#[test]
fn media_page_embeds_base64() {
    let page = media_page(&b"abc".to_vec());
    assert_eq!(page, format!("{}{}{}", PAGE_HEAD, "YWJj", PAGE_TAIL));
    assert!(page.starts_with("<html>"));
    assert!(page.contains("data:image/jpeg;base64,YWJj'"));
}

#[test]
fn client_nack_after_earlier_ack_resends_the_named_fragment() {
    let mut c = connected_client();
    c.store_message(4, 5, ContentType::ChatRequest(ChatRequest::ClientList), vec![frag(0, 3), frag(1, 3), frag(2, 3)]);
    assert!(c.acknowledge(4, 0).is_none());
    assert!(matches!(c.fragment_for_nack(4, 2), ClientNackLookup::Resend(f, 5) if f.fragment_index == 2));
    assert!(matches!(c.fragment_for_nack(4, 0), ClientNackLookup::LostFragment));
}

#[test]
fn media_page_pads_short_groups() {
    assert_eq!(media_page(&b"a".to_vec()), format!("{}{}{}", PAGE_HEAD, "YQ==", PAGE_TAIL));
    assert_eq!(media_page(&b"ab".to_vec()), format!("{}{}{}", PAGE_HEAD, "YWI=", PAGE_TAIL));
    assert_eq!(media_page(&vec![0xfb, 0xff]), format!("{}{}{}", PAGE_HEAD, "+/8=", PAGE_TAIL));
}
