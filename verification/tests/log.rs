use skylink_network::client::ClientEvent;
use skylink_network::controller::SimulationControl;
use skylink_network::kinds::NodeType;
use skylink_network::log::{
    client_event_entry, drone_event_entry, get_message, render_ids, render_nack_type, render_option, render_u64,
    server_event_entry, Cause, LogEntry,
};
use skylink_network::packet::{Ack, DroneEvent, FloodRequest, Fragment, NackType, Packet, PacketType, SourceRoutingHeader};
use skylink_network::server::ServerEvent;
use skylink_network::simulation::{NetworkGraph, NodeNature};

fn packet(hops: Vec<u8>, hop_index: usize, session_id: u64, pack_type: PacketType) -> Packet {
    Packet { pack_type, routing_header: SourceRoutingHeader { hop_index, hops }, session_id }
}

#[test]
fn numbers_and_lists_are_written_as_debug_does() {
    assert_eq!(render_u64(0), "0");
    assert_eq!(render_u64(1234567890123), "1234567890123");
    assert_eq!(render_u64(u64::MAX), u64::MAX.to_string());
    assert_eq!(render_ids(&vec![]), "[]");
    assert_eq!(render_ids(&vec![1, 22, 255]), format!("{:?}", vec![1u8, 22, 255]));
    assert_eq!(render_option(Some(4)), "Some(4)");
    assert_eq!(render_option(None), "None");
    assert_eq!(render_nack_type(NackType::ErrorInRouting(3)), "ErrorInRouting(3)");
    assert_eq!(render_nack_type(NackType::Dropped), "Dropped");
}

#[test]
fn sent_packet_messages() {
    let f = Fragment { fragment_index: 2, total_n_fragments: 3, length: 0, data: [0; 128] };
    let p = packet(vec![1, 10, 5], 1, 7, PacketType::MsgFragment(f));
    assert_eq!(get_message(&p), "sent fragment id: 2, to 5");
    let p = packet(vec![1, 10, 5], 1, 7, PacketType::Ack(Ack { fragment_index: 2 }));
    assert_eq!(get_message(&p), "forwarded ack with id: 2 from initiator 1 to 5 of session 7");
    let fr = FloodRequest { flood_id: 4, initiator_id: 1, path_trace: vec![(1, NodeType::Client), (10, NodeType::Drone)] };
    let p = packet(vec![], 0, 0, PacketType::FloodRequest(fr));
    assert_eq!(get_message(&p), "sent flood request: (id: 4, initiator :1) containing [1, 10]");
}

#[test]
fn server_event_entries() {
    let e = server_event_entry(&ServerEvent::MissingDestination(5, 9)).unwrap();
    assert!(matches!(e.cause, Cause::Error));
    assert_eq!(e.node_id, 5);
    assert_eq!(e.message, "missing destination 9");
    let e = server_event_entry(&ServerEvent::LostMessage(3, 1, "oops".to_string())).unwrap();
    assert_eq!(e.node_id, 1);
    assert_eq!(e.message, "Lost message in session 3. Initiator 1 reports: oops ");
    let e = server_event_entry(&ServerEvent::FilesState(2, vec![(1, "a".to_string())], vec![])).unwrap();
    assert_eq!(e.message, "\nCOMPLETED FILES: \n [(1, \"a\")] \n INCOMPLETE FILES: \n []\n");
    let e = server_event_entry(&ServerEvent::MediaState(2, vec![(1, "a".to_string()), (2, "b".to_string())])).unwrap();
    assert_eq!(e.message, "\nmedia id: 1, media name: a\nmedia id: 2, media name: b\n");
    let p = packet(vec![5, 10], 1, 0, PacketType::Ack(Ack { fragment_index: 1 }));
    assert!(server_event_entry(&ServerEvent::NackReceived(p)).is_some());
    let e = server_event_entry(&ServerEvent::ControllerShortcut(DroneEvent::PacketSent(packet(vec![1], 0, 0, PacketType::Ack(Ack { fragment_index: 0 })))));
    assert!(e.is_none());
}

#[test]
fn client_event_entries() {
    let e = client_event_entry(&ClientEvent::Flooding(3)).unwrap();
    assert!(matches!(e.cause, Cause::Flood));
    assert_eq!(e.message, "3 is flooding!");
    let e = client_event_entry(&ClientEvent::ReceivedChatText(1, 2, "hey".to_string())).unwrap();
    assert_eq!(e.message, "1 sent txt [hey] to 2");
    let e = client_event_entry(&ClientEvent::LostFragment(8, 1, 2)).unwrap();
    assert_eq!(e.message, " lost message from session 8 of fragment index 2");
    let p = packet(vec![5, 10, 1], 2, 4, PacketType::Ack(Ack { fragment_index: 0 }));
    let e = client_event_entry(&ClientEvent::AckReceived(p)).unwrap();
    assert_eq!(e.node_id, 1);
    assert_eq!(e.message, "received Ack of fragment 0 coming from 5 in session 4");
}

#[test]
fn drone_event_entries() {
    let f = Fragment { fragment_index: 0, total_n_fragments: 1, length: 0, data: [0; 128] };
    let p = packet(vec![1, 10, 5], 1, 9, PacketType::MsgFragment(f));
    let e = drone_event_entry(&DroneEvent::PacketDropped(p.clone()));
    assert!(matches!(e.cause, Cause::Dropped));
    assert_eq!(e.node_id, 10);
    assert_eq!(e.message, "dropped fragment 9 of packet: session 9, route [1, 10, 5]");
    let e = drone_event_entry(&DroneEvent::ControllerShortcut(packet(vec![1, 10], 0, 0, PacketType::Ack(Ack { fragment_index: 0 }))));
    assert_eq!(e.node_id, 255);
    let e = LogEntry::new(Cause::Sent, 4, "x".to_string());
    assert_eq!(e.get_id(), 4);
}

fn sample_graph() -> NetworkGraph {
    let mut g = NetworkGraph::new();
    g.insert_node(0, NodeNature::ChatClient, &vec![1]);
    g.insert_node(1, NodeNature::Drone, &vec![0, 2]);
    g.insert_node(2, NodeNature::TextServer, &vec![1]);
    g
}

#[test]
fn graph_queries() {
    let g = sample_graph();
    assert_eq!(g.generate_id(), 3);
    assert_eq!(g.get_type(0), Some(NodeType::Client));
    assert_eq!(g.get_type(2), Some(NodeType::Server));
    assert_eq!(g.get_type(9), None);
    assert!(g.does_drone_exist(1));
    assert!(g.is_node_connected(0, 1));
    assert!(!g.is_node_connected(0, 2));
    assert!(g.is_node_connected(7, 8));
    assert_eq!(NodeNature::WebBrowser.simple_type(), NodeType::Client);
}

#[test]
fn controller_checks_and_updates() {
    let mut sc = SimulationControl::new(sample_graph());
    assert_eq!(sc.check_remove_senders(0, 2), None);
    assert_eq!(sc.log_entries().last().unwrap().message, "drone 2 is not connected to 0");
    assert_eq!(sc.check_remove_senders(0, 1), Some(NodeType::Client));
    sc.sender_removed(0, 1);
    assert!(!sc.graph().is_node_connected(0, 1));
    assert_eq!(sc.log_entries().last().unwrap().message, "node 0 removed from senders");
    assert_eq!(sc.check_add_sender(0, 9), None);
    assert_eq!(sc.log_entries().last().unwrap().message, "drone 9 does not exist in this network.");
    assert_eq!(sc.check_add_sender(0, 2), Some(NodeType::Client));
    sc.sender_added(0, 2);
    assert!(sc.graph().is_node_connected(0, 2) == false);
    assert!(sc.check_flood_with(0));
    assert!(!sc.check_flood_with(1));
    let mut neighbours = sc.crash_neighbors(1);
    neighbours.sort();
    assert_eq!(neighbours, vec![0, 2]);
    sc.drone_crashed(1);
    assert!(!sc.graph().does_drone_exist(1));
    assert_eq!(sc.log_entries().last().unwrap().message, "Node crashed");
    let id = sc.register_drone(&vec![0]);
    assert_eq!(id, 1);
    assert_eq!(sc.graph().get_type(1), Some(NodeType::Drone));
}

#[test]
fn shortcut_checks() {
    let mut sc = SimulationControl::new(sample_graph());
    let f = Fragment { fragment_index: 0, total_n_fragments: 1, length: 0, data: [0; 128] };
    let frag = packet(vec![0, 1, 2], 1, 3, PacketType::MsgFragment(f));
    assert_eq!(sc.check_shortcut(&frag, true), None);
    let last = sc.log_entries().last().unwrap();
    assert_eq!(last.node_id, 1);
    assert_eq!(last.message, "Shortcut used for unusual packet type: fragment");
    let ack = packet(vec![2, 1, 0], 1, 3, PacketType::Ack(Ack { fragment_index: 0 }));
    assert_eq!(sc.check_shortcut(&ack, false), None);
    assert_eq!(sc.log_entries().last().unwrap().message, "error in sending packet to 0 through shortcut (packet not present)");
    let to_drone = packet(vec![2, 1], 1, 3, PacketType::Ack(Ack { fragment_index: 0 }));
    assert_eq!(sc.check_shortcut(&to_drone, true), None);
    assert_eq!(sc.log_entries().last().unwrap().message, "error in sending packet to 1 through shortcut (final destination is drone)");
    let before = sc.log_entries().len();
    assert_eq!(sc.check_shortcut(&ack, true), Some(0));
    assert_eq!(sc.log_entries().len(), before);
    sc.shortcut_sent(0);
    let last = sc.log_entries().last().unwrap();
    assert!(matches!(last.cause, Cause::Sent));
    assert_eq!(last.message, "shortcut redirected successfully to 0 through shortcut ");
}

#[test]
fn fresh_ids_start_at_one() {
    let mut g = NetworkGraph::new();
    for id in [1u8, 3, 4] {
        g.insert_node(id, NodeNature::Drone, &vec![]);
    }
    assert_eq!(g.generate_id(), 2);
    let mut g = NetworkGraph::new();
    for id in [1u8, 2, 3] {
        g.insert_node(id, NodeNature::Drone, &vec![]);
    }
    assert_eq!(g.generate_id(), 4);
    let mut g = NetworkGraph::new();
    g.insert_node(0, NodeNature::Drone, &vec![]);
    assert_eq!(g.generate_id(), 1);
}

#[test]
fn wrong_command_is_logged_as_the_command() {
    let e = skylink_network::log::wrong_command_entry(4, &"a \"b\".txt".to_string());
    assert!(matches!(e.cause, Cause::Error));
    assert_eq!(e.node_id, 4);
    assert_eq!(e.message, "command AddFile(\"a \\\"b\\\".txt\") is wrong");
}
