use skylink_network::kinds::NodeType;
use skylink_network::routing::Network;

fn line_network() -> Network {
    // 1 (client) - 10 (drone) - 11 (drone) - 5 (server)
    let mut net = Network::new();
    net.add_route(
        1,
        vec![(1, NodeType::Client), (10, NodeType::Drone), (11, NodeType::Drone), (5, NodeType::Server)],
    );
    net
}

#[test]
fn states_after_a_route() {
    let net = line_network();
    assert_eq!(net.get_state(1), Some(2));
    assert_eq!(net.get_state(10), Some(2));
    assert_eq!(net.get_state(5), Some(0));
    assert_eq!(net.get_state(7), None);
    assert_eq!(net.get_unresolved(), vec![5]);
}

#[test]
fn best_path_along_the_line() {
    let net = line_network();
    assert_eq!(net.best_path(1, 5), Some(vec![1, 10, 11, 5]));
    assert_eq!(net.best_path(1, 9), None);
    let srh = net.get_srh(1, 5).unwrap();
    assert_eq!(srh.hop_index, 1);
    assert_eq!(srh.hops, vec![1, 10, 11, 5]);
    assert!(net.has_all_routes(1));
}

#[test]
fn no_route_once_a_link_is_gone() {
    let mut net = line_network();
    net.remove_faulty_connection(10, 11);
    assert_eq!(net.best_path(1, 5), None);
    assert!(!net.has_all_routes(1));
}

#[test]
fn removed_node_is_forgotten() {
    let mut net = line_network();
    net.remove_node(11);
    assert_eq!(net.get_state(11), None);
    assert_eq!(net.best_path(1, 5), None);
}

#[test]
fn more_reliable_route_is_preferred() {
    let mut net = Network::new();
    net.add_route(1, vec![(1, NodeType::Client), (10, NodeType::Drone), (5, NodeType::Server)]);
    net.add_route(1, vec![(1, NodeType::Client), (20, NodeType::Drone), (5, NodeType::Server)]);
    // Drone 10 drops once: 1 forward, 1 drop (reliability 1/2) -> route via 20 preferred.
    net.negative_feedback(10);
    assert_eq!(net.best_path(1, 5), Some(vec![1, 20, 5]));
    // Credits for 10 bring it back on par, and then ahead.
    net.positive_feedback(vec![10, 10, 10]);
    net.negative_feedback(20);
    assert_eq!(net.best_path(1, 5), Some(vec![1, 10, 5]));
}

#[test]
fn shorter_route_wins_on_equal_weight() {
    let mut net = Network::new();
    net.add_route(1, vec![(1, NodeType::Client), (10, NodeType::Drone), (11, NodeType::Drone), (5, NodeType::Server)]);
    net.add_route(1, vec![(1, NodeType::Client), (12, NodeType::Drone), (5, NodeType::Server)]);
    assert_eq!(net.best_path(1, 5), Some(vec![1, 12, 5]));
}

#[test]
fn unreliable_drone_is_dropped() {
    let mut net = line_network();
    for _ in 0..60 {
        net.negative_feedback(10);
    }
    assert_eq!(net.get_state(10), None);
}

#[test]
fn optimal_destination_among_candidates() {
    let mut net = line_network();
    net.add_route(1, vec![(1, NodeType::Client), (12, NodeType::Drone), (6, NodeType::Server)]);
    // Equal weights: the first reachable candidate is kept.
    assert_eq!(net.get_optimal_dest(1, &vec![9, 5, 6]), Some(5));
    // The route to 6 now weighs less (its drone dropped once): 6 is picked.
    net.negative_feedback(12);
    assert_eq!(net.get_optimal_dest(1, &vec![9, 5, 6]), Some(6));
    assert_eq!(net.get_optimal_dest(1, &vec![9]), None);
}

#[test]
fn destination_without_path_is_unresolved() {
    let mut net = Network::new();
    net.add_destination_without_path(8);
    assert_eq!(net.get_state(8), Some(0));
    assert_eq!(net.get_unresolved(), vec![8]);
    net.update_state(8, 1);
    assert_eq!(net.get_state(8), Some(1));
}

#[test]
fn indexes_and_path_weight() {
    let mut net = line_network();
    assert_eq!(net.get_indexes_from_vec(vec![1, 99]), None);
    let slots = net.get_indexes_from_vec(vec![1, 10, 11, 5]).unwrap();
    assert_eq!(slots.len(), 4);
    let (num, den) = net.calculate_path_weight(&slots);
    // Every node has one forward and no drop: weight 1/1.
    assert_eq!(num.compare_with(&den), (false, true));
    net.negative_feedback(10);
    let slots = net.get_indexes_from_vec(vec![1, 10, 11, 5]).unwrap();
    let (num, den) = net.calculate_path_weight(&slots);
    assert_eq!(num.compare_with(&den), (true, false));
}
