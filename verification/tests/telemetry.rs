use skylink_network::telemetry::{Counter, Telemetry};

#[test]
fn counters_count_and_times_add_up() {
    let mut t = Telemetry::new();
    t.count(Counter::PacketsSent);
    t.count(Counter::PacketsSent);
    t.count(Counter::AcksSent);
    assert_eq!(t.value(Counter::PacketsSent), 2);
    assert_eq!(t.value(Counter::AcksSent), 1);
    assert_eq!(t.value(Counter::NacksSent), 0);
    t.record_ack(12);
    t.record_ack(30);
    assert_eq!(t.ack_rtt_total_ms, 42);
    assert_eq!(t.ack_rtt_count, 2);
    assert_eq!(t.last_ack_ms, 30);
    t.record_ack(u64::MAX as u128 + 5);
    assert_eq!(t.last_ack_ms, 4);
}
