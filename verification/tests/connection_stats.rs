use renet::connection_stats::{ConnectionStats, SIZE, WINDOW};

const MILLI: u64 = 1_000_000;

fn bytes_sent_per_second(window: &ConnectionStats, current_time: u64) -> f64 {
    let total = window.bytes_sent_in_window(current_time) as f64;
    if current_time < WINDOW {
        return total / (current_time as f64 / 1e9);
    }
    total / ((WINDOW - 300 * MILLI) as f64 / 1e9)
}

fn packet_loss(window: &ConnectionStats) -> f64 {
    let (sent, acked) = window.settled_packets();
    if sent == 0 {
        return 0.0;
    }
    (sent as f64 - acked as f64) / sent as f64
}

#[test]
fn bytes_per_sec() {
    let mut current_time = 0;
    let mut window = ConnectionStats::default();

    for _ in 0..10 {
        window.update(current_time);
        window.sent_packets(10, 100);
        current_time += 100 * MILLI;
    }

    // Check at 1 second
    assert_eq!(bytes_sent_per_second(&window, current_time), 1000.);

    for _ in 0..50 {
        window.update(current_time);
        window.sent_packets(10, 100);
        current_time += 100 * MILLI;
    }

    // Check after 6 seconds
    assert_eq!(window.packets_sent, vec![30; SIZE]);
    assert_eq!(window.bytes_sent, vec![300; SIZE]);
    assert_eq!(bytes_sent_per_second(&window, current_time), 1000.);
}

#[test]
fn packet_loss_ratio() {
    let mut current_time = 0;
    let mut window = ConnectionStats::default();

    for _ in 0..20 {
        window.update(current_time);
        // Send 2, ack only 1
        window.sent_packets(2, 100);
        window.acked_packet(current_time, current_time);
        current_time += 100 * MILLI;
    }

    // Check at 2 second
    assert_eq!(packet_loss(&window), 0.5);

    for _ in 0..40 {
        window.update(current_time);
        window.sent_packets(2, 100);
        window.acked_packet(current_time, current_time);
        current_time += 100 * MILLI;
    }

    // Check after 6 seconds
    assert_eq!(window.packets_sent, vec![6; SIZE]);
    assert_eq!(window.packets_acked, vec![3; SIZE]);
    assert_eq!(packet_loss(&window), 0.5);
}

#[test]
fn late_acks_are_dropped() {
    let mut window = ConnectionStats::new();
    window.acked_packet(0, WINDOW + 1);
    assert_eq!(window.packets_acked, vec![0; SIZE]);
    window.acked_packet(0, WINDOW);
    assert_eq!(window.packets_acked[0], 1);
    window.received_packet(40);
    window.received_packet(2);
    assert_eq!(window.bytes_received[0], 42);
    assert_eq!(window.bytes_received_in_window(0), 42);
    window.update(300 * MILLI);
    assert_eq!(window.current_index, 1);
    window.update(6000 * MILLI);
    assert_eq!(window.current_index, 0);
    assert_eq!(window.bytes_received[0], 0);
}
