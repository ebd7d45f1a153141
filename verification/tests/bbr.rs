use renet::bbr::{bandwidth_from_delta, BandwidthEstimation, MinMax, BTLBW_FILTER_LEN};

#[test]
fn bandwidth_of_a_delta() {
    assert_eq!(bandwidth_from_delta(1000, 0), 0);
    assert_eq!(bandwidth_from_delta(1000, 1_000_000_000), 1000);
    assert_eq!(bandwidth_from_delta(1000, 500_000_000), 2000);
    assert_eq!(bandwidth_from_delta(3, 2_000_000_000), 1);
}

#[test]
fn max_filter_keeps_the_best() {
    let mut filter = MinMax::new(0);
    assert_eq!(filter.get(), 0);
    filter.update_max(BTLBW_FILTER_LEN, 10, 100);
    assert_eq!(filter.get(), 100);
    filter.update_max(BTLBW_FILTER_LEN, 20, 50);
    assert_eq!(filter.get(), 100);
    // After a whole window without a better sample, the old best expires.
    filter.update_max(BTLBW_FILTER_LEN, 20 + BTLBW_FILTER_LEN + 1, 40);
    assert_eq!(filter.get(), 40);
    filter.fill(7, 1);
    assert_eq!(filter.get(), 7);
}

#[test]
fn estimation_follows_send_and_ack_rates() {
    let mut estimation = BandwidthEstimation {
        total_acked: 0,
        prev_total_acked: 0,
        acked_time: None,
        prev_acked_time: None,
        total_sent: 0,
        prev_total_sent: 0,
        sent_time: 0,
        prev_sent_time: None,
        max_filter: MinMax::new(0),
        acked_at_last_window: 0,
    };
    estimation.on_sent(1_000_000_000, 1000);
    estimation.on_ack(1_500_000_000, 1000, false);
    // No rate yet: the first ack has no previous ack time.
    assert_eq!(estimation.get_estimate(), 0);
    estimation.on_sent(2_000_000_000, 500);
    estimation.on_ack(2_000_000_000, 500, false);
    // Send rate 500 B/s, ack rate 1000 B/s: the smaller counts.
    assert_eq!(estimation.get_estimate(), 500);
    assert_eq!(estimation.bytes_acked_this_window(), 1500);
    estimation.end_acks(0, false);
    assert_eq!(estimation.bytes_acked_this_window(), 0);
}

#[test]
fn estimate_never_decreases_and_window_sums_acks() {
    let mut e = BandwidthEstimation {
        total_acked: 0,
        prev_total_acked: 0,
        acked_time: None,
        prev_acked_time: None,
        total_sent: 0,
        prev_total_sent: 0,
        sent_time: 0,
        prev_sent_time: None,
        max_filter: MinMax::new(0),
        acked_at_last_window: 0,
    };
    e.on_sent(1_000_000_000, 4000);
    e.on_sent(2_000_000_000, 4000);
    e.on_ack(2_000_000_000, 100, false);
    e.on_ack(3_000_000_000, 2000, false);
    assert_eq!(e.get_estimate(), 2000);
    e.end_acks(1, false);
    // A slower ack rate leaves the estimate where it was.
    e.on_ack(4_000_000_000, 10, false);
    assert_eq!(e.get_estimate(), 2000);
    // An application-limited sender does not raise it either.
    e.on_ack(4_000_000_001, 10, true);
    assert_eq!(e.get_estimate(), 2000);
    assert_eq!(e.bytes_acked_this_window(), 20);
}
