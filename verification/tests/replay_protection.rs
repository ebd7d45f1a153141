use renet::replay_protection::{ReplayProtection, NETCODE_REPLAY_BUFFER_SIZE};

#[test]
fn replay_protection() {
    let mut replay_protection = ReplayProtection::new();
    assert_eq!(replay_protection.most_recent_sequence(), 0);

    // New packets aren't already received
    let max_sequence = (NETCODE_REPLAY_BUFFER_SIZE * 4) as u64;
    for i in 0..max_sequence {
        assert!(!replay_protection.already_received(i));
        replay_protection.advance_sequence(i);
    }

    // Old packes outside the buffer should be considered already received
    assert!(replay_protection.already_received(0));

    // Packets received a second time should be already received
    for i in max_sequence - 10..max_sequence {
        assert!(replay_protection.already_received(i));
    }

    // Jumping to a higher sequence should be considered not already received
    assert!(!replay_protection.already_received(max_sequence + NETCODE_REPLAY_BUFFER_SIZE as u64));

    // Old packets should be considered received
    for i in 0..max_sequence {
        assert!(replay_protection.already_received(i));
    }
}

#[test]
fn advanced_sequence_is_received() {
    let mut replay_protection = ReplayProtection::default();
    replay_protection.advance_sequence(1000);
    assert!(replay_protection.already_received(1000));
    assert_eq!(replay_protection.most_recent_sequence(), 1000);
    replay_protection.advance_sequence(10);
    assert_eq!(replay_protection.most_recent_sequence(), 1000);
    assert!(replay_protection.already_received(10));
    assert!(!replay_protection.already_received(999));
}
