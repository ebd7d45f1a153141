use renet::channel_config::DefaultChannel;
use renet::error::{ChannelError, DisconnectReason};
use renet::packet::{Packet, SerializationError};
use renet::remote_connection::{ConnectionConfig, RenetClient};

const SECOND: u64 = 1_000_000_000;

#[test]
fn remote_connection_pending_acks() {
    let mut connection = RenetClient::new(ConnectionConfig::default());
    connection.add_pending_ack(3);
    assert_eq!(*connection.pending_acks(), vec![3..4]);

    connection.add_pending_ack(4);
    assert_eq!(*connection.pending_acks(), vec![3..5]);

    connection.add_pending_ack(2);
    assert_eq!(*connection.pending_acks(), vec![2..5]);

    connection.add_pending_ack(0);
    assert_eq!(*connection.pending_acks(), vec![0..1, 2..5]);

    connection.add_pending_ack(7);
    assert_eq!(*connection.pending_acks(), vec![0..1, 2..5, 7..8]);

    connection.add_pending_ack(1);
    assert_eq!(*connection.pending_acks(), vec![0..5, 7..8]);

    connection.add_pending_ack(5);
    assert_eq!(*connection.pending_acks(), vec![0..6, 7..8]);

    connection.add_pending_ack(6);
    assert_eq!(*connection.pending_acks(), vec![0..8]);
}

#[test]
fn remote_connection_ack_pending_acks() {
    let mut connection = RenetClient::new(ConnectionConfig::default());
    for i in 0..10 {
        connection.add_pending_ack(i);
    }

    assert_eq!(*connection.pending_acks(), vec![0..10]);

    connection.acked_largest(0);
    assert_eq!(*connection.pending_acks(), vec![1..10]);

    connection.acked_largest(3);
    assert_eq!(*connection.pending_acks(), vec![4..10]);

    connection.add_pending_ack(0);
    assert_eq!(*connection.pending_acks(), vec![0..1, 4..10]);
    connection.acked_largest(5);
    assert_eq!(*connection.pending_acks(), vec![6..10]);

    connection.add_pending_ack(0);
    assert_eq!(*connection.pending_acks(), vec![0..1, 6..10]);
    connection.acked_largest(10);
    assert_eq!(*connection.pending_acks(), vec![]);
}

#[test]
fn discard_old_packets() {
    let mut connection = RenetClient::new(ConnectionConfig::default());
    let message: Vec<u8> = vec![5; 5];
    connection.send_message(0, message);

    connection.get_packets_to_send();
    assert_eq!(connection.num_sent_packets(), 1);

    connection.advance_time(SECOND);
    assert_eq!(connection.num_sent_packets(), 1);

    connection.advance_time(4 * SECOND);
    assert_eq!(connection.num_sent_packets(), 0);
}

#[test]
fn pending_acks_keep_at_most_64_ranges() {
    let mut connection = RenetClient::new(ConnectionConfig::default());
    for i in 0..65u64 {
        connection.add_pending_ack(2 * i);
    }
    let pending = connection.pending_acks();
    assert_eq!(pending.len(), 64);
    assert_eq!(pending[0], 2..3);
    assert_eq!(pending[63], 128..129);
}

#[test]
fn older_largest_ack_changes_nothing() {
    let mut connection = RenetClient::new(ConnectionConfig::default());
    for i in 0..10 {
        connection.add_pending_ack(i);
    }
    connection.acked_largest(5);
    assert_eq!(*connection.pending_acks(), vec![6..10]);
    connection.add_pending_ack(1);
    connection.acked_largest(2);
    assert_eq!(*connection.pending_acks(), vec![1..2, 6..10]);
}

#[test]
fn reliable_messages_between_connections() {
    let mut server_side = RenetClient::new_from_server(ConnectionConfig::default());
    let mut client = RenetClient::new(ConnectionConfig::default());
    let channel = DefaultChannel::ReliableOrdered.id();

    for _ in 0..200 {
        server_side.send_message(channel, b"test".to_vec());
    }
    let packets = server_side.get_packets_to_send();
    assert!(!packets.is_empty());
    for packet in packets.iter() {
        assert!(packet.len() < 1300);
        let rtts = client.process_packet(packet);
        assert!(rtts.is_empty());
    }
    assert_eq!(client.disconnect_reason(), None);

    let mut count = 0;
    while let Some(message) = client.receive_message(channel) {
        assert_eq!(message, b"test".to_vec());
        count += 1;
    }
    assert_eq!(count, 200);

    // Sliced messages.
    let message = b"test".repeat(1000);
    for _ in 0..10 {
        server_side.send_message(channel, message.clone());
    }
    let packets = server_side.get_packets_to_send();
    for packet in packets.iter() {
        assert!(packet.len() < 1300);
        client.process_packet(packet);
    }
    let mut count = 0;
    while let Some(received) = client.receive_message(channel) {
        assert_eq!(received, message);
        count += 1;
    }
    assert_eq!(count, 10);

    // The client acknowledges everything it received: the acks come back
    // with one round trip time for each packet the server side sent.
    let sent = server_side.num_sent_packets();
    assert!(sent > 0);
    client.advance_time(SECOND / 10);
    server_side.advance_time(SECOND / 10);
    let acks = client.get_packets_to_send();
    assert_eq!(acks.len(), 1);
    let rtts = server_side.process_packet(&acks[0]);
    assert_eq!(rtts.len(), sent);
    assert!(rtts.iter().all(|rtt| *rtt == SECOND / 10 || *rtt == 0));
    assert_eq!(server_side.num_sent_packets(), 0);
    assert_eq!(server_side.disconnect_reason(), None);
}

#[test]
fn unreliable_messages_between_connections() {
    let mut server_side = RenetClient::new_from_server(ConnectionConfig::default());
    let mut client = RenetClient::new(ConnectionConfig::default());
    let channel = DefaultChannel::Unreliable.id();
    server_side.send_message(channel, vec![1, 2, 3]);
    server_side.send_message(channel, vec![9; 3000]);
    for packet in server_side.get_packets_to_send().iter() {
        client.process_packet(packet);
    }
    // The slices go out at once; the small message waits for its packet,
    // which goes out last.
    assert_eq!(client.receive_message(channel), Some(vec![9; 3000]));
    assert_eq!(client.receive_message(channel), Some(vec![1, 2, 3]));
    assert_eq!(client.receive_message(channel), None);
}

#[test]
fn unreadable_packet_disconnects() {
    let mut connection = RenetClient::new(ConnectionConfig::default());
    let rtts = connection.process_packet(&[9, 0, 0]);
    assert!(rtts.is_empty());
    assert_eq!(
        connection.disconnect_reason(),
        Some(DisconnectReason::PacketDeserialization(SerializationError::InvalidPacketType))
    );
    assert!(connection.is_disconnected());
    // A closed connection takes and sends nothing.
    connection.process_packet(&[9]);
    assert!(connection.get_packets_to_send().is_empty());
    assert_eq!(
        connection.disconnect_reason(),
        Some(DisconnectReason::PacketDeserialization(SerializationError::InvalidPacketType))
    );
}

#[test]
fn unknown_channel_disconnects() {
    let mut connection = RenetClient::new(ConnectionConfig::default());
    let packet = Packet::SmallUnreliable { sequence: 0, channel_id: 7, messages: vec![vec![1]] };
    let bytes = packet.to_bytes(1400).unwrap();
    connection.process_packet(&bytes);
    assert_eq!(connection.disconnect_reason(), Some(DisconnectReason::ReceivedInvalidChannelId(7)));
    assert_eq!(*connection.pending_acks(), vec![0..1]);
}

#[test]
fn full_reliable_channel_disconnects() {
    let mut config = ConnectionConfig::default();
    config.client_channels_config[2].max_memory_usage_bytes = 10;
    let mut connection = RenetClient::new(config);
    connection.send_message(2, vec![0; 8]);
    assert_eq!(connection.disconnect_reason(), None);
    connection.send_message(2, vec![0; 8]);
    assert_eq!(
        connection.disconnect_reason(),
        Some(DisconnectReason::SendChannelError { channel_id: 2, error: ChannelError::ReliableChannelMaxMemoryReached })
    );
}

#[test]
fn disconnect_keeps_first_reason() {
    let mut connection = RenetClient::new(ConnectionConfig::default());
    assert!(connection.is_connected());
    connection.disconnect();
    assert_eq!(connection.disconnect_reason(), Some(DisconnectReason::DisconnectedByClient));
    connection.process_packet(&[9]);
    assert_eq!(connection.disconnect_reason(), Some(DisconnectReason::DisconnectedByClient));
}

#[test]
fn packets_carry_consecutive_sequences_with_the_ack_last() {
    let mut connection = RenetClient::new(ConnectionConfig::default());
    connection.add_pending_ack(9);
    for _ in 0..50 {
        connection.send_message(DefaultChannel::ReliableOrdered.id(), vec![1; 100]);
    }
    connection.send_message(DefaultChannel::Unreliable.id(), vec![2; 3000]);
    let packets = connection.get_packets_to_send();
    assert!(packets.len() > 3);
    for (i, bytes) in packets.iter().enumerate() {
        let packet = Packet::from_bytes(bytes).unwrap();
        assert_eq!(packet.sequence(), i as u64);
        assert_eq!(matches!(packet, Packet::Ack { .. }), i == packets.len() - 1);
    }
    let more = connection.get_packets_to_send();
    let first = Packet::from_bytes(&more[0]).unwrap();
    assert_eq!(first.sequence(), packets.len() as u64);
}
