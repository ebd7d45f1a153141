use renet::channel_config::DefaultChannel;
use renet::error::DisconnectReason;
use renet::remote_connection::{ConnectionConfig, RenetClient};
use renet::server::{RenetServer, ServerEvent};

#[test]
fn lib_test_remote_connection_reliable_channel() {
    let mut server = RenetServer::new(ConnectionConfig::default());
    let mut client = RenetClient::new(ConnectionConfig::default());
    let channel = DefaultChannel::ReliableOrdered.id();

    let client_id: u64 = 0;
    server.add_connection(client_id);
    assert_eq!(server.connected_clients(), 1);
    assert!(server.has_connections());
    assert_eq!(ServerEvent::ClientConnected { client_id }, server.get_event().unwrap());

    for _ in 0..200 {
        server.send_message(client_id, channel, b"test".to_vec());
    }

    let mut count = 0;
    let packets = server.get_packets_to_send(client_id).unwrap();
    for packet in packets.into_iter() {
        assert!(packet.len() < 1300);
        client.process_packet(&packet);
    }

    assert_eq!(client.disconnect_reason(), None);

    while let Some(message) = client.receive_message(channel) {
        assert_eq!(message, b"test".to_vec());
        count += 1;
    }

    assert_eq!(count, 200);

    // Sliced messages
    let message = b"test".repeat(1000);
    let mut count = 0;
    for _ in 0..10 {
        server.send_message(client_id, channel, message.clone());
    }

    let packets = server.get_packets_to_send(client_id).unwrap();
    for packet in packets.into_iter() {
        assert!(packet.len() < 1300);
        client.process_packet(&packet);
    }

    while let Some(received_message) = client.receive_message(channel) {
        assert_eq!(received_message, message);
        count += 1;
    }

    assert_eq!(count, 10);

    server.remove_connection(client_id);
    assert_eq!(server.connected_clients(), 0);
    assert!(!server.has_connections());
    assert_eq!(
        ServerEvent::ClientDisconnected { client_id, reason: DisconnectReason::Transport },
        server.get_event().unwrap()
    );
}

#[test]
fn test_local_client() {
    let mut server = RenetServer::new(ConnectionConfig::default());
    let channel = DefaultChannel::ReliableOrdered.id();

    let client_id: u64 = 0;
    let mut client = server.new_local_client(client_id);

    let connect_event = server.get_event().unwrap();
    assert!(connect_event == ServerEvent::ClientConnected { client_id });

    server.send_message(client_id, channel, b"test server".to_vec());
    client.send_message(channel, b"test client".to_vec());

    // Exchanging the packets both ways, as the server does for a local
    // client.
    for packet in server.get_packets_to_send(client_id).unwrap() {
        client.process_packet(&packet);
    }
    for packet in client.get_packets_to_send() {
        server.process_packet_from(&packet, client_id).unwrap();
    }

    let server_message = server.receive_message(client_id, channel).unwrap();
    assert_eq!(server_message, b"test client".to_vec());

    let client_message = client.receive_message(channel).unwrap();
    assert_eq!(client_message, b"test server".to_vec());

    server.disconnect_local_client(client_id, &mut client);
    assert!(client.is_disconnected());
    let disconnect_event = server.get_event().unwrap();
    assert!(
        disconnect_event
            == ServerEvent::ClientDisconnected { client_id, reason: DisconnectReason::DisconnectedByClient }
    );
}

#[test]
fn unknown_client_is_not_found() {
    let mut server = RenetServer::new(ConnectionConfig::default());
    assert!(server.get_packets_to_send(7).is_err());
    assert!(server.process_packet_from(&[0], 7).is_err());
    assert_eq!(server.receive_message(7, 0), None);
    assert_eq!(server.disconnect_reason(7), None);
    assert!(!server.is_connected(7));
    assert_eq!(server.channel_available_memory(7, 0), 0);
    assert!(!server.can_send_message(7, 0, 1));
    server.remove_connection(7);
    assert!(server.get_event().is_none());
}

#[test]
fn add_connection_twice_keeps_one() {
    let mut server = RenetServer::new(ConnectionConfig::default());
    server.add_connection(3);
    server.add_connection(3);
    assert_eq!(server.get_event(), Some(ServerEvent::ClientConnected { client_id: 3 }));
    assert_eq!(server.get_event(), None);
    assert_eq!(server.clients_id(), vec![3]);
}

#[test]
fn disconnect_by_server_is_reported_on_removal() {
    let mut server = RenetServer::new(ConnectionConfig::default());
    server.add_connection(1);
    server.add_connection(2);
    server.add_connection(5);
    server.disconnect(2);
    assert_eq!(server.clients_id(), vec![1, 5]);
    assert_eq!(server.disconnections_id(), vec![2]);
    assert_eq!(server.connected_clients(), 2);
    assert_eq!(server.disconnect_reason(2), Some(DisconnectReason::DisconnectedByServer));
    server.disconnect_all();
    assert_eq!(server.connected_clients(), 0);
    assert_eq!(server.disconnections_id(), vec![1, 2, 5]);
    server.remove_connection(2);
    let events: Vec<ServerEvent> = std::iter::from_fn(|| server.get_event()).collect();
    assert_eq!(events.last(), Some(&ServerEvent::ClientDisconnected { client_id: 2, reason: DisconnectReason::DisconnectedByServer }));
}

#[test]
fn broadcast_reaches_every_client_but_the_excepted() {
    let mut server = RenetServer::new(ConnectionConfig::default());
    let channel = DefaultChannel::ReliableOrdered.id();
    let mut clients: Vec<(u64, RenetClient)> = Vec::new();
    for id in [4u64, 8, 9] {
        server.add_connection(id);
        clients.push((id, RenetClient::new(ConnectionConfig::default())));
    }
    server.broadcast_message(channel, vec![1, 2]);
    server.broadcast_message_except(8, channel, vec![3]);
    let full = server.channel_available_memory(4, channel);
    assert_eq!(full, 5 * 1024 * 1024 - 3);
    assert!(server.can_send_message(4, channel, full));
    assert!(!server.can_send_message(4, channel, full + 1));
    for (id, client) in clients.iter_mut() {
        for packet in server.get_packets_to_send(*id).unwrap() {
            client.process_packet(&packet);
        }
        assert_eq!(client.receive_message(channel), Some(vec![1, 2]));
        if *id == 8 {
            assert_eq!(client.receive_message(channel), None);
        } else {
            assert_eq!(client.receive_message(channel), Some(vec![3]));
        }
    }
}

#[test]
fn update_moves_every_clock() {
    let mut server = RenetServer::new(ConnectionConfig::default());
    let channel = DefaultChannel::Unreliable.id();
    server.add_connection(1);
    server.send_message(1, channel, vec![0; 4]);
    server.get_packets_to_send(1).unwrap();
    server.update(5_000_000_000);
    // Nothing was acked, so the largest acked packet is 0, and packet 0 is
    // taken as lost after 3 seconds: acking it now finds nothing.
    let mut client = RenetClient::new(ConnectionConfig::default());
    client.add_pending_ack(0);
    let acks = client.get_packets_to_send();
    let rtts = server.process_packet_from(&acks[0], 1).unwrap();
    assert!(rtts.is_empty());
}
