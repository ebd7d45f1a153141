use renet::crypto::generate_random_bytes;
use renet::netcode_client::{Client, ErrorReason, State};
use renet::netcode_packet::{
    ConnectToken, ConnectionKeepAlive, EncryptedChallengeToken, NetcodeError, Packet, NETCODE_BUFFER_SIZE,
};
use renet::token::{PrivateConnectToken, ServerAddress};

fn v4(a: u8, b: u8, c: u8, d: u8, port: u16) -> ServerAddress {
    ServerAddress::V4 { ip: [a, b, c, d], port }
}

fn make_token(
    protocol_id: u64,
    expire_seconds: u64,
    client_id: u64,
    timeout_seconds: i32,
    server_addresses: Vec<ServerAddress>,
    user_data: &[u8; 256],
) -> ConnectToken {
    let private = PrivateConnectToken::generate(client_id, timeout_seconds, server_addresses, Some(user_data)).unwrap();
    let mut bytes = vec![];
    private.write(&mut bytes);
    let mut private_data = [0u8; 1024];
    private_data[..bytes.len()].copy_from_slice(&bytes);
    ConnectToken {
        protocol_id,
        create_timestamp: 0,
        expire_timestamp: expire_seconds,
        xnonce: generate_random_bytes(),
        timeout_seconds,
        client_to_server_key: private.client_to_server_key,
        server_to_client_key: private.server_to_client_key,
        private_data,
        server_addresses: private.server_addresses,
    }
}

#[test]
fn client_connection() {
    let mut buffer = [0u8; NETCODE_BUFFER_SIZE];
    let server_addresses: Vec<ServerAddress> = vec![v4(127, 0, 0, 1, 8080), v4(127, 0, 0, 2, 3000)];
    let user_data = generate_random_bytes();
    let protocol_id = 2;
    let expire_seconds = 3;
    let client_id = 4;
    let timeout_seconds = 5;
    let connect_token = make_token(protocol_id, expire_seconds, client_id, timeout_seconds, server_addresses, &user_data);
    let server_key = connect_token.server_to_client_key;
    let client_key = connect_token.client_to_server_key;
    let mut client = Client::new(0, connect_token);
    let len = client.generate_packet(&mut buffer).unwrap();

    let (r_sequence, packet) = Packet::decode(&buffer[..len], protocol_id, None).unwrap();
    assert_eq!(0, r_sequence);
    assert!(matches!(packet, Packet::ConnectionRequest(_)));

    let challenge_sequence = 7;
    let user_data = generate_random_bytes();
    let challenge_key = generate_random_bytes();
    let challenge_packet =
        Packet::Challenge(EncryptedChallengeToken::generate(client_id, &user_data, challenge_sequence, &challenge_key).unwrap());
    let len = challenge_packet.encode(&mut buffer, protocol_id, Some((0, &server_key))).unwrap();
    client.process_packet(&buffer[..len]);
    assert_eq!(State::SendingConnectionResponse, client.state());

    let len = client.generate_packet(&mut buffer).unwrap();
    let (_, packet) = Packet::decode(&buffer[..len], protocol_id, Some(&client_key)).unwrap();
    assert!(matches!(packet, Packet::Response(_)));

    let max_clients = 4;
    let client_index = 2;
    let keep_alive_packet = Packet::KeepAlive(ConnectionKeepAlive { max_clients, client_index });
    let len = keep_alive_packet.encode(&mut buffer, protocol_id, Some((1, &server_key))).unwrap();
    client.process_packet(&buffer[..len]);

    assert_eq!(client.state(), State::Connected);

    let payload = vec![7u8; 500];
    let payload_packet = Packet::Payload(payload.clone());
    let len = payload_packet.encode(&mut buffer, protocol_id, Some((1, &server_key))).unwrap();

    let payload_client = client.process_packet(&buffer[..len]).unwrap();
    assert_eq!(payload, payload_client);
}

#[test]
fn sending_is_throttled_and_denial_is_an_error() {
    let token = make_token(9, 30, 1, 15, vec![v4(1, 2, 3, 4, 5)], &[0u8; 256]);
    let server_key = token.server_to_client_key;
    let mut client = Client::new(0, token);
    let mut buffer = [0u8; NETCODE_BUFFER_SIZE];
    assert!(client.generate_packet(&mut buffer).is_some());
    assert_eq!(client.generate_packet(&mut buffer), None);
    assert!(!client.connected());

    // A payload before the connection is made is dropped.
    let len = Packet::Payload(vec![1, 2, 3]).encode(&mut buffer, 9, Some((5, &server_key))).unwrap();
    assert_eq!(client.process_packet(&buffer[..len]), None);
    assert_eq!(client.state(), State::SendingConnectionRequest);

    // A packet sealed with another key is dropped.
    let len = Packet::ConnectionDenied.encode(&mut buffer, 9, Some((6, &[3u8; 32]))).unwrap();
    assert_eq!(client.process_packet(&buffer[..len]), None);
    assert_eq!(client.state(), State::SendingConnectionRequest);

    let len = Packet::ConnectionDenied.encode(&mut buffer, 9, Some((6, &server_key))).unwrap();
    assert_eq!(client.process_packet(&buffer[..len]), None);
    assert_eq!(client.state(), State::Error(ErrorReason::ConnectionDenied));
    assert_eq!(client.generate_packet(&mut buffer), None);
    assert_eq!(client.update(), Err(NetcodeError::Disconnected));
}

#[test]
fn update_expires_times_out_and_moves_to_the_next_server() {
    let seconds = 1_000_000_000u64;
    let token = make_token(1, 3, 1, 5, vec![v4(1, 1, 1, 1, 1)], &[0u8; 256]);
    let mut client = Client::new(100 * seconds, token);
    assert_eq!(client.update(), Err(NetcodeError::Expired));
    assert_eq!(client.state(), State::Error(ErrorReason::ConnectTokenExpired));

    let token = make_token(1, 1000, 1, 5, vec![v4(1, 1, 1, 1, 1), v4(2, 2, 2, 2, 2)], &[0u8; 256]);
    let mut client = Client::new(100 * seconds, token);
    assert_eq!(client.update(), Ok(()));
    assert_eq!(client.state(), State::SendingConnectionRequest);
    assert_eq!(client.update(), Ok(()));

    let token = make_token(1, 1000, 1, 5, vec![v4(1, 1, 1, 1, 1)], &[0u8; 256]);
    let mut client = Client::new(100 * seconds, token);
    assert_eq!(client.update(), Err(NetcodeError::NoMoreServers));
    assert_eq!(client.state(), State::Error(ErrorReason::ConnectionRequestTimedOut));

    let token = make_token(1, 1000, 1, 0, vec![v4(1, 1, 1, 1, 1)], &[0u8; 256]);
    let mut client = Client::new(100 * seconds, token);
    assert_eq!(client.update(), Ok(()));
}

#[test]
fn connected_client_times_out_and_disconnects() {
    let token = make_token(3, 1000, 1, 5, vec![v4(1, 1, 1, 1, 1)], &[0u8; 256]);
    let key = token.server_to_client_key;
    let mut buffer = [0u8; NETCODE_BUFFER_SIZE];
    let mut client = Client::new(0, token);
    let challenge = Packet::Challenge(EncryptedChallengeToken { token_sequence: 1, token_data: [5; 300] });
    let len = challenge.encode(&mut buffer, 3, Some((1, &key))).unwrap();
    client.process_packet(&buffer[..len]);
    let keep_alive = Packet::KeepAlive(ConnectionKeepAlive { client_index: 0, max_clients: 1 });
    let len = keep_alive.encode(&mut buffer, 3, Some((2, &key))).unwrap();
    client.process_packet(&buffer[..len]);
    assert!(client.connected());
    assert_eq!(client.update(), Ok(()));
    let len = Packet::Disconnect.encode(&mut buffer, 3, Some((3, &key))).unwrap();
    client.process_packet(&buffer[..len]);
    assert_eq!(client.state(), State::Disconnected);
    assert_eq!(client.update(), Err(NetcodeError::Disconnected));
}
