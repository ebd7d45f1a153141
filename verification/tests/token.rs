use renet::crypto::generate_random_bytes;
use renet::netcode_packet::{IoError, TokenGenerationError};
use renet::token::{PrivateConnectToken, ServerAddress};

fn v4(a: u8, b: u8, c: u8, d: u8, port: u16) -> ServerAddress {
    ServerAddress::V4 { ip: [a, b, c, d], port }
}

#[test]
fn private_connect_token_serialization() {
    let hosts: Vec<ServerAddress> = vec![v4(127, 0, 0, 1, 8080), v4(127, 0, 0, 2, 3000)];
    let token = PrivateConnectToken::generate(1, 5, hosts, Some(&generate_random_bytes())).unwrap();
    let mut buffer: Vec<u8> = vec![];

    token.write(&mut buffer);
    let result = PrivateConnectToken::read(buffer.as_slice()).unwrap();

    assert_eq!(token, result);
}

#[test]
fn token_wire_layout() {
    let user_data = [9u8; 256];
    let token = PrivateConnectToken::generate(0x0102, -1, vec![v4(10, 0, 0, 1, 0x1234)], Some(&user_data)).unwrap();
    assert_eq!(token.user_data, user_data);
    assert_eq!(token.server_addresses[0], Some(v4(10, 0, 0, 1, 0x1234)));
    assert_eq!(token.server_addresses[1], None);
    let mut buffer = vec![];
    token.write(&mut buffer);
    assert_eq!(buffer.len(), 8 + 4 + 4 + 7 + 32 + 32 + 256);
    assert_eq!(&buffer[0..8], &[2, 1, 0, 0, 0, 0, 0, 0]);
    assert_eq!(&buffer[8..12], &[0xff, 0xff, 0xff, 0xff]);
    assert_eq!(&buffer[12..16], &[1, 0, 0, 0]);
    assert_eq!(&buffer[16..23], &[1, 10, 0, 0, 1, 0x34, 0x12]);
    assert_eq!(&buffer[23..55], &token.client_to_server_key);
    assert_eq!(&buffer[87..343], &user_data[..]);
}

#[test]
fn ipv6_addresses_round_trip() {
    let ip6 = ServerAddress::V6 { ip: [1, 2, 3, 4, 5, 6, 7, 8, 9, 10, 11, 12, 13, 14, 15, 16], port: 443 };
    let token = PrivateConnectToken::generate(77, 30, vec![ip6, v4(1, 1, 1, 1, 53)], None).unwrap();
    let mut buffer = vec![];
    token.write(&mut buffer);
    assert_eq!(buffer[16], 2);
    assert_eq!(buffer.len(), 8 + 4 + 4 + 19 + 7 + 320);
    buffer.extend_from_slice(&[0xaa; 5]);
    let read = PrivateConnectToken::read(&buffer).unwrap();
    assert_eq!(read, token);
}

#[test]
fn too_many_hosts() {
    let hosts: Vec<ServerAddress> = (0..33).map(|i| v4(10, 0, 0, i as u8, 1000)).collect();
    assert_eq!(
        PrivateConnectToken::generate(1, 5, hosts, None).unwrap_err(),
        TokenGenerationError::MaxHostCount
    );
    let hosts: Vec<ServerAddress> = (0..32).map(|i| v4(10, 0, 0, i as u8, 1000)).collect();
    let token = PrivateConnectToken::generate(1, 5, hosts, None).unwrap();
    assert_eq!(token.server_addresses[31], Some(v4(10, 0, 0, 31, 1000)));
}

#[test]
fn read_errors_and_skipped_entries() {
    let token = PrivateConnectToken::generate(3, 5, vec![v4(127, 0, 0, 1, 1)], Some(&[1u8; 256])).unwrap();
    let mut buffer = vec![];
    token.write(&mut buffer);

    assert_eq!(PrivateConnectToken::read(&buffer[..10]), Err(IoError::UnexpectedEof));
    assert_eq!(PrivateConnectToken::read(&buffer[..buffer.len() - 1]), Err(IoError::UnexpectedEof));

    let mut bad_type = buffer.clone();
    bad_type[16] = 3;
    assert_eq!(PrivateConnectToken::read(&bad_type), Err(IoError::InvalidData));

    // Two entries: a skipped one and the address; the address lands in the second slot.
    let mut skipped = buffer[..16].to_vec();
    skipped[12] = 2;
    skipped.push(0);
    skipped.extend_from_slice(&buffer[16..]);
    let read = PrivateConnectToken::read(&skipped).unwrap();
    assert_eq!(read.server_addresses[0], None);
    assert_eq!(read.server_addresses[1], Some(v4(127, 0, 0, 1, 1)));
    assert_eq!(read.client_to_server_key, token.client_to_server_key);
}
