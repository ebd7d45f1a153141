use renet::netcode_packet::{
    decode_prefix, encode_prefix, get_additional_data, read_sequence, sequence_bytes_required,
    write_sequence, ChallengeToken, ConnectToken, ConnectionKeepAlive, ConnectionRequest,
    EncryptedChallengeToken, NetcodeError, PacketType, NETCODE_VERSION_INFO,
};
use renet::crypto::generate_random_bytes;
use renet::serialize::{read_i32, read_u16, read_u32, read_u64, read_u8, write_i32, write_u16};

#[test]
fn connection_request_serialization() {
    let connection_request = ConnectionRequest {
        xnonce: generate_random_bytes(),
        version_info: [0; 13], // "NETCODE 1.02" ASCII with null terminator.
        protocol_id: 1,
        expire_timestamp: 3,
        data: [5; 1024],
    };
    let mut buffer = Vec::new();
    connection_request.write(&mut buffer);
    let mut pos = 0;
    let deserialized = ConnectionRequest::read(buffer.as_slice(), &mut pos).unwrap();

    assert_eq!(deserialized, connection_request);
}

#[test]
fn connection_challenge_serialization() {
    let connection_challenge = EncryptedChallengeToken { token_sequence: 0, token_data: [1u8; 300] };

    let mut buffer = Vec::new();
    connection_challenge.write(&mut buffer);
    let mut pos = 0;
    let deserialized = EncryptedChallengeToken::read(buffer.as_slice(), &mut pos).unwrap();

    assert_eq!(deserialized, connection_challenge);
}

#[test]
fn encrypted_challenge_token_serialization() {
    let connection_response = EncryptedChallengeToken { token_sequence: 0, token_data: [1u8; 300] };

    let mut buffer = Vec::new();
    connection_response.write(&mut buffer);
    let mut pos = 0;
    let deserialized = EncryptedChallengeToken::read(buffer.as_slice(), &mut pos).unwrap();

    assert_eq!(deserialized, connection_response);
}

#[test]
fn connection_keep_alive_serialization() {
    let connection_keep_alive = ConnectionKeepAlive { max_clients: 2, client_index: 1 };

    let mut buffer = Vec::new();
    connection_keep_alive.write(&mut buffer);
    let mut pos = 0;
    let deserialized = ConnectionKeepAlive::read(buffer.as_slice(), &mut pos).unwrap();

    assert_eq!(deserialized, connection_keep_alive);
}

#[test]
fn prefix_sequence() {
    let packet_type = PacketType::Disconnect.id();
    let sequence = 99999;

    let mut buffer = vec![];
    write_sequence(&mut buffer, sequence);

    let prefix = encode_prefix(packet_type, sequence);
    let (d_packet_type, sequence_len) = decode_prefix(prefix);
    assert_eq!(packet_type, d_packet_type);
    assert_eq!(buffer.len(), sequence_len);

    let mut pos = 0;
    let d_sequence = read_sequence(buffer.as_slice(), &mut pos, sequence_len).unwrap();

    assert_eq!(sequence, d_sequence);
}

#[test]
fn challenge_token_serialization() {
    let token = ChallengeToken::new(7, &[3u8; 256]);
    let mut buffer = Vec::new();
    token.write(&mut buffer);
    assert_eq!(buffer.len(), 264);
    assert_eq!(&buffer[..8], &[7, 0, 0, 0, 0, 0, 0, 0]);
    let mut pos = 0;
    assert_eq!(ChallengeToken::read(buffer.as_slice(), &mut pos).unwrap(), token);
    assert_eq!(pos, 264);
}

#[test]
fn short_input_is_refused() {
    let buffer = vec![0u8; 7];
    let mut pos = 0;
    assert!(ConnectionKeepAlive::read(buffer.as_slice(), &mut pos).is_err());
    let mut pos = 0;
    assert!(EncryptedChallengeToken::read(buffer.as_slice(), &mut pos).is_err());
    let mut pos = 0;
    assert!(read_u64(buffer.as_slice(), &mut pos).is_err());
}

#[test]
fn request_from_token_copies_fields() {
    let token = ConnectToken {
        protocol_id: 12,
        create_timestamp: 1,
        expire_timestamp: 30,
        xnonce: [4; 24],
        timeout_seconds: 15,
        client_to_server_key: [1; 32],
        server_to_client_key: [2; 32],
        private_data: [8; 1024],
        server_addresses: [None; 32],
    };
    let request = ConnectionRequest::from_token(&token);
    assert_eq!(request.version_info, NETCODE_VERSION_INFO);
    assert_eq!(request.protocol_id, 12);
    assert_eq!(request.expire_timestamp, 30);
    assert_eq!(request.xnonce, [4; 24]);
    assert_eq!(request.data, [8; 1024]);
}

#[test]
fn packet_type_ids() {
    assert_eq!(PacketType::from_u8(0), Ok(PacketType::ConnectionRequest));
    assert_eq!(PacketType::from_u8(6), Ok(PacketType::Disconnect));
    assert_eq!(PacketType::from_u8(7), Err(NetcodeError::InvalidPacketType));
    assert_eq!(PacketType::KeepAlive.id(), 4);
}

#[test]
fn sequence_prefix_lengths() {
    assert_eq!(sequence_bytes_required(0), 0);
    assert_eq!(sequence_bytes_required(255), 1);
    assert_eq!(sequence_bytes_required(256), 2);
    assert_eq!(sequence_bytes_required(u64::MAX), 8);
    assert_eq!(encode_prefix(5, 256), 5 + 16 * 2);
    assert_eq!(decode_prefix(0x35), (5, 3));
}

#[test]
fn additional_data_layout() {
    let data = get_additional_data(0x12, 0x0102030405060708);
    assert_eq!(&data[..13], &NETCODE_VERSION_INFO);
    assert_eq!(&data[13..21], &[8, 7, 6, 5, 4, 3, 2, 1]);
    assert_eq!(data[21], 0x12);
}

#[test]
fn little_endian_numbers() {
    let mut buffer = Vec::new();
    write_u16(&mut buffer, 0x0102);
    write_i32(&mut buffer, -2);
    buffer.push(9);
    let mut pos = 0;
    assert_eq!(read_u16(buffer.as_slice(), &mut pos).unwrap(), 0x0102);
    assert_eq!(buffer[0], 2);
    assert_eq!(read_i32(buffer.as_slice(), &mut pos).unwrap(), -2);
    assert_eq!(read_u8(buffer.as_slice(), &mut pos).unwrap(), 9);
    let mut pos = 0;
    assert_eq!(read_u32(buffer.as_slice(), &mut pos).unwrap(), 0xfffe_0102);
}
