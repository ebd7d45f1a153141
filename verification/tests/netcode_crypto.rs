use renet::crypto::{dencrypted_in_place, encrypt_in_place, generate_random_bytes, CryptoError};
use renet::netcode_packet::{
    ChallengeToken, ConnectionKeepAlive, ConnectionRequest, EncryptedChallengeToken, IoError,
    NetcodeError, Packet, NETCODE_BUFFER_SIZE, NETCODE_MAX_PACKET_SIZE,
};

#[test]
fn test_encrypt_decrypt_in_place() {
    let key = b"an example very very secret key."; // 32-bytes
    let sequence = 2;
    let aad = b"test";

    let mut data = b"some packet data".to_vec();

    let tag = encrypt_in_place(&mut data, sequence, &key, aad).unwrap();
    dencrypted_in_place(&mut data, sequence, &key, aad, &tag).unwrap();
    assert_eq!(&data, b"some packet data");
}

#[test]
fn encrypt_decrypt_disconnect_packet() {
    let mut buffer = [0u8; NETCODE_BUFFER_SIZE];
    let key = b"an example very very secret key."; // 32-bytes
    let packet = Packet::Disconnect;
    let protocol_id = 12;
    let sequence = 1;
    let len = packet.encode(&mut buffer, protocol_id, Some((sequence, key))).unwrap();
    let (d_sequence, d_packet) = Packet::decode(&buffer[..len], protocol_id, Some(&key)).unwrap();
    assert_eq!(sequence, d_sequence);
    assert_eq!(packet, d_packet);
}

#[test]
fn encrypt_decrypt_denied_packet() {
    let mut buffer = [0u8; NETCODE_BUFFER_SIZE];
    let key = b"an example very very secret key."; // 32-bytes
    let packet = Packet::ConnectionDenied;
    let protocol_id = 12;
    let sequence = 2;
    let len = packet.encode(&mut buffer, protocol_id, Some((sequence, key))).unwrap();
    let (d_sequence, d_packet) = Packet::decode(&buffer[..len], protocol_id, Some(&key)).unwrap();
    assert_eq!(sequence, d_sequence);
    assert_eq!(packet, d_packet);
}

#[test]
fn encrypt_decrypt_payload_packet() {
    let mut buffer = [0u8; NETCODE_BUFFER_SIZE];
    let payload = vec![7u8; NETCODE_MAX_PACKET_SIZE];
    let key = b"an example very very secret key."; // 32-bytes
    let packet = Packet::Payload(payload.clone());
    let protocol_id = 12;
    let sequence = 2;
    let len = packet.encode(&mut buffer, protocol_id, Some((sequence, key))).unwrap();
    let (d_sequence, d_packet) = Packet::decode(&buffer[..len], protocol_id, Some(&key)).unwrap();
    assert_eq!(sequence, d_sequence);
    match d_packet {
        Packet::Payload(ref p) => assert_eq!(&payload, p),
        _ => unreachable!(),
    }
    assert_eq!(packet, d_packet);
}

#[test]
fn encrypt_decrypt_challenge_token() {
    let client_id = 0;
    let user_data = generate_random_bytes();
    let challenge_key = generate_random_bytes();
    let challenge_sequence = 1;
    let token = ChallengeToken::new(client_id, &user_data);
    let connection_challenge =
        EncryptedChallengeToken::generate(client_id, &user_data, challenge_sequence, &challenge_key).unwrap();

    let decoded = connection_challenge.decode(&challenge_key).unwrap();
    assert_eq!(decoded, token);
}

#[test]
fn encryption_changes_the_bytes_and_checks_the_tag() {
    let key = b"an example very very secret key.";
    let mut data = b"some packet data".to_vec();
    let tag = encrypt_in_place(&mut data, 5, &key, b"aad").unwrap();
    assert_ne!(&data, b"some packet data");
    let mut tampered = data.clone();
    tampered[0] ^= 1;
    let before = tampered.clone();
    assert_eq!(dencrypted_in_place(&mut tampered, 5, &key, b"aad", &tag), Err(CryptoError));
    assert_eq!(tampered, before);
    assert_eq!(dencrypted_in_place(&mut data.clone(), 6, &key, b"aad", &tag), Err(CryptoError));
    assert_eq!(dencrypted_in_place(&mut data.clone(), 5, &key, b"other", &tag), Err(CryptoError));
    dencrypted_in_place(&mut data, 5, &key, b"aad", &tag).unwrap();
    assert_eq!(&data, b"some packet data");
}

#[test]
fn keep_alive_and_challenge_packets_round_trip() {
    let key = b"an example very very secret key.";
    let mut buffer = [0u8; NETCODE_BUFFER_SIZE];
    let keep_alive = Packet::KeepAlive(ConnectionKeepAlive { client_index: 2, max_clients: 4 });
    let len = keep_alive.encode(&mut buffer, 3, Some((300, key))).unwrap();
    assert_eq!(len, 1 + 2 + 8 + 16);
    assert_eq!(buffer[0], 4 | (2 << 4));
    let (sequence, packet) = Packet::decode(&buffer[..len], 3, Some(key)).unwrap();
    assert_eq!(sequence, 300);
    assert_eq!(packet, keep_alive);

    let challenge = Packet::Challenge(EncryptedChallengeToken { token_sequence: 9, token_data: [3u8; 300] });
    let len = challenge.encode(&mut buffer, 3, Some((1, key))).unwrap();
    assert_eq!(len, 1 + 1 + 308 + 16);
    let (_, packet) = Packet::decode(&buffer[..len], 3, Some(key)).unwrap();
    assert_eq!(packet, challenge);
}

#[test]
fn connection_request_goes_in_the_clear() {
    let request = ConnectionRequest {
        version_info: [1; 13],
        protocol_id: 7,
        expire_timestamp: 8,
        xnonce: [2; 24],
        data: [3; 1024],
    };
    let packet = Packet::ConnectionRequest(request);
    let mut buffer = [0u8; NETCODE_BUFFER_SIZE + 100];
    let len = packet.encode(&mut buffer, 7, None).unwrap();
    assert_eq!(len, 1078);
    assert_eq!(buffer[0], 0);
    assert_eq!(&buffer[1..14], &[1u8; 13]);
    let (sequence, decoded) = Packet::decode(&buffer[..len], 7, None).unwrap();
    assert_eq!(sequence, 0);
    assert_eq!(decoded, packet);

    let mut small = [0u8; 100];
    assert_eq!(packet.encode(&mut small, 7, None), Err(NetcodeError::IoError(IoError::WriteZero)));
    assert_eq!(
        Packet::decode(&buffer[..100], 7, None),
        Err(NetcodeError::IoError(IoError::UnexpectedEof))
    );
}

#[test]
fn decode_errors() {
    let key = b"an example very very secret key.";
    let other = b"another example very secret key.";
    let mut buffer = [0u8; NETCODE_BUFFER_SIZE];
    assert_eq!(Packet::Disconnect.encode(&mut buffer, 1, None), Err(NetcodeError::InvalidPrivateKey));
    assert_eq!(Packet::decode(&buffer[..17], 1, Some(key)), Err(NetcodeError::PacketTooSmall));

    let len = Packet::Payload(vec![1, 2, 3]).encode(&mut buffer, 1, Some((77, key))).unwrap();
    assert_eq!(Packet::decode(&buffer[..len], 1, None), Err(NetcodeError::InvalidPrivateKey));
    assert_eq!(Packet::decode(&buffer[..len], 1, Some(other)), Err(NetcodeError::CryptoError));
    assert_eq!(Packet::decode(&buffer[..len], 2, Some(key)), Err(NetcodeError::CryptoError));
    buffer[3] ^= 0x80;
    assert_eq!(Packet::decode(&buffer[..len], 1, Some(key)), Err(NetcodeError::CryptoError));

    let mut small = [0u8; 20];
    assert_eq!(
        Packet::Payload(vec![0; 10]).encode(&mut small, 1, Some((1, key))),
        Err(NetcodeError::IoError(IoError::WriteZero))
    );
}

#[test]
fn challenge_token_with_wrong_key_is_refused() {
    let user_data = [4u8; 256];
    let key = [1u8; 32];
    let token = EncryptedChallengeToken::generate(11, &user_data, 3, &key).unwrap();
    assert_eq!(token.token_sequence, 3);
    assert_eq!(token.decode(&[2u8; 32]), Err(NetcodeError::CryptoError));
    let decoded = token.decode(&key).unwrap();
    assert_eq!(decoded.client_id, 11);
    assert_eq!(decoded.user_data, user_data);
}
