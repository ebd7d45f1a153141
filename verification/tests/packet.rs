use renet::packet::{Packet, SerializationError, Slice, SLICE_SIZE};

fn roundtrip(packet: &Packet) -> Packet {
    let bytes = packet.to_bytes(1300).unwrap();
    Packet::from_bytes(&bytes).unwrap()
}

#[test]
fn packet_serialize_small_reliable_packet() {
    let packet = Packet::SmallReliable {
        sequence: 0,
        channel_id: 0,
        messages: vec![(0, vec![0, 0, 0]), (1, vec![1, 1, 1]), (2, vec![2, 2, 2])],
    };
    assert_eq!(packet, roundtrip(&packet));
}

#[test]
fn packet_serialize_small_unreliable_packet() {
    let packet = Packet::SmallUnreliable {
        sequence: 0,
        channel_id: 0,
        messages: vec![vec![0, 0, 0], vec![1, 1, 1], vec![2, 2, 2]],
    };
    assert_eq!(packet, roundtrip(&packet));
}

#[test]
fn serialize_reliable_slice_packet() {
    let packet = Packet::ReliableSlice {
        sequence: 0,
        channel_id: 0,
        slice: Slice { message_id: 0, slice_index: 0, num_slices: 1, payload: vec![5; SLICE_SIZE] },
    };
    assert_eq!(packet, roundtrip(&packet));
}

#[test]
fn serialize_unreliable_slice_packet() {
    let packet = Packet::UnreliableSlice {
        sequence: 0,
        channel_id: 0,
        slice: Slice { message_id: 0, slice_index: 0, num_slices: 1, payload: vec![5; SLICE_SIZE] },
    };
    assert_eq!(packet, roundtrip(&packet));
}

#[test]
fn packet_serialize_ack_packet() {
    let packet = Packet::Ack { sequence: 0, ack_ranges: vec![3..7, 10..20, 30..100] };
    assert_eq!(packet, roundtrip(&packet));
}

#[test]
fn ack_packet_wire_form() {
    let packet = Packet::Ack { sequence: 5, ack_ranges: vec![10..20, 30..100] };
    let bytes = packet.to_bytes(1300).unwrap();
    // type, sequence, end of last range (99, two bytes), its size minus one (69, two bytes),
    // one more range, gap 9, size minus one 9.
    assert_eq!(bytes, vec![4, 5, 0x40, 99, 0x40, 69, 1, 9, 9]);
    assert_eq!(packet.sequence(), 5);
}

#[test]
fn varint_forms_of_sequence() {
    let packet = Packet::SmallUnreliable { sequence: 16384, channel_id: 3, messages: vec![] };
    let bytes = packet.to_bytes(1300).unwrap();
    assert_eq!(bytes, vec![1, 0x80, 0, 0x40, 0, 3, 0, 0]);
    assert_eq!(roundtrip(&packet), packet);
}

#[test]
fn buffer_too_short_when_writing() {
    let packet = Packet::SmallUnreliable { sequence: 1, channel_id: 0, messages: vec![vec![1; 100]] };
    assert_eq!(packet.to_bytes(50), Err(SerializationError::BufferTooShort));
    assert!(packet.to_bytes(107).is_ok());
    assert_eq!(packet.to_bytes(106), Err(SerializationError::BufferTooShort));
}

#[test]
fn read_errors() {
    assert_eq!(Packet::from_bytes(&[]), Err(SerializationError::BufferTooShort));
    assert_eq!(Packet::from_bytes(&[9]), Err(SerializationError::InvalidPacketType));
    // A small packet announcing one message that is not there.
    assert_eq!(Packet::from_bytes(&[0, 0, 0, 0, 1]), Err(SerializationError::BufferTooShort));
    // A reliable slice with zero slices.
    assert_eq!(Packet::from_bytes(&[2, 0, 0, 0, 0, 0, 1, 7]), Err(SerializationError::InvalidNumSlices));
    // A reliable slice with an empty payload.
    assert_eq!(Packet::from_bytes(&[2, 0, 0, 0, 0, 1, 0]), Err(SerializationError::EmptySlice));
    // An unreliable slice may be empty.
    assert!(Packet::from_bytes(&[3, 0, 0, 0, 0, 1, 0]).is_ok());
    // An ack whose first range is bigger than its end.
    assert_eq!(Packet::from_bytes(&[4, 0, 1, 2, 0]), Err(SerializationError::InvalidAckRange));
    // An ack whose next range would start below zero.
    assert_eq!(Packet::from_bytes(&[4, 0, 1, 0, 1, 5, 0]), Err(SerializationError::InvalidAckRange));
}

#[test]
fn reliable_slice_above_limit() {
    let mut bytes = vec![2, 0, 0, 0, 0, 1, 0x44, 0xb1];
    bytes.extend(vec![1u8; SLICE_SIZE + 1]);
    assert_eq!(Packet::from_bytes(&bytes), Err(SerializationError::SliceSizeAboveLimit));
}
