use renet::block_channel::{BlockChannelConfig, ReceiveBlockChannel, SliceMessage};
use renet::channel_error::ChannelError;
use renet::error::ChannelError as ConnectionChannelError;
use renet::netcode_packet::{IoError, NetcodeError, Packet as NetcodePacket};
use renet::packet::{Slice, SLICE_SIZE};
use renet::reliable_channel::ReceiveChannelReliable;
use renet::unreliable_channel::ReceiveChannelUnreliable;

fn slice(message_id: u64, slice_index: usize, num_slices: usize, len: usize) -> Slice {
    Slice { message_id, slice_index, num_slices, payload: vec![7; len] }
}

#[test]
fn reliable_slice_with_another_count_is_refused() {
    let mut recv = ReceiveChannelReliable::new(1_000_000, true);
    recv.process_slice(slice(0, 0, 3, SLICE_SIZE)).unwrap();
    assert_eq!(
        recv.process_slice(slice(0, 1, 2, SLICE_SIZE)),
        Err(ConnectionChannelError::InvalidSliceMessage)
    );
    recv.process_slice(slice(0, 1, 3, SLICE_SIZE)).unwrap();
    recv.process_slice(slice(0, 2, 3, 5)).unwrap();
    assert_eq!(recv.receive_message().unwrap().len(), 2 * SLICE_SIZE + 5);
}

#[test]
fn reliable_slice_without_slices_or_past_the_end_is_refused() {
    let mut recv = ReceiveChannelReliable::new(1_000_000, true);
    assert_eq!(recv.process_slice(slice(0, 0, 0, 1)), Err(ConnectionChannelError::InvalidSliceMessage));
    assert_eq!(recv.process_slice(slice(0, 4, 2, SLICE_SIZE)), Err(ConnectionChannelError::InvalidSliceMessage));
    assert_eq!(recv.process_slice(slice(0, 0, usize::MAX, SLICE_SIZE)), Err(ConnectionChannelError::InvalidSliceMessage));
    assert!(recv.receive_message().is_none());
}

#[test]
fn unreliable_slice_with_another_count_is_refused() {
    let mut recv = ReceiveChannelUnreliable::new(0, 1_000_000);
    recv.process_slice(slice(0, 0, 2, SLICE_SIZE), 0).unwrap();
    assert_eq!(recv.process_slice(slice(0, 1, 3, SLICE_SIZE), 0), Err(ConnectionChannelError::InvalidSliceMessage));
    assert_eq!(recv.process_slice(slice(1, 5, 2, SLICE_SIZE), 0), Err(ConnectionChannelError::InvalidSliceMessage));
    recv.process_slice(slice(0, 1, 2, 3), 0).unwrap();
    assert_eq!(recv.receive_message().unwrap().len(), SLICE_SIZE + 3);
}

#[test]
fn block_slice_past_the_end_is_refused() {
    let config = BlockChannelConfig { slice_size: 10, ..Default::default() };
    let mut channel = ReceiveBlockChannel::new(config);
    let m = SliceMessage { chunk_id: 0, slice_id: 5, num_slices: 2, data: vec![1; 10] };
    assert_eq!(channel.process_slice_message(&m), Err(ChannelError::InvalidSliceMessage));
    let first = SliceMessage { chunk_id: 0, slice_id: 0, num_slices: 2, data: vec![1; 10] };
    assert_eq!(channel.process_slice_message(&first), Ok(None));
    assert_eq!(channel.process_slice_message(&m), Err(ChannelError::InvalidSliceMessage));
    let last = SliceMessage { chunk_id: 0, slice_id: 1, num_slices: 2, data: vec![2; 3] };
    assert_eq!(channel.process_slice_message(&last).unwrap().unwrap().len(), 13);
}

#[test]
fn block_messages_with_a_bad_slice_stop_the_channel() {
    let config = BlockChannelConfig { slice_size: 10, ..Default::default() };
    let mut channel = ReceiveBlockChannel::new(config);
    channel.process_messages(vec![Some(SliceMessage { chunk_id: 0, slice_id: 3, num_slices: 1, data: vec![0; 10] })]);
    assert_eq!(channel.error(), Some(ChannelError::InvalidSliceMessage));
}

#[test]
fn netcode_packet_with_a_long_sequence_is_refused() {
    let key = [0u8; 32];
    let mut buffer = vec![0u8; 40];
    buffer[0] = (9 << 4) | 5;
    assert_eq!(
        NetcodePacket::decode(&buffer, 0, Some(&key)).err(),
        Some(NetcodeError::IoError(IoError::InvalidData))
    );
}
