use renet::block_channel::{BlockChannelConfig, ReceiveBlockChannel, SliceMessage};
use renet::channel_error::ChannelError;

#[test]
fn initialize_block_with_zero_slices() {
    let mut receive_channel = ReceiveBlockChannel::new(Default::default());
    let slice_message = SliceMessage { chunk_id: 0, slice_id: 0, num_slices: 0, data: vec![] };
    assert!(receive_channel.process_slice_message(&slice_message).is_err());
    assert!(!receive_channel.is_receiving());
}

fn config(slice_size: usize) -> BlockChannelConfig {
    BlockChannelConfig { slice_size, packet_budget: 30, ..Default::default() }
}

#[test]
fn slices_in_any_order_make_the_block() {
    let mut channel = ReceiveBlockChannel::new(config(10));
    let slice = |id: u32, data: Vec<u8>| SliceMessage { chunk_id: 0, slice_id: id, num_slices: 3, data };
    assert_eq!(channel.process_slice_message(&slice(2, vec![3; 4])), Ok(None));
    assert!(channel.is_receiving());
    assert_eq!(channel.process_slice_message(&slice(0, vec![1; 10])), Ok(None));
    assert_eq!(channel.process_slice_message(&slice(0, vec![1; 10])), Ok(None));
    let mut expected = vec![1u8; 10];
    expected.extend(vec![2u8; 10]);
    expected.extend(vec![3u8; 4]);
    assert_eq!(channel.process_slice_message(&slice(1, vec![2; 10])), Ok(Some(expected)));
    assert!(!channel.is_receiving());
}

#[test]
fn wrong_slices_are_refused() {
    let mut channel = ReceiveBlockChannel::new(config(10));
    let first = SliceMessage { chunk_id: 4, slice_id: 0, num_slices: 2, data: vec![1; 10] };
    assert_eq!(channel.process_slice_message(&first), Ok(None));
    // Another chunk is ignored.
    let other = SliceMessage { chunk_id: 5, slice_id: 1, num_slices: 2, data: vec![1; 10] };
    assert_eq!(channel.process_slice_message(&other), Ok(None));
    // Another number of slices is refused.
    let bad_count = SliceMessage { chunk_id: 4, slice_id: 1, num_slices: 3, data: vec![1; 10] };
    assert_eq!(channel.process_slice_message(&bad_count), Err(ChannelError::InvalidSliceMessage));
    // A last slice above the slice size is refused.
    let too_long = SliceMessage { chunk_id: 4, slice_id: 1, num_slices: 2, data: vec![1; 11] };
    assert_eq!(channel.process_slice_message(&too_long), Err(ChannelError::InvalidSliceMessage));
    // A middle slice of the wrong size is refused.
    let mut channel = ReceiveBlockChannel::new(config(10));
    let short = SliceMessage { chunk_id: 0, slice_id: 0, num_slices: 2, data: vec![1; 9] };
    assert_eq!(channel.process_slice_message(&short), Err(ChannelError::InvalidSliceMessage));
}

#[test]
fn block_above_max_size_is_refused() {
    let mut channel = ReceiveBlockChannel::new(BlockChannelConfig {
        slice_size: 10,
        packet_budget: 30,
        max_message_size: 25,
        ..Default::default()
    });
    let slice = SliceMessage { chunk_id: 0, slice_id: 0, num_slices: 3, data: vec![1; 10] };
    assert_eq!(channel.process_slice_message(&slice), Err(ChannelError::ReceivedMessageAboveMaxSize));
    assert!(!channel.is_receiving());
}

#[test]
fn process_messages_queues_blocks() {
    let mut channel = ReceiveBlockChannel::new(config(10));
    let messages = vec![
        Some(SliceMessage { chunk_id: 0, slice_id: 0, num_slices: 1, data: vec![7; 3] }),
        Some(SliceMessage { chunk_id: 1, slice_id: 0, num_slices: 1, data: vec![8; 2] }),
    ];
    channel.process_messages(messages);
    assert_eq!(channel.receive_message(), Some(vec![7; 3]));
    assert_eq!(channel.receive_message(), Some(vec![8; 2]));
    assert_eq!(channel.receive_message(), None);
    assert_eq!(channel.error(), None);

    channel.process_messages(vec![None]);
    assert_eq!(channel.error(), Some(ChannelError::FailedToSerialize));
    channel.process_messages(vec![Some(SliceMessage { chunk_id: 2, slice_id: 0, num_slices: 1, data: vec![1] })]);
    assert_eq!(channel.receive_message(), None);
}
