use bincode::Options;
use renet::block_channel::{BlockChannelConfig, ReceiveBlockChannel, SliceMessage};
use renet::channel_error::ChannelError;
use renet::send_block_channel::{decode_slice_message, encode_slice_message, SendBlockChannel};

fn decode(messages: Vec<Vec<u8>>) -> Vec<Option<SliceMessage>> {
    messages
        .iter()
        .map(|m| {
            bincode::options()
                .deserialize::<(u16, u32, u32, Vec<u8>)>(m)
                .ok()
                .map(|(chunk_id, slice_id, num_slices, data)| SliceMessage { chunk_id, slice_id, num_slices, data })
        })
        .collect()
}

#[test]
fn split_chunk() {
    const SLICE_SIZE: usize = 10;
    let config = BlockChannelConfig { slice_size: SLICE_SIZE, packet_budget: 30, ..Default::default() };
    let mut send_channel = SendBlockChannel::new(config.clone());
    let mut receive_channel = ReceiveBlockChannel::new(config);
    let message = vec![255u8; 30];
    send_channel.send_message(message.clone());

    let slice_messages = send_channel.generate_slice_packets(u64::MAX).unwrap();
    assert_eq!(slice_messages.len(), 2);
    send_channel.process_ack(0);
    send_channel.process_ack(1);

    for slice_message in slice_messages.into_iter() {
        receive_channel.process_slice_message(&slice_message).unwrap();
    }

    let last_message = send_channel.generate_slice_packets(u64::MAX).unwrap();
    let result = receive_channel.process_slice_message(&last_message[0]);
    assert_eq!(message, result.unwrap().unwrap());
}

#[test]
fn block_chunk() {
    let config = BlockChannelConfig::default();
    let mut send_channel = SendBlockChannel::new(config.clone());
    let mut receive_channel = ReceiveBlockChannel::new(config);

    let payload = vec![7u8; 102400];

    send_channel.send_message(payload.clone());
    let mut sequence = 0;

    loop {
        let channel_data = send_channel.get_messages_to_send(1600, sequence);
        match channel_data {
            None => break,
            Some(data) => {
                receive_channel.process_messages(decode(data.messages));
                send_channel.process_ack(sequence);
                sequence += 1;
            }
        }
    }

    let received_payload = receive_channel.receive_message().unwrap();
    assert_eq!(payload, received_payload);
}

#[test]
fn block_channel_queue() {
    let config = BlockChannelConfig { resend_time: 0, ..Default::default() };
    let mut send_channel = SendBlockChannel::new(config.clone());
    let mut receive_channel = ReceiveBlockChannel::new(config);

    let first_message = vec![3; 2000];
    let second_message = vec![5; 2000];
    send_channel.send_message(first_message.clone());
    send_channel.send_message(second_message.clone());

    // First message
    let block_channel_data = send_channel.get_messages_to_send(u64::MAX, 0).unwrap();
    assert!(!block_channel_data.messages.is_empty());
    receive_channel.process_messages(decode(block_channel_data.messages));
    let received_first_message = receive_channel.receive_message().unwrap();
    assert_eq!(first_message, received_first_message);
    send_channel.process_ack(0);

    // Second message
    let block_channel_data = send_channel.get_messages_to_send(u64::MAX, 1).unwrap();
    assert!(!block_channel_data.messages.is_empty());
    receive_channel.process_messages(decode(block_channel_data.messages));
    let received_second_message = receive_channel.receive_message().unwrap();
    assert_eq!(second_message, received_second_message);
    send_channel.process_ack(1);

    // Check there is no message to send
    assert!(!send_channel.is_sending());
}

#[test]
fn acking_packet_with_old_chunk_id() {
    let config = BlockChannelConfig { resend_time: 0, ..Default::default() };
    let mut send_channel = SendBlockChannel::new(config);
    let first_message = vec![5; 400 * 3];
    let second_message = vec![3; 400];
    send_channel.send_message(first_message);
    send_channel.send_message(second_message);

    let _ = send_channel.get_messages_to_send(u64::MAX, 0).unwrap();
    let _ = send_channel.get_messages_to_send(u64::MAX, 1).unwrap();

    send_channel.process_ack(0);
    let _ = send_channel.get_messages_to_send(u64::MAX, 2).unwrap();

    send_channel.process_ack(1);
    assert!(send_channel.is_sending());

    send_channel.process_ack(2);
    assert!(!send_channel.is_sending());
}

#[test]
fn slice_messages_wire_form_and_resend() {
    let config = BlockChannelConfig { slice_size: 300, packet_budget: 1000, resend_time: 50, ..Default::default() };
    let mut channel = SendBlockChannel::new(config);
    channel.send_message(vec![1u8; 700]);
    let data = channel.get_messages_to_send(2000, 9).unwrap();
    assert_eq!(data.channel_id, 2);
    assert_eq!(data.messages.len(), 3);
    // chunk 0, slice 0, 3 slices, 300 bytes: 300 takes a marker and two bytes.
    assert_eq!(&data.messages[0][..6], &[0, 0, 3, 251, 44, 1]);
    assert_eq!(data.messages[0].len(), 6 + 300);
    assert_eq!(data.messages[2].len(), 4 + 100);
    // Timers have not run out: nothing to send.
    assert!(channel.get_messages_to_send(2000, 10).is_none());
    channel.advance_time(50);
    let again = channel.get_messages_to_send(2000, 11).unwrap();
    assert_eq!(again.messages.len(), 3);
    channel.process_ack(11);
    assert!(!channel.is_sending());
    channel.process_ack(9);
    assert_eq!(channel.error(), None);
}

#[test]
fn send_errors() {
    let config = BlockChannelConfig { max_message_size: 1000, message_send_queue_size: 1, ..Default::default() };
    let mut channel = SendBlockChannel::new(config.clone());
    channel.send_message(vec![0; 1001]);
    assert_eq!(channel.error(), Some(ChannelError::SentMessageAboveMaxSize));

    let mut channel = SendBlockChannel::new(config);
    channel.send_message(vec![0; 10]);
    assert!(channel.can_send_message());
    channel.send_message(vec![0; 10]);
    assert!(!channel.can_send_message());
    channel.send_message(vec![0; 10]);
    assert_eq!(channel.error(), Some(ChannelError::SendQueueFull));
}

#[test]
fn slice_message_bytes_round_trip() {
    let m = SliceMessage { chunk_id: 300, slice_id: 70000, num_slices: 2, data: vec![1, 2, 3] };
    let bytes = encode_slice_message(&m);
    assert_eq!(bytes, vec![251, 44, 1, 252, 0x70, 0x11, 1, 0, 2, 3, 1, 2, 3]);
    let back = decode_slice_message(&bytes).unwrap();
    assert_eq!((back.chunk_id, back.slice_id, back.num_slices, back.data), (300, 70000, 2, vec![1, 2, 3]));
    assert!(decode_slice_message(&[0, 0, 0, 2, 1]).is_none());
    assert!(decode_slice_message(&[252, 0, 0, 1, 0, 0, 0, 0]).is_none());
}

#[test]
fn block_channel_takes_payloads() {
    let mut channel = ReceiveBlockChannel::new(BlockChannelConfig { slice_size: 10, ..Default::default() });
    let a = encode_slice_message(&SliceMessage { chunk_id: 0, slice_id: 1, num_slices: 2, data: vec![2; 4] });
    let b = encode_slice_message(&SliceMessage { chunk_id: 0, slice_id: 0, num_slices: 2, data: vec![1; 10] });
    channel.process_payloads(vec![a, b]);
    assert_eq!(channel.receive_message().unwrap().len(), 14);
    channel.process_payloads(vec![vec![9]]);
    assert_eq!(channel.error(), Some(ChannelError::FailedToSerialize));
}
