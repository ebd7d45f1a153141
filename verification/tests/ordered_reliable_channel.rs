use bincode::Options;
use renet::channel_error::ChannelError;
use renet::ordered_reliable_channel::{
    decode_reliable_message, PacketSent, ReceiveReliableChannel, ReliableChannelConfig, ReliableMessage,
    SendReliableChannel,
};

// Test payloads as bincode writes a small enum with the default options:
// the variant index, then its field, both as variable-length integers.
fn first() -> Vec<u8> {
    vec![1]
}

fn second(v: u8) -> Vec<u8> {
    vec![2, v]
}

fn third(v: u8) -> Vec<u8> {
    vec![3, v]
}

#[test]
fn send_receive_message() {
    let config = ReliableChannelConfig::default();
    let mut send_channel = SendReliableChannel::new(config.clone());
    let mut receive_channel = ReceiveReliableChannel::new(config);
    let sequence = 0;

    assert!(!send_channel.has_messages_to_send());
    assert_eq!(send_channel.num_messages_sent(), 0);

    let message = second(0);

    send_channel.send_message(message.clone());
    assert_eq!(send_channel.num_messages_sent(), 1);
    assert!(receive_channel.receive_message().is_none());

    let channel_data = send_channel.get_messages_to_send(u64::MAX, sequence).unwrap();
    assert_eq!(channel_data.messages.len(), 1);

    receive_channel.process_messages(channel_data.messages);
    let received_message = receive_channel.receive_message().unwrap();
    assert_eq!(received_message, message);

    assert!(send_channel.has_messages_to_send());
    send_channel.process_ack(sequence);
    assert!(!send_channel.has_messages_to_send());
}

#[test]
fn over_budget() {
    let first_message = third(0);
    let second_message = third(1);

    let message_size = bincode::options().serialized_size(&(0u16, &first_message[..])).unwrap();

    let config = ReliableChannelConfig::default();
    let mut channel = SendReliableChannel::new(config);

    channel.send_message(first_message);
    channel.send_message(second_message);

    let channel_data = channel.get_messages_to_send(message_size, 0).unwrap();
    assert_eq!(channel_data.messages.len(), 1);

    channel.process_ack(0);

    let channel_data = channel.get_messages_to_send(message_size, 1).unwrap();
    assert_eq!(channel_data.messages.len(), 1);
}

#[test]
fn resend_message() {
    let message_resend_time = 100_000_000;
    let config = ReliableChannelConfig { message_resend_time, ..Default::default() };
    let mut channel = SendReliableChannel::new(config);

    channel.send_message(first());

    let channel_data = channel.get_messages_to_send(u64::MAX, 0).unwrap();
    assert_eq!(channel_data.messages.len(), 1);

    assert!(channel.get_messages_to_send(u64::MAX, 1).is_none());
    channel.advance_time(message_resend_time);

    let channel_data = channel.get_messages_to_send(u64::MAX, 2).unwrap();
    assert_eq!(channel_data.messages.len(), 1);
}

#[test]
fn out_of_sync() {
    let send_config = ReliableChannelConfig { message_send_queue_size: 2, ..Default::default() };
    let receive_config = ReliableChannelConfig { message_receive_queue_size: 1, ..Default::default() };
    let mut send_channel = SendReliableChannel::new(send_config);
    let mut receive_channel = ReceiveReliableChannel::new(receive_config);
    let message = second(0);

    send_channel.send_message(message.clone());
    let first_channel_data = send_channel.get_messages_to_send(u64::MAX, 0).unwrap();
    send_channel.send_message(message.clone());
    let second_channel_data = send_channel.get_messages_to_send(u64::MAX, 0).unwrap();

    send_channel.send_message(message.clone());
    assert!(matches!(send_channel.error(), Some(ChannelError::ReliableChannelOutOfSync)));

    receive_channel.process_messages(first_channel_data.messages);
    receive_channel.process_messages(second_channel_data.messages);
    assert!(matches!(receive_channel.error(), Some(ChannelError::ReliableChannelOutOfSync)));
}

#[test]
fn reliable_message_bytes_round_trip() {
    let bytes = bincode::options().serialize(&(300u16, &[7u8, 8, 9][..])).unwrap();
    assert_eq!(bytes, vec![251, 44, 1, 3, 7, 8, 9]);
    let m = decode_reliable_message(&bytes).unwrap();
    assert_eq!(m, ReliableMessage { id: 300, payload: vec![7, 8, 9] });
    assert!(decode_reliable_message(&[5]).is_none());
}

#[test]
fn sent_message_carries_its_id_and_payload() {
    let mut channel = SendReliableChannel::new(ReliableChannelConfig::default());
    channel.send_message(vec![10, 20]);
    channel.send_message(vec![30]);
    let data = channel.get_messages_to_send(u64::MAX, 5).unwrap();
    assert_eq!(data.channel_id, 0);
    assert_eq!(data.messages, vec![vec![0, 2, 10, 20], vec![1, 1, 30]]);
}

#[test]
fn messages_received_in_order() {
    let mut send = SendReliableChannel::new(ReliableChannelConfig::default());
    let mut receive = ReceiveReliableChannel::new(ReliableChannelConfig::default());
    send.send_message(vec![1]);
    send.send_message(vec![2]);
    let mut data = send.get_messages_to_send(u64::MAX, 0).unwrap();
    data.messages.reverse();
    receive.process_messages(data.messages);
    assert_eq!(receive.receive_message(), Some(vec![1]));
    assert_eq!(receive.receive_message(), Some(vec![2]));
    assert_eq!(receive.receive_message(), None);
}

#[test]
fn later_message_waits_for_the_earlier_one() {
    let mut receive = ReceiveReliableChannel::new(ReliableChannelConfig::default());
    receive.process_messages(vec![vec![1, 1, 9]]);
    assert_eq!(receive.receive_message(), None);
    receive.process_messages(vec![vec![0, 1, 8]]);
    assert_eq!(receive.receive_message(), Some(vec![8]));
    assert_eq!(receive.receive_message(), Some(vec![9]));
}

#[test]
fn unreadable_message_stops_the_channel() {
    let mut receive = ReceiveReliableChannel::new(ReliableChannelConfig::default());
    receive.process_messages(vec![vec![0, 5]]);
    assert_eq!(receive.error(), Some(ChannelError::FailedToSerialize));
    assert_eq!(receive.receive_message(), None);
}

#[test]
fn oversized_messages() {
    let config = ReliableChannelConfig { max_message_size: 2, ..Default::default() };
    let mut send = SendReliableChannel::new(config.clone());
    send.send_message(vec![1, 2, 3]);
    assert_eq!(send.error(), Some(ChannelError::SentMessageAboveMaxSize));
    let mut receive = ReceiveReliableChannel::new(config);
    receive.process_messages(vec![vec![0, 3, 1, 2, 3]]);
    assert_eq!(receive.error(), Some(ChannelError::ReceivedMessageAboveMaxSize));
}

#[test]
fn second_ack_of_a_packet_changes_nothing() {
    let mut send = SendReliableChannel::new(ReliableChannelConfig::default());
    send.send_message(vec![1]);
    send.get_messages_to_send(u64::MAX, 3).unwrap();
    send.process_ack(3);
    assert!(!send.has_messages_to_send());
    send.process_ack(3);
    send.process_ack(4);
    assert!(!send.has_messages_to_send());
    assert!(send.can_send_message());
}

#[test]
fn window_check_beyond_sixteen_bits_is_refused() {
    let mut receive = ReceiveReliableChannel::new(ReliableChannelConfig {
        message_receive_queue_size: 65536,
        ..Default::default()
    });
    assert!(!receive.try_process_messages(vec![vec![0, 1, 4]]));
    assert_eq!(receive.receive_message(), None);
    assert!(receive.try_process_messages(vec![vec![0, 9]]));
    assert_eq!(receive.error(), Some(ChannelError::FailedToSerialize));
}

#[test]
fn packet_sent_starts_unacknowledged() {
    let p = PacketSent::new(vec![4, 5]);
    assert!(!p.acked);
    assert_eq!(p.messages_id, vec![4, 5]);
}

#[test]
fn reliable_message_reading_follows_bincode() {
    // A small id may come with a wider marker.
    let m = decode_reliable_message(&[251, 5, 0, 1, 9]).unwrap();
    assert_eq!(m, ReliableMessage { id: 5, payload: vec![9] });
    // Bytes after the payload are refused.
    assert!(decode_reliable_message(&[0, 1, 9, 9]).is_none());
    // An id beyond 16 bits is refused.
    assert!(decode_reliable_message(&[252, 0, 0, 1, 0, 0]).is_none());
    // A payload shorter than its length is refused.
    assert!(decode_reliable_message(&[0, 3, 1]).is_none());
}
