use renet::channel_error::ChannelError;
use renet::lossy_channel::{ReceiveUnreliableChannel, SendUnreliableChannel, UnreliableChannelConfig};

#[test]
fn send_receive_unreliable_message() {
    let current_time = 0;
    let config = UnreliableChannelConfig { sequenced: false, ..Default::default() };
    let mut send_channel = SendUnreliableChannel::new(config.clone());
    let mut receive_channel = ReceiveUnreliableChannel::new(config);
    let sequence = 0;

    // Send first message
    let first_message = vec![0];
    send_channel.send_message(first_message.clone());
    let first_channel_data = send_channel.get_messages_to_send(u64::MAX, sequence, current_time).unwrap();
    assert_eq!(first_channel_data.messages.len(), 1);

    // Send second message
    let second_message = vec![1];
    send_channel.send_message(second_message.clone());
    let second_channel_data = send_channel.get_messages_to_send(u64::MAX, sequence + 1, current_time).unwrap();
    assert_eq!(second_channel_data.messages.len(), 1);

    // Process and receive second message
    receive_channel.process_messages(second_channel_data.messages);
    let received_message = receive_channel.receive_message().unwrap();
    assert_eq!(received_message, second_message);

    // Process and receive first message
    receive_channel.process_messages(first_channel_data.messages);
    let received_message = receive_channel.receive_message().unwrap();
    assert_eq!(received_message, first_message);
}

#[test]
fn send_receive_sequenced_message() {
    let current_time = 0;
    let config = UnreliableChannelConfig { sequenced: true, ..Default::default() };
    let mut send_channel = SendUnreliableChannel::new(config.clone());
    let mut receive_channel = ReceiveUnreliableChannel::new(config);
    let sequence = 0;

    // Send first message
    let first_message = vec![0];
    send_channel.send_message(first_message);
    let first_channel_data = send_channel.get_messages_to_send(u64::MAX, sequence, current_time).unwrap();
    assert_eq!(first_channel_data.messages.len(), 1);

    // Send second message
    let second_message = vec![1];
    send_channel.send_message(second_message.clone());
    let second_channel_data = send_channel.get_messages_to_send(u64::MAX, sequence + 1, current_time).unwrap();
    assert_eq!(second_channel_data.messages.len(), 1);

    // Process and receive second message
    receive_channel.process_messages(second_channel_data.messages);
    let received_message = receive_channel.receive_message().unwrap();
    assert_eq!(received_message, second_message);

    // Process and don't receive first message
    receive_channel.process_messages(first_channel_data.messages);
    let received_message = receive_channel.receive_message();
    assert!(received_message.is_none());
}

#[test]
fn sequenced_messages_carry_their_id() {
    let config = UnreliableChannelConfig { sequenced: true, ..Default::default() };
    let mut send = SendUnreliableChannel::new(config);
    send.send_message(vec![7]);
    send.send_message(vec![8, 9]);
    let data = send.get_messages_to_send(u64::MAX, 0, 0).unwrap();
    assert_eq!(data.channel_id, 1);
    assert_eq!(data.messages, vec![vec![0, 1, 7], vec![1, 2, 8, 9]]);
}

#[test]
fn message_that_does_not_fit_is_dropped() {
    let mut send = SendUnreliableChannel::new(UnreliableChannelConfig::default());
    send.send_message(vec![1, 2, 3]);
    send.send_message(vec![4]);
    send.send_message(vec![5, 6]);
    let data = send.get_messages_to_send(3, 0, 0).unwrap();
    assert_eq!(data.messages, vec![vec![1, 2, 3]]);
    assert!(send.get_messages_to_send(u64::MAX, 1, 0).is_none());
}

#[test]
fn full_send_queue_stops_the_channel() {
    let config = UnreliableChannelConfig { message_send_queue_size: 1, ..Default::default() };
    let mut send = SendUnreliableChannel::new(config);
    assert!(send.can_send_message());
    send.send_message(vec![1]);
    assert!(!send.can_send_message());
    send.send_message(vec![2]);
    assert_eq!(send.error(), Some(ChannelError::SendQueueFull));
    assert!(send.get_messages_to_send(u64::MAX, 0, 0).is_none());
}

#[test]
fn oversized_unreliable_messages() {
    let config = UnreliableChannelConfig { max_message_size: 1, packet_budget: 10, ..Default::default() };
    let mut send = SendUnreliableChannel::new(config.clone());
    send.send_message(vec![1, 2]);
    assert_eq!(send.error(), Some(ChannelError::SentMessageAboveMaxSize));
    let mut receive = ReceiveUnreliableChannel::new(config);
    receive.process_messages(vec![vec![1, 2]]);
    assert_eq!(receive.error(), Some(ChannelError::ReceivedMessageAboveMaxSize));
}

#[test]
fn messages_of_a_packet_are_taken_last_first() {
    let mut receive = ReceiveUnreliableChannel::new(UnreliableChannelConfig::default());
    receive.process_messages(vec![vec![1], vec![2], vec![3]]);
    assert_eq!(receive.receive_message(), Some(vec![3]));
    assert_eq!(receive.receive_message(), Some(vec![2]));
    assert_eq!(receive.receive_message(), Some(vec![1]));
    assert_eq!(receive.receive_message(), None);
}

#[test]
fn full_receive_queue_drops_the_rest() {
    let config = UnreliableChannelConfig { message_receive_queue_size: 1, ..Default::default() };
    let mut receive = ReceiveUnreliableChannel::new(config);
    receive.process_messages(vec![vec![1], vec![2]]);
    assert_eq!(receive.receive_message(), Some(vec![2]));
    assert_eq!(receive.receive_message(), None);
    assert_eq!(receive.error(), None);
}

#[test]
fn unreadable_sequenced_message_stops_the_channel() {
    let config = UnreliableChannelConfig { sequenced: true, ..Default::default() };
    let mut receive = ReceiveUnreliableChannel::new(config);
    receive.process_messages(vec![vec![0, 4]]);
    assert_eq!(receive.error(), Some(ChannelError::FailedToSerialize));
}
