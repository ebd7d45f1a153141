use renet::error::ChannelError;
use renet::packet::{Packet, SLICE_SIZE};
use renet::reliable_channel::{ReceiveChannelReliable, SendChannelReliable};
use renet::unreliable_channel::{ReceiveChannelUnreliable, SendChannelUnreliable};

const MILLI: u64 = 1_000_000;

#[test]
fn reliable_small_packet() {
    let max_memory: usize = 10000;
    let mut available_bytes = u64::MAX;
    let mut sequence: u64 = 0;
    let mut current_time: u64 = 0;
    let resend_time = 100 * MILLI;
    let mut recv = ReceiveChannelReliable::new(max_memory, true);
    let mut send = SendChannelReliable::new(0, resend_time, max_memory);

    let message1 = vec![1, 2, 3];
    let message2 = vec![3, 4, 5];

    send.send_message(message1.clone()).unwrap();
    send.send_message(message2.clone()).unwrap();

    let packets = send.get_packets_to_send(&mut sequence, &mut available_bytes, current_time);
    for packet in packets {
        let Packet::SmallReliable { sequence: 0, channel_id: 0, messages } = packet else {
            unreachable!();
        };
        for (message_id, message) in messages {
            recv.process_message(message, message_id).unwrap();
        }
    }

    let new_message1 = recv.receive_message().unwrap();
    let new_message2 = recv.receive_message().unwrap();

    assert_eq!(message1, new_message1);
    assert_eq!(message2, new_message2);

    // Should not resend anything
    let packets = send.get_packets_to_send(&mut sequence, &mut available_bytes, current_time);
    assert!(packets.is_empty());

    current_time += resend_time;
    // Should resend now
    let packets = send.get_packets_to_send(&mut sequence, &mut available_bytes, current_time);
    assert_eq!(packets.len(), 1);

    // Should not resend after ack
    current_time += resend_time;
    send.process_message_ack(0);
    send.process_message_ack(1);

    let packets = send.get_packets_to_send(&mut sequence, &mut available_bytes, current_time);
    assert!(packets.is_empty());
}

#[test]
fn small_packet_unordered() {
    let max_memory: usize = 10000;
    let mut available_bytes = u64::MAX;
    let mut sequence: u64 = 0;
    let mut current_time: u64 = 0;
    let resend_time = 100 * MILLI;
    let mut recv = ReceiveChannelReliable::new(max_memory, false);
    let mut send = SendChannelReliable::new(0, resend_time, max_memory);

    let message1 = vec![1, 2, 3];
    let message2 = vec![3, 4, 5];
    let message3 = vec![6, 7, 8];

    send.send_message(message1.clone()).unwrap();
    send.send_message(message2.clone()).unwrap();
    send.send_message(message3.clone()).unwrap();

    let packets = send.get_packets_to_send(&mut sequence, &mut available_bytes, current_time);
    assert_eq!(packets.len(), 1);
    let Packet::SmallReliable { messages, .. } = &packets[0] else {
        unreachable!();
    };

    assert_eq!(messages.len(), 3);

    // Process and receive out of order
    recv.process_message(messages[2].1.clone(), messages[2].0).unwrap();
    let new_message3 = recv.receive_message().unwrap();

    recv.process_message(messages[1].1.clone(), messages[1].0).unwrap();
    let new_message2 = recv.receive_message().unwrap();

    recv.process_message(messages[0].1.clone(), messages[0].0).unwrap();
    let new_message1 = recv.receive_message().unwrap();

    assert_eq!(message1, new_message1);
    assert_eq!(message2, new_message2);
    assert_eq!(message3, new_message3);

    assert_eq!(recv.most_recent_message_id(), Some(2));
    assert_eq!(recv.received_ids_len(), 0);

    // Should not resend anything
    let packets = send.get_packets_to_send(&mut sequence, &mut available_bytes, current_time);
    assert!(packets.is_empty());

    current_time += resend_time;
    // Should resend now
    let packets = send.get_packets_to_send(&mut sequence, &mut available_bytes, current_time);
    assert_eq!(packets.len(), 1);

    // Should not resend after ack
    current_time += resend_time;
    send.process_message_ack(0);
    send.process_message_ack(1);
    send.process_message_ack(2);

    let packets = send.get_packets_to_send(&mut sequence, &mut available_bytes, current_time);
    assert!(packets.is_empty());
}

#[test]
fn reliable_slice_packet() {
    let max_memory: usize = 10000;
    let mut available_bytes = u64::MAX;
    let mut sequence: u64 = 0;
    let mut current_time: u64 = 0;
    let resend_time = 100 * MILLI;
    let mut recv = ReceiveChannelReliable::new(max_memory, true);
    let mut send = SendChannelReliable::new(0, resend_time, max_memory);

    let message = vec![5; SLICE_SIZE * 3];

    send.send_message(message.clone()).unwrap();

    let packets = send.get_packets_to_send(&mut sequence, &mut available_bytes, current_time);
    for packet in packets {
        let Packet::ReliableSlice { channel_id: 0, slice, .. } = packet else {
            unreachable!();
        };
        recv.process_slice(slice).unwrap();
    }

    let new_message = recv.receive_message().unwrap();
    assert_eq!(message, new_message);

    // Should not resend anything
    let packets = send.get_packets_to_send(&mut sequence, &mut available_bytes, current_time);
    assert!(packets.is_empty());

    current_time += resend_time;
    // Should resend now
    let packets = send.get_packets_to_send(&mut sequence, &mut available_bytes, current_time);
    assert_eq!(packets.len(), 3);

    // Should not resend after ack
    current_time += resend_time;
    send.process_slice_message_ack(0, 0);
    send.process_slice_message_ack(0, 1);
    send.process_slice_message_ack(0, 2);

    let packets = send.get_packets_to_send(&mut sequence, &mut available_bytes, current_time);
    assert!(packets.is_empty());
}

#[test]
fn reliable_max_memory() {
    let mut available_bytes = u64::MAX;
    let mut sequence: u64 = 0;
    let current_time: u64 = 0;
    let resend_time = 100 * MILLI;
    let mut recv = ReceiveChannelReliable::new(99, true);
    let mut send = SendChannelReliable::new(0, resend_time, 101);

    let message = vec![5; 100];

    // Can send one message without reaching memory limit
    send.send_message(message.clone()).unwrap();

    let packets = send.get_packets_to_send(&mut sequence, &mut available_bytes, current_time);
    for packet in packets {
        let Packet::SmallReliable { sequence: 0, channel_id: 0, messages } = packet else {
            unreachable!();
        };
        for (message_id, message) in messages {
            let Err(e) = recv.process_message(message, message_id) else {
                unreachable!();
            };
            assert_eq!(e, ChannelError::ReliableChannelMaxMemoryReached);
        }
    }

    let Err(send_err) = send.send_message(message) else { unreachable!() };
    assert_eq!(send_err, ChannelError::ReliableChannelMaxMemoryReached);
}

#[test]
fn reliable_available_bytes() {
    let mut sequence: u64 = 0;
    let current_time: u64 = 0;
    let resend_time = 100 * MILLI;
    let mut send = SendChannelReliable::new(0, resend_time, usize::MAX);

    let message = vec![0u8; 100];
    send.send_message(message.clone()).unwrap();
    send.send_message(message).unwrap();

    // No available bytes
    let mut available_bytes: u64 = 50;
    let packets = send.get_packets_to_send(&mut sequence, &mut available_bytes, current_time);
    assert_eq!(packets.len(), 0);

    // Bytes for 1 message
    let mut available_bytes: u64 = 100;
    let packets = send.get_packets_to_send(&mut sequence, &mut available_bytes, current_time);
    assert_eq!(packets.len(), 1);

    // Bytes for 1 message
    let mut available_bytes: u64 = 100;
    let packets = send.get_packets_to_send(&mut sequence, &mut available_bytes, current_time);
    assert_eq!(packets.len(), 1);

    // No more messages to send
    let mut available_bytes: u64 = u64::MAX;
    let packets = send.get_packets_to_send(&mut sequence, &mut available_bytes, current_time);
    assert_eq!(packets.len(), 0);
}

#[test]
fn reliable_small_packet_max_size() {
    let mut sequence: u64 = 0;
    let current_time: u64 = 0;
    let mut available_bytes = u64::MAX;
    let resend_time = 100 * MILLI;
    let mut send = SendChannelReliable::new(0, resend_time, usize::MAX);

    // 4 bytes
    let message = vec![0, 1, 2, 3];

    // (4 + 1 + 2) * 300 = 2100 = 2 packets
    for _ in 0..300 {
        send.send_message(message.clone()).unwrap();
    }

    let packets = send.get_packets_to_send(&mut sequence, &mut available_bytes, current_time);
    assert_eq!(packets.len(), 2);
    for packet in packets {
        let len = packet.to_bytes(1400).unwrap().len();
        assert!(len < 1300);
    }
}

#[test]
fn unreliable_small_packet() {
    let max_memory: usize = 10000;
    let mut available_bytes = u64::MAX;
    let mut sequence: u64 = 0;
    let mut recv = ReceiveChannelUnreliable::new(0, max_memory);
    let mut send = SendChannelUnreliable::new(0, max_memory);

    let message1 = vec![1, 2, 3];
    let message2 = vec![3, 4, 5];

    send.send_message(message1.clone());
    send.send_message(message2.clone());

    let packets = send.get_packets_to_send(&mut sequence, &mut available_bytes);
    for packet in packets {
        let Packet::SmallUnreliable { messages, .. } = packet else {
            unreachable!();
        };
        for message in messages {
            recv.process_message(message);
        }
    }

    let new_message1 = recv.receive_message().unwrap();
    let new_message2 = recv.receive_message().unwrap();
    assert!(recv.receive_message().is_none());

    assert_eq!(message1, new_message1);
    assert_eq!(message2, new_message2);

    let packets = send.get_packets_to_send(&mut sequence, &mut available_bytes);
    assert!(packets.is_empty());
}

#[test]
fn unreliable_slice_packet() {
    let max_memory: usize = 10000;
    let mut available_bytes = u64::MAX;
    let mut sequence: u64 = 0;
    let current_time = 0;
    let mut recv = ReceiveChannelUnreliable::new(0, max_memory);
    let mut send = SendChannelUnreliable::new(0, max_memory);

    let message = vec![5; SLICE_SIZE * 3];

    send.send_message(message.clone());

    let packets = send.get_packets_to_send(&mut sequence, &mut available_bytes);
    for packet in packets {
        let Packet::UnreliableSlice { slice, .. } = packet else {
            unreachable!();
        };
        recv.process_slice(slice, current_time).unwrap();
    }

    let new_message = recv.receive_message().unwrap();
    assert!(recv.receive_message().is_none());

    assert_eq!(message, new_message);

    let packets = send.get_packets_to_send(&mut sequence, &mut available_bytes);
    assert!(packets.is_empty());
}

#[test]
fn unreliable_max_memory() {
    let mut sequence: u64 = 0;
    let mut available_bytes = u64::MAX;
    let mut recv = ReceiveChannelUnreliable::new(0, 50);
    let mut send = SendChannelUnreliable::new(0, 40);

    let message = vec![5; 50];

    send.send_message(message.clone());
    send.send_message(message);

    let packets = send.get_packets_to_send(&mut sequence, &mut available_bytes);
    for packet in packets {
        let Packet::SmallUnreliable { messages, .. } = packet else {
            unreachable!();
        };

        // Second message was dropped
        assert_eq!(messages.len(), 1);
        for message in messages {
            recv.process_message(message);
        }
    }

    // The processed message was dropped because there was no memory available
    assert!(recv.receive_message().is_none());
}

#[test]
fn unreliable_available_bytes() {
    let mut sequence: u64 = 0;
    let mut send = SendChannelUnreliable::new(0, usize::MAX);

    let message = vec![0u8; 100];
    send.send_message(message.clone());

    // No available bytes
    let mut available_bytes: u64 = 50;
    let packets = send.get_packets_to_send(&mut sequence, &mut available_bytes);
    assert_eq!(packets.len(), 0);

    // Available space but message was dropped
    let mut available_bytes: u64 = u64::MAX;
    let packets = send.get_packets_to_send(&mut sequence, &mut available_bytes);
    assert_eq!(packets.len(), 0);

    send.send_message(message.clone());
    send.send_message(message);

    // Space for 1 message
    let mut available_bytes: u64 = 100;
    let packets = send.get_packets_to_send(&mut sequence, &mut available_bytes);
    assert_eq!(packets.len(), 1);

    // Second message was dropped
    let mut available_bytes: u64 = u64::MAX;
    let packets = send.get_packets_to_send(&mut sequence, &mut available_bytes);
    assert_eq!(packets.len(), 0);
}

#[test]
fn unreliable_small_packet_max_size() {
    let mut sequence: u64 = 0;
    let mut available_bytes = u64::MAX;
    let mut send = SendChannelUnreliable::new(0, usize::MAX);

    // 4 bytes
    let message = vec![0, 1, 2, 3];

    // (4 + 1) * 400 = 2000 = 2 packets
    for _ in 0..400 {
        send.send_message(message.clone());
    }

    let packets = send.get_packets_to_send(&mut sequence, &mut available_bytes);
    assert_eq!(packets.len(), 2);
    for packet in packets {
        let len = packet.to_bytes(1400).unwrap().len();
        assert!(len < 1300);
    }
}

#[test]
fn receive_last_message_unreliable() {
    let max_memory: usize = 1000;
    let mut available_bytes = u64::MAX;
    let mut sequence: u64 = 0;
    let mut recv = ReceiveChannelUnreliable::new(0, max_memory);
    let mut send = SendChannelUnreliable::new(0, max_memory);

    let message1 = vec![1, 2, 3];
    let message2 = vec![3, 4, 5];
    let message3 = vec![6, 7, 8];

    send.send_message(message1.clone());
    send.send_message(message2.clone());
    send.send_message(message3.clone());

    let packets = send.get_packets_to_send(&mut sequence, &mut available_bytes);
    for packet in packets {
        let Packet::SmallUnreliable { messages, .. } = packet else {
            unreachable!();
        };
        for message in messages {
            recv.process_message(message);
        }
    }

    let new_message1 = recv.receive_message().unwrap();
    let new_message2 = recv.receive_last_message().unwrap();
    assert!(recv.receive_message().is_none());

    assert_eq!(message1, new_message1);
    assert_eq!(message3, new_message2);

    let packets = send.get_packets_to_send(&mut sequence, &mut available_bytes);
    assert!(packets.is_empty());
}

#[test]
fn unreliable_slices_are_discarded_when_old() {
    let mut recv = ReceiveChannelUnreliable::new(0, 100_000);
    let mut send = SendChannelUnreliable::new(0, 100_000);
    send.send_message(vec![1; SLICE_SIZE * 2]);
    let mut sequence = 0;
    let mut available = u64::MAX;
    let packets = send.get_packets_to_send(&mut sequence, &mut available);
    assert_eq!(packets.len(), 2);
    let Packet::UnreliableSlice { slice, .. } = packets.into_iter().next().unwrap() else { unreachable!() };
    recv.process_slice(slice, 0).unwrap();
    recv.discard_incomplete_old_slices(1_000_000_000);
    assert!(recv.receive_message().is_none());
    recv.discard_incomplete_old_slices(3_000_000_000);
    assert!(recv.receive_message().is_none());
}

#[test]
fn receive_last_message_frees_the_memory_of_every_message() {
    let mut recv = ReceiveChannelUnreliable::new(0, 6);
    recv.process_message(vec![1, 2, 3]);
    recv.process_message(vec![4, 5, 6]);
    recv.process_message(vec![9]);
    assert_eq!(recv.receive_last_message(), Some(vec![4, 5, 6]));
    assert!(recv.receive_message().is_none());
    recv.process_message(vec![7, 8, 9]);
    recv.process_message(vec![1, 2, 3]);
    assert_eq!(recv.receive_message(), Some(vec![7, 8, 9]));
    assert_eq!(recv.receive_message(), Some(vec![1, 2, 3]));
}
