//! An unreliable channel: messages may be lost and may arrive in another
//! order than they were sent. A sequenced one numbers its messages and
//! hands out only those newer than the last one handed out.
use vstd::prelude::*;

use std::collections::VecDeque;

use crate::channel_error::ChannelError;
use crate::ordered_reliable_channel::{
    bincode_reliable_message_decoded, decode_reliable_message, serialize_reliable_message,
    spec_reliable_message_bytes,
};
use crate::send_block_channel::ChannelPacketData;
use crate::sequence_buffer::{sequence_less_than, spec_sequence_greater_than};
use crate::wrapping_sequence_buffer::seq_add;

verus! {

/// Configuration for an unreliable and unordered channel. Messages sent in
/// it can be lost and arrive in another order than they were sent.
#[derive(Debug, Clone)]
pub struct UnreliableChannelConfig {
    /// Channel identifier, unique between all channels.
    pub channel_id: u8,
    /// Maximum number of bytes that this channel is allowed to write per packet.
    pub packet_budget: u64,
    /// Maximum size that a message can have in this channel; it must be
    /// below the packet budget.
    pub max_message_size: u64,
    /// Allowed number of messages in the send queue of this channel.
    pub message_send_queue_size: usize,
    /// Allowed number of messages in the receive queue of this channel.
    pub message_receive_queue_size: usize,
    /// When set, only the most recent messages are received: older ones
    /// that arrive out of order are dropped.
    pub sequenced: bool,
}

impl Default for UnreliableChannelConfig {
    fn default() -> (r: Self)
        ensures
            r.channel_id == 1,
            r.packet_budget == 6000,
            r.max_message_size == 3000,
            r.message_send_queue_size == 256,
            r.message_receive_queue_size == 256,
            !r.sequenced,
    {
        Self {
            channel_id: 1,
            packet_budget: 6000,
            max_message_size: 3000,
            message_send_queue_size: 256,
            message_receive_queue_size: 256,
            sequenced: false,
        }
    }
}

/// Sends the messages of one unreliable channel, each once.
pub struct SendUnreliableChannel {
    channel_id: u8,
    packet_budget: u64,
    max_message_size: u64,
    message_send_queue_size: usize,
    messages_to_send: VecDeque<Vec<u8>>,
    send_message_id: Option<u16>,
    error: Option<ChannelError>,
}

/// A send unreliable channel by value. `next_id` is the id of the next
/// message of a sequenced channel, `None` for an unordered one.
pub ghost struct SendUnreliableView {
    pub channel_id: u8,
    pub packet_budget: u64,
    pub max_message_size: u64,
    pub queue_size: nat,
    pub queue: Seq<Seq<u8>>,
    pub next_id: Option<u16>,
    pub error: Option<ChannelError>,
}

impl View for SendUnreliableChannel {
    type V = SendUnreliableView;

    closed spec fn view(&self) -> SendUnreliableView {
        SendUnreliableView {
            channel_id: self.channel_id,
            packet_budget: self.packet_budget,
            max_message_size: self.max_message_size,
            queue_size: self.message_send_queue_size as nat,
            queue: self.messages_to_send@.map_values(|m: Vec<u8>| m@),
            next_id: self.send_message_id,
            error: self.error,
        }
    }
}

/// A queued message as it goes on the wire: as it is, or after its id on
/// a sequenced channel.
pub open spec fn wire_message(next_id: Option<u16>, payload: Seq<u8>) -> Seq<u8> {
    match next_id {
        None => payload,
        Some(id) => spec_reliable_message_bytes(id, payload),
    }
}

/// The id after `next_id`, if the channel is sequenced.
pub open spec fn id_after(next_id: Option<u16>) -> Option<u16> {
    match next_id {
        None => None,
        Some(id) => Some(seq_add(id, 1)),
    }
}

/// The whole queue emptied into one packet, front first: a message that no
/// longer fits in what is left of `available` is dropped. Each message uses
/// up an id on a sequenced channel, sent or not. Gives the messages sent and
/// the next id afterwards.
pub open spec fn queue_drained(queue: Seq<Seq<u8>>, next_id: Option<u16>, available: nat) -> (Seq<Seq<u8>>, Option<u16>)
    decreases queue.len(),
{
    if queue.len() == 0 {
        (Seq::empty(), next_id)
    } else {
        let bytes = wire_message(next_id, queue[0]);
        if bytes.len() > available {
            queue_drained(queue.drop_first(), id_after(next_id), available)
        } else {
            let rest = queue_drained(queue.drop_first(), id_after(next_id), (available - bytes.len()) as nat);
            (seq![bytes] + rest.0, rest.1)
        }
    }
}

/// What `send_message` does.
pub open spec fn unreliable_message_queued(b: SendUnreliableView, a: SendUnreliableView, payload: Seq<u8>) -> bool {
    if b.error is Some {
        a == b
    } else if payload.len() > b.max_message_size {
        a == SendUnreliableView { error: Some(ChannelError::SentMessageAboveMaxSize), ..b }
    } else if b.queue.len() >= b.queue_size {
        a == SendUnreliableView { error: Some(ChannelError::SendQueueFull), ..b }
    } else {
        a == SendUnreliableView { queue: b.queue.push(payload), ..b }
    }
}

/// What `get_messages_to_send` does: the queue drained into a packet of
/// at most `available` bytes (and the packet budget).
pub open spec fn unreliable_messages_taken(
    b: SendUnreliableView,
    a: SendUnreliableView,
    available: u64,
    r: Option<ChannelPacketData>,
) -> bool {
    if b.error is Some {
        a == b && r is None
    } else {
        let budget = if available < b.packet_budget {
            available
        } else {
            b.packet_budget
        };
        let (sent, next_id) = queue_drained(b.queue, b.next_id, budget as nat);
        &&& a == SendUnreliableView { queue: Seq::empty(), next_id, ..b }
        &&& if sent.len() == 0 {
            r is None
        } else {
            r matches Some(d) && d.channel_id == b.channel_id && d.messages@.len() == sent.len() && forall|j: int|
                0 <= j < sent.len() ==> (#[trigger] d.messages@[j])@ == sent[j]
        }
    }
}

impl SendUnreliableChannel {
    /// A channel with nothing to send. Messages must fit the packet budget.
    pub fn new(config: UnreliableChannelConfig) -> (r: Self)
        requires
            config.max_message_size <= config.packet_budget,
        ensures
            r@ == (SendUnreliableView {
                channel_id: config.channel_id,
                packet_budget: config.packet_budget,
                max_message_size: config.max_message_size,
                queue_size: config.message_send_queue_size as nat,
                queue: Seq::empty(),
                next_id: if config.sequenced {
                    Some(0u16)
                } else {
                    None
                },
                error: None,
            }),
    {
        let send_message_id = if config.sequenced {
            Some(0u16)
        } else {
            None
        };
        let r = Self {
            channel_id: config.channel_id,
            packet_budget: config.packet_budget,
            max_message_size: config.max_message_size,
            message_send_queue_size: config.message_send_queue_size,
            messages_to_send: VecDeque::with_capacity(config.message_send_queue_size),
            send_message_id,
            error: None,
        };
        proof {
            assert(r@.queue =~= Seq::<Seq<u8>>::empty());
        }
        r
    }

    /// Queues `payload`. A message above the size limit, or a full queue,
    /// stops the channel with an error.
    pub fn send_message(&mut self, payload: Vec<u8>)
        ensures
            unreliable_message_queued(old(self)@, final(self)@, payload@),
    {
        if self.error.is_some() {
            return;
        }
        if payload.len() as u64 > self.max_message_size {
            self.error = Some(ChannelError::SentMessageAboveMaxSize);
            return;
        }
        if self.messages_to_send.len() >= self.message_send_queue_size {
            self.error = Some(ChannelError::SendQueueFull);
            return;
        }
        self.messages_to_send.push_back(payload);
        proof {
            assert(self@.queue =~= old(self)@.queue.push(payload@));
        }
    }

    /// Whether the queue has room for another message.
    pub fn can_send_message(&self) -> (r: bool)
        ensures
            r == (self@.queue.len() < self@.queue_size),
    {
        self.messages_to_send.len() < self.message_send_queue_size
    }

    /// The error that stopped the channel, if any.
    pub fn error(&self) -> (r: Option<ChannelError>)
        ensures
            r == self@.error,
    {
        self.error
    }

    /// Acknowledgements change nothing on an unreliable channel.
    pub fn process_ack(&mut self, ack: u16)
        ensures
            final(self)@ == old(self)@,
    {
    }

    /// Empties the queue into the messages of one packet: those that fit in
    /// `available_bytes` (and the packet budget), front first.
    pub fn get_messages_to_send(&mut self, available_bytes: u64, sequence: u16, current_time: u64) -> (r: Option<
        ChannelPacketData,
    >)
        ensures
            unreliable_messages_taken(old(self)@, final(self)@, available_bytes, r),
    {
        if self.error.is_some() {
            return None;
        }
        let mut messages: Vec<Vec<u8>> = Vec::new();
        let mut available_bytes = if available_bytes < self.packet_budget {
            available_bytes
        } else {
            self.packet_budget
        };
        let ghost b = self@;
        let ghost whole = queue_drained(b.queue, b.next_id, available_bytes as nat);
        while self.messages_to_send.len() > 0
            invariant
                b == old(self)@,
                b.error is None,
                self@ == (SendUnreliableView { queue: self@.queue, next_id: self@.next_id, ..b }),
                whole.0 == messages@.map_values(|m: Vec<u8>| m@) + queue_drained(self@.queue, self@.next_id, available_bytes as nat).0,
                whole.1 == queue_drained(self@.queue, self@.next_id, available_bytes as nat).1,
            ensures
                self@.queue.len() == 0,
            decreases self@.queue.len(),
        {
            let ghost cur = self@;
            let ghost sent_before = messages@.map_values(|m: Vec<u8>| m@);
            let payload = match self.messages_to_send.pop_front() {
                Some(p) => p,
                None => {
                    break;
                },
            };
            proof {
                assert(self@.queue =~= cur.queue.drop_first());
            }
            let message = match self.send_message_id {
                None => payload,
                Some(id) => {
                    self.send_message_id = Some(id.wrapping_add(1));
                    proof {
                        assert(id.wrapping_add(1) == seq_add(id, 1)) by (bit_vector);
                    }
                    match serialize_reliable_message(id, payload.as_slice()) {
                        Ok(bytes) => bytes,
                        Err(_) => {
                            self.error = Some(ChannelError::FailedToSerialize);
                            return None;
                        },
                    }
                },
            };
            let message_size = message.len() as u64;
            if message_size <= available_bytes {
                let ghost mv = message@;
                messages.push(message);
                available_bytes = available_bytes - message_size;
                proof {
                    assert(messages@.map_values(|m: Vec<u8>| m@) =~= sent_before.push(mv));
                    let rest = queue_drained(self@.queue, self@.next_id, available_bytes as nat);
                    assert(sent_before + seq![mv] + rest.0 =~= sent_before + (seq![mv] + rest.0));
                }
            }
        }
        proof {
            assert(self@.queue =~= Seq::<Seq<u8>>::empty());
            assert(messages@.map_values(|m: Vec<u8>| m@) + Seq::<Seq<u8>>::empty() =~= messages@.map_values(
                |m: Vec<u8>| m@,
            ));
        }
        if messages.len() == 0 {
            return None;
        }
        Some(ChannelPacketData { channel_id: self.channel_id, messages })
    }
}

/// Receives the messages of one unreliable channel.
pub struct ReceiveUnreliableChannel {
    channel_id: u8,
    max_message_size: u64,
    message_receive_queue_size: usize,
    messages_received: VecDeque<Vec<u8>>,
    most_recent_message_id: Option<u16>,
    error: Option<ChannelError>,
}

/// A receive unreliable channel by value. `most_recent` is the id of the
/// newest message handed in on a sequenced channel, `None` for an
/// unordered one.
pub ghost struct ReceiveUnreliableView {
    pub channel_id: u8,
    pub max_message_size: u64,
    pub queue_size: nat,
    pub received: Seq<Seq<u8>>,
    pub most_recent: Option<u16>,
    pub error: Option<ChannelError>,
}

impl View for ReceiveUnreliableChannel {
    type V = ReceiveUnreliableView;

    closed spec fn view(&self) -> ReceiveUnreliableView {
        ReceiveUnreliableView {
            channel_id: self.channel_id,
            max_message_size: self.max_message_size,
            queue_size: self.message_receive_queue_size as nat,
            received: self.messages_received@.map_values(|m: Vec<u8>| m@),
            most_recent: self.most_recent_message_id,
            error: self.error,
        }
    }
}

/// One message handed in: a too large one stops the channel, and so does
/// an unreadable one on a sequenced channel; with the queue full the rest
/// is dropped; on a sequenced channel a message older than the most recent
/// one is passed over. Gives the channel afterwards and whether processing
/// stops.
pub open spec fn unreliable_message_taken(b: ReceiveUnreliableView, m: Seq<u8>) -> (ReceiveUnreliableView, bool) {
    if m.len() > b.max_message_size {
        (ReceiveUnreliableView { error: Some(ChannelError::ReceivedMessageAboveMaxSize), ..b }, true)
    } else if b.received.len() == b.queue_size {
        (b, true)
    } else {
        match b.most_recent {
            None => (ReceiveUnreliableView { received: b.received.push(m), ..b }, false),
            Some(recent) => match bincode_reliable_message_decoded(m) {
                None => (ReceiveUnreliableView { error: Some(ChannelError::FailedToSerialize), ..b }, true),
                Some((id, payload)) => if spec_sequence_greater_than(recent, id) {
                    (b, false)
                } else {
                    (ReceiveUnreliableView { received: b.received.push(payload), most_recent: Some(id), ..b }, false)
                },
            },
        }
    }
}

/// The messages handed in last first, as a stack is emptied.
pub open spec fn unreliable_messages_taken_in(b: ReceiveUnreliableView, messages: Seq<Seq<u8>>) -> ReceiveUnreliableView
    decreases messages.len(),
{
    if messages.len() == 0 {
        b
    } else {
        let (b1, stop) = unreliable_message_taken(b, messages.last());
        if stop {
            b1
        } else {
            unreliable_messages_taken_in(b1, messages.drop_last())
        }
    }
}

/// What `process_messages` does: nothing on a stopped channel, else the
/// messages handed in, last first.
pub open spec fn unreliable_messages_processed(b: ReceiveUnreliableView, a: ReceiveUnreliableView, messages: Seq<Seq<u8>>) -> bool {
    if b.error is Some {
        a == b
    } else {
        a == unreliable_messages_taken_in(b, messages)
    }
}

impl ReceiveUnreliableChannel {
    pub closed spec fn wf(&self) -> bool {
        self.messages_received@.len() <= self.message_receive_queue_size
    }

    /// A channel that has received nothing yet. Messages must fit the packet
    /// budget; on a sequenced channel they may carry two bytes more, for
    /// their id.
    pub fn new(config: UnreliableChannelConfig) -> (r: Self)
        requires
            config.max_message_size <= config.packet_budget,
            config.sequenced ==> config.max_message_size + 2 <= u64::MAX,
        ensures
            r.wf(),
            r@ == (ReceiveUnreliableView {
                channel_id: config.channel_id,
                max_message_size: if config.sequenced {
                    (config.max_message_size + 2) as u64
                } else {
                    config.max_message_size
                },
                queue_size: config.message_receive_queue_size as nat,
                received: Seq::empty(),
                most_recent: if config.sequenced {
                    Some(0u16)
                } else {
                    None
                },
                error: None,
            }),
    {
        let most_recent_message_id = if config.sequenced {
            Some(0u16)
        } else {
            None
        };
        let max_message_size = if config.sequenced {
            config.max_message_size + 2
        } else {
            config.max_message_size
        };
        let r = Self {
            channel_id: config.channel_id,
            max_message_size,
            message_receive_queue_size: config.message_receive_queue_size,
            messages_received: VecDeque::with_capacity(config.message_receive_queue_size),
            most_recent_message_id,
            error: None,
        };
        proof {
            assert(r@.received =~= Seq::<Seq<u8>>::empty());
        }
        r
    }

    /// Hands in the messages of a packet, last first.
    pub fn process_messages(&mut self, messages: Vec<Vec<u8>>)
        requires
            old(self).wf(),
        ensures
            final(self).wf(),
            unreliable_messages_processed(old(self)@, final(self)@, messages@.map_values(|m: Vec<u8>| m@)),
    {
        if self.error.is_some() {
            return;
        }
        let mut stack = messages;
        let ghost b = self@;
        let ghost all = stack@.map_values(|m: Vec<u8>| m@);
        let mut stop = false;
        while !stop && stack.len() > 0
            invariant
                self.wf(),
                b.error is None,
                stop ==> self@ == unreliable_messages_taken_in(b, all),
                !stop ==> unreliable_messages_taken_in(self@, stack@.map_values(|m: Vec<u8>| m@))
                    == unreliable_messages_taken_in(b, all),
            ensures
                stop || stack@.len() == 0,
                stop ==> self@ == unreliable_messages_taken_in(b, all),
                !stop ==> unreliable_messages_taken_in(self@, stack@.map_values(|m: Vec<u8>| m@))
                    == unreliable_messages_taken_in(b, all),
            decreases stack@.len(),
        {
            let ghost cur = self@;
            let ghost rest = stack@.map_values(|m: Vec<u8>| m@);
            let message = match stack.pop() {
                Some(m) => m,
                None => {
                    break;
                },
            };
            proof {
                assert(stack@.map_values(|m: Vec<u8>| m@) =~= rest.drop_last());
                assert(rest.last() == message@);
            }
            if message.len() as u64 > self.max_message_size {
                self.error = Some(ChannelError::ReceivedMessageAboveMaxSize);
                stop = true;
            } else if self.messages_received.len() == self.message_receive_queue_size {
                stop = true;
            } else {
                match self.most_recent_message_id {
                    None => {
                        let ghost mv = message@;
                        self.messages_received.push_back(message);
                        proof {
                            assert(self@.received =~= cur.received.push(mv));
                        }
                    },
                    Some(recent) => match decode_reliable_message(message.as_slice()) {
                        Some(sequenced) => {
                            if !sequence_less_than(sequenced.id, recent) {
                                self.most_recent_message_id = Some(sequenced.id);
                                let ghost pv = sequenced.payload@;
                                self.messages_received.push_back(sequenced.payload);
                                proof {
                                    assert(self@.received =~= cur.received.push(pv));
                                }
                            }
                        },
                        None => {
                            self.error = Some(ChannelError::FailedToSerialize);
                            stop = true;
                        },
                    },
                }
            }
        }
        proof {
            if !stop {
                assert(stack@.map_values(|m: Vec<u8>| m@) =~= Seq::<Seq<u8>>::empty());
            }
        }
    }

    /// The oldest message handed in and not yet taken out.
    pub fn receive_message(&mut self) -> (r: Option<Vec<u8>>)
        requires
            old(self).wf(),
        ensures
            final(self).wf(),
            old(self)@.received.len() == 0 ==> r is None && final(self)@ == old(self)@,
            old(self)@.received.len() > 0 ==> (r matches Some(m) && m@ == old(self)@.received[0] && final(self)@ == (
            ReceiveUnreliableView { received: old(self)@.received.drop_first(), ..old(self)@ })),
    {
        let r = self.messages_received.pop_front();
        proof {
            if old(self)@.received.len() > 0 {
                assert(self@.received =~= old(self)@.received.drop_first());
            } else {
                assert(self@.received =~= old(self)@.received);
            }
        }
        r
    }

    /// The error that stopped the channel, if any.
    pub fn error(&self) -> (r: Option<ChannelError>)
        ensures
            r == self@.error,
    {
        self.error
    }
}

/// The messages a packet carries, by value; none without a packet.
pub open spec fn packet_messages(r: Option<ChannelPacketData>) -> Seq<Seq<u8>> {
    match r {
        Some(d) => d.messages@.map_values(|m: Vec<u8>| m@),
        None => Seq::empty(),
    }
}

/// A queued message too large for the bytes allowed is dropped without
/// using up any of them: the packet is the one the rest of the queue makes
/// on its own (with the dropped message's id used up on a sequenced
/// channel). So a later message that fits is still sent.
pub proof fn lemma_dropped_message_leaves_the_budget(
    b1: SendUnreliableView,
    a1: SendUnreliableView,
    r1: Option<ChannelPacketData>,
    b2: SendUnreliableView,
    a2: SendUnreliableView,
    r2: Option<ChannelPacketData>,
    available: u64,
)
    requires
        b1.error is None,
        b1.queue.len() > 0,
        b2 == (SendUnreliableView { queue: b1.queue.drop_first(), next_id: id_after(b1.next_id), ..b1 }),
        wire_message(b1.next_id, b1.queue[0]).len() > available || wire_message(b1.next_id, b1.queue[0]).len()
            > b1.packet_budget,
        unreliable_messages_taken(b1, a1, available, r1),
        unreliable_messages_taken(b2, a2, available, r2),
    ensures
        packet_messages(r1) == packet_messages(r2),
        a1 == a2,
{
    lemma_packet_messages_of(b1, a1, available, r1);
    lemma_packet_messages_of(b2, a2, available, r2);
}

/// A queued message that fits in the bytes allowed is sent first, and the
/// rest of the packet is the one the rest of the queue makes with the bytes
/// left.
pub proof fn lemma_fitting_message_is_sent_first(
    b1: SendUnreliableView,
    a1: SendUnreliableView,
    r1: Option<ChannelPacketData>,
    b2: SendUnreliableView,
    a2: SendUnreliableView,
    r2: Option<ChannelPacketData>,
    available: u64,
)
    requires
        b1.error is None,
        b1.queue.len() > 0,
        b2 == (SendUnreliableView { queue: b1.queue.drop_first(), next_id: id_after(b1.next_id), ..b1 }),
        wire_message(b1.next_id, b1.queue[0]).len() <= available,
        wire_message(b1.next_id, b1.queue[0]).len() <= b1.packet_budget,
        unreliable_messages_taken(b1, a1, available, r1),
        unreliable_messages_taken(
            b2,
            a2,
            (if available < b1.packet_budget {
                available
            } else {
                b1.packet_budget
            } - wire_message(b1.next_id, b1.queue[0]).len()) as u64,
            r2,
        ),
    ensures
        packet_messages(r1) == seq![wire_message(b1.next_id, b1.queue[0])] + packet_messages(r2),
        a1 == a2,
{
    lemma_packet_messages_of(b1, a1, available, r1);
    let budget = if available < b1.packet_budget {
        available
    } else {
        b1.packet_budget
    };
    let avail2 = (budget - wire_message(b1.next_id, b1.queue[0]).len()) as u64;
    lemma_packet_messages_of(b2, a2, avail2, r2);
}

proof fn lemma_packet_messages_of(b: SendUnreliableView, a: SendUnreliableView, available: u64, r: Option<ChannelPacketData>)
    requires
        b.error is None,
        unreliable_messages_taken(b, a, available, r),
    ensures
        packet_messages(r) == queue_drained(
            b.queue,
            b.next_id,
            (if available < b.packet_budget {
                available
            } else {
                b.packet_budget
            }) as nat,
        ).0,
{
    let budget = if available < b.packet_budget {
        available
    } else {
        b.packet_budget
    };
    let sent = queue_drained(b.queue, b.next_id, budget as nat).0;
    match r {
        Some(d) => {
            assert(packet_messages(r) =~= sent);
        },
        None => {
            assert(packet_messages(r) =~= sent);
        },
    }
}

/// On a sequenced channel, a message of allowed size, readable as an id
/// and a payload, whose id is not older than the most recent one (equal,
/// or ahead in wrapping order), is received: its payload joins the queue
/// and its id becomes the most recent one, while the queue has room.
pub proof fn lemma_newer_sequenced_message_received(
    b: ReceiveUnreliableView,
    a: ReceiveUnreliableView,
    m: Seq<u8>,
    id: u16,
    payload: Seq<u8>,
)
    requires
        b.error is None,
        b.most_recent is Some,
        id == b.most_recent->Some_0 || spec_sequence_greater_than(id, b.most_recent->Some_0),
        m.len() <= b.max_message_size,
        b.received.len() < b.queue_size,
        bincode_reliable_message_decoded(m) == Some((id, payload)),
        unreliable_messages_processed(b, a, seq![m]),
    ensures
        a.received == b.received.push(payload),
        a.most_recent == Some(id),
        a.error is None,
{
    let recent = b.most_recent->Some_0;
    if id != recent {
        crate::sequence_buffer::lemma_sequence_order_total(id, recent);
    }
    lemma_taken_in_one(b, m);
}

/// On a sequenced channel, a message older than the most recent one is
/// dropped: the channel does not change.
pub proof fn lemma_older_sequenced_message_dropped(
    b: ReceiveUnreliableView,
    a: ReceiveUnreliableView,
    m: Seq<u8>,
    id: u16,
    payload: Seq<u8>,
)
    requires
        b.error is None,
        b.most_recent is Some,
        spec_sequence_greater_than(b.most_recent->Some_0, id),
        m.len() <= b.max_message_size,
        b.received.len() < b.queue_size,
        bincode_reliable_message_decoded(m) == Some((id, payload)),
        unreliable_messages_processed(b, a, seq![m]),
    ensures
        a == b,
{
    lemma_taken_in_one(b, m);
}

/// What a sequenced sender sends first, a fresh sequenced receiver
/// receives: the message with id 0 and any payload of allowed size.
pub proof fn lemma_first_sequenced_message_received(b: ReceiveUnreliableView, a: ReceiveUnreliableView, payload: Seq<u8>)
    requires
        b.error is None,
        b.most_recent == Some(0u16),
        b.received.len() == 0,
        b.queue_size > 0,
        spec_reliable_message_bytes(0, payload).len() <= b.max_message_size,
        unreliable_messages_processed(b, a, seq![spec_reliable_message_bytes(0, payload)]),
    ensures
        a.received == seq![payload],
        a.most_recent == Some(0u16),
{
    let m = spec_reliable_message_bytes(0, payload);
    assert(payload.len() <= m.len());
    crate::ordered_reliable_channel::lemma_reliable_message_round_trip(0, payload);
    lemma_newer_sequenced_message_received(b, a, m, 0, payload);
    assert(b.received.push(payload) =~= seq![payload]);
}

proof fn lemma_taken_in_one(b: ReceiveUnreliableView, m: Seq<u8>)
    ensures
        unreliable_messages_taken_in(b, seq![m]) == unreliable_message_taken(b, m).0,
{
    let st = unreliable_message_taken(b, m);
    assert(seq![m].last() == m);
    assert(seq![m].drop_last() =~= Seq::<Seq<u8>>::empty());
    assert(unreliable_messages_taken_in(st.0, Seq::<Seq<u8>>::empty()) == st.0);
}

} // verus!
