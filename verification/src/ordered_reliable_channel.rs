//! A reliable and ordered channel over 16-bit message ids: messages are
//! resent until acknowledged and handed out in the order they were sent.
use vstd::prelude::*;

use bincode::Options;

use crate::channel_error::ChannelError;
use crate::send_block_channel::{varint_bytes, varint_size, ChannelPacketData};
use crate::serialize::{le_bytes, le_value, lemma_le_bytes_len, lemma_le_roundtrip, lemma_pow256_values};
use crate::sequence_buffer::{sequence_greater_than, sequence_less_than, spec_sequence_greater_than};
use crate::timer::{lemma_timer_builders, Timer};
use crate::wrapping_sequence_buffer::{
    discards16, inserted16, next_after16, seq_add, seq_distance, slot16, WrappingSequenceBuffer,
};

verus! {

/// Configuration for a reliable and ordered channel. Messages are received
/// in the order they were sent; a lost message is resent.
#[derive(Debug, Clone)]
pub struct ReliableChannelConfig {
    /// Channel identifier, unique between all channels.
    pub channel_id: u8,
    /// Number of packet entries in the sent packet sequence buffer.
    pub sent_packet_buffer_size: usize,
    /// Allowed number of messages in the send queue of this channel.
    pub message_send_queue_size: usize,
    /// Allowed number of messages in the receive queue of this channel.
    pub message_receive_queue_size: usize,
    /// Maximum number of bytes that this channel is allowed to write per packet.
    pub packet_budget: u64,
    /// Maximum size that a message can have in this channel; it must be
    /// below the packet budget.
    pub max_message_size: u64,
    /// Delay to wait before resending messages, in nanoseconds.
    pub message_resend_time: u64,
}

impl Default for ReliableChannelConfig {
    fn default() -> (r: Self)
        ensures
            r.channel_id == 0,
            r.sent_packet_buffer_size == 1024,
            r.message_send_queue_size == 1024,
            r.message_receive_queue_size == 1024,
            r.packet_budget == 6000,
            r.max_message_size == 3000,
            r.message_resend_time == 200_000_000,
    {
        Self {
            channel_id: 0,
            sent_packet_buffer_size: 1024,
            message_send_queue_size: 1024,
            message_receive_queue_size: 1024,
            packet_budget: 6000,
            max_message_size: 3000,
            message_resend_time: 200_000_000,
        }
    }
}

/// A message with its id.
#[derive(Debug, Clone, PartialEq, Eq)]
pub struct ReliableMessage {
    pub id: u16,
    pub payload: Vec<u8>,
}

/// A reliable message as bincode writes it: the id, then the length of the
/// payload and the payload.
pub open spec fn spec_reliable_message_bytes(id: u16, payload: Seq<u8>) -> Seq<u8> {
    varint_bytes(id as nat) + varint_bytes(payload.len()) + payload
}

/// Number of bytes of a reliable message with `len` bytes of payload.
pub open spec fn spec_reliable_message_size(id: u16, len: nat) -> nat {
    varint_size(id as nat) + varint_size(len) + len
}

/// A variable-length integer as bincode reads it from the front of `b`: a
/// byte up to 250 is the value; a marker byte 251, 252 or 253 is followed
/// by the value in two, four or eight little-endian bytes. Gives the value
/// and the number of bytes it took.
pub open spec fn varint_read(b: Seq<u8>) -> Option<(nat, nat)> {
    if b.len() == 0 {
        None
    } else if b[0] <= 250 {
        Some((b[0] as nat, 1))
    } else if b[0] == 251 && b.len() >= 3 {
        Some((le_value(b.subrange(1, 3)), 3))
    } else if b[0] == 252 && b.len() >= 5 {
        Some((le_value(b.subrange(1, 5)), 5))
    } else if b[0] == 253 && b.len() >= 9 {
        Some((le_value(b.subrange(1, 9)), 9))
    } else {
        None
    }
}

/// What bincode reads from `bytes` as a reliable message's fields: an id
/// that fits 16 bits, then a payload length, then exactly that many bytes
/// and nothing after them.
pub open spec fn bincode_reliable_message_decoded(bytes: Seq<u8>) -> Option<(u16, Seq<u8>)> {
    match varint_read(bytes) {
        Some((id, k)) => if id > 0xffff {
            None
        } else {
            match varint_read(bytes.subrange(k as int, bytes.len() as int)) {
                Some((len, k2)) => if k + k2 + len == bytes.len() {
                    Some((id as u16, bytes.subrange((k + k2) as int, bytes.len() as int)))
                } else {
                    None
                },
                None => None,
            }
        },
        None => None,
    }
}

/// `varint_read` reads back what `varint_bytes` writes, whatever follows.
pub proof fn lemma_varint_read_back(v: nat, rest: Seq<u8>)
    requires
        v <= u64::MAX,
    ensures
        varint_read(varint_bytes(v) + rest) == Some((v, varint_size(v))),
{
    lemma_pow256_values();
    let b = varint_bytes(v) + rest;
    if v <= 250 {
    } else if v <= 0xffff {
        lemma_le_roundtrip(v, 2);
        assert(b.subrange(1, 3) =~= le_bytes(v, 2));
    } else if v <= 0xffff_ffff {
        lemma_le_roundtrip(v, 4);
        assert(b.subrange(1, 5) =~= le_bytes(v, 4));
    } else {
        lemma_le_roundtrip(v, 8);
        assert(b.subrange(1, 9) =~= le_bytes(v, 8));
    }
}

/// Reading a reliable message gives back the id and payload it was
/// written with.
pub proof fn lemma_reliable_message_round_trip(id: u16, payload: Seq<u8>)
    requires
        payload.len() <= u64::MAX,
    ensures
        bincode_reliable_message_decoded(spec_reliable_message_bytes(id, payload)) == Some((id, payload)),
{
    let bytes = spec_reliable_message_bytes(id, payload);
    let tail = varint_bytes(payload.len()) + payload;
    assert(bytes =~= varint_bytes(id as nat) + tail);
    lemma_varint_read_back(id as nat, tail);
    let k = varint_size(id as nat);
    lemma_varint_bytes_len(id as nat);
    assert(bytes.subrange(k as int, bytes.len() as int) =~= tail);
    lemma_varint_read_back(payload.len(), payload);
    lemma_varint_bytes_len(payload.len());
    let k2 = varint_size(payload.len());
    assert(bytes.subrange((k + k2) as int, bytes.len() as int) =~= payload);
}

/// `varint_bytes(v)` takes `varint_size(v)` bytes.
pub proof fn lemma_varint_bytes_len(v: nat)
    requires
        v <= u64::MAX,
    ensures
        varint_bytes(v).len() == varint_size(v),
{
    if v > 250 {
        if v <= 0xffff {
            lemma_le_bytes_len(v, 2);
        } else if v <= 0xffff_ffff {
            lemma_le_bytes_len(v, 4);
        } else {
            lemma_le_bytes_len(v, 8);
        }
    }
}

/// `bincode::Options::serialized_size` with the default options, on a
/// reliable message's fields. Claimed: it succeeds (no size limit is set)
/// and counts the id and the payload's length as variable-length integers,
/// plus one byte per payload byte.
#[verifier::external_body]
fn reliable_message_serialized_size(id: u16, payload: &[u8]) -> (r: Result<u64, Box<bincode::ErrorKind>>)
    ensures
        r is Ok,
        r->Ok_0 == spec_reliable_message_size(id, payload@.len()),
{
    bincode::options().serialized_size(&(id, payload))
}

/// `bincode::Options::serialize` with the default options, on a reliable
/// message's fields. Claimed: it succeeds and writes the id and the
/// payload's length as variable-length integers, then the payload.
#[verifier::external_body]
pub(crate) fn serialize_reliable_message(id: u16, payload: &[u8]) -> (r: Result<Vec<u8>, Box<bincode::ErrorKind>>)
    ensures
        r is Ok,
        r->Ok_0@ == spec_reliable_message_bytes(id, payload@),
{
    bincode::options().serialize(&(id, payload))
}

/// `bincode::Options::deserialize` with the default options, into a
/// reliable message's fields. Claimed: it succeeds exactly when the bytes
/// hold a varint id that fits 16 bits, a varint length and that many bytes
/// with nothing after them, and then gives that id and those bytes.
#[verifier::external_body]
fn deserialize_reliable_message(bytes: &[u8]) -> (r: Result<(u16, Vec<u8>), Box<bincode::ErrorKind>>)
    ensures
        r is Ok <==> bincode_reliable_message_decoded(bytes@) is Some,
        r is Ok ==> bincode_reliable_message_decoded(bytes@) == Some((r->Ok_0.0, r->Ok_0.1@)),
{
    bincode::options().deserialize::<(u16, Vec<u8>)>(bytes)
}

/// Reads a reliable message from the bytes of one channel message.
pub fn decode_reliable_message(bytes: &[u8]) -> (r: Option<ReliableMessage>)
    ensures
        match bincode_reliable_message_decoded(bytes@) {
            Some((id, payload)) => r matches Some(m) && m.id == id && m.payload@ == payload,
            None => r is None,
        },
        forall|id: u16, payload: Seq<u8>|
            #[trigger] spec_reliable_message_bytes(id, payload) == bytes@ ==> (r matches Some(m) && m.id == id
                && m.payload@ == payload),
{
    let n = bytes.len();
    proof {
        assert forall|id: u16, payload: Seq<u8>|
            #[trigger] spec_reliable_message_bytes(id, payload) == bytes@ implies bincode_reliable_message_decoded(
            bytes@,
        ) == Some((id, payload)) by {
            assert(payload.len() <= spec_reliable_message_bytes(id, payload).len());
            lemma_reliable_message_round_trip(id, payload);
        }
    }
    match deserialize_reliable_message(bytes) {
        Ok((id, payload)) => Some(ReliableMessage { id, payload }),
        Err(_) => None,
    }
}

struct ReliableMessageSent {
    reliable_message: ReliableMessage,
    resend_timer: Timer,
}

/// A packet sent on a reliable channel: the ids of the messages it carried,
/// and whether it was acknowledged.
pub struct PacketSent {
    pub acked: bool,
    pub messages_id: Vec<u16>,
}

impl PacketSent {
    /// A packet carrying `messages_id`, not acknowledged yet.
    pub fn new(messages_id: Vec<u16>) -> (r: Self)
        ensures
            !r.acked,
            r.messages_id@ == messages_id@,
    {
        Self { acked: false, messages_id }
    }
}

/// Sends the messages of one reliable channel and resends them until
/// acknowledged.
pub struct SendReliableChannel {
    channel_id: u8,
    packet_budget: u64,
    max_message_size: u64,
    message_resend_time: u64,
    packets_sent: WrappingSequenceBuffer<PacketSent>,
    messages_send: WrappingSequenceBuffer<ReliableMessageSent>,
    send_message_id: u16,
    num_messages_sent: u64,
    oldest_unacked_message_id: u16,
    current_time: u64,
    error: Option<ChannelError>,
}

/// A send reliable channel by value: the unacknowledged messages with their
/// resend timers, and the packets sent with the ids they carried.
pub ghost struct SendReliableView {
    pub channel_id: u8,
    pub packet_budget: u64,
    pub max_message_size: u64,
    pub resend_time: u64,
    pub packets: Map<u16, (bool, Seq<u16>)>,
    pub packets_size: nat,
    pub packets_next: u16,
    pub messages: Map<u16, (Seq<u8>, Timer)>,
    pub messages_size: nat,
    pub messages_next: u16,
    pub send_message_id: u16,
    pub num_messages_sent: u64,
    pub oldest_unacked: u16,
    pub current_time: u64,
    pub error: Option<ChannelError>,
}

impl View for SendReliableChannel {
    type V = SendReliableView;

    closed spec fn view(&self) -> SendReliableView {
        SendReliableView {
            channel_id: self.channel_id,
            packet_budget: self.packet_budget,
            max_message_size: self.max_message_size,
            resend_time: self.message_resend_time,
            packets: self.packets_sent@.map_values(|p: PacketSent| (p.acked, p.messages_id@)),
            packets_size: self.packets_sent.spec_size(),
            packets_next: self.packets_sent.spec_sequence(),
            messages: self.messages_send@.map_values(
                |m: ReliableMessageSent| (m.reliable_message.payload@, m.resend_timer),
            ),
            messages_size: self.messages_send.spec_size(),
            messages_next: self.messages_send.spec_sequence(),
            send_message_id: self.send_message_id,
            num_messages_sent: self.num_messages_sent,
            oldest_unacked: self.oldest_unacked_message_id,
            current_time: self.current_time,
            error: self.error,
        }
    }
}

/// Every resend timer ran from a time not after now, or was forced.
pub open spec fn timers_started(messages: Map<u16, (Seq<u8>, Timer)>, now: u64) -> bool {
    forall|id: u16|
        #[trigger] messages.dom().contains(id) ==> messages[id].1.spec_forced() || messages[id].1.spec_start_time()
            <= now
}

/// What `send_message` does.
pub open spec fn reliable_message_sent(b: SendReliableView, a: SendReliableView, payload: Seq<u8>) -> bool {
    let id = b.send_message_id;
    if b.error is Some {
        a == b
    } else if exists|t: u16| #[trigger] b.messages.dom().contains(t) && slot16(t, b.messages_size) == slot16(id, b.messages_size) {
        a == SendReliableView { error: Some(ChannelError::ReliableChannelOutOfSync), ..b }
    } else if payload.len() > b.max_message_size {
        a == SendReliableView { error: Some(ChannelError::SentMessageAboveMaxSize), ..b }
    } else {
        let entry = (payload, Timer::started(b.current_time, b.resend_time).forced());
        a == SendReliableView {
            send_message_id: seq_add(id, 1),
            num_messages_sent: (b.num_messages_sent + 1) as u64,
            messages: if discards16(b.messages_next, b.messages_size, id) {
                b.messages
            } else {
                inserted16(b.messages, b.messages_size, b.messages_next, id, entry)
            },
            messages_next: if discards16(b.messages_next, b.messages_size, id) {
                b.messages_next
            } else {
                next_after16(b.messages_next, id)
            },
            ..b
        }
    }
}

/// One round of resending, from step `i` of a walk over `size` ids that
/// starts at `oldest`: an unacknowledged message whose resend timer ran out
/// is taken when it fits in what is left of `available`, and its timer
/// restarts now; one that does not fit is passed over. Gives the ids taken,
/// in order, and the messages afterwards.
pub open spec fn resend_round(
    messages: Map<u16, (Seq<u8>, Timer)>,
    oldest: u16,
    size: nat,
    now: u64,
    available: nat,
    i: nat,
) -> (Seq<u16>, Map<u16, (Seq<u8>, Timer)>)
    decreases size - i,
{
    if i >= size {
        (Seq::empty(), messages)
    } else {
        let id = seq_add(oldest, i as int);
        if messages.dom().contains(id) && messages[id].1.spec_is_finished(now) && spec_reliable_message_size(
            id,
            messages[id].0.len(),
        ) <= available {
            let next = messages.insert(id, (messages[id].0, messages[id].1.restarted(now)));
            let rest = resend_round(
                next,
                oldest,
                size,
                now,
                (available - spec_reliable_message_size(id, messages[id].0.len())) as nat,
                i + 1,
            );
            (seq![id] + rest.0, rest.1)
        } else {
            resend_round(messages, oldest, size, now, available, i + 1)
        }
    }
}

/// What `get_messages_to_send` does: a round of resending, recorded as
/// packet `sequence` when it took anything.
pub open spec fn reliable_messages_taken(
    b: SendReliableView,
    a: SendReliableView,
    available: u64,
    sequence: u16,
    r: Option<ChannelPacketData>,
) -> bool {
    if b.oldest_unacked == b.send_message_id || b.error is Some {
        a == b && r is None
    } else {
        let budget = if available < b.packet_budget {
            available
        } else {
            b.packet_budget
        };
        let (ids, messages) = resend_round(b.messages, b.oldest_unacked, b.messages_size, b.current_time, budget as nat, 0);
        if ids.len() == 0 {
            a == SendReliableView { messages, ..b } && r is None
        } else {
            &&& r matches Some(d) && d.channel_id == b.channel_id && d.messages@.len() == ids.len() && forall|j: int|
                0 <= j < ids.len() ==> (#[trigger] d.messages@[j])@ == spec_reliable_message_bytes(ids[j], b.messages[ids[j]].0)
            &&& a == SendReliableView {
                messages,
                packets: if discards16(b.packets_next, b.packets_size, sequence) {
                    b.packets
                } else {
                    inserted16(b.packets, b.packets_size, b.packets_next, sequence, (false, ids))
                },
                packets_next: if discards16(b.packets_next, b.packets_size, sequence) {
                    b.packets_next
                } else {
                    next_after16(b.packets_next, sequence)
                },
                ..b
            }
        }
    }
}

/// The first id from `oldest` on, short of `stop`, that still waits for its
/// acknowledgement; `stop` when there is none.
pub open spec fn advance_oldest(messages: Map<u16, (Seq<u8>, Timer)>, oldest: u16, stop: u16) -> u16
    decreases seq_distance(oldest, stop),
{
    if oldest == stop || messages.dom().contains(oldest) {
        oldest
    } else {
        proof {
            lemma_distance_step(oldest, stop);
        }
        advance_oldest(messages, seq_add(oldest, 1), stop)
    }
}

/// What `process_ack` does: the first acknowledgement of a recorded packet
/// drops the messages it carried and moves the oldest unacknowledged id
/// forward; anything else changes nothing.
pub open spec fn reliable_ack_processed(b: SendReliableView, a: SendReliableView, ack: u16) -> bool {
    if b.packets.dom().contains(ack) && !b.packets[ack].0 {
        let ids = b.packets[ack].1;
        let messages = b.messages.remove_keys(ids.to_set());
        a == SendReliableView {
            packets: b.packets.insert(ack, (true, ids)),
            messages,
            oldest_unacked: advance_oldest(messages, b.oldest_unacked, b.messages_next),
            ..b
        }
    } else {
        a == b
    }
}

/// One step forward brings `a` nearer to `b`.
pub proof fn lemma_distance_step(a: u16, b: u16)
    requires
        a != b,
    ensures
        0 <= seq_distance(seq_add(a, 1), b) < seq_distance(a, b),
{
}

fn copy_ids(ids: &Vec<u16>) -> (r: Vec<u16>)
    ensures
        r@ == ids@,
{
    let mut r: Vec<u16> = Vec::new();
    let mut i: usize = 0;
    while i < ids.len()
        invariant
            i <= ids.len(),
            r@ == ids@.subrange(0, i as int),
        decreases ids.len() - i,
    {
        r.push(ids[i]);
        i = i + 1;
        proof {
            assert(r@ =~= ids@.subrange(0, i as int));
        }
    }
    proof {
        assert(r@ =~= ids@);
    }
    r
}

proof fn lemma_wrapping_step(oldest: u16, i: usize)
    ensures
        oldest.wrapping_add(i as u16) == seq_add(oldest, i as int),
{
    assert((i as u16) as usize == i % 65536) by (bit_vector);
    vstd::arithmetic::div_mod::lemma_add_mod_noop(oldest as int, i as int, 65536);
}

proof fn lemma_round_keeps_payloads(
    messages: Map<u16, (Seq<u8>, Timer)>,
    oldest: u16,
    size: nat,
    now: u64,
    available: nat,
    i: nat,
)
    ensures
        ({
            let (ids, end) = resend_round(messages, oldest, size, now, available, i);
            &&& end.dom() == messages.dom()
            &&& forall|id: u16| #[trigger] end.dom().contains(id) ==> end[id].0 == messages[id].0
            &&& forall|j: int| 0 <= j < ids.len() ==> messages.dom().contains(#[trigger] ids[j])
        }),
    decreases size - i,
{
    if i < size {
        let id = seq_add(oldest, i as int);
        if messages.dom().contains(id) && messages[id].1.spec_is_finished(now) && spec_reliable_message_size(
            id,
            messages[id].0.len(),
        ) <= available {
            let next = messages.insert(id, (messages[id].0, messages[id].1.restarted(now)));
            let avail2 = (available - spec_reliable_message_size(id, messages[id].0.len())) as nat;
            lemma_round_keeps_payloads(next, oldest, size, now, avail2, i + 1);
            let rest = resend_round(next, oldest, size, now, avail2, i + 1);
            let ids = seq![id] + rest.0;
            assert(next.dom() =~= messages.dom());
            assert forall|j: int| 0 <= j < ids.len() implies messages.dom().contains(#[trigger] ids[j]) by {
                if j > 0 {
                    assert(ids[j] == rest.0[j - 1]);
                }
            }
        } else {
            lemma_round_keeps_payloads(messages, oldest, size, now, available, i + 1);
        }
    }
}

impl SendReliableChannel {
    pub closed spec fn wf(&self) -> bool {
        &&& self.packets_sent.wf()
        &&& self.messages_send.wf()
        &&& timers_started(self@.messages, self.current_time)
        &&& forall|id: u16| #[trigger]
            self.messages_send@.dom().contains(id) ==> self.messages_send@[id].reliable_message.id == id
    }

    /// A channel that sends nothing yet. Messages must fit the packet
    /// budget, and both buffers must have room.
    pub fn new(config: ReliableChannelConfig) -> (r: Self)
        requires
            config.max_message_size <= config.packet_budget,
            config.sent_packet_buffer_size > 0,
            config.message_send_queue_size > 0,
        ensures
            r.wf(),
            r@.channel_id == config.channel_id,
            r@.packet_budget == config.packet_budget,
            r@.max_message_size == config.max_message_size,
            r@.resend_time == config.message_resend_time,
            r@.packets == Map::<u16, (bool, Seq<u16>)>::empty(),
            r@.packets_size == config.sent_packet_buffer_size,
            r@.packets_next == 0,
            r@.messages == Map::<u16, (Seq<u8>, Timer)>::empty(),
            r@.messages_size == config.message_send_queue_size,
            r@.messages_next == 0,
            r@.send_message_id == 0,
            r@.num_messages_sent == 0,
            r@.oldest_unacked == 0,
            r@.current_time == 0,
            r@.error is None,
    {
        let r = Self {
            channel_id: config.channel_id,
            packet_budget: config.packet_budget,
            max_message_size: config.max_message_size,
            send_message_id: 0,
            oldest_unacked_message_id: 0,
            packets_sent: WrappingSequenceBuffer::with_capacity(config.sent_packet_buffer_size),
            messages_send: WrappingSequenceBuffer::with_capacity(config.message_send_queue_size),
            message_resend_time: config.message_resend_time,
            num_messages_sent: 0,
            current_time: 0,
            error: None,
        };
        proof {
            assert(r@.packets =~= Map::<u16, (bool, Seq<u16>)>::empty());
            assert(r@.messages =~= Map::<u16, (Seq<u8>, Timer)>::empty());
        }
        r
    }

    /// Whether some message waits for its acknowledgement.
    pub fn has_messages_to_send(&self) -> (r: bool)
        ensures
            r == (self@.oldest_unacked != self@.send_message_id),
    {
        self.oldest_unacked_message_id != self.send_message_id
    }

    /// Whether the slot of the next message id is free.
    pub fn can_send_message(&self) -> (r: bool)
        requires
            self.wf(),
        ensures
            r == !exists|t: u16|
                #[trigger] self@.messages.dom().contains(t) && slot16(t, self@.messages_size) == slot16(
                    self@.send_message_id,
                    self@.messages_size,
                ),
    {
        let r = self.messages_send.available(self.send_message_id);
        proof {
            if !r {
                let t = choose|t: u16|
                    #[trigger] self.messages_send@.dom().contains(t) && slot16(t, self.messages_send.spec_size()) == slot16(
                        self.send_message_id,
                        self.messages_send.spec_size(),
                    );
                assert(self@.messages.dom().contains(t));
            }
        }
        r
    }

    /// The error that stopped the channel, if any.
    pub fn error(&self) -> (r: Option<ChannelError>)
        ensures
            r == self@.error,
    {
        self.error
    }

    /// Number of messages sent on this channel.
    pub fn num_messages_sent(&self) -> (r: u64)
        ensures
            r == self@.num_messages_sent,
    {
        self.num_messages_sent
    }

    /// Queues `payload` under the next message id. A slot still taken by an
    /// unacknowledged message, or a message above the size limit, stops the
    /// channel with an error.
    pub fn send_message(&mut self, payload: Vec<u8>)
        requires
            old(self).wf(),
            old(self)@.num_messages_sent < u64::MAX,
        ensures
            final(self).wf(),
            reliable_message_sent(old(self)@, final(self)@, payload@),
    {
        if self.error.is_some() {
            return;
        }
        let message_id = self.send_message_id;
        if !self.messages_send.available(message_id) {
            self.error = Some(ChannelError::ReliableChannelOutOfSync);
            proof {
                let t = choose|t: u16|
                    #[trigger] self.messages_send@.dom().contains(t) && slot16(t, self.messages_send.spec_size()) == slot16(
                        message_id,
                        self.messages_send.spec_size(),
                    );
                assert(old(self)@.messages.dom().contains(t));
            }
            return;
        }
        if payload.len() as u64 > self.max_message_size {
            self.error = Some(ChannelError::SentMessageAboveMaxSize);
            return;
        }
        self.send_message_id = self.send_message_id.wrapping_add(1);
        let mut resend_timer = Timer::new(self.current_time, self.message_resend_time);
        resend_timer.finish();
        let ghost pv = payload@;
        let entry = ReliableMessageSent { reliable_message: ReliableMessage { id: message_id, payload }, resend_timer };
        let ghost ev = entry;
        let ghost before = *self;
        self.messages_send.insert(message_id, entry);
        self.num_messages_sent = self.num_messages_sent + 1;
        proof {
            lemma_timer_builders(resend_timer, self.current_time, self.message_resend_time);
            let b = old(self)@;
            let m0 = before.messages_send@;
            if !discards16(b.messages_next, b.messages_size, message_id) {
                assert(self.messages_send@ == inserted16(m0, before.messages_send.spec_size(), before.messages_send.spec_sequence(), message_id, ev));
                assert(self@.messages =~= inserted16(b.messages, b.messages_size, b.messages_next, message_id, (pv, resend_timer)));
            } else {
                assert(self@.messages =~= b.messages);
            }
            assert(forall|id: u16| #[trigger] self.messages_send@.dom().contains(id) ==> self.messages_send@[id].reliable_message.id == id);
            assert(timers_started(self@.messages, self.current_time));
        }
    }

    /// A round of resending: the messages, from the oldest unacknowledged
    /// one, whose resend timer ran out and that fit in `available_bytes`
    /// (and the packet budget), recorded as packet `sequence`.
    pub fn get_messages_to_send(&mut self, available_bytes: u64, sequence: u16) -> (r: Option<ChannelPacketData>)
        requires
            old(self).wf(),
        ensures
            final(self).wf(),
            reliable_messages_taken(old(self)@, final(self)@, available_bytes, sequence, r),
    {
        if !self.has_messages_to_send() || self.error.is_some() {
            return None;
        }
        let mut available_bytes = if available_bytes < self.packet_budget {
            available_bytes
        } else {
            self.packet_budget
        };
        let ghost b = self@;
        let ghost round = resend_round(b.messages, b.oldest_unacked, b.messages_size, b.current_time, available_bytes as nat, 0);
        let mut messages: Vec<Vec<u8>> = Vec::new();
        let mut message_ids: Vec<u16> = Vec::new();
        let size = self.messages_send.size();
        let oldest = self.oldest_unacked_message_id;
        let now = self.current_time;
        proof {
            lemma_round_keeps_payloads(b.messages, b.oldest_unacked, b.messages_size, b.current_time, available_bytes as nat, 0);
        }
        let mut i: usize = 0;
        while i < size
            invariant
                self.wf(),
                i <= size,
                size == self.messages_send.spec_size(),
                oldest == b.oldest_unacked,
                now == b.current_time,
                size == b.messages_size,
                self@ == (SendReliableView { messages: self@.messages, ..b }),
                round.0 == message_ids@ + resend_round(self@.messages, oldest, size as nat, now, available_bytes as nat, i as nat).0,
                round.1 == resend_round(self@.messages, oldest, size as nat, now, available_bytes as nat, i as nat).1,
                self@.messages.dom() == b.messages.dom(),
                forall|id: u16| #[trigger] self@.messages.dom().contains(id) ==> self@.messages[id].0 == b.messages[id].0,
                messages@.len() == message_ids@.len(),
                forall|j: int|
                    0 <= j < message_ids@.len() ==> b.messages.dom().contains(#[trigger] message_ids@[j])
                        && (messages@[j])@ == spec_reliable_message_bytes(message_ids@[j], b.messages[message_ids@[j]].0),
            decreases size - i,
        {
            let message_id = oldest.wrapping_add(i as u16);
            let ghost cur = self@.messages;
            let ghost cur_round = resend_round(cur, oldest, size as nat, now, available_bytes as nat, i as nat);
            let ghost ids_before = message_ids@;
            let ghost msgs_before = messages@;
            proof {
                lemma_wrapping_step(oldest, i);
            }
            let ghost buffer_before = self.messages_send;
            let mut taken = false;
            match self.messages_send.get_mut(message_id) {
                Some(message_send) => {
                    proof {
                        assert(cur.dom().contains(message_id));
                        assert(cur[message_id].1 == message_send.resend_timer);
                    }
                    if message_send.resend_timer.is_finished(now) {
                        let message_size = match reliable_message_serialized_size(
                            message_send.reliable_message.id,
                            message_send.reliable_message.payload.as_slice(),
                        ) {
                            Ok(n) => n,
                            Err(_) => u64::MAX,
                        };
                        if message_size <= available_bytes {
                            let ghost payload = message_send.reliable_message.payload@;
                            let ghost timer0 = message_send.resend_timer;
                            available_bytes = available_bytes - message_size;
                            message_send.resend_timer.reset(now);
                            message_ids.push(message_id);
                            let bytes = match serialize_reliable_message(
                                message_send.reliable_message.id,
                                message_send.reliable_message.payload.as_slice(),
                            ) {
                                Ok(bytes) => bytes,
                                Err(_) => Vec::new(),
                            };
                            messages.push(bytes);
                            taken = true;
                            proof {
                                assert(payload == cur[message_id].0);
                                assert(message_send.resend_timer == timer0.restarted(now));
                            }
                        }
                    }
                },
                None => {},
            }
            proof {
                if taken {
                    let next = cur.insert(message_id, (cur[message_id].0, cur[message_id].1.restarted(now)));
                    assert(self@.messages =~= next);
                    let rest = resend_round(next, oldest, size as nat, now, available_bytes as nat, (i + 1) as nat);
                    assert(cur_round == (seq![message_id] + rest.0, rest.1));
                    assert(message_ids@ == ids_before.push(message_id));
                    assert(ids_before + cur_round.0 =~= message_ids@ + rest.0);
                    lemma_timer_builders(cur[message_id].1, now, 0);
                    assert(timers_started(self@.messages, self.current_time));
                    assert forall|j: int|
                        0 <= j < message_ids@.len() implies b.messages.dom().contains(#[trigger] message_ids@[j])
                            && (messages@[j])@ == spec_reliable_message_bytes(message_ids@[j], b.messages[message_ids@[j]].0) by {
                        if j < ids_before.len() {
                            assert(message_ids@[j] == ids_before[j]);
                            assert(messages@[j] == msgs_before[j]);
                        }
                    }
                } else {
                    assert(self@.messages =~= cur);
                    assert(cur_round == resend_round(cur, oldest, size as nat, now, available_bytes as nat, (i + 1) as nat));
                }
                assert(forall|id: u16| #[trigger] self.messages_send@.dom().contains(id) ==> self.messages_send@[id].reliable_message.id == id);
            }
            i = i + 1;
        }
        proof {
            assert(resend_round(self@.messages, oldest, size as nat, now, available_bytes as nat, i as nat).0 == Seq::<u16>::empty());
            assert(message_ids@ + Seq::<u16>::empty() =~= message_ids@);
        }
        if messages.len() == 0 {
            return None;
        }
        let ghost ids = message_ids@;
        self.packets_sent.insert(sequence, PacketSent::new(message_ids));
        let r = ChannelPacketData { channel_id: self.channel_id, messages };
        proof {
            let v = self@;
            if !discards16(b.packets_next, b.packets_size, sequence) {
                assert(v.packets =~= inserted16(b.packets, b.packets_size, b.packets_next, sequence, (false, ids)));
            } else {
                assert(v.packets =~= b.packets);
            }
        }
        Some(r)
    }

    /// Takes the acknowledgement of packet `ack`.
    pub fn process_ack(&mut self, ack: u16)
        requires
            old(self).wf(),
        ensures
            final(self).wf(),
            reliable_ack_processed(old(self)@, final(self)@, ack),
    {
        let ghost b = self@;
        let ids = match self.packets_sent.get(ack) {
            None => {
                return;
            },
            Some(sent_packet) => {
                if sent_packet.acked {
                    return;
                }
                copy_ids(&sent_packet.messages_id)
            },
        };
        match self.packets_sent.get_mut(ack) {
            Some(sent_packet) => {
                sent_packet.acked = true;
            },
            None => {},
        }
        proof {
            assert(self@.packets =~= b.packets.insert(ack, (true, ids@)));
        }
        let ghost m0 = self.messages_send@;
        let mut i: usize = 0;
        while i < ids.len()
            invariant
                self.wf(),
                i <= ids.len(),
                self.messages_send@ == m0.remove_keys(ids@.subrange(0, i as int).to_set()),
                self@ == (SendReliableView { messages: self@.messages, ..self@ }),
                self@.packets == b.packets.insert(ack, (true, ids@)),
                self@.channel_id == b.channel_id,
                self@.packet_budget == b.packet_budget,
                self@.max_message_size == b.max_message_size,
                self@.resend_time == b.resend_time,
                self@.packets_size == b.packets_size,
                self@.packets_next == b.packets_next,
                self@.messages_size == b.messages_size,
                self@.messages_next == b.messages_next,
                self@.send_message_id == b.send_message_id,
                self@.num_messages_sent == b.num_messages_sent,
                self@.oldest_unacked == b.oldest_unacked,
                self@.current_time == b.current_time,
                self@.error == b.error,
            decreases ids.len() - i,
        {
            let message_id = ids[i];
            let ghost before = self@.messages;
            if self.messages_send.contains(message_id) {
                self.messages_send.remove(message_id);
            }
            proof {
                let s0 = ids@.subrange(0, i as int);
                let s1 = ids@.subrange(0, i + 1);
                assert forall|x: u16| s1.contains(x) <==> (s0.contains(x) || x == message_id) by {
                    if s1.contains(x) {
                        let j = choose|j: int| 0 <= j < s1.len() && s1[j] == x;
                        if j < i {
                            assert(s0[j] == x);
                        }
                    }
                    if s0.contains(x) {
                        let j = choose|j: int| 0 <= j < s0.len() && s0[j] == x;
                        assert(s1[j] == x);
                    }
                    if x == message_id {
                        assert(s1[i as int] == x);
                    }
                }
                assert(s1.to_set() =~= s0.to_set().insert(message_id));
                assert(self@.messages =~= before.remove(message_id));
                assert forall|id: u16| #[trigger] self@.messages.dom().contains(id) implies self@.messages[id].1.spec_forced()
                    || self@.messages[id].1.spec_start_time() <= self.current_time by {
                    assert(before.dom().contains(id));
                }
            }
            i = i + 1;
            proof {
                assert(self.messages_send@ =~= m0.remove_keys(ids@.subrange(0, i as int).to_set()));
            }
        }
        proof {
            assert(ids@.subrange(0, i as int) =~= ids@);
            assert(self@.messages =~= b.messages.remove_keys(ids@.to_set()));
        }
        let stop_id = self.messages_send.sequence();
        let ghost mid = self@;
        while self.oldest_unacked_message_id != stop_id && !self.messages_send.contains(self.oldest_unacked_message_id)
            invariant
                self.wf(),
                stop_id == mid.messages_next,
                advance_oldest(mid.messages, self@.oldest_unacked, stop_id) == advance_oldest(
                    mid.messages,
                    b.oldest_unacked,
                    stop_id,
                ),
                self@ == (SendReliableView { oldest_unacked: self@.oldest_unacked, ..mid }),
            decreases seq_distance(self@.oldest_unacked, stop_id),
        {
            proof {
                lemma_distance_step(self.oldest_unacked_message_id, stop_id);
                lemma_wrapping_step(self.oldest_unacked_message_id, 1);
            }
            self.oldest_unacked_message_id = self.oldest_unacked_message_id.wrapping_add(1);
        }
    }

    /// Lets `duration` nanoseconds pass for the resend timers.
    pub fn advance_time(&mut self, duration: u64)
        requires
            old(self).wf(),
            old(self)@.current_time + duration <= u64::MAX,
        ensures
            final(self).wf(),
            final(self)@ == (SendReliableView { current_time: (old(self)@.current_time + duration) as u64, ..old(self)@ }),
    {
        self.current_time = self.current_time + duration;
    }
}


/// Receives the messages of one reliable channel and hands them out in the
/// order of their ids.
pub struct ReceiveReliableChannel {
    channel_id: u8,
    max_message_size: u64,
    messages_received: WrappingSequenceBuffer<ReliableMessage>,
    received_message_id: u16,
    num_messages_received: u64,
    error: Option<ChannelError>,
}

/// A receive reliable channel by value: the payloads waiting by id.
pub ghost struct ReceiveReliableView {
    pub channel_id: u8,
    pub max_message_size: u64,
    pub messages: Map<u16, Seq<u8>>,
    pub size: nat,
    pub next: u16,
    pub received_id: u16,
    pub num_received: u64,
    pub error: Option<ChannelError>,
}

impl View for ReceiveReliableChannel {
    type V = ReceiveReliableView;

    closed spec fn view(&self) -> ReceiveReliableView {
        ReceiveReliableView {
            channel_id: self.channel_id,
            max_message_size: self.max_message_size,
            messages: self.messages_received@.map_values(|m: ReliableMessage| m.payload@),
            size: self.messages_received.spec_size(),
            next: self.messages_received.spec_sequence(),
            received_id: self.received_message_id,
            num_received: self.num_messages_received,
            error: self.error,
        }
    }
}

/// A decoded message by value: its id and payload.
pub open spec fn decoded_view(m: Option<ReliableMessage>) -> Option<(u16, Seq<u8>)> {
    match m {
        Some(m) => Some((m.id, m.payload@)),
        None => None,
    }
}

/// The highest id that the window of received messages holds, as the
/// sum `received_id + size - 1` over the integers, the size taken as a
/// 16-bit number.
pub open spec fn window_top(b: ReceiveReliableView) -> int {
    b.received_id + (b.size % 65536) - 1
}

/// Whether that sum, computed in 16 bits as `received_id + size` first and
/// then less one, leaves the 16-bit range on the way.
pub open spec fn window_top_overflows(b: ReceiveReliableView) -> bool {
    window_top(b) < 0 || window_top(b) + 1 > 65535
}

/// Whether processing `decoded` from step `i` comes to a message that is
/// checked against the window: one read before it is neither unreadable
/// nor too large, and it is not older than `received_id`.
pub open spec fn reaches_window_check(b: ReceiveReliableView, decoded: Seq<Option<(u16, Seq<u8>)>>, i: int) -> bool
    decreases decoded.len() - i,
{
    if i < 0 || i >= decoded.len() {
        false
    } else {
        match decoded[i] {
            None => false,
            Some((id, payload)) => if payload.len() > b.max_message_size {
                false
            } else if !spec_sequence_greater_than(b.received_id, id) {
                true
            } else {
                reaches_window_check(b, decoded, i + 1)
            },
        }
    }
}

/// One message taken in: an unreadable or too large one stops the channel;
/// an old one is passed over; one beyond the window marks the channel out
/// of sync and is still stored, unless its id is already there. Gives the
/// channel afterwards and whether processing stops.
pub open spec fn message_taken(b: ReceiveReliableView, m: Option<(u16, Seq<u8>)>) -> (ReceiveReliableView, bool) {
    match m {
        None => (ReceiveReliableView { error: Some(ChannelError::FailedToSerialize), ..b }, true),
        Some((id, payload)) => if payload.len() > b.max_message_size {
            (ReceiveReliableView { error: Some(ChannelError::ReceivedMessageAboveMaxSize), ..b }, true)
        } else if spec_sequence_greater_than(b.received_id, id) {
            (b, false)
        } else {
            let b1 = if spec_sequence_greater_than(id, window_top(b) as u16) {
                ReceiveReliableView { error: Some(ChannelError::ReliableChannelOutOfSync), ..b }
            } else {
                b
            };
            if b1.messages.dom().contains(id) || discards16(b1.next, b1.size, id) {
                (b1, false)
            } else {
                (
                    ReceiveReliableView {
                        messages: inserted16(b1.messages, b1.size, b1.next, id, payload),
                        next: next_after16(b1.next, id),
                        ..b1
                    },
                    false,
                )
            }
        },
    }
}

/// The messages of `decoded` from step `i` on, taken in one by one.
pub open spec fn messages_taken(b: ReceiveReliableView, decoded: Seq<Option<(u16, Seq<u8>)>>, i: int) -> ReceiveReliableView
    decreases decoded.len() - i,
{
    if i < 0 || i >= decoded.len() {
        b
    } else {
        let (b1, stop) = message_taken(b, decoded[i]);
        if stop {
            b1
        } else {
            messages_taken(b1, decoded, i + 1)
        }
    }
}

/// What `process_messages` does: nothing on a stopped channel, else the
/// messages taken in one by one.
pub open spec fn reliable_messages_processed(
    b: ReceiveReliableView,
    a: ReceiveReliableView,
    decoded: Seq<Option<(u16, Seq<u8>)>>,
) -> bool {
    if b.error is Some {
        a == b
    } else {
        a == messages_taken(b, decoded, 0)
    }
}

/// What `receive_message` does: the payload of the next id in order, once
/// it has arrived.
pub open spec fn reliable_message_received(b: ReceiveReliableView, a: ReceiveReliableView, r: Option<Vec<u8>>) -> bool {
    if b.error is None && b.messages.dom().contains(b.received_id) {
        &&& r matches Some(p) && p@ == b.messages[b.received_id]
        &&& a == ReceiveReliableView {
            messages: b.messages.remove(b.received_id),
            received_id: seq_add(b.received_id, 1),
            num_received: (b.num_received + 1) as u64,
            ..b
        }
    } else {
        a == b && r is None
    }
}

proof fn lemma_taken_keeps(b: ReceiveReliableView, decoded: Seq<Option<(u16, Seq<u8>)>>, i: int)
    ensures
        messages_taken(b, decoded, i).received_id == b.received_id,
        messages_taken(b, decoded, i).size == b.size,
        messages_taken(b, decoded, i).max_message_size == b.max_message_size,
    decreases decoded.len() - i,
{
    if 0 <= i < decoded.len() {
        let (b1, stop) = message_taken(b, decoded[i]);
        if !stop {
            lemma_taken_keeps(b1, decoded, i + 1);
        }
    }
}

impl ReceiveReliableChannel {
    pub closed spec fn wf(&self) -> bool {
        &&& self.messages_received.wf()
        &&& forall|id: u16| #[trigger]
            self.messages_received@.dom().contains(id) ==> self.messages_received@[id].id == id
    }

    /// A channel that has received nothing yet. Messages must fit the packet
    /// budget, and the receive queue must have room.
    pub fn new(config: ReliableChannelConfig) -> (r: Self)
        requires
            config.max_message_size <= config.packet_budget,
            config.message_receive_queue_size > 0,
        ensures
            r.wf(),
            r@ == (ReceiveReliableView {
                channel_id: config.channel_id,
                max_message_size: config.max_message_size,
                messages: Map::empty(),
                size: config.message_receive_queue_size as nat,
                next: 0,
                received_id: 0,
                num_received: 0,
                error: None,
            }),
    {
        let r = Self {
            channel_id: config.channel_id,
            max_message_size: config.max_message_size,
            received_message_id: 0,
            num_messages_received: 0,
            messages_received: WrappingSequenceBuffer::with_capacity(config.message_receive_queue_size),
            error: None,
        };
        proof {
            assert(r@.messages =~= Map::<u16, Seq<u8>>::empty());
        }
        r
    }

    /// The error that stopped the channel, if any.
    pub fn error(&self) -> (r: Option<ChannelError>)
        ensures
            r == self@.error,
    {
        self.error
    }

    /// Takes in decoded messages, `None` standing for one that could not be
    /// read. The window check computes `received_id + size - 1` in 16 bits,
    /// so it must not be reached when that sum leaves the range.
    pub fn process_decoded_messages(&mut self, messages: Vec<Option<ReliableMessage>>)
        requires
            old(self).wf(),
            window_top_overflows(old(self)@) ==> old(self)@.error is Some || !reaches_window_check(
                old(self)@,
                messages@.map_values(|m: Option<ReliableMessage>| decoded_view(m)),
                0,
            ),
        ensures
            final(self).wf(),
            reliable_messages_processed(
                old(self)@,
                final(self)@,
                messages@.map_values(|m: Option<ReliableMessage>| decoded_view(m)),
            ),
    {
        if self.error.is_some() {
            return;
        }
        let ghost decoded = messages@.map_values(|m: Option<ReliableMessage>| decoded_view(m));
        let ghost b = self@;
        let mut i: usize = 0;
        while i < messages.len()
            invariant
                self.wf(),
                i <= messages.len(),
                decoded == messages@.map_values(|m: Option<ReliableMessage>| decoded_view(m)),
                messages_taken(self@, decoded, i as int) == messages_taken(b, decoded, 0),
                b == old(self)@,
                b.error is None,
                self@.received_id == b.received_id,
                self@.size == b.size,
                self@.max_message_size == b.max_message_size,
                window_top_overflows(b) ==> !reaches_window_check(self@, decoded, i as int),
            decreases messages.len() - i,
        {
            let ghost cur = self@;
            match &messages[i] {
                None => {
                    self.error = Some(ChannelError::FailedToSerialize);
                    proof {
                        assert(self@ == message_taken(cur, decoded[i as int]).0);
                        assert(decoded.len() == messages@.len());
                        assert(messages_taken(cur, decoded, i as int) == message_taken(cur, decoded[i as int]).0);
                    }
                    return;
                },
                Some(message) => {
                    if message.payload.len() as u64 > self.max_message_size {
                        self.error = Some(ChannelError::ReceivedMessageAboveMaxSize);
                        proof {
                            assert(self@ == message_taken(cur, decoded[i as int]).0);
                        assert(decoded.len() == messages@.len());
                        assert(messages_taken(cur, decoded, i as int) == message_taken(cur, decoded[i as int]).0);
                        }
                        return;
                    }
                    if sequence_less_than(message.id, self.received_message_id) {
                        proof {
                            assert(message_taken(cur, decoded[i as int]) == (cur, false));
                        }
                        i = i + 1;
                        continue;
                    }
                    let size = self.messages_received.size();
                    proof {
                        assert(!window_top_overflows(b));
                    }
                    let size16 = size as u16;
                    proof {
                        assert(size16 as int == size as int % 65536) by (bit_vector)
                            requires
                                size16 == size as u16,
                        ;
                    }
                    let max_message_id = self.received_message_id + size16 - 1;
                    proof {
                        assert(max_message_id == window_top(cur) as u16);
                    }
                    if sequence_greater_than(message.id, max_message_id) {
                        self.error = Some(ChannelError::ReliableChannelOutOfSync);
                    }
                    let ghost b1 = self@;
                    if !self.messages_received.contains(message.id) {
                        let m = ReliableMessage { id: message.id, payload: copy_payload(&message.payload) };
                        let ghost mv = m;
                        self.messages_received.insert(message.id, m);
                        proof {
                            if !discards16(b1.next, b1.size, mv.id) {
                                assert(self@.messages =~= inserted16(b1.messages, b1.size, b1.next, mv.id, mv.payload@));
                            }
                        }
                    }
                    proof {
                        assert(self@ == message_taken(cur, decoded[i as int]).0);
                        assert(!message_taken(cur, decoded[i as int]).1);
                    }
                },
            }
            i = i + 1;
        }
    }

    /// Takes in the messages of a packet, each read as a reliable message.
    pub fn process_messages(&mut self, messages: Vec<Vec<u8>>)
        requires
            old(self).wf(),
            window_top_overflows(old(self)@) ==> old(self)@.error is Some || !reaches_window_check(
                old(self)@,
                messages@.map_values(|m: Vec<u8>| bincode_reliable_message_decoded(m@)),
                0,
            ),
        ensures
            final(self).wf(),
            reliable_messages_processed(
                old(self)@,
                final(self)@,
                messages@.map_values(|m: Vec<u8>| bincode_reliable_message_decoded(m@)),
            ),
    {
        let decoded = decode_all(&messages);
        proof {
            assert(decoded@.map_values(|m: Option<ReliableMessage>| decoded_view(m)) =~= messages@.map_values(
                |m: Vec<u8>| bincode_reliable_message_decoded(m@),
            ));
        }
        self.process_decoded_messages(decoded);
    }

    /// Takes in the messages of a packet when that is safe: not where the
    /// window check would be reached with a window top beyond 16 bits.
    /// Returns whether it took them; when not, the channel is unchanged.
    pub fn try_process_messages(&mut self, messages: Vec<Vec<u8>>) -> (r: bool)
        requires
            old(self).wf(),
        ensures
            final(self).wf(),
            r == !(window_top_overflows(old(self)@) && old(self)@.error is None && reaches_window_check(
                old(self)@,
                messages@.map_values(|m: Vec<u8>| bincode_reliable_message_decoded(m@)),
                0,
            )),
            r ==> reliable_messages_processed(
                old(self)@,
                final(self)@,
                messages@.map_values(|m: Vec<u8>| bincode_reliable_message_decoded(m@)),
            ),
            !r ==> final(self)@ == old(self)@,
    {
        let decoded = decode_all(&messages);
        let ghost dv = decoded@.map_values(|m: Option<ReliableMessage>| decoded_view(m));
        proof {
            assert(dv =~= messages@.map_values(|m: Vec<u8>| bincode_reliable_message_decoded(m@)));
        }
        let size = self.messages_received.size();
        let top = self.received_message_id as usize + size % 65536;
        if self.error.is_none() && (top == 0 || top > 65535) && self.reaches_window_check(&decoded) {
            return false;
        }
        self.process_messages(messages);
        true
    }

    fn reaches_window_check(&self, decoded: &Vec<Option<ReliableMessage>>) -> (r: bool)
        requires
            self.wf(),
        ensures
            r == reaches_window_check(self@, decoded@.map_values(|m: Option<ReliableMessage>| decoded_view(m)), 0),
    {
        let ghost dv = decoded@.map_values(|m: Option<ReliableMessage>| decoded_view(m));
        let mut i: usize = 0;
        while i < decoded.len()
            invariant
                i <= decoded.len(),
                dv == decoded@.map_values(|m: Option<ReliableMessage>| decoded_view(m)),
                reaches_window_check(self@, dv, 0) == reaches_window_check(self@, dv, i as int),
            decreases decoded.len() - i,
        {
            match &decoded[i] {
                None => {
                    return false;
                },
                Some(m) => {
                    if m.payload.len() as u64 > self.max_message_size {
                        return false;
                    }
                    if !sequence_less_than(m.id, self.received_message_id) {
                        return true;
                    }
                },
            }
            i = i + 1;
        }
        false
    }

    /// The next message in order, once it has arrived.
    pub fn receive_message(&mut self) -> (r: Option<Vec<u8>>)
        requires
            old(self).wf(),
            old(self)@.num_received < u64::MAX,
        ensures
            final(self).wf(),
            reliable_message_received(old(self)@, final(self)@, r),
    {
        if self.error.is_some() {
            return None;
        }
        let received_message_id = self.received_message_id;
        if !self.messages_received.contains(received_message_id) {
            return None;
        }
        self.received_message_id = self.received_message_id.wrapping_add(1);
        proof {
            lemma_wrapping_step(received_message_id, 1);
        }
        self.num_messages_received = self.num_messages_received + 1;
        let ghost before = self.messages_received@;
        let removed = self.messages_received.remove(received_message_id);
        proof {
            assert(self@.messages =~= old(self)@.messages.remove(received_message_id));
        }
        match removed {
            Some(m) => Some(m.payload),
            None => None,
        }
    }
}

fn copy_payload(v: &Vec<u8>) -> (r: Vec<u8>)
    ensures
        r@ == v@,
{
    let mut r: Vec<u8> = Vec::new();
    let mut i: usize = 0;
    while i < v.len()
        invariant
            i <= v.len(),
            r@ == v@.subrange(0, i as int),
        decreases v.len() - i,
    {
        r.push(v[i]);
        i = i + 1;
        proof {
            assert(r@ =~= v@.subrange(0, i as int));
        }
    }
    proof {
        assert(r@ =~= v@);
    }
    r
}

fn decode_all(messages: &Vec<Vec<u8>>) -> (r: Vec<Option<ReliableMessage>>)
    ensures
        r@.len() == messages@.len(),
        forall|i: int| 0 <= i < r@.len() ==> decoded_view(#[trigger] r@[i]) == bincode_reliable_message_decoded(messages@[i]@),
{
    let mut r: Vec<Option<ReliableMessage>> = Vec::new();
    let mut i: usize = 0;
    while i < messages.len()
        invariant
            i <= messages.len(),
            r@.len() == i,
            forall|j: int| 0 <= j < i ==> decoded_view(#[trigger] r@[j]) == bincode_reliable_message_decoded(messages@[j]@),
        decreases messages.len() - i,
    {
        r.push(decode_reliable_message(messages[i].as_slice()));
        i = i + 1;
    }
    r
}

} // verus!
