//! The sending half of the block channel: big reliable messages, sent one
//! at a time in slices that are resent until acknowledged.
use vstd::prelude::*;

use bincode::Options;
use std::collections::VecDeque;

use crate::block_channel::{BlockChannelConfig, SliceMessage};
use crate::channel_error::ChannelError;
use crate::serialize::le_bytes;
use crate::ordered_reliable_channel::{lemma_varint_bytes_len, lemma_varint_read_back, varint_read};
use crate::slice_constructor::{concat_slices, count_true, lemma_count_true_bound, lemma_count_true_set};
use crate::timer::Timer;
use crate::wrapping_sequence_buffer::{discards16, inserted16, next_after16, WrappingSequenceBuffer};

verus! {

#[verifier::external_type_specification]
#[verifier::external_body]
pub struct ExBincodeErrorKind(bincode::ErrorKind);

/// A number as bincode writes it with variable-length integers: one byte up
/// to 250, else a marker byte and two, four or eight little-endian bytes.
pub open spec fn varint_bytes(v: nat) -> Seq<u8> {
    if v <= 250 {
        seq![v as u8]
    } else if v <= 0xffff {
        seq![251u8] + le_bytes(v, 2)
    } else if v <= 0xffff_ffff {
        seq![252u8] + le_bytes(v, 4)
    } else {
        seq![253u8] + le_bytes(v, 8)
    }
}

/// Number of bytes of `varint_bytes(v)`.
pub open spec fn varint_size(v: nat) -> nat {
    if v <= 250 {
        1
    } else if v <= 0xffff {
        3
    } else if v <= 0xffff_ffff {
        5
    } else {
        9
    }
}

/// A slice message as bincode writes it: its three numbers, then the
/// length of its data and the data.
pub open spec fn spec_slice_message_bytes(chunk_id: u16, slice_id: u32, num_slices: u32, data: Seq<u8>) -> Seq<u8> {
    varint_bytes(chunk_id as nat) + varint_bytes(slice_id as nat) + varint_bytes(num_slices as nat) + varint_bytes(
        data.len(),
    ) + data
}

/// Number of bytes of a slice message with `data_len` bytes of data.
pub open spec fn spec_slice_message_size(chunk_id: u16, slice_id: u32, num_slices: u32, data_len: nat) -> nat {
    varint_size(chunk_id as nat) + varint_size(slice_id as nat) + varint_size(num_slices as nat) + varint_size(
        data_len,
    ) + data_len
}

/// `bincode::Options::serialized_size` with the default options, on a slice
/// message's fields. Claimed: it succeeds (the default options set no size
/// limit) and counts one byte per number up to 250, three up to 2^16 - 1,
/// five up to 2^32 - 1, nine above, plus one per data byte.
#[verifier::external_body]
fn slice_message_serialized_size(chunk_id: u16, slice_id: u32, num_slices: u32, data: &[u8]) -> (r: Result<u64, Box<bincode::ErrorKind>>)
    ensures
        r is Ok,
        r->Ok_0 == spec_slice_message_size(chunk_id, slice_id, num_slices, data@.len()),
{
    bincode::options().serialized_size(&(chunk_id, slice_id, num_slices, data))
}

/// `bincode::Options::serialize` with the default options, on a slice
/// message's fields. Claimed: it succeeds (writing to a vector cannot fail
/// and no size limit is set) and writes each number as a variable-length
/// integer, then the data's length the same way and the data.
#[verifier::external_body]
fn serialize_slice_message(chunk_id: u16, slice_id: u32, num_slices: u32, data: &[u8]) -> (r: Result<Vec<u8>, Box<bincode::ErrorKind>>)
    ensures
        r is Ok,
        r->Ok_0@ == spec_slice_message_bytes(chunk_id, slice_id, num_slices, data@),
{
    bincode::options().serialize(&(chunk_id, slice_id, num_slices, data))
}

/// What bincode reads from `bytes` as a slice message's fields: a chunk id
/// that fits 16 bits, a slice id and a number of slices that fit 32 bits,
/// a data length, then exactly that many bytes and nothing after them.
pub open spec fn bincode_slice_message_decoded(bytes: Seq<u8>) -> Option<(u16, u32, u32, Seq<u8>)> {
    match varint_read(bytes) {
        None => None,
        Some((chunk_id, k1)) => {
            let b1 = bytes.subrange(k1 as int, bytes.len() as int);
            match varint_read(b1) {
                None => None,
                Some((slice_id, k2)) => {
                    let b2 = b1.subrange(k2 as int, b1.len() as int);
                    match varint_read(b2) {
                        None => None,
                        Some((num_slices, k3)) => {
                            let b3 = b2.subrange(k3 as int, b2.len() as int);
                            match varint_read(b3) {
                                None => None,
                                Some((len, k4)) => if chunk_id > 0xffff || slice_id > 0xffff_ffff || num_slices
                                    > 0xffff_ffff || k4 + len != b3.len() {
                                    None
                                } else {
                                    Some(
                                        (
                                            chunk_id as u16,
                                            slice_id as u32,
                                            num_slices as u32,
                                            b3.subrange(k4 as int, b3.len() as int),
                                        ),
                                    )
                                },
                            }
                        },
                    }
                },
            }
        },
    }
}

/// Reading a slice message gives back the fields it was written with.
pub proof fn lemma_slice_message_round_trip(chunk_id: u16, slice_id: u32, num_slices: u32, data: Seq<u8>)
    requires
        data.len() <= u64::MAX,
    ensures
        bincode_slice_message_decoded(spec_slice_message_bytes(chunk_id, slice_id, num_slices, data)) == Some(
            (chunk_id, slice_id, num_slices, data),
        ),
{
    let bytes = spec_slice_message_bytes(chunk_id, slice_id, num_slices, data);
    let t3 = varint_bytes(data.len()) + data;
    let t2 = varint_bytes(num_slices as nat) + t3;
    let t1 = varint_bytes(slice_id as nat) + t2;
    assert(bytes =~= varint_bytes(chunk_id as nat) + t1);
    lemma_varint_read_back(chunk_id as nat, t1);
    lemma_varint_bytes_len(chunk_id as nat);
    assert(bytes.subrange(varint_size(chunk_id as nat) as int, bytes.len() as int) =~= t1);
    lemma_varint_read_back(slice_id as nat, t2);
    lemma_varint_bytes_len(slice_id as nat);
    assert(t1.subrange(varint_size(slice_id as nat) as int, t1.len() as int) =~= t2);
    lemma_varint_read_back(num_slices as nat, t3);
    lemma_varint_bytes_len(num_slices as nat);
    assert(t2.subrange(varint_size(num_slices as nat) as int, t2.len() as int) =~= t3);
    lemma_varint_read_back(data.len(), data);
    lemma_varint_bytes_len(data.len());
    assert(t3.subrange(varint_size(data.len()) as int, t3.len() as int) =~= data);
}

/// `bincode::Options::deserialize` with the default options, into a slice
/// message's fields. Claimed: it succeeds exactly when the bytes hold the
/// four varint numbers in range, then that many data bytes with nothing
/// after them, and then gives those fields.
#[verifier::external_body]
fn deserialize_slice_message(bytes: &[u8]) -> (r: Result<(u16, u32, u32, Vec<u8>), Box<bincode::ErrorKind>>)
    ensures
        r is Ok <==> bincode_slice_message_decoded(bytes@) is Some,
        r is Ok ==> bincode_slice_message_decoded(bytes@) == Some((r->Ok_0.0, r->Ok_0.1, r->Ok_0.2, r->Ok_0.3@)),
{
    bincode::options().deserialize::<(u16, u32, u32, Vec<u8>)>(bytes)
}

/// Writes a slice message as bincode does.
pub fn encode_slice_message(m: &SliceMessage) -> (r: Vec<u8>)
    ensures
        r@ == spec_slice_message_bytes(m.chunk_id, m.slice_id, m.num_slices, m.data@),
{
    match serialize_slice_message(m.chunk_id, m.slice_id, m.num_slices, m.data.as_slice()) {
        Ok(bytes) => bytes,
        Err(_) => Vec::new(),
    }
}

/// A slice message by value.
pub open spec fn slice_message_view(m: SliceMessage) -> (u16, u32, u32, Seq<u8>) {
    (m.chunk_id, m.slice_id, m.num_slices, m.data@)
}

/// Reads a slice message from the bytes of one channel message.
pub fn decode_slice_message(bytes: &[u8]) -> (r: Option<SliceMessage>)
    ensures
        match bincode_slice_message_decoded(bytes@) {
            Some(f) => r matches Some(m) && slice_message_view(m) == f,
            None => r is None,
        },
        forall|chunk_id: u16, slice_id: u32, num_slices: u32, data: Seq<u8>|
            #[trigger] spec_slice_message_bytes(chunk_id, slice_id, num_slices, data) == bytes@ ==> (r matches Some(m)
                && slice_message_view(m) == (chunk_id, slice_id, num_slices, data)),
{
    let n = bytes.len();
    proof {
        assert forall|chunk_id: u16, slice_id: u32, num_slices: u32, data: Seq<u8>|
            #[trigger] spec_slice_message_bytes(chunk_id, slice_id, num_slices, data) == bytes@ implies bincode_slice_message_decoded(
            bytes@,
        ) == Some((chunk_id, slice_id, num_slices, data)) by {
            assert(data.len() <= spec_slice_message_bytes(chunk_id, slice_id, num_slices, data).len());
            lemma_slice_message_round_trip(chunk_id, slice_id, num_slices, data);
        }
    }
    match deserialize_slice_message(bytes) {
        Ok((chunk_id, slice_id, num_slices, data)) => Some(SliceMessage { chunk_id, slice_id, num_slices, data }),
        Err(_) => None,
    }
}

/// Reads each channel message as a slice message, `None` where it cannot.
pub fn decode_slice_messages(messages: &Vec<Vec<u8>>) -> (r: Vec<Option<SliceMessage>>)
    ensures
        r@.len() == messages@.len(),
        forall|i: int|
            0 <= i < r@.len() ==> match bincode_slice_message_decoded(messages@[i]@) {
                Some(f) => #[trigger] r@[i] matches Some(m) && slice_message_view(m) == f,
                None => r@[i] is None,
            },
{
    let mut r: Vec<Option<SliceMessage>> = Vec::new();
    let mut i: usize = 0;
    while i < messages.len()
        invariant
            i <= messages.len(),
            r@.len() == i,
            forall|j: int|
                0 <= j < i ==> match bincode_slice_message_decoded(messages@[j]@) {
                    Some(f) => #[trigger] r@[j] matches Some(m) && slice_message_view(m) == f,
                    None => r@[j] is None,
                },
        decreases messages.len() - i,
    {
        r.push(decode_slice_message(messages[i].as_slice()));
        i = i + 1;
    }
    r
}

/// A packet that carried slices of a block, and whether it was acknowledged.
#[derive(Debug, Clone)]
pub struct BlockPacketSent {
    pub acked: bool,
    pub chunk_id: u16,
    pub slice_ids: Vec<u32>,
}

/// The messages of one channel in a packet.
#[derive(Debug, Clone, PartialEq, Eq)]
pub struct ChannelPacketData {
    pub messages: Vec<Vec<u8>>,
    pub channel_id: u8,
}

enum Sending {
    Yes {
        num_slices: usize,
        current_slice_id: usize,
        num_acked_slices: usize,
        acked: Vec<bool>,
        data: Vec<u8>,
        resend_timers: Vec<Timer>,
    },
    No,
}

/// The block being sent: its slices, where the next round of sending
/// starts, which slices were acknowledged, its bytes and the resend timer of
/// each slice.
pub ghost struct SendingView {
    pub num_slices: nat,
    pub current_slice_id: nat,
    pub num_acked_slices: nat,
    pub acked: Seq<bool>,
    pub data: Seq<u8>,
    pub timers: Seq<Timer>,
}

/// Sends blocks of one channel, one at a time.
pub struct SendBlockChannel {
    channel_id: u8,
    chunk_id: u16,
    sending: Sending,
    slice_size: usize,
    resend_time: u64,
    packet_budget: u64,
    max_message_size: u64,
    message_send_queue_size: usize,
    packets_sent: WrappingSequenceBuffer<BlockPacketSent>,
    messages_to_send: VecDeque<Vec<u8>>,
    current_time: u64,
    error: Option<ChannelError>,
}

/// A send block channel by value.
pub ghost struct SendBlockView {
    pub channel_id: u8,
    pub chunk_id: u16,
    pub sending: Option<SendingView>,
    pub slice_size: nat,
    pub resend_time: u64,
    pub packet_budget: u64,
    pub max_message_size: u64,
    pub queue_size: nat,
    pub packets: Map<u16, BlockPacketSent>,
    pub packets_size: nat,
    pub packets_next: u16,
    pub queue: Seq<Seq<u8>>,
    pub current_time: u64,
    pub error: Option<ChannelError>,
}

impl View for SendBlockChannel {
    type V = SendBlockView;

    closed spec fn view(&self) -> SendBlockView {
        SendBlockView {
            channel_id: self.channel_id,
            chunk_id: self.chunk_id,
            sending: match self.sending {
                Sending::Yes { num_slices, current_slice_id, num_acked_slices, acked, data, resend_timers } => Some(
                    SendingView {
                        num_slices: num_slices as nat,
                        current_slice_id: current_slice_id as nat,
                        num_acked_slices: num_acked_slices as nat,
                        acked: acked@,
                        data: data@,
                        timers: resend_timers@,
                    },
                ),
                Sending::No => None,
            },
            slice_size: self.slice_size as nat,
            resend_time: self.resend_time,
            packet_budget: self.packet_budget,
            max_message_size: self.max_message_size,
            queue_size: self.message_send_queue_size as nat,
            packets: self.packets_sent@,
            packets_size: self.packets_sent.spec_size(),
            packets_next: self.packets_sent.spec_sequence(),
            queue: self.messages_to_send@.map_values(|m: Vec<u8>| m@),
            current_time: self.current_time,
            error: self.error,
        }
    }
}

/// Number of slices of a block of `len` bytes.
pub open spec fn num_slices_for(len: nat, slice_size: nat) -> nat {
    ((len + slice_size - 1) / (slice_size as int)) as nat
}

/// A block being sent is consistent: one flag and one timer per slice, the
/// count of acknowledged slices, a next slice within the block, and a timer
/// per slice that ran from a time not after now (or was forced to finish).
pub open spec fn sending_wf(v: SendingView, slice_size: nat, now: u64, resend_time: u64) -> bool {
    &&& v.acked.len() == v.num_slices
    &&& v.timers.len() == v.num_slices
    &&& v.num_acked_slices == count_true(v.acked)
    &&& slice_size > 0
    &&& v.num_slices == num_slices_for(v.data.len(), slice_size)
    &&& v.data.len() + slice_size <= usize::MAX
    &&& v.num_slices > 0 ==> v.current_slice_id < v.num_slices && v.num_acked_slices < v.num_slices
    &&& v.num_slices == 0 ==> v.current_slice_id == 0
    &&& forall|i: int|
        0 <= i < v.num_slices ==> (#[trigger] v.timers[i]).spec_forced() || v.timers[i].spec_start_time() <= now
    &&& forall|i: int| 0 <= i < v.num_slices ==> (#[trigger] v.timers[i]).spec_duration() == resend_time
}

/// The channel's state is consistent: the block being sent is, every queued
/// block fits the size limit, and a recorded packet of the current block
/// names only slices of it.
pub open spec fn send_block_wf(c: SendBlockView) -> bool {
    &&& c.sending matches Some(v) ==> sending_wf(v, c.slice_size, c.current_time, c.resend_time)
    &&& forall|k: int| 0 <= k < c.queue.len() ==> (#[trigger] c.queue[k]).len() <= c.max_message_size
    &&& forall|s: u16|
        #[trigger] c.packets.dom().contains(s) ==> c.packets[s].chunk_id <= c.chunk_id && (c.packets[s].chunk_id
            == c.chunk_id ==> (c.sending matches Some(v) && forall|j: int|
            0 <= j < c.packets[s].slice_ids@.len() ==> #[trigger] c.packets[s].slice_ids@[j] < v.num_slices))
}

/// A fresh block of `data`: its slices, none acknowledged, every resend
/// timer forced to finish so that each slice goes out at once.
pub open spec fn new_block(data: Seq<u8>, slice_size: nat, timers: Seq<Timer>) -> SendingView {
    SendingView {
        num_slices: num_slices_for(data.len(), slice_size),
        current_slice_id: 0,
        num_acked_slices: 0,
        acked: Seq::new(num_slices_for(data.len(), slice_size), |_i: int| false),
        data,
        timers,
    }
}

/// The timers of a fresh block: one per slice, started now and forced to finish.
pub open spec fn fresh_timers(timers: Seq<Timer>, n: nat, now: u64, resend_time: u64) -> bool {
    &&& timers.len() == n
    &&& forall|i: int|
        0 <= i < n ==> (#[trigger] timers[i]).spec_forced() && timers[i].spec_start_time() == now
            && timers[i].spec_duration() == resend_time
}

/// Sending `payload` would divide by a zero slice size or overflow the size
/// of the block in slices.
pub open spec fn send_message_panics(c: SendBlockView, len: nat) -> bool {
    &&& c.error is None
    &&& len <= c.max_message_size
    &&& c.sending is None
    &&& (c.slice_size == 0 || len + c.slice_size > usize::MAX)
}

/// What `send_message` does.
pub open spec fn block_message_sent(b: SendBlockView, a: SendBlockView, payload: Seq<u8>) -> bool {
    if b.error is Some {
        a == b
    } else if payload.len() > b.max_message_size {
        a == SendBlockView { error: Some(ChannelError::SentMessageAboveMaxSize), ..b }
    } else if b.sending is Some {
        if b.queue.len() >= b.queue_size {
            a == SendBlockView { error: Some(ChannelError::SendQueueFull), ..b }
        } else {
            a == SendBlockView { queue: b.queue.push(payload), ..b }
        }
    } else {
        exists|timers: Seq<Timer>|
            fresh_timers(timers, num_slices_for(payload.len(), b.slice_size), b.current_time, b.resend_time)
                && a == SendBlockView { sending: Some(#[trigger] new_block(payload, b.slice_size, timers)), ..b }
    }
}

/// The flags of a block after the slices of `ids` were acknowledged.
pub open spec fn acked_with(acked: Seq<bool>, ids: Seq<u32>) -> Seq<bool> {
    Seq::new(acked.len(), |i: int| acked[i] || exists|j: int| 0 <= j < ids.len() && ids[j] as int == i)
}

/// What `process_ack` does: an acknowledged packet of the block being sent,
/// seen for the first time, marks its slices acknowledged; once all are,
/// the block is done and the next block id is taken.
pub open spec fn block_ack_processed(b: SendBlockView, a: SendBlockView, ack: u16) -> bool {
    match b.sending {
        None => a == b,
        Some(v) => if !b.packets.dom().contains(ack) || b.packets[ack].acked || b.packets[ack].chunk_id
            != b.chunk_id {
            a == b
        } else {
            let p = b.packets[ack];
            let acked = acked_with(v.acked, p.slice_ids@);
            let packets = b.packets.insert(ack, BlockPacketSent { acked: true, ..p });
            if count_true(acked) == v.num_slices {
                a == SendBlockView { sending: None, chunk_id: (b.chunk_id + 1) as u16, packets, ..b }
            } else {
                a == SendBlockView {
                    sending: Some(SendingView { acked, num_acked_slices: count_true(acked), ..v }),
                    packets,
                    ..b
                }
            }
        },
    }
}

fn copy_ids(ids: &Vec<u32>) -> (r: Vec<u32>)
    ensures
        r@ == ids@,
{
    let mut r: Vec<u32> = Vec::new();
    let mut i: usize = 0;
    while i < ids.len()
        invariant
            i <= ids@.len(),
            r@ == ids@.subrange(0, i as int),
        decreases ids@.len() - i,
    {
        r.push(ids[i]);
        i = i + 1;
        proof {
            assert(r@ =~= ids@.subrange(0, i as int));
        }
    }
    proof {
        assert(ids@.subrange(0, ids@.len() as int) =~= ids@);
    }
    r
}

/// The bytes of slice `sid` of a block of `data` cut in slices of `size`:
/// every slice has `size` bytes but the last, which takes the rest.
pub open spec fn slice_bytes(data: Seq<u8>, size: nat, n: nat, sid: nat) -> Seq<u8> {
    let end = if sid == n - 1 {
        data.len() as int
    } else {
        ((sid + 1) * size) as int
    };
    data.subrange((sid * size) as int, end)
}

/// The slices one round of sending takes, in order, from step `i` on: going
/// round the block from its current slice, a slice is taken when it is not
/// acknowledged and its resend timer has run out, as long as its message
/// fits in what is left of `available`; the round stops at the first one
/// that does not fit.
pub open spec fn slice_plan(v: SendingView, chunk_id: u16, size: nat, now: u64, available: nat, i: nat) -> Seq<nat>
    decreases v.num_slices - i,
{
    if i >= v.num_slices {
        Seq::empty()
    } else {
        let sid = (v.current_slice_id + i) % v.num_slices;
        if v.acked[sid as int] || !v.timers[sid as int].spec_is_finished(now) {
            slice_plan(v, chunk_id, size, now, available, i + 1)
        } else {
            let message_size = spec_slice_message_size(
                chunk_id,
                sid as u32,
                v.num_slices as u32,
                slice_bytes(v.data, size, v.num_slices, sid).len(),
            );
            if available < message_size {
                Seq::empty()
            } else {
                seq![sid] + slice_plan(v, chunk_id, size, now, (available - message_size) as nat, i + 1)
            }
        }
    }
}

/// The message that carries slice `sid` of block `v`.
pub open spec fn slice_message_of(v: SendingView, chunk_id: u16, size: nat, sid: nat, m: SliceMessage) -> bool {
    &&& m.chunk_id == chunk_id
    &&& m.slice_id == sid as u32
    &&& m.num_slices == v.num_slices as u32
    &&& m.data@ == slice_bytes(v.data, size, v.num_slices, sid)
}

/// The timers after a round: those of the slices taken restart now, the
/// others are as they were.
pub open spec fn timers_restarted(before: Seq<Timer>, after: Seq<Timer>, taken: Seq<nat>, now: u64) -> bool {
    &&& after.len() == before.len()
    &&& forall|k: int|
        0 <= k < before.len() ==> if taken.contains(k as nat) {
            (#[trigger] after[k]).spec_start_time() == now && !after[k].spec_forced() && after[k].spec_duration()
                == before[k].spec_duration()
        } else {
            after[k] == before[k]
        }
}

/// The smaller of `a` and `b`.
pub open spec fn min_u64(a: u64, b: u64) -> u64 {
    if a < b {
        a
    } else {
        b
    }
}

/// What a round of `generate_slice_packets` does: the messages of the slices
/// taken, their timers restarted, and the next round starting after them.
pub open spec fn slices_generated(b: SendBlockView, a: SendBlockView, available: u64, r: Seq<SliceMessage>) -> bool {
    match b.sending {
        None => a == b && r.len() == 0,
        Some(v) => {
            let plan = slice_plan(v, b.chunk_id, b.slice_size, b.current_time, min_u64(available, b.packet_budget) as nat, 0);
            &&& r.len() == plan.len()
            &&& forall|j: int| 0 <= j < r.len() ==> slice_message_of(v, b.chunk_id, b.slice_size, plan[j], #[trigger] r[j])
            &&& a.sending matches Some(w) && timers_restarted(v.timers, w.timers, plan, b.current_time) && a
                == SendBlockView {
                sending: Some(
                    SendingView {
                        current_slice_id: (v.current_slice_id + plan.len()) % v.num_slices,
                        timers: w.timers,
                        ..v
                    },
                ),
                ..b
            }
        },
    }
}

/// Taking a round of slices would overflow the arithmetic on slice positions.
pub open spec fn slice_positions_overflow(c: SendBlockView) -> bool {
    c.sending matches Some(v) && 2 * v.num_slices > usize::MAX
}

proof fn lemma_slice_range(len: nat, size: nat, n: nat, sid: nat)
    requires
        size > 0,
        n == num_slices_for(len, size),
        sid < n,
    ensures
        sid * size <= (if sid == n - 1 { len as int } else { ((sid + 1) * size) as int }) <= len,
        (sid + 1) * size <= len + size - 1,
{
    let q = (len + size - 1) / (size as int);
    assert(q * size <= len + size - 1 && len + size - 1 < q * size + size) by (nonlinear_arith)
        requires
            q == (len + size - 1) / (size as int),
            size > 0,
            len + size - 1 >= 0,
    ;
    assert(sid * size + size <= n * size) by (nonlinear_arith)
        requires
            sid < n,
            size > 0,
    ;
    assert((sid + 1) * size == sid * size + size) by (nonlinear_arith);
    if sid < n - 1 {
        assert((sid + 1) * size <= (n - 1) * size) by (nonlinear_arith)
            requires
                sid + 1 <= n - 1,
                size > 0,
        ;
        assert((n - 1) * size == n * size - size) by (nonlinear_arith);
    } else {
        assert(sid * size == n * size - size) by (nonlinear_arith)
            requires
                sid == n - 1,
        ;
    }
}

proof fn lemma_positions_distinct(cur: nat, n: nat, i: nat, j: nat)
    requires
        n > 0,
        i < j < n,
    ensures
        (cur + i) % n != (cur + j) % n,
{
    let a = (cur + i) as int;
    let b = (cur + j) as int;
    vstd::arithmetic::div_mod::lemma_fundamental_div_mod(a, n as int);
    vstd::arithmetic::div_mod::lemma_fundamental_div_mod(b, n as int);
    let qa = a / (n as int);
    let qb = b / (n as int);
    let ra = a % (n as int);
    let rb = b % (n as int);
    if ra == rb {
        assert(b - a == (qb - qa) * n) by (nonlinear_arith)
            requires
                a == n * qa + ra,
                b == n * qb + rb,
                ra == rb,
        ;
        assert(false) by (nonlinear_arith)
            requires
                b - a == (qb - qa) * n,
                0 < b - a < n,
        ;
    }
}

proof fn lemma_plan_in_block(v: SendingView, chunk_id: u16, size: nat, now: u64, available: nat, i: nat)
    requires
        v.num_slices > 0,
    ensures
        forall|j: int|
            0 <= j < slice_plan(v, chunk_id, size, now, available, i).len() ==> #[trigger] slice_plan(
                v,
                chunk_id,
                size,
                now,
                available,
                i,
            )[j] < v.num_slices,
    decreases v.num_slices - i,
{
    if i < v.num_slices {
        let sid = (v.current_slice_id + i) % v.num_slices;
        if v.acked[sid as int] || !v.timers[sid as int].spec_is_finished(now) {
            lemma_plan_in_block(v, chunk_id, size, now, available, i + 1);
            assert(slice_plan(v, chunk_id, size, now, available, i) == slice_plan(v, chunk_id, size, now, available, i + 1));
        } else {
            let message_size = spec_slice_message_size(
                chunk_id,
                sid as u32,
                v.num_slices as u32,
                slice_bytes(v.data, size, v.num_slices, sid).len(),
            );
            assert(sid < v.num_slices);
            if available >= message_size {
                let rest = slice_plan(v, chunk_id, size, now, (available - message_size) as nat, i + 1);
                lemma_plan_in_block(v, chunk_id, size, now, (available - message_size) as nat, i + 1);
                let plan = slice_plan(v, chunk_id, size, now, available, i);
                assert(plan == seq![sid] + rest);
                assert forall|j: int| 0 <= j < plan.len() implies #[trigger] plan[j] < v.num_slices by {
                    if j > 0 {
                        assert(plan[j] == rest[j - 1]);
                    }
                }
            }
        }
    }
}

proof fn lemma_slices_prefix(data: Seq<u8>, size: nat, n: nat, k: nat)
    requires
        size > 0,
        n == num_slices_for(data.len(), size),
        k < n,
    ensures
        k * size <= data.len(),
        concat_slices(Seq::new(k, |i: int| slice_bytes(data, size, n, i as nat))) == data.subrange(0, (k * size) as int),
    decreases k,
{
    if k == 0 {
        assert(Seq::new(0, |i: int| slice_bytes(data, size, n, i as nat)) =~= Seq::<Seq<u8>>::empty());
        assert(data.subrange(0, 0) =~= Seq::<u8>::empty());
    } else {
        lemma_slices_prefix(data, size, n, (k - 1) as nat);
        lemma_slice_range(data.len(), size, n, (k - 1) as nat);
        let s = Seq::new(k, |i: int| slice_bytes(data, size, n, i as nat));
        assert(s.drop_last() =~= Seq::new((k - 1) as nat, |i: int| slice_bytes(data, size, n, i as nat)));
        assert(((k - 1) + 1) * size == k * size);
        assert(data.subrange(0, ((k - 1) * size) as int) + data.subrange(((k - 1) * size) as int, (k * size) as int)
            =~= data.subrange(0, (k * size) as int));
    }
}

/// The slices of a block, end to end, are the block: cutting `data` in
/// slices of `size` bytes (the last taking the rest) loses and adds nothing.
pub proof fn lemma_slices_make_the_block(data: Seq<u8>, size: nat)
    requires
        size > 0,
    ensures
        concat_slices(
            Seq::new(
                num_slices_for(data.len(), size),
                |i: int| slice_bytes(data, size, num_slices_for(data.len(), size), i as nat),
            ),
        ) == data,
{
    let n = num_slices_for(data.len(), size);
    if n == 0 {
        assert(data.len() == 0) by (nonlinear_arith)
            requires
                n == (data.len() + size - 1) / (size as int),
                size > 0,
                n == 0,
        ;
        assert(Seq::new(0, |i: int| slice_bytes(data, size, n, i as nat)) =~= Seq::<Seq<u8>>::empty());
        assert(data =~= Seq::<u8>::empty());
    } else {
        lemma_slices_prefix(data, size, n, (n - 1) as nat);
        lemma_slice_range(data.len(), size, n, (n - 1) as nat);
        let s = Seq::new(n, |i: int| slice_bytes(data, size, n, i as nat));
        assert(s.drop_last() =~= Seq::new((n - 1) as nat, |i: int| slice_bytes(data, size, n, i as nat)));
        assert(data.subrange(0, ((n - 1) * size) as int) + data.subrange(((n - 1) * size) as int, data.len() as int)
            =~= data);
    }
}

proof fn lemma_truncate_u32(x: usize)
    ensures
        (x as u32) as usize <= x,
{
    assert((x as u32) as usize <= x) by (bit_vector);
}

fn copy_slice(data: &Vec<u8>, start: usize, end: usize) -> (r: Vec<u8>)
    requires
        start <= end <= data@.len(),
    ensures
        r@ == data@.subrange(start as int, end as int),
{
    let mut v: Vec<u8> = Vec::new();
    let mut i: usize = start;
    while i < end
        invariant
            start <= i <= end,
            end <= data@.len(),
            v@ == data@.subrange(start as int, i as int),
        decreases end - i,
    {
        v.push(data[i]);
        i = i + 1;
        proof {
            assert(v@ =~= data@.subrange(start as int, i as int));
        }
    }
    v
}

/// Before a round: a channel sending nothing takes the next queued block.
pub open spec fn next_block_taken(b: SendBlockView, a: SendBlockView) -> bool {
    if b.sending is None && b.queue.len() > 0 {
        block_message_sent(SendBlockView { queue: b.queue.drop_first(), ..b }, a, b.queue[0])
    } else {
        a == b
    }
}

/// After a round: the messages of the slices taken are written out and the
/// packet that carries them is recorded under `sequence` (unless the buffer
/// of sent packets finds it too old).
pub open spec fn round_recorded(
    b: SendBlockView,
    a: SendBlockView,
    sequence: u16,
    messages: Seq<SliceMessage>,
    r: Option<ChannelPacketData>,
) -> bool {
    if messages.len() == 0 {
        a == b && r is None
    } else {
        &&& r matches Some(d) && d.channel_id == b.channel_id && d.messages@.len() == messages.len() && forall|j: int|
            0 <= j < messages.len() ==> (#[trigger] d.messages@[j])@ == spec_slice_message_bytes(
                messages[j].chunk_id,
                messages[j].slice_id,
                messages[j].num_slices,
                messages[j].data@,
            )
        &&& if discards16(b.packets_next, b.packets_size, sequence) {
            a == b
        } else {
            let p = a.packets[sequence];
            &&& !p.acked && p.chunk_id == b.chunk_id && p.slice_ids@.len() == messages.len()
            &&& forall|j: int| 0 <= j < messages.len() ==> #[trigger] p.slice_ids@[j] == messages[j].slice_id
            &&& a == SendBlockView {
                packets: inserted16(b.packets, b.packets_size, b.packets_next, sequence, p),
                packets_next: next_after16(b.packets_next, sequence),
                ..b
            }
        }
    }
}

/// What `get_messages_to_send` does: take the next queued block when idle,
/// run a round of slices, and record the packet that carries them.
pub open spec fn block_messages_taken(
    b: SendBlockView,
    a: SendBlockView,
    available: u64,
    sequence: u16,
    r: Option<ChannelPacketData>,
) -> bool {
    exists|b1: SendBlockView, b2: SendBlockView, messages: Seq<SliceMessage>|
        #[trigger] next_block_taken(b, b1) && #[trigger] slices_generated(b1, b2, available, messages)
            && #[trigger] round_recorded(b2, a, sequence, messages, r)
}

/// A round would divide by zero or overflow: the block it sends (the one
/// being sent, or else the next queued one) has no slices or too many.
pub open spec fn round_panics(c: SendBlockView) -> bool {
    match c.sending {
        Some(v) => v.num_slices == 0 || 2 * v.num_slices > usize::MAX,
        None => c.queue.len() > 0 && c.error is None && (c.slice_size == 0 || c.queue[0].len() + c.slice_size
            > usize::MAX || num_slices_for(c.queue[0].len(), c.slice_size) == 0 || 2 * num_slices_for(
            c.queue[0].len(),
            c.slice_size,
        ) > usize::MAX),
    }
}

impl SendBlockChannel {
    /// The buffer of sent packets is well formed and the channel's state
    /// consistent.
    pub closed spec fn wf(&self) -> bool {
        self.packets_sent.wf() && send_block_wf(self@)
    }

    /// A channel that sends nothing yet. The slice size must fit the packet
    /// budget, and the buffer of sent packets must have room.
    pub fn new(config: BlockChannelConfig) -> (r: Self)
        requires
            config.slice_size <= config.packet_budget,
            config.sent_packet_buffer_size > 0,
        ensures
            r.wf(),
            r@.channel_id == config.channel_id,
            r@.chunk_id == 0,
            r@.sending is None,
            r@.slice_size == config.slice_size,
            r@.resend_time == config.resend_time,
            r@.packet_budget == config.packet_budget,
            r@.max_message_size == config.max_message_size,
            r@.queue_size == config.message_send_queue_size,
            r@.packets == Map::<u16, BlockPacketSent>::empty(),
            r@.packets_size == config.sent_packet_buffer_size,
            r@.packets_next == 0,
            r@.queue == Seq::<Seq<u8>>::empty(),
            r@.current_time == 0,
            r@.error is None,
    {
        let r = Self {
            chunk_id: 0,
            max_message_size: config.max_message_size,
            slice_size: config.slice_size,
            packet_budget: config.packet_budget,
            resend_time: config.resend_time,
            channel_id: config.channel_id,
            message_send_queue_size: config.message_send_queue_size,
            sending: Sending::No,
            packets_sent: WrappingSequenceBuffer::with_capacity(config.sent_packet_buffer_size),
            messages_to_send: VecDeque::new(),
            current_time: 0,
            error: None,
        };
        proof {
            assert(r@.queue =~= Seq::<Seq<u8>>::empty());
        }
        r
    }

    /// Whether a block is being sent.
    pub fn is_sending(&self) -> (r: bool)
        ensures
            r == self@.sending is Some,
    {
        match self.sending {
            Sending::Yes { .. } => true,
            Sending::No => false,
        }
    }

    /// Whether another block fits in the queue.
    pub fn can_send_message(&self) -> (r: bool)
        ensures
            r == (self@.queue.len() < self@.queue_size),
    {
        self.messages_to_send.len() < self.message_send_queue_size
    }

    /// The error that stopped the channel, if any.
    pub fn error(&self) -> (r: Option<ChannelError>)
        ensures
            r == self@.error,
    {
        self.error
    }

    /// Starts sending `payload` as a block, or queues it behind the block
    /// being sent. A block above the size limit, or one more than the queue
    /// holds, stops the channel with an error.
    pub fn send_message(&mut self, payload: Vec<u8>)
        requires
            old(self).wf(),
            !send_message_panics(old(self)@, payload@.len()),
        ensures
            final(self).wf(),
            block_message_sent(old(self)@, final(self)@, payload@),
    {
        if self.error.is_some() {
            return;
        }
        if payload.len() as u64 > self.max_message_size {
            self.error = Some(ChannelError::SentMessageAboveMaxSize);
            return;
        }
        if let Sending::Yes { .. } = self.sending {
            if self.messages_to_send.len() >= self.message_send_queue_size {
                self.error = Some(ChannelError::SendQueueFull);
                return;
            }
            let ghost q = self@.queue;
            let ghost pv = payload@;
            self.messages_to_send.push_back(payload);
            proof {
                assert(self@.queue =~= q.push(pv));
            }
            return;
        }
        let num_slices = (payload.len() + self.slice_size - 1) / self.slice_size;
        let mut resend_timer = Timer::new(self.current_time, self.resend_time);
        resend_timer.finish();
        let mut resend_timers: Vec<Timer> = Vec::new();
        let mut acked: Vec<bool> = Vec::new();
        let mut i: usize = 0;
        while i < num_slices
            invariant
                i <= num_slices,
                resend_timers@.len() == i,
                acked@.len() == i,
                forall|j: int| 0 <= j < i ==> #[trigger] resend_timers@[j] == resend_timer,
                forall|j: int| 0 <= j < i ==> !#[trigger] acked@[j],
            decreases num_slices - i,
        {
            resend_timers.push(resend_timer);
            acked.push(false);
            i = i + 1;
        }
        let ghost timers = resend_timers@;
        let ghost pv = payload@;
        proof {
            assert(acked@ =~= Seq::new(num_slices as nat, |_i: int| false));
            lemma_no_true(acked@);
        }
        self.sending = Sending::Yes {
            current_slice_id: 0,
            num_acked_slices: 0,
            acked,
            num_slices,
            resend_timers,
            data: payload,
        };
        proof {
            assert(fresh_timers(timers, num_slices_for(pv.len(), old(self)@.slice_size), old(self)@.current_time, old(self)@.resend_time));
            assert(self@ == SendBlockView { sending: Some(new_block(pv, old(self)@.slice_size, timers)), ..old(self)@ });
        }
    }

    /// Takes the acknowledgement of packet `ack`.
    pub fn process_ack(&mut self, ack: u16)
        requires
            old(self).wf(),
            old(self)@.chunk_id < u16::MAX,
        ensures
            final(self).wf(),
            block_ack_processed(old(self)@, final(self)@, ack),
    {
        let mut sending = Sending::No;
        std::mem::swap(&mut sending, &mut self.sending);
        match sending {
            Sending::No => {},
            Sending::Yes { num_slices, current_slice_id, num_acked_slices, acked, data, resend_timers } => {
                let ghost v = SendingView {
                    num_slices: num_slices as nat,
                    current_slice_id: current_slice_id as nat,
                    num_acked_slices: num_acked_slices as nat,
                    acked: acked@,
                    data: data@,
                    timers: resend_timers@,
                };
                let mut acked = acked;
                let mut num_acked_slices = num_acked_slices;
                let chunk_id = self.chunk_id;
                let ghost packets0 = self.packets_sent;
                let slice_ids = match self.packets_sent.get_mut(ack) {
                    Some(sent_packet) => {
                        if sent_packet.acked || sent_packet.chunk_id != chunk_id {
                            None
                        } else {
                            sent_packet.acked = true;
                            Some(copy_ids(&sent_packet.slice_ids))
                        }
                    },
                    None => None,
                };
                match slice_ids {
                    None => {
                        self.sending = Sending::Yes { num_slices, current_slice_id, num_acked_slices, acked, data, resend_timers };
                        proof {
                            assert(self.packets_sent@ =~= old(self).packets_sent@);
                            assert(self@ == old(self)@);
                        }
                    },
                    Some(slice_ids) => {
                        proof {
                            assert(old(self)@.packets.dom().contains(ack));
                            assert(slice_ids@ == old(self)@.packets[ack].slice_ids@);
                        }
                        let ghost acked0 = acked@;
                        let ghost before_loop = *self;
                        let mut k: usize = 0;
                        while k < slice_ids.len()
                            invariant
                                *self == before_loop,
                                k <= slice_ids@.len(),
                                acked@.len() == num_slices,
                                acked0.len() == num_slices,
                                forall|j: int| 0 <= j < slice_ids@.len() ==> #[trigger] slice_ids@[j] < num_slices,
                                acked@ == acked_with(acked0, slice_ids@.subrange(0, k as int)),
                                num_acked_slices == count_true(acked@),
                            decreases slice_ids@.len() - k,
                        {
                            let slice_id = slice_ids[k] as usize;
                            proof {
                                lemma_count_true_bound(acked@);
                            }
                            if !acked[slice_id] {
                                proof {
                                    lemma_count_true_set(acked@, slice_id as int);
                                }
                                acked.set(slice_id, true);
                                num_acked_slices = num_acked_slices + 1;
                            }
                            k = k + 1;
                            proof {
                                let pre = slice_ids@.subrange(0, k - 1);
                                let cur = slice_ids@.subrange(0, k as int);
                                assert(cur =~= pre.push(slice_id as u32));
                                assert forall|i: int| 0 <= i < acked@.len() implies acked@[i] == acked_with(acked0, cur)[i] by {
                                    if exists|j: int| 0 <= j < cur.len() && cur[j] as int == i {
                                        let j = choose|j: int| 0 <= j < cur.len() && cur[j] as int == i;
                                        if j < k - 1 {
                                            assert(pre[j] as int == i);
                                        }
                                    }
                                    if exists|j: int| 0 <= j < pre.len() && pre[j] as int == i {
                                        let j = choose|j: int| 0 <= j < pre.len() && pre[j] as int == i;
                                        assert(cur[j] as int == i);
                                    }
                                    assert(cur[k - 1] as int == slice_id);
                                }
                                assert(acked@ =~= acked_with(acked0, cur));
                            }
                        }
                        proof {
                            assert(slice_ids@.subrange(0, slice_ids@.len() as int) =~= slice_ids@);
                            lemma_count_true_bound(acked@);
                        }
                        if num_acked_slices == num_slices {
                            self.chunk_id = self.chunk_id + 1;
                            proof {
                                assert forall|t: u16| #[trigger] self@.packets.dom().contains(t) implies self@.packets[t].chunk_id
                                    < self@.chunk_id by {
                                    if t != ack {
                                        assert(old(self)@.packets.dom().contains(t));
                                    }
                                }
                                assert(self@.queue == old(self)@.queue);
                            }
                        } else {
                            self.sending = Sending::Yes { num_slices, current_slice_id, num_acked_slices, acked, data, resend_timers };
                            proof {
                                let vv = self@.sending->Some_0;
                                assert(vv.num_slices == num_slices);
                                assert forall|t: u16| #[trigger] self@.packets.dom().contains(t) implies self@.packets[t].chunk_id
                                    <= self@.chunk_id && (self@.packets[t].chunk_id == self@.chunk_id ==> forall|j: int|
                                    0 <= j < self@.packets[t].slice_ids@.len() ==> #[trigger] self@.packets[t].slice_ids@[j]
                                        < vv.num_slices) by {
                                    if t != ack {
                                        assert(old(self)@.packets.dom().contains(t));
                                    }
                                }
                                assert(sending_wf(vv, self@.slice_size, self@.current_time, self@.resend_time));
                                assert(self@.queue == old(self)@.queue);
                            }
                        }
                    },
                }
            },
        }
    }

    /// One round of sending: the messages of the slices that are not
    /// acknowledged and whose resend timer ran out, going round the block
    /// from where the last round stopped, as many as fit in
    /// `available_bytes` (and the packet budget).
    pub fn generate_slice_packets(&mut self, available_bytes: u64) -> (r: Result<Vec<SliceMessage>, Box<bincode::ErrorKind>>)
        requires
            old(self).wf(),
            !slice_positions_overflow(old(self)@),
            old(self)@.sending matches Some(v) ==> v.num_slices > 0,
        ensures
            final(self).wf(),
            r is Ok,
            slices_generated(old(self)@, final(self)@, available_bytes, r->Ok_0@),
    {
        let mut sending = Sending::No;
        std::mem::swap(&mut sending, &mut self.sending);
        match sending {
            Sending::No => {
                let r: Vec<SliceMessage> = Vec::new();
                proof {
                    assert(self@ == old(self)@);
                }
                Ok(r)
            },
            Sending::Yes { num_slices, current_slice_id, num_acked_slices, acked, data, resend_timers } => {
                let ghost v = SendingView {
                    num_slices: num_slices as nat,
                    current_slice_id: current_slice_id as nat,
                    num_acked_slices: num_acked_slices as nat,
                    acked: acked@,
                    data: data@,
                    timers: resend_timers@,
                };
                let ghost before_loop = *self;
                let chunk_id = self.chunk_id;
                let slice_size = self.slice_size;
                let now = self.current_time;
                let mut resend_timers = resend_timers;
                let mut available: u64 = if available_bytes < self.packet_budget {
                    available_bytes
                } else {
                    self.packet_budget
                };
                let ghost avail0 = available as nat;
                let mut slice_messages: Vec<SliceMessage> = Vec::new();
                let ghost mut taken: Seq<nat> = Seq::empty();
                let ghost mut steps: Seq<nat> = Seq::empty();
                let mut i: usize = 0;
                let mut stopped = false;
                while i < num_slices && !stopped
                    invariant
                        *self == before_loop,
                        chunk_id == self.chunk_id,
                        slice_size == self.slice_size,
                        now == self.current_time,
                        sending_wf(v, slice_size as nat, now, self.resend_time),
                        2 * num_slices <= usize::MAX,
                        num_slices > 0,
                        v.num_slices == num_slices,
                        v.current_slice_id == current_slice_id,
                        v.acked == acked@,
                        v.data == data@,
                        i <= num_slices,
                        !stopped ==> slice_plan(v, chunk_id, slice_size as nat, now, avail0, 0) == taken
                            + slice_plan(v, chunk_id, slice_size as nat, now, available as nat, i as nat),
                        stopped ==> slice_plan(v, chunk_id, slice_size as nat, now, avail0, 0) == taken,
                        slice_messages@.len() == taken.len(),
                        steps.len() == taken.len(),
                        forall|j: int|
                            0 <= j < taken.len() ==> slice_message_of(
                                v,
                                chunk_id,
                                slice_size as nat,
                                taken[j],
                                #[trigger] slice_messages@[j],
                            ),
                        forall|j: int|
                            0 <= j < taken.len() ==> #[trigger] steps[j] < i && taken[j] == (current_slice_id as nat
                                + steps[j]) % (num_slices as nat),
                        timers_restarted(v.timers, resend_timers@, taken, now),
                        taken.len() <= i,
                    decreases (num_slices - i) * 2 + (if stopped {
                        0int
                    } else {
                        1int
                    }),
                {
                    let slice_id = (current_slice_id + i) % num_slices;
                    let ghost sid = slice_id as nat;
                    proof {
                        assert(!taken.contains(sid)) by {
                            if taken.contains(sid) {
                                let j = choose|j: int| 0 <= j < taken.len() && taken[j] == sid;
                                lemma_positions_distinct(current_slice_id as nat, num_slices as nat, steps[j], i as nat);
                            }
                        }
                        assert(resend_timers@[slice_id as int] == v.timers[slice_id as int]);
                    }
                    if acked[slice_id] {
                        i = i + 1;
                    } else if !resend_timers[slice_id].is_finished(now) {
                        i = i + 1;
                    } else {
                        proof {
                            lemma_slice_range(data@.len(), slice_size as nat, num_slices as nat, sid);
                        }
                        let start = slice_id * slice_size;
                        let end = if slice_id == num_slices - 1 {
                            data.len()
                        } else {
                            (slice_id + 1) * slice_size
                        };
                        let bytes = copy_slice(&data, start, end);
                        let message_size = slice_message_serialized_size(
                            chunk_id,
                            slice_id as u32,
                            num_slices as u32,
                            bytes.as_slice(),
                        )?;
                        if available < message_size {
                            stopped = true;
                        } else {
                            available = available - message_size;
                            let ghost timers_before = resend_timers@;
                            let ghost taken_before = taken;
                            let mut timer = resend_timers[slice_id];
                            timer.reset(now);
                            resend_timers.set(slice_id, timer);
                            let ghost before = slice_messages@;
                            slice_messages.push(
                                SliceMessage {
                                    chunk_id,
                                    slice_id: slice_id as u32,
                                    num_slices: num_slices as u32,
                                    data: bytes,
                                },
                            );
                            proof {
                                taken = taken.push(sid);
                                steps = steps.push(i as nat);
                                assert(taken =~= taken_before.push(sid));
                                assert forall|k: int| 0 <= k < v.timers.len() implies if taken.contains(k as nat) {
                                    (#[trigger] resend_timers@[k]).spec_start_time() == now
                                        && !resend_timers@[k].spec_forced() && resend_timers@[k].spec_duration()
                                        == v.timers[k].spec_duration()
                                } else {
                                    resend_timers@[k] == v.timers[k]
                                } by {
                                    if k == slice_id as int {
                                        assert(taken[taken.len() - 1] == sid);
                                        assert(resend_timers@[k] == timer);
                                        assert(timers_before[k] == v.timers[k]);
                                    } else {
                                        assert(resend_timers@[k] == timers_before[k]);
                                        if taken.contains(k as nat) {
                                            let j = choose|j: int| 0 <= j < taken.len() && taken[j] == k as nat;
                                            assert(j < taken.len() - 1);
                                            assert(taken_before[j] == k as nat);
                                            assert(taken_before.contains(k as nat));
                                        }
                                        if taken_before.contains(k as nat) {
                                            let j = choose|j: int| 0 <= j < taken_before.len() && taken_before[j] == k as nat;
                                            assert(taken[j] == k as nat);
                                        }
                                    }
                                }
                                assert forall|j: int|
                                    0 <= j < taken.len() implies slice_message_of(
                                    v,
                                    chunk_id,
                                    slice_size as nat,
                                    taken[j],
                                    #[trigger] slice_messages@[j],
                                ) by {
                                    if j < taken.len() - 1 {
                                        assert(slice_messages@[j] == before[j]);
                                    }
                                }
                            }
                            i = i + 1;
                        }
                    }
                }
                proof {
                    if !stopped {
                        assert(slice_plan(v, chunk_id, slice_size as nat, now, available as nat, i as nat) == Seq::<nat>::empty());
                        assert(taken + Seq::<nat>::empty() =~= taken);
                    }
                }
                let new_slice_id = (current_slice_id + slice_messages.len()) % num_slices;
                self.sending = Sending::Yes {
                    num_slices,
                    current_slice_id: new_slice_id,
                    num_acked_slices,
                    acked,
                    data,
                    resend_timers,
                };
                proof {
                    assert(self@.queue == old(self)@.queue);
                    let w = self@.sending->Some_0;
                    assert(w.timers == resend_timers@);
                    assert forall|k: int| 0 <= k < w.num_slices implies (#[trigger] w.timers[k]).spec_forced()
                        || w.timers[k].spec_start_time() <= now by {
                        if !taken.contains(k as nat) {
                            assert(w.timers[k] == v.timers[k]);
                        }
                    }
                    assert forall|k: int| 0 <= k < w.num_slices implies (#[trigger] w.timers[k]).spec_duration()
                        == self.resend_time by {
                        if !taken.contains(k as nat) {
                            assert(w.timers[k] == v.timers[k]);
                        }
                    }
                    assert(sending_wf(w, self@.slice_size, self@.current_time, self@.resend_time));
                    assert forall|t: u16| #[trigger] self@.packets.dom().contains(t) implies self@.packets[t].chunk_id
                        <= self@.chunk_id && (self@.packets[t].chunk_id == self@.chunk_id ==> forall|j: int|
                        0 <= j < self@.packets[t].slice_ids@.len() ==> #[trigger] self@.packets[t].slice_ids@[j]
                            < w.num_slices) by {
                        assert(old(self)@.packets.dom().contains(t));
                    }
                }
                Ok(slice_messages)
            },
        }
    }

    /// Takes the next queued block when none is being sent, and writes the
    /// messages of one round of its slices, recording that packet `sequence`
    /// carries them.
    pub fn get_messages_to_send(&mut self, available_bytes: u64, sequence: u16) -> (r: Option<ChannelPacketData>)
        requires
            old(self).wf(),
            !round_panics(old(self)@),
        ensures
            final(self).wf(),
            block_messages_taken(old(self)@, final(self)@, available_bytes, sequence, r),
    {
        let ghost b = self@;
        if let Sending::No = self.sending {
            let ghost q = self@.queue;
            if let Some(message) = self.messages_to_send.pop_front() {
                proof {
                    assert(self@.queue =~= q.drop_first());
                    assert(self@ == SendBlockView { queue: b.queue.drop_first(), ..b });
                }
                self.send_message(message);
            }
        }
        let ghost b1 = self@;
        proof {
            assert(next_block_taken(b, b1));
        }
        let slice_messages: Vec<SliceMessage> = match self.generate_slice_packets(available_bytes) {
            Ok(messages) => messages,
            Err(_) => {
                self.error = Some(ChannelError::FailedToSerialize);
                return None;
            },
        };
        let ghost b2 = self@;
        let ghost s2 = *self;
        proof {
            assert(slices_generated(b1, b2, available_bytes, slice_messages@));
        }
        if slice_messages.len() == 0 {
            proof {
                assert(round_recorded(b2, self@, sequence, slice_messages@, None));
                assert(block_messages_taken(b, self@, available_bytes, sequence, None));
            }
            return None;
        }
        let mut messages: Vec<Vec<u8>> = Vec::new();
        let mut slice_ids: Vec<u32> = Vec::new();
        let mut k: usize = 0;
        while k < slice_messages.len()
            invariant
                *self == s2,
                k <= slice_messages@.len(),
                messages@.len() == k,
                slice_ids@.len() == k,
                forall|j: int|
                    0 <= j < k ==> (#[trigger] messages@[j])@ == spec_slice_message_bytes(
                        slice_messages@[j].chunk_id,
                        slice_messages@[j].slice_id,
                        slice_messages@[j].num_slices,
                        slice_messages@[j].data@,
                    ),
                forall|j: int| 0 <= j < k ==> #[trigger] slice_ids@[j] == slice_messages@[j].slice_id,
            decreases slice_messages@.len() - k,
        {
            let message = &slice_messages[k];
            match serialize_slice_message(message.chunk_id, message.slice_id, message.num_slices, message.data.as_slice()) {
                Ok(bytes) => {
                    slice_ids.push(message.slice_id);
                    messages.push(bytes);
                },
                Err(_) => {
                    self.error = Some(ChannelError::FailedToSerialize);
                    return None;
                },
            }
            k = k + 1;
        }
        let packet_sent = BlockPacketSent { acked: false, chunk_id: self.chunk_id, slice_ids };
        let ghost ids = packet_sent.slice_ids@;
        self.packets_sent.insert(sequence, packet_sent);
        let r = ChannelPacketData { channel_id: self.channel_id, messages };
        proof {
            assert(self@.queue == b2.queue);
            if !discards16(b2.packets_next, b2.packets_size, sequence) {
                let p = self@.packets[sequence];
                assert(p.slice_ids@ == ids);
                assert forall|t: u16| #[trigger] self@.packets.dom().contains(t) implies self@.packets[t].chunk_id
                    <= self@.chunk_id && (self@.packets[t].chunk_id == self@.chunk_id ==> (self@.sending matches Some(v)
                    && forall|j: int|
                    0 <= j < self@.packets[t].slice_ids@.len() ==> #[trigger] self@.packets[t].slice_ids@[j]
                        < v.num_slices)) by {
                    if t != sequence {
                        assert(b2.packets.dom().contains(t));
                    } else {
                        let v = b1.sending->Some_0;
                        let plan = slice_plan(v, b1.chunk_id, b1.slice_size, b1.current_time, min_u64(available_bytes, b1.packet_budget) as nat, 0);
                        lemma_plan_in_block(v, b1.chunk_id, b1.slice_size, b1.current_time, min_u64(available_bytes, b1.packet_budget) as nat, 0);
                        assert forall|j: int| 0 <= j < p.slice_ids@.len() implies #[trigger] p.slice_ids@[j] < v.num_slices by {
                            assert(slice_message_of(v, b1.chunk_id, b1.slice_size, plan[j], slice_messages@[j]));
                            assert(plan[j] < v.num_slices);
                            lemma_truncate_u32(plan[j] as usize);
                        }
                    }
                }
            }
            assert(round_recorded(b2, self@, sequence, slice_messages@, Some(r)));
            assert(block_messages_taken(b, self@, available_bytes, sequence, Some(r)));
        }
        Some(r)
    }

    /// Lets `duration` nanoseconds pass for the resend timers.
    pub fn advance_time(&mut self, duration: u64)
        requires
            old(self).wf(),
            old(self)@.current_time + duration <= u64::MAX,
        ensures
            final(self).wf(),
            final(self)@ == (SendBlockView { current_time: (old(self)@.current_time + duration) as u64, ..old(self)@ }),
    {
        self.current_time = self.current_time + duration;
    }
}

proof fn lemma_no_true(s: Seq<bool>)
    requires
        forall|i: int| 0 <= i < s.len() ==> !s[i],
    ensures
        count_true(s) == 0,
    decreases s.len(),
{
    if s.len() > 0 {
        lemma_no_true(s.drop_last());
    }
}

} // verus!
