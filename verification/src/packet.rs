use vstd::prelude::*;

use crate::varint::{
    be_bytes, be_value, get_u16, get_varint, lemma_u16_roundtrip, lemma_varint_decode_bound,
    lemma_varint_roundtrip, put_u16, put_varint, spec_varint_bytes, spec_varint_decode,
    MAX_VAR_INT,
};
use std::ops::Range;

verus! {

pub type Payload = Vec<u8>;

/// Sliced messages are split into chunks of this many bytes.
pub const SLICE_SIZE: usize = 1200;

/// Largest number of slices a sliced message may announce.
pub const MAX_NUM_SLICES: usize = 1_000_000;

/// One chunk of a big message.
#[derive(Debug, Clone, PartialEq, Eq)]
pub struct Slice {
    pub message_id: u64,
    pub slice_index: usize,
    pub num_slices: usize,
    pub payload: Vec<u8>,
}

#[derive(Debug, PartialEq, Eq)]
pub enum Packet {
    /// Small messages in a reliable channel are aggregated and sent in this packet.
    SmallReliable { sequence: u64, channel_id: u8, messages: Vec<(u64, Vec<u8>)> },
    /// Small messages in an unreliable channel are aggregated and sent in this packet.
    SmallUnreliable { sequence: u64, channel_id: u8, messages: Vec<Vec<u8>> },
    /// A big unreliable message is sliced in multiple slice packets.
    UnreliableSlice { sequence: u64, channel_id: u8, slice: Slice },
    /// A big reliable message is sliced in multiple slice packets.
    ReliableSlice { sequence: u64, channel_id: u8, slice: Slice },
    /// The packets that were acked, as ranges; every value in a range is acked.
    Ack { sequence: u64, ack_ranges: Vec<Range<u64>> },
}

#[derive(Debug, Clone, Copy, PartialEq, Eq)]
pub enum SerializationError {
    BufferTooShort,
    InvalidNumSlices,
    SliceSizeAboveLimit,
    EmptySlice,
    InvalidAckRange,
    InvalidPacketType,
}

/// A slice with its payload as a sequence of bytes.
pub ghost struct SliceView {
    pub message_id: u64,
    pub slice_index: usize,
    pub num_slices: usize,
    pub payload: Seq<u8>,
}

/// A packet with its byte buffers as sequences and its ranges as (start, end) pairs.
pub ghost enum PacketView {
    SmallReliable { sequence: u64, channel_id: u8, messages: Seq<(u64, Seq<u8>)> },
    SmallUnreliable { sequence: u64, channel_id: u8, messages: Seq<Seq<u8>> },
    UnreliableSlice { sequence: u64, channel_id: u8, slice: SliceView },
    ReliableSlice { sequence: u64, channel_id: u8, slice: SliceView },
    Ack { sequence: u64, ack_ranges: Seq<(u64, u64)> },
}

impl View for Slice {
    type V = SliceView;

    open spec fn view(&self) -> SliceView {
        SliceView {
            message_id: self.message_id,
            slice_index: self.slice_index,
            num_slices: self.num_slices,
            payload: self.payload@,
        }
    }
}

pub open spec fn reliable_messages_view(ms: Seq<(u64, Vec<u8>)>) -> Seq<(u64, Seq<u8>)> {
    ms.map_values(|m: (u64, Vec<u8>)| (m.0, m.1@))
}

pub open spec fn unreliable_messages_view(ms: Seq<Vec<u8>>) -> Seq<Seq<u8>> {
    ms.map_values(|m: Vec<u8>| m@)
}

pub open spec fn ranges_view(rs: Seq<Range<u64>>) -> Seq<(u64, u64)> {
    rs.map_values(|r: Range<u64>| (r.start, r.end))
}

impl View for Packet {
    type V = PacketView;

    open spec fn view(&self) -> PacketView {
        match self {
            Packet::SmallReliable { sequence, channel_id, messages } => PacketView::SmallReliable {
                sequence: *sequence,
                channel_id: *channel_id,
                messages: reliable_messages_view(messages@),
            },
            Packet::SmallUnreliable { sequence, channel_id, messages } => PacketView::SmallUnreliable {
                sequence: *sequence,
                channel_id: *channel_id,
                messages: unreliable_messages_view(messages@),
            },
            Packet::UnreliableSlice { sequence, channel_id, slice } => PacketView::UnreliableSlice {
                sequence: *sequence,
                channel_id: *channel_id,
                slice: slice@,
            },
            Packet::ReliableSlice { sequence, channel_id, slice } => PacketView::ReliableSlice {
                sequence: *sequence,
                channel_id: *channel_id,
                slice: slice@,
            },
            Packet::Ack { sequence, ack_ranges } => PacketView::Ack {
                sequence: *sequence,
                ack_ranges: ranges_view(ack_ranges@),
            },
        }
    }
}

// ---------------------------------------------------------------------------
// The wire format.
// ---------------------------------------------------------------------------

pub open spec fn enc_reliable_messages(ms: Seq<(u64, Seq<u8>)>) -> Seq<u8>
    decreases ms.len(),
{
    if ms.len() == 0 {
        Seq::empty()
    } else {
        enc_reliable_messages(ms.drop_last()) + spec_varint_bytes(ms.last().0) + spec_varint_bytes(
            ms.last().1.len() as u64,
        ) + ms.last().1
    }
}

pub open spec fn enc_unreliable_messages(ms: Seq<Seq<u8>>) -> Seq<u8>
    decreases ms.len(),
{
    if ms.len() == 0 {
        Seq::empty()
    } else {
        enc_unreliable_messages(ms.drop_last()) + spec_varint_bytes(ms.last().len() as u64)
            + ms.last()
    }
}

pub open spec fn enc_slice(s: SliceView) -> Seq<u8> {
    spec_varint_bytes(s.message_id) + spec_varint_bytes(s.slice_index as u64) + spec_varint_bytes(
        s.num_slices as u64,
    ) + spec_varint_bytes(s.payload.len() as u64) + s.payload
}

/// The ranges below `r[k]`, from the highest down, each as the gap to the
/// range above it and its size minus one.
pub open spec fn enc_ack_tail(r: Seq<(u64, u64)>, k: nat) -> Seq<u8>
    decreases k,
{
    if k == 0 || k >= r.len() {
        Seq::empty()
    } else {
        spec_varint_bytes((r[k as int].0 - r[k - 1].1 - 1) as u64) + spec_varint_bytes(
            (r[k - 1].1 - 1 - r[k - 1].0) as u64,
        ) + enc_ack_tail(r, (k - 1) as nat)
    }
}

/// The bytes `to_bytes` writes for a packet.
pub open spec fn spec_encode(p: PacketView) -> Seq<u8> {
    match p {
        PacketView::SmallReliable { sequence, channel_id, messages } => seq![0u8] + spec_varint_bytes(
            sequence,
        ) + seq![channel_id] + be_bytes((messages.len() as u16) as nat, 2) + enc_reliable_messages(
            messages,
        ),
        PacketView::SmallUnreliable { sequence, channel_id, messages } => seq![1u8]
            + spec_varint_bytes(sequence) + seq![channel_id] + be_bytes(
            (messages.len() as u16) as nat,
            2,
        ) + enc_unreliable_messages(messages),
        PacketView::ReliableSlice { sequence, channel_id, slice } => seq![2u8] + spec_varint_bytes(
            sequence,
        ) + seq![channel_id] + enc_slice(slice),
        PacketView::UnreliableSlice { sequence, channel_id, slice } => seq![3u8]
            + spec_varint_bytes(sequence) + seq![channel_id] + enc_slice(slice),
        PacketView::Ack { sequence, ack_ranges } => {
            let n = ack_ranges.len();
            let last = ack_ranges[n - 1];
            seq![4u8] + spec_varint_bytes(sequence) + spec_varint_bytes((last.1 - 1) as u64)
                + spec_varint_bytes((last.1 - 1 - last.0) as u64) + spec_varint_bytes(
                (n - 1) as u64,
            ) + enc_ack_tail(ack_ranges, (n - 1) as nat)
        },
    }
}

/// Ack ranges that can be written: at least one, each non-empty and below
/// the varint limit, in increasing order with a gap between neighbours.
pub open spec fn ack_ranges_writable(r: Seq<(u64, u64)>) -> bool {
    &&& r.len() >= 1
    &&& r.len() - 1 <= MAX_VAR_INT
    &&& forall|i: int| 0 <= i < r.len() ==> #[trigger] r[i].0 < r[i].1 && r[i].1 - 1 <= MAX_VAR_INT
    &&& forall|i: int| 0 <= i < r.len() - 1 ==> #[trigger] r[i].1 < r[i + 1].0
}

pub open spec fn slice_writable(s: SliceView) -> bool {
    &&& s.message_id <= MAX_VAR_INT
    &&& s.slice_index <= MAX_VAR_INT
    &&& s.num_slices <= MAX_VAR_INT
    &&& s.payload.len() <= MAX_VAR_INT
}

/// Reliable messages whose ids and lengths fit the variable-length encoding.
pub open spec fn reliable_messages_writable(ms: Seq<(u64, Seq<u8>)>) -> bool {
    forall|i: int|
        0 <= i < ms.len() ==> #[trigger] ms[i].0 <= MAX_VAR_INT && ms[i].1.len() <= MAX_VAR_INT
}

/// Unreliable messages whose lengths fit the variable-length encoding.
pub open spec fn unreliable_messages_writable(ms: Seq<Seq<u8>>) -> bool {
    forall|i: int| 0 <= i < ms.len() ==> (#[trigger] ms[i]).len() <= MAX_VAR_INT
}

/// A packet whose every number fits the variable-length encoding, so that
/// writing it cannot fail for any reason but a short buffer.
pub open spec fn spec_writable(p: PacketView) -> bool {
    match p {
        PacketView::SmallReliable { sequence, messages, .. } => sequence <= MAX_VAR_INT
            && reliable_messages_writable(messages),
        PacketView::SmallUnreliable { sequence, messages, .. } => sequence <= MAX_VAR_INT
            && unreliable_messages_writable(messages),
        PacketView::ReliableSlice { sequence, slice, .. } => sequence <= MAX_VAR_INT
            && slice_writable(slice),
        PacketView::UnreliableSlice { sequence, slice, .. } => sequence <= MAX_VAR_INT
            && slice_writable(slice),
        PacketView::Ack { sequence, ack_ranges } => sequence <= MAX_VAR_INT && ack_ranges_writable(
            ack_ranges,
        ),
    }
}

/// A writable packet that reads back as itself: message counts fit in 16
/// bits and slices pass the reader's checks.
pub open spec fn spec_roundtrips(p: PacketView) -> bool {
    &&& spec_writable(p)
    &&& match p {
        PacketView::SmallReliable { messages, .. } => messages.len() <= 0xffff,
        PacketView::SmallUnreliable { messages, .. } => messages.len() <= 0xffff,
        PacketView::ReliableSlice { slice, .. } => 1 <= slice.num_slices <= MAX_NUM_SLICES && 1
            <= slice.payload.len() <= SLICE_SIZE,
        PacketView::UnreliableSlice { slice, .. } => 1 <= slice.num_slices <= MAX_NUM_SLICES,
        PacketView::Ack { .. } => true,
    }
    &&& match p {
        PacketView::SmallReliable { messages, .. } => forall|i: int|
            0 <= i < messages.len() ==> (#[trigger] messages[i]).1.len() <= usize::MAX,
        PacketView::SmallUnreliable { messages, .. } => forall|i: int|
            0 <= i < messages.len() ==> (#[trigger] messages[i]).len() <= usize::MAX,
        PacketView::ReliableSlice { slice, .. } => slice.payload.len() <= usize::MAX,
        PacketView::UnreliableSlice { slice, .. } => slice.payload.len() <= usize::MAX,
        PacketView::Ack { .. } => true,
    }
}

// ---------------------------------------------------------------------------
// Reading, on the bytes that remain.
// ---------------------------------------------------------------------------

pub open spec fn dec_u8(s: Seq<u8>) -> Option<(u8, Seq<u8>)> {
    if s.len() >= 1 {
        Some((s[0], s.subrange(1, s.len() as int)))
    } else {
        None
    }
}

pub open spec fn dec_u16(s: Seq<u8>) -> Option<(u16, Seq<u8>)> {
    if s.len() >= 2 {
        Some((be_value(s.subrange(0, 2)) as u16, s.subrange(2, s.len() as int)))
    } else {
        None
    }
}

/// A varint length followed by that many bytes.
pub open spec fn dec_bytes(s: Seq<u8>) -> Option<(Seq<u8>, Seq<u8>)> {
    match spec_varint_decode(s) {
        Some((n, t)) => {
            let m = n as usize;
            if m <= t.len() {
                Some((t.subrange(0, m as int), t.subrange(m as int, t.len() as int)))
            } else {
                None
            }
        },
        None => None,
    }
}

pub open spec fn dec_reliable_messages(s: Seq<u8>, count: nat) -> Option<
    (Seq<(u64, Seq<u8>)>, Seq<u8>),
>
    decreases count,
{
    if count == 0 {
        Some((Seq::empty(), s))
    } else {
        match dec_reliable_messages(s, (count - 1) as nat) {
            Some((ms, t)) => match spec_varint_decode(t) {
                Some((id, t2)) => match dec_bytes(t2) {
                    Some((m, t3)) => Some((ms.push((id, m)), t3)),
                    None => None,
                },
                None => None,
            },
            None => None,
        }
    }
}

pub open spec fn dec_unreliable_messages(s: Seq<u8>, count: nat) -> Option<
    (Seq<Seq<u8>>, Seq<u8>),
>
    decreases count,
{
    if count == 0 {
        Some((Seq::empty(), s))
    } else {
        match dec_unreliable_messages(s, (count - 1) as nat) {
            Some((ms, t)) => match dec_bytes(t) {
                Some((m, t2)) => Some((ms.push(m), t2)),
                None => None,
            },
            None => None,
        }
    }
}

/// Reads `count` more ranges below `prev_start`, adding them to `acc` from
/// the highest down.
pub open spec fn dec_ack_ranges(s: Seq<u8>, prev_start: u64, count: nat, acc: Seq<(u64, u64)>) -> Result<
    (Seq<(u64, u64)>, Seq<u8>),
    SerializationError,
>
    decreases count,
{
    if count == 0 {
        Ok((acc, s))
    } else {
        match spec_varint_decode(s) {
            None => Err(SerializationError::BufferTooShort),
            Some((gap, t)) => if prev_start < 2 + gap {
                Err(SerializationError::InvalidAckRange)
            } else {
                let end = (prev_start - gap - 2) as u64;
                match spec_varint_decode(t) {
                    None => Err(SerializationError::BufferTooShort),
                    Some((size, t2)) => if end < size {
                        Err(SerializationError::InvalidAckRange)
                    } else {
                        let start = (end - size) as u64;
                        dec_ack_ranges(
                            t2,
                            start,
                            (count - 1) as nat,
                            acc.push((start, (end + 1) as u64)),
                        )
                    },
                }
            },
        }
    }
}

/// Reads a slice; `reliable` adds the payload checks of reliable slices.
pub open spec fn dec_slice(s: Seq<u8>, reliable: bool) -> Result<SliceView, SerializationError> {
    match spec_varint_decode(s) {
        None => Err(SerializationError::BufferTooShort),
        Some((message_id, s1)) => match spec_varint_decode(s1) {
            None => Err(SerializationError::BufferTooShort),
            Some((slice_index, s2)) => match spec_varint_decode(s2) {
                None => Err(SerializationError::BufferTooShort),
                Some((num_slices, s3)) => if (num_slices as usize) == 0 || (num_slices as usize)
                    > MAX_NUM_SLICES {
                    Err(SerializationError::InvalidNumSlices)
                } else {
                    match dec_bytes(s3) {
                        None => Err(SerializationError::BufferTooShort),
                        Some((payload, _)) => if reliable && payload.len() == 0 {
                            Err(SerializationError::EmptySlice)
                        } else if reliable && payload.len() > SLICE_SIZE {
                            Err(SerializationError::SliceSizeAboveLimit)
                        } else {
                            Ok(
                                SliceView {
                                    message_id,
                                    slice_index: slice_index as usize,
                                    num_slices: num_slices as usize,
                                    payload,
                                },
                            )
                        },
                    }
                },
            },
        },
    }
}

/// The rest of a packet carrying small messages (types 0 and 1).
pub open spec fn dec_small(s0: Seq<u8>, packet_type: u8) -> Result<PacketView, SerializationError> {
    match spec_varint_decode(s0) {
        None => Err(SerializationError::BufferTooShort),
        Some((sequence, s1)) => match dec_u8(s1) {
            None => Err(SerializationError::BufferTooShort),
            Some((channel_id, s2)) => match dec_u16(s2) {
                None => Err(SerializationError::BufferTooShort),
                Some((count, s3)) => if packet_type == 0 {
                    match dec_reliable_messages(s3, count as nat) {
                        None => Err(SerializationError::BufferTooShort),
                        Some((messages, _)) => Ok(
                            PacketView::SmallReliable { sequence, channel_id, messages },
                        ),
                    }
                } else {
                    match dec_unreliable_messages(s3, count as nat) {
                        None => Err(SerializationError::BufferTooShort),
                        Some((messages, _)) => Ok(
                            PacketView::SmallUnreliable { sequence, channel_id, messages },
                        ),
                    }
                },
            },
        },
    }
}

/// The rest of a slice packet (types 2 and 3).
pub open spec fn dec_slice_packet(s0: Seq<u8>, packet_type: u8) -> Result<PacketView, SerializationError> {
    match spec_varint_decode(s0) {
        None => Err(SerializationError::BufferTooShort),
        Some((sequence, s1)) => match dec_u8(s1) {
            None => Err(SerializationError::BufferTooShort),
            Some((channel_id, s2)) => match dec_slice(s2, packet_type == 2) {
                Err(e) => Err(e),
                Ok(slice) => if packet_type == 2 {
                    Ok(PacketView::ReliableSlice { sequence, channel_id, slice })
                } else {
                    Ok(PacketView::UnreliableSlice { sequence, channel_id, slice })
                },
            },
        },
    }
}

/// The rest of an ack packet (type 4).
pub open spec fn dec_ack(s0: Seq<u8>) -> Result<PacketView, SerializationError> {
    match spec_varint_decode(s0) {
        None => Err(SerializationError::BufferTooShort),
        Some((sequence, s1)) => match spec_varint_decode(s1) {
            None => Err(SerializationError::BufferTooShort),
            Some((first_end, s2)) => match spec_varint_decode(s2) {
                None => Err(SerializationError::BufferTooShort),
                Some((first_size, s3)) => match spec_varint_decode(s3) {
                    None => Err(SerializationError::BufferTooShort),
                    Some((num_remaining, s4)) => if first_end < first_size {
                        Err(SerializationError::InvalidAckRange)
                    } else {
                        let first_start = (first_end - first_size) as u64;
                        match dec_ack_ranges(
                            s4,
                            first_start,
                            num_remaining as nat,
                            seq![(first_start, (first_end + 1) as u64)],
                        ) {
                            Err(e) => Err(e),
                            Ok((ranges, _)) => Ok(
                                PacketView::Ack { sequence, ack_ranges: ranges.reverse() },
                            ),
                        }
                    },
                },
            },
        },
    }
}

/// What `from_bytes` reads from the front of `s`.
pub open spec fn spec_decode(s: Seq<u8>) -> Result<PacketView, SerializationError> {
    match dec_u8(s) {
        None => Err(SerializationError::BufferTooShort),
        Some((packet_type, s0)) => if packet_type == 0 || packet_type == 1 {
            dec_small(s0, packet_type)
        } else if packet_type == 2 || packet_type == 3 {
            dec_slice_packet(s0, packet_type)
        } else if packet_type == 4 {
            dec_ack(s0)
        } else {
            Err(SerializationError::InvalidPacketType)
        },
    }
}

/// The sequence number a packet carries.
pub open spec fn packet_sequence_of(p: PacketView) -> u64 {
    match p {
        PacketView::SmallReliable { sequence, .. } => sequence,
        PacketView::SmallUnreliable { sequence, .. } => sequence,
        PacketView::UnreliableSlice { sequence, .. } => sequence,
        PacketView::ReliableSlice { sequence, .. } => sequence,
        PacketView::Ack { sequence, .. } => sequence,
    }
}

/// A packet read from bytes has a sequence number within the varint limit.
pub proof fn lemma_decoded_sequence_bound(s: Seq<u8>)
    requires
        spec_decode(s) is Ok,
    ensures
        packet_sequence_of(spec_decode(s)->Ok_0) <= MAX_VAR_INT,
{
    let s0 = dec_u8(s).unwrap().1;
    lemma_varint_decode_bound(s0);
}

// ---------------------------------------------------------------------------
// Reading back what was written.
// ---------------------------------------------------------------------------

proof fn lemma_dec_u8(b: u8, rest: Seq<u8>)
    ensures
        dec_u8(seq![b] + rest) == Some((b, rest)),
{
    assert((seq![b] + rest).subrange(1, (seq![b] + rest).len() as int) =~= rest);
}

proof fn lemma_dec_u16(v: u16, rest: Seq<u8>)
    ensures
        dec_u16(be_bytes(v as nat, 2) + rest) == Some((v, rest)),
{
    lemma_u16_roundtrip(v);
    let s = be_bytes(v as nat, 2) + rest;
    assert(s.subrange(0, 2) =~= be_bytes(v as nat, 2));
    assert(s.subrange(2, s.len() as int) =~= rest);
}

proof fn lemma_dec_bytes(p: Seq<u8>, rest: Seq<u8>)
    requires
        p.len() <= MAX_VAR_INT,
        p.len() <= usize::MAX,
    ensures
        dec_bytes(spec_varint_bytes(p.len() as u64) + p + rest) == Some((p, rest)),
{
    let s = spec_varint_bytes(p.len() as u64) + p + rest;
    lemma_varint_roundtrip(p.len() as u64, p + rest);
    assert(s =~= spec_varint_bytes(p.len() as u64) + (p + rest));
    assert((p + rest).subrange(0, p.len() as int) =~= p);
    assert((p + rest).subrange(p.len() as int, (p + rest).len() as int) =~= rest);
}

proof fn lemma_dec_reliable_messages(ms: Seq<(u64, Seq<u8>)>, rest: Seq<u8>)
    requires
        forall|i: int|
            0 <= i < ms.len() ==> #[trigger] ms[i].0 <= MAX_VAR_INT && ms[i].1.len() <= MAX_VAR_INT
                && ms[i].1.len() <= usize::MAX,
    ensures
        dec_reliable_messages(enc_reliable_messages(ms) + rest, ms.len()) == Some((ms, rest)),
    decreases ms.len(),
{
    if ms.len() > 0 {
        let last = ms.last();
        let one = spec_varint_bytes(last.0) + spec_varint_bytes(last.1.len() as u64) + last.1;
        assert(ms[ms.len() - 1] == last);
        lemma_dec_reliable_messages(ms.drop_last(), one + rest);
        assert(enc_reliable_messages(ms) + rest =~= enc_reliable_messages(ms.drop_last()) + (one
            + rest));
        lemma_varint_roundtrip(last.0, spec_varint_bytes(last.1.len() as u64) + last.1 + rest);
        assert(one + rest =~= spec_varint_bytes(last.0) + (spec_varint_bytes(last.1.len() as u64)
            + last.1 + rest));
        lemma_dec_bytes(last.1, rest);
        assert(ms.drop_last().push(last) =~= ms);
    }
}

proof fn lemma_dec_unreliable_messages(ms: Seq<Seq<u8>>, rest: Seq<u8>)
    requires
        forall|i: int|
            0 <= i < ms.len() ==> (#[trigger] ms[i]).len() <= MAX_VAR_INT && ms[i].len()
                <= usize::MAX,
    ensures
        dec_unreliable_messages(enc_unreliable_messages(ms) + rest, ms.len()) == Some((ms, rest)),
    decreases ms.len(),
{
    if ms.len() > 0 {
        let last = ms.last();
        let one = spec_varint_bytes(last.len() as u64) + last;
        assert(ms[ms.len() - 1] == last);
        lemma_dec_unreliable_messages(ms.drop_last(), one + rest);
        assert(enc_unreliable_messages(ms) + rest =~= enc_unreliable_messages(ms.drop_last()) + (
        one + rest));
        lemma_dec_bytes(last, rest);
        assert(ms.drop_last().push(last) =~= ms);
    }
}

proof fn lemma_dec_ack_ranges(r: Seq<(u64, u64)>, k: nat, acc: Seq<(u64, u64)>, rest: Seq<u8>)
    requires
        ack_ranges_writable(r),
        k < r.len(),
    ensures
        dec_ack_ranges(enc_ack_tail(r, k) + rest, r[k as int].0, k, acc) == Ok::<
            (Seq<(u64, u64)>, Seq<u8>),
            SerializationError,
        >((acc + r.subrange(0, k as int).reverse(), rest)),
    decreases k,
{
    if k == 0 {
        assert(enc_ack_tail(r, k) + rest =~= rest);
        assert(acc + r.subrange(0, 0).reverse() =~= acc);
    } else {
        let cur = r[k as int];
        let below = r[k - 1];
        assert(below.1 < cur.0);
        let gap = (cur.0 - below.1 - 1) as u64;
        let size = (below.1 - 1 - below.0) as u64;
        lemma_dec_ack_ranges(r, (k - 1) as nat, acc.push(below), rest);
        let tail = enc_ack_tail(r, (k - 1) as nat);
        assert(enc_ack_tail(r, k) + rest =~= spec_varint_bytes(gap) + (spec_varint_bytes(size) + (
        tail + rest)));
        lemma_varint_roundtrip(gap, spec_varint_bytes(size) + (tail + rest));
        lemma_varint_roundtrip(size, tail + rest);
        assert(acc.push(below) + r.subrange(0, k - 1).reverse() =~= acc + r.subrange(
            0,
            k as int,
        ).reverse());
    }
}

proof fn lemma_dec_slice(sl: SliceView, reliable: bool, rest: Seq<u8>)
    requires
        slice_writable(sl),
        sl.payload.len() <= usize::MAX,
        1 <= sl.num_slices <= MAX_NUM_SLICES,
        reliable ==> 1 <= sl.payload.len() <= SLICE_SIZE,
    ensures
        dec_slice(enc_slice(sl) + rest, reliable) == Ok::<SliceView, SerializationError>(sl),
{
    let b4 = spec_varint_bytes(sl.payload.len() as u64) + sl.payload + rest;
    let b3 = spec_varint_bytes(sl.num_slices as u64) + b4;
    let b2 = spec_varint_bytes(sl.slice_index as u64) + b3;
    assert(enc_slice(sl) + rest =~= spec_varint_bytes(sl.message_id) + b2);
    lemma_varint_roundtrip(sl.message_id, b2);
    lemma_varint_roundtrip(sl.slice_index as u64, b3);
    lemma_varint_roundtrip(sl.num_slices as u64, b4);
    lemma_dec_bytes(sl.payload, rest);
}

proof fn lemma_roundtrip_small_reliable(p: PacketView, rest: Seq<u8>)
    requires
        spec_roundtrips(p),
        p is SmallReliable,
    ensures
        spec_decode(spec_encode(p) + rest) == Ok::<PacketView, SerializationError>(p),
{
    match p {
        PacketView::SmallReliable { sequence, channel_id, messages } => {
        let count = messages.len() as u16;
        let b3 = enc_reliable_messages(messages) + rest;
        let b2 = be_bytes(count as nat, 2) + b3;
        let b1 = seq![channel_id] + b2;
        assert(spec_encode(p) + rest =~= seq![0u8] + (spec_varint_bytes(sequence) + b1));
        lemma_dec_u8(0u8, spec_varint_bytes(sequence) + b1);
        lemma_varint_roundtrip(sequence, b1);
        lemma_dec_u8(channel_id, b2);
        lemma_dec_u16(count, b3);
        lemma_dec_reliable_messages(messages, rest);
        },
        _ => {},
    }
}

proof fn lemma_roundtrip_small_unreliable(p: PacketView, rest: Seq<u8>)
    requires
        spec_roundtrips(p),
        p is SmallUnreliable,
    ensures
        spec_decode(spec_encode(p) + rest) == Ok::<PacketView, SerializationError>(p),
{
    match p {
        PacketView::SmallUnreliable { sequence, channel_id, messages } => {
        let count = messages.len() as u16;
        let b3 = enc_unreliable_messages(messages) + rest;
        let b2 = be_bytes(count as nat, 2) + b3;
        let b1 = seq![channel_id] + b2;
        assert(spec_encode(p) + rest =~= seq![1u8] + (spec_varint_bytes(sequence) + b1));
        lemma_dec_u8(1u8, spec_varint_bytes(sequence) + b1);
        lemma_varint_roundtrip(sequence, b1);
        lemma_dec_u8(channel_id, b2);
        lemma_dec_u16(count, b3);
        lemma_dec_unreliable_messages(messages, rest);
        },
        _ => {},
    }
}

proof fn lemma_roundtrip_slice_parts(
    t: u8,
    sequence: u64,
    channel_id: u8,
    slice: SliceView,
    rest: Seq<u8>,
)
    requires
        t == 2 || t == 3,
        sequence <= MAX_VAR_INT,
        slice_writable(slice),
        slice.payload.len() <= usize::MAX,
        1 <= slice.num_slices <= MAX_NUM_SLICES,
        t == 2 ==> 1 <= slice.payload.len() <= SLICE_SIZE,
    ensures
        dec_slice_packet(spec_varint_bytes(sequence) + (seq![channel_id] + (enc_slice(slice) + rest)), t)
            == (if t == 2 {
            Ok::<PacketView, SerializationError>(PacketView::ReliableSlice { sequence, channel_id, slice })
        } else {
            Ok::<PacketView, SerializationError>(PacketView::UnreliableSlice { sequence, channel_id, slice })
        }),
{
    let b2 = enc_slice(slice) + rest;
    let b1 = seq![channel_id] + b2;
    lemma_varint_roundtrip(sequence, b1);
    lemma_dec_u8(channel_id, b2);
    lemma_dec_slice(slice, t == 2, rest);
}

proof fn lemma_roundtrip_ack_parts(sequence: u64, r: Seq<(u64, u64)>, rest: Seq<u8>)
    requires
        sequence <= MAX_VAR_INT,
        ack_ranges_writable(r),
    ensures
        ({
            let n = r.len();
            let last = r[n - 1];
            dec_ack(
                spec_varint_bytes(sequence) + (spec_varint_bytes((last.1 - 1) as u64) + (
                spec_varint_bytes((last.1 - 1 - last.0) as u64) + (spec_varint_bytes((n - 1) as u64)
                    + (enc_ack_tail(r, (n - 1) as nat) + rest)))),
            ) == Ok::<PacketView, SerializationError>(PacketView::Ack { sequence, ack_ranges: r })
        }),
{
    let n = r.len();
    let last = r[n - 1];
    assert(last.0 < last.1 && last.1 - 1 <= MAX_VAR_INT);
    let end = (last.1 - 1) as u64;
    let size = (last.1 - 1 - last.0) as u64;
    let b4 = enc_ack_tail(r, (n - 1) as nat) + rest;
    let b3 = spec_varint_bytes((n - 1) as u64) + b4;
    let b2 = spec_varint_bytes(size) + b3;
    let b1 = spec_varint_bytes(end) + b2;
    lemma_varint_roundtrip(sequence, b1);
    lemma_varint_roundtrip(end, b2);
    lemma_varint_roundtrip(size, b3);
    lemma_varint_roundtrip((n - 1) as u64, b4);
    lemma_dec_ack_ranges(r, (n - 1) as nat, seq![last], rest);
    assert(last.0 == (end - size) as u64);
    assert((seq![last] + r.subrange(0, n - 1).reverse()).reverse() =~= r);
}

proof fn lemma_assoc4(a: Seq<u8>, b: Seq<u8>, c: Seq<u8>, d: Seq<u8>, e: Seq<u8>)
    ensures
        a + b + c + d + e == a + (b + (c + (d + e))),
{
    assert(a + b + c + d + e =~= a + (b + (c + (d + e))));
}

proof fn lemma_roundtrip_slice(p: PacketView, rest: Seq<u8>)
    requires
        spec_roundtrips(p),
        p is ReliableSlice || p is UnreliableSlice,
    ensures
        spec_decode(spec_encode(p) + rest) == Ok::<PacketView, SerializationError>(p),
{
    match p {
        PacketView::ReliableSlice { sequence, channel_id, slice } => {
            let s0 = spec_varint_bytes(sequence) + (seq![channel_id] + (enc_slice(slice) + rest));
            assert(spec_encode(p) == seq![2u8] + spec_varint_bytes(sequence) + seq![channel_id] + enc_slice(slice));
            lemma_assoc4(seq![2u8], spec_varint_bytes(sequence), seq![channel_id], enc_slice(slice), rest);
            lemma_dec_u8(2u8, s0);
            lemma_roundtrip_slice_parts(2u8, sequence, channel_id, slice, rest);
        },
        PacketView::UnreliableSlice { sequence, channel_id, slice } => {
            let s0 = spec_varint_bytes(sequence) + (seq![channel_id] + (enc_slice(slice) + rest));
            assert(spec_encode(p) == seq![3u8] + spec_varint_bytes(sequence) + seq![channel_id] + enc_slice(slice));
            lemma_assoc4(seq![3u8], spec_varint_bytes(sequence), seq![channel_id], enc_slice(slice), rest);
            lemma_dec_u8(3u8, s0);
            lemma_roundtrip_slice_parts(3u8, sequence, channel_id, slice, rest);
        },
        _ => {},
    }
}

proof fn lemma_roundtrip_ack(p: PacketView, rest: Seq<u8>)
    requires
        spec_roundtrips(p),
        p is Ack,
    ensures
        spec_decode(spec_encode(p) + rest) == Ok::<PacketView, SerializationError>(p),
{
    match p {
        PacketView::Ack { sequence, ack_ranges } => {
            let r = ack_ranges;
            let n = r.len();
            let last = r[n - 1];
            let s0 = spec_varint_bytes(sequence) + (spec_varint_bytes((last.1 - 1) as u64) + (
            spec_varint_bytes((last.1 - 1 - last.0) as u64) + (spec_varint_bytes((n - 1) as u64)
                + (enc_ack_tail(r, (n - 1) as nat) + rest))));
            assert(spec_encode(p) + rest =~= seq![4u8] + s0);
            lemma_dec_u8(4u8, s0);
            lemma_roundtrip_ack_parts(sequence, r, rest);
        },
        _ => {},
    }
}

/// What `to_bytes` writes, `from_bytes` reads back as the same packet, and
/// bytes that follow it do not matter.
pub proof fn lemma_packet_roundtrip(p: PacketView, rest: Seq<u8>)
    requires
        spec_roundtrips(p),
    ensures
        spec_decode(spec_encode(p) + rest) == Ok::<PacketView, SerializationError>(p),
{
    match p {
        PacketView::SmallReliable { .. } => lemma_roundtrip_small_reliable(p, rest),
        PacketView::SmallUnreliable { .. } => lemma_roundtrip_small_unreliable(p, rest),
        PacketView::ReliableSlice { .. } => lemma_roundtrip_slice(p, rest),
        PacketView::UnreliableSlice { .. } => lemma_roundtrip_slice(p, rest),
        PacketView::Ack { .. } => lemma_roundtrip_ack(p, rest),
    }
}

// ---------------------------------------------------------------------------
// Writing.
// ---------------------------------------------------------------------------

fn put_u8(out: &mut Vec<u8>, v: u8)
    ensures
        final(out)@ == old(out)@ + seq![v],
{
    out.push(v);
    proof {
        assert(out@ =~= old(out)@ + seq![v]);
    }
}

fn put_bytes(out: &mut Vec<u8>, bytes: &Vec<u8>)
    ensures
        final(out)@ == old(out)@ + bytes@,
{
    let mut i: usize = 0;
    while i < bytes.len()
        invariant
            i <= bytes@.len(),
            out@ == old(out)@ + bytes@.subrange(0, i as int),
        decreases bytes@.len() - i,
    {
        out.push(bytes[i]);
        i = i + 1;
        proof {
            assert(out@ =~= old(out)@ + bytes@.subrange(0, i as int));
        }
    }
    proof {
        assert(bytes@.subrange(0, bytes@.len() as int) =~= bytes@);
    }
}

fn put_reliable_messages(out: &mut Vec<u8>, messages: &Vec<(u64, Vec<u8>)>)
    requires
        reliable_messages_writable(reliable_messages_view(messages@)),
    ensures
        final(out)@ == old(out)@ + enc_reliable_messages(reliable_messages_view(messages@)),
{
    let ghost v = reliable_messages_view(messages@);
    let mut i: usize = 0;
    proof {
        assert(v.take(0) =~= Seq::<(u64, Seq<u8>)>::empty());
        assert(old(out)@ + enc_reliable_messages(v.take(0)) =~= old(out)@);
    }
    while i < messages.len()
        invariant
            i <= messages@.len(),
            v == reliable_messages_view(messages@),
            reliable_messages_writable(v),
            out@ == old(out)@ + enc_reliable_messages(v.take(i as int)),
        decreases messages@.len() - i,
    {
        let (id, payload) = (messages[i].0, &messages[i].1);
        proof {
            assert(v[i as int] == (id, payload@));
            assert(v[i as int].0 <= MAX_VAR_INT);
        }
        put_varint(out, id);
        put_varint(out, payload.len() as u64);
        put_bytes(out, payload);
        proof {
            assert(v.take(i + 1).drop_last() =~= v.take(i as int));
            assert(v.take(i + 1).last() == v[i as int]);
            assert(out@ =~= old(out)@ + enc_reliable_messages(v.take(i + 1)));
        }
        i = i + 1;
    }
    proof {
        assert(v.take(i as int) =~= v);
    }
}

fn put_unreliable_messages(out: &mut Vec<u8>, messages: &Vec<Vec<u8>>)
    requires
        unreliable_messages_writable(unreliable_messages_view(messages@)),
    ensures
        final(out)@ == old(out)@ + enc_unreliable_messages(unreliable_messages_view(messages@)),
{
    let ghost v = unreliable_messages_view(messages@);
    let mut i: usize = 0;
    proof {
        assert(v.take(0) =~= Seq::<Seq<u8>>::empty());
        assert(old(out)@ + enc_unreliable_messages(v.take(0)) =~= old(out)@);
    }
    while i < messages.len()
        invariant
            i <= messages@.len(),
            v == unreliable_messages_view(messages@),
            unreliable_messages_writable(v),
            out@ == old(out)@ + enc_unreliable_messages(v.take(i as int)),
        decreases messages@.len() - i,
    {
        let payload = &messages[i];
        proof {
            assert(v[i as int] == payload@);
            assert(v[i as int].len() <= MAX_VAR_INT);
        }
        put_varint(out, payload.len() as u64);
        put_bytes(out, payload);
        proof {
            assert(v.take(i + 1).drop_last() =~= v.take(i as int));
            assert(v.take(i + 1).last() == v[i as int]);
            assert(out@ =~= old(out)@ + enc_unreliable_messages(v.take(i + 1)));
        }
        i = i + 1;
    }
    proof {
        assert(v.take(i as int) =~= v);
    }
}

fn put_slice(out: &mut Vec<u8>, slice: &Slice)
    requires
        slice_writable(slice@),
    ensures
        final(out)@ == old(out)@ + enc_slice(slice@),
{
    put_varint(out, slice.message_id);
    put_varint(out, slice.slice_index as u64);
    put_varint(out, slice.num_slices as u64);
    put_varint(out, slice.payload.len() as u64);
    put_bytes(out, &slice.payload);
    proof {
        assert(out@ =~= old(out)@ + enc_slice(slice@));
    }
}

fn put_ack_ranges(out: &mut Vec<u8>, ack_ranges: &Vec<Range<u64>>)
    requires
        ack_ranges_writable(ranges_view(ack_ranges@)),
    ensures
        ({
            let r = ranges_view(ack_ranges@);
            let n = r.len();
            let last = r[n - 1];
            final(out)@ == old(out)@ + spec_varint_bytes((last.1 - 1) as u64) + spec_varint_bytes(
                (last.1 - 1 - last.0) as u64,
            ) + spec_varint_bytes((n - 1) as u64) + enc_ack_tail(r, (n - 1) as nat)
        }),
{
    let ghost r = ranges_view(ack_ranges@);
    let n = ack_ranges.len();
    let last_start = ack_ranges[n - 1].start;
    let last_end = ack_ranges[n - 1].end;
    proof {
        assert(r[n - 1] == (last_start, last_end));
        assert(r[n - 1].0 < r[n - 1].1);
    }
    put_varint(out, last_end - 1);
    put_varint(out, (last_end - 1) - last_start);
    put_varint(out, (n - 1) as u64);
    let ghost base = out@;
    let mut previous_range_start = last_start;
    let mut i: usize = n - 1;
    proof {
        assert(base + enc_ack_tail(r, i as nat) =~= base + enc_ack_tail(r, (n - 1) as nat));
    }
    while i > 0
        invariant
            0 <= i < n,
            n == ack_ranges@.len(),
            r == ranges_view(ack_ranges@),
            ack_ranges_writable(r),
            previous_range_start == r[i as int].0,
            out@ + enc_ack_tail(r, i as nat) == base + enc_ack_tail(r, (n - 1) as nat),
        decreases i,
    {
        let start = ack_ranges[i - 1].start;
        let end = ack_ranges[i - 1].end;
        proof {
            assert(r[i - 1] == (start, end));
            assert(r[i - 1].0 < r[i - 1].1);
            assert(r[i - 1].1 < r[i as int].0);
        }
        let gap = previous_range_start - end - 1;
        let range_size = (end - 1) - start;
        let ghost before = out@;
        put_varint(out, gap);
        put_varint(out, range_size);
        proof {
            assert(enc_ack_tail(r, i as nat) == spec_varint_bytes(gap) + spec_varint_bytes(range_size)
                + enc_ack_tail(r, (i - 1) as nat));
            assert(out@ + enc_ack_tail(r, (i - 1) as nat) =~= before + enc_ack_tail(r, i as nat));
        }
        previous_range_start = start;
        i = i - 1;
    }
    proof {
        assert(out@ + enc_ack_tail(r, 0) =~= out@);
    }
}

impl Packet {
    pub fn sequence(&self) -> (r: u64)
        ensures
            r == match self@ {
                PacketView::SmallReliable { sequence, .. } => sequence,
                PacketView::SmallUnreliable { sequence, .. } => sequence,
                PacketView::UnreliableSlice { sequence, .. } => sequence,
                PacketView::ReliableSlice { sequence, .. } => sequence,
                PacketView::Ack { sequence, .. } => sequence,
            },
    {
        match self {
            Packet::SmallReliable { sequence, .. } => *sequence,
            Packet::SmallUnreliable { sequence, .. } => *sequence,
            Packet::UnreliableSlice { sequence, .. } => *sequence,
            Packet::ReliableSlice { sequence, .. } => *sequence,
            Packet::Ack { sequence, .. } => *sequence,
        }
    }

    /// Serializes the packet for a buffer of `buffer_len` bytes; a packet that
    /// does not fit is refused with `BufferTooShort`.
    pub fn to_bytes(&self, buffer_len: usize) -> (r: Result<Vec<u8>, SerializationError>)
        requires
            spec_writable(self@),
        ensures
            r matches Ok(bytes) ==> bytes@ == spec_encode(self@) && bytes@.len() <= buffer_len,
            r matches Err(e) ==> e == SerializationError::BufferTooShort && spec_encode(self@).len()
                > buffer_len,
    {
        let mut b: Vec<u8> = Vec::new();
        match self {
            Packet::SmallReliable { sequence, channel_id, messages } => {
                put_u8(&mut b, 0);
                put_varint(&mut b, *sequence);
                put_u8(&mut b, *channel_id);
                put_u16(&mut b, #[verifier::truncate] (messages.len() as u16));
                put_reliable_messages(&mut b, messages);
            },
            Packet::SmallUnreliable { sequence, channel_id, messages } => {
                put_u8(&mut b, 1);
                put_varint(&mut b, *sequence);
                put_u8(&mut b, *channel_id);
                put_u16(&mut b, #[verifier::truncate] (messages.len() as u16));
                put_unreliable_messages(&mut b, messages);
            },
            Packet::ReliableSlice { sequence, channel_id, slice } => {
                put_u8(&mut b, 2);
                put_varint(&mut b, *sequence);
                put_u8(&mut b, *channel_id);
                put_slice(&mut b, slice);
            },
            Packet::UnreliableSlice { sequence, channel_id, slice } => {
                put_u8(&mut b, 3);
                put_varint(&mut b, *sequence);
                put_u8(&mut b, *channel_id);
                put_slice(&mut b, slice);
            },
            Packet::Ack { sequence, ack_ranges } => {
                put_u8(&mut b, 4);
                put_varint(&mut b, *sequence);
                put_ack_ranges(&mut b, ack_ranges);
            },
        }
        proof {
            assert(b@ =~= spec_encode(self@));
        }
        if b.len() > buffer_len {
            return Err(SerializationError::BufferTooShort);
        }
        Ok(b)
    }
}

// ---------------------------------------------------------------------------
// Reading.
// ---------------------------------------------------------------------------

/// The bytes of `src` from `pos` on.
pub open spec fn rest_from(src: Seq<u8>, pos: int) -> Seq<u8> {
    src.subrange(pos, src.len() as int)
}

fn read_u8(src: &[u8], pos: usize) -> (r: Option<(u8, usize)>)
    requires
        pos <= src@.len(),
    ensures
        match dec_u8(rest_from(src@, pos as int)) {
            Some((v, t)) => (r matches Some((w, p)) && w == v && p <= src@.len() && t == rest_from(
                src@,
                p as int,
            )),
            None => r is None,
        },
{
    if pos < src.len() {
        proof {
            assert(rest_from(src@, pos as int).subrange(1, rest_from(src@, pos as int).len() as int)
                =~= rest_from(src@, pos + 1));
        }
        Some((src[pos], pos + 1))
    } else {
        None
    }
}

fn read_u16(src: &[u8], pos: usize) -> (r: Option<(u16, usize)>)
    requires
        pos <= src@.len(),
    ensures
        match dec_u16(rest_from(src@, pos as int)) {
            Some((v, t)) => (r matches Some((w, p)) && w == v && p <= src@.len() && t == rest_from(
                src@,
                p as int,
            )),
            None => r is None,
        },
{
    let len = src.len();
    let v = get_u16(src, pos);
    match v {
        Some(x) => {
            assert(pos + 2 <= len);
            proof {
                let t = rest_from(src@, pos as int);
                assert(t.subrange(0, 2) =~= src@.subrange(pos as int, pos + 2));
                assert(t.subrange(2, t.len() as int) =~= rest_from(src@, pos + 2));
            }
            Some((x, pos + 2))
        },
        None => None,
    }
}

pub(crate) fn copy_range(src: &[u8], start: usize, end: usize) -> (r: Vec<u8>)
    requires
        start <= end <= src@.len(),
    ensures
        r@ == src@.subrange(start as int, end as int),
{
    let mut out: Vec<u8> = Vec::new();
    let mut i = start;
    while i < end
        invariant
            start <= i <= end <= src@.len(),
            out@ == src@.subrange(start as int, i as int),
        decreases end - i,
    {
        out.push(src[i]);
        i = i + 1;
        proof {
            assert(out@ =~= src@.subrange(start as int, i as int));
        }
    }
    out
}

/// A varint length and that many bytes (`get_bytes_with_varint_length`).
fn read_bytes(src: &[u8], pos: usize) -> (r: Option<(Vec<u8>, usize)>)
    requires
        pos <= src@.len(),
    ensures
        match dec_bytes(rest_from(src@, pos as int)) {
            Some((b, t)) => (r matches Some((v, p)) && v@ == b && p <= src@.len() && t == rest_from(
                src@,
                p as int,
            )),
            None => r is None,
        },
{
    match get_varint(src, pos) {
        None => None,
        Some((n, p1)) => {
            let m = #[verifier::truncate] (n as usize);
            proof {
                assert(rest_from(src@, p1 as int).len() == src@.len() - p1);
            }
            if m <= src.len() - p1 {
                let v = copy_range(src, p1, p1 + m);
                proof {
                    let t = rest_from(src@, p1 as int);
                    assert(t.subrange(0, m as int) =~= src@.subrange(p1 as int, p1 + m));
                    assert(t.subrange(m as int, t.len() as int) =~= rest_from(src@, p1 + m));
                }
                Some((v, p1 + m))
            } else {
                None
            }
        },
    }
}

proof fn lemma_dec_reliable_messages_none(s: Seq<u8>, k: nat, count: nat)
    requires
        k <= count,
        dec_reliable_messages(s, k) is None,
    ensures
        dec_reliable_messages(s, count) is None,
    decreases count,
{
    if count > k {
        lemma_dec_reliable_messages_none(s, k, (count - 1) as nat);
    }
}

proof fn lemma_dec_unreliable_messages_none(s: Seq<u8>, k: nat, count: nat)
    requires
        k <= count,
        dec_unreliable_messages(s, k) is None,
    ensures
        dec_unreliable_messages(s, count) is None,
    decreases count,
{
    if count > k {
        lemma_dec_unreliable_messages_none(s, k, (count - 1) as nat);
    }
}

fn read_reliable_messages(src: &[u8], pos: usize, count: u16) -> (r: Option<
    (Vec<(u64, Vec<u8>)>, usize),
>)
    requires
        pos <= src@.len(),
    ensures
        match dec_reliable_messages(rest_from(src@, pos as int), count as nat) {
            Some((ms, t)) => (r matches Some((v, p)) && reliable_messages_view(v@) == ms && p
                <= src@.len() && t == rest_from(src@, p as int)),
            None => r is None,
        },
{
    let ghost s0 = rest_from(src@, pos as int);
    let mut messages: Vec<(u64, Vec<u8>)> = Vec::new();
    let mut p = pos;
    let mut k: u16 = 0;
    proof {
        assert(reliable_messages_view(messages@) =~= Seq::<(u64, Seq<u8>)>::empty());
    }
    while k < count
        invariant
            k <= count,
            p <= src@.len(),
            s0 == rest_from(src@, pos as int),
            dec_reliable_messages(s0, k as nat) == Some(
                (reliable_messages_view(messages@), rest_from(src@, p as int)),
            ),
        decreases count - k,
    {
        match get_varint(src, p) {
            None => {
                proof {
                    lemma_dec_reliable_messages_none(s0, (k + 1) as nat, count as nat);
                }
                return None;
            },
            Some((id, p1)) => match read_bytes(src, p1) {
                None => {
                    proof {
                        lemma_dec_reliable_messages_none(s0, (k + 1) as nat, count as nat);
                    }
                    return None;
                },
                Some((payload, p2)) => {
                    let ghost before = messages@;
                    let ghost pv = payload@;
                    messages.push((id, payload));
                    proof {
                        assert(reliable_messages_view(messages@) =~= reliable_messages_view(
                            before,
                        ).push((id, pv)));
                    }
                    p = p2;
                    k = k + 1;
                },
            },
        }
    }
    Some((messages, p))
}

fn read_unreliable_messages(src: &[u8], pos: usize, count: u16) -> (r: Option<
    (Vec<Vec<u8>>, usize),
>)
    requires
        pos <= src@.len(),
    ensures
        match dec_unreliable_messages(rest_from(src@, pos as int), count as nat) {
            Some((ms, t)) => (r matches Some((v, p)) && unreliable_messages_view(v@) == ms && p
                <= src@.len() && t == rest_from(src@, p as int)),
            None => r is None,
        },
{
    let ghost s0 = rest_from(src@, pos as int);
    let mut messages: Vec<Vec<u8>> = Vec::new();
    let mut p = pos;
    let mut k: u16 = 0;
    proof {
        assert(unreliable_messages_view(messages@) =~= Seq::<Seq<u8>>::empty());
    }
    while k < count
        invariant
            k <= count,
            p <= src@.len(),
            s0 == rest_from(src@, pos as int),
            dec_unreliable_messages(s0, k as nat) == Some(
                (unreliable_messages_view(messages@), rest_from(src@, p as int)),
            ),
        decreases count - k,
    {
        match read_bytes(src, p) {
            None => {
                proof {
                    lemma_dec_unreliable_messages_none(s0, (k + 1) as nat, count as nat);
                }
                return None;
            },
            Some((payload, p1)) => {
                let ghost before = messages@;
                let ghost pv = payload@;
                messages.push(payload);
                proof {
                    assert(unreliable_messages_view(messages@) =~= unreliable_messages_view(
                        before,
                    ).push(pv));
                }
                p = p1;
                k = k + 1;
            },
        }
    }
    Some((messages, p))
}

fn read_small(src: &[u8], pos: usize, packet_type: u8) -> (r: Result<Packet, SerializationError>)
    requires
        pos <= src@.len(),
        packet_type == 0 || packet_type == 1,
    ensures
        match dec_small(rest_from(src@, pos as int), packet_type) {
            Ok(pv) => (r matches Ok(pk) && pk@ == pv),
            Err(e) => (r matches Err(e2) && e2 == e),
        },
{
    let (sequence, p1) = match get_varint(src, pos) {
        None => return Err(SerializationError::BufferTooShort),
        Some(x) => x,
    };
    let (channel_id, p2) = match read_u8(src, p1) {
        None => return Err(SerializationError::BufferTooShort),
        Some(x) => x,
    };
    let (count, p3) = match read_u16(src, p2) {
        None => return Err(SerializationError::BufferTooShort),
        Some(x) => x,
    };
    if packet_type == 0 {
        match read_reliable_messages(src, p3, count) {
            None => Err(SerializationError::BufferTooShort),
            Some((messages, _)) => Ok(Packet::SmallReliable { sequence, channel_id, messages }),
        }
    } else {
        match read_unreliable_messages(src, p3, count) {
            None => Err(SerializationError::BufferTooShort),
            Some((messages, _)) => Ok(Packet::SmallUnreliable { sequence, channel_id, messages }),
        }
    }
}

fn read_slice(src: &[u8], pos: usize, reliable: bool) -> (r: Result<Slice, SerializationError>)
    requires
        pos <= src@.len(),
    ensures
        match dec_slice(rest_from(src@, pos as int), reliable) {
            Ok(sv) => (r matches Ok(sl) && sl@ == sv),
            Err(e) => (r matches Err(e2) && e2 == e),
        },
{
    let (message_id, p1) = match get_varint(src, pos) {
        None => return Err(SerializationError::BufferTooShort),
        Some(x) => x,
    };
    let (slice_index, p2) = match get_varint(src, p1) {
        None => return Err(SerializationError::BufferTooShort),
        Some(x) => x,
    };
    let (num_slices, p3) = match get_varint(src, p2) {
        None => return Err(SerializationError::BufferTooShort),
        Some(x) => x,
    };
    let slice_index = #[verifier::truncate] (slice_index as usize);
    let num_slices = #[verifier::truncate] (num_slices as usize);
    if num_slices == 0 || num_slices > MAX_NUM_SLICES {
        return Err(SerializationError::InvalidNumSlices);
    }
    let (payload, _) = match read_bytes(src, p3) {
        None => return Err(SerializationError::BufferTooShort),
        Some(x) => x,
    };
    if reliable && payload.len() == 0 {
        return Err(SerializationError::EmptySlice);
    }
    if reliable && payload.len() > SLICE_SIZE {
        return Err(SerializationError::SliceSizeAboveLimit);
    }
    Ok(Slice { message_id, slice_index, num_slices, payload })
}

fn read_slice_packet(src: &[u8], pos: usize, packet_type: u8) -> (r: Result<
    Packet,
    SerializationError,
>)
    requires
        pos <= src@.len(),
        packet_type == 2 || packet_type == 3,
    ensures
        match dec_slice_packet(rest_from(src@, pos as int), packet_type) {
            Ok(pv) => (r matches Ok(pk) && pk@ == pv),
            Err(e) => (r matches Err(e2) && e2 == e),
        },
{
    let (sequence, p1) = match get_varint(src, pos) {
        None => return Err(SerializationError::BufferTooShort),
        Some(x) => x,
    };
    let (channel_id, p2) = match read_u8(src, p1) {
        None => return Err(SerializationError::BufferTooShort),
        Some(x) => x,
    };
    let slice = match read_slice(src, p2, packet_type == 2) {
        Err(e) => return Err(e),
        Ok(sl) => sl,
    };
    if packet_type == 2 {
        Ok(Packet::ReliableSlice { sequence, channel_id, slice })
    } else {
        Ok(Packet::UnreliableSlice { sequence, channel_id, slice })
    }
}

fn reverse_ranges(v: Vec<Range<u64>>) -> (r: Vec<Range<u64>>)
    ensures
        ranges_view(r@) == ranges_view(v@).reverse(),
{
    let mut out: Vec<Range<u64>> = Vec::new();
    let mut i = v.len();
    while i > 0
        invariant
            i <= v@.len(),
            ranges_view(out@) == ranges_view(v@.subrange(i as int, v@.len() as int)).reverse(),
        decreases i,
    {
        i = i - 1;
        let r = Range { start: v[i].start, end: v[i].end };
        let ghost before = out@;
        out.push(r);
        proof {
            assert(ranges_view(out@) =~= ranges_view(before).push((r.start, r.end)));
            assert(ranges_view(v@.subrange(i as int, v@.len() as int)) =~= seq![(r.start, r.end)]
                + ranges_view(v@.subrange(i + 1, v@.len() as int)));
            assert(ranges_view(v@.subrange(i as int, v@.len() as int)).reverse() =~= ranges_view(
                v@.subrange(i + 1, v@.len() as int),
            ).reverse().push((r.start, r.end)));
        }
    }
    proof {
        assert(v@.subrange(0, v@.len() as int) =~= v@);
    }
    out
}

#[verifier::loop_isolation(false)]
fn read_ack_ranges(
    src: &[u8],
    pos: usize,
    prev_start: u64,
    count: u64,
    acc: Vec<Range<u64>>,
) -> (r: Result<(Vec<Range<u64>>, usize), SerializationError>)
    requires
        pos <= src@.len(),
    ensures
        match dec_ack_ranges(rest_from(src@, pos as int), prev_start, count as nat, ranges_view(acc@)) {
            Ok((rs, t)) => (r matches Ok((v, p)) && ranges_view(v@) == rs && p <= src@.len() && t
                == rest_from(src@, p as int)),
            Err(e) => (r matches Err(e2) && e2 == e),
        },
{
    let ghost acc_v = ranges_view(acc@);
    let ghost total = dec_ack_ranges(rest_from(src@, pos as int), prev_start, count as nat, acc_v);
    let mut ack_ranges = acc;
    let mut previous_range_start = prev_start;
    let mut p = pos;
    let mut k: u64 = 0;
    while k < count
        invariant
            k <= count,
            p <= src@.len(),
            pos <= src@.len(),
            total == dec_ack_ranges(rest_from(src@, pos as int), prev_start, count as nat, acc_v),
            total == dec_ack_ranges(
                rest_from(src@, p as int),
                previous_range_start,
                (count - k) as nat,
                ranges_view(ack_ranges@),
            ),
        decreases count - k,
    {
        let (gap, q1) = match get_varint(src, p) {
            None => return Err(SerializationError::BufferTooShort),
            Some(x) => x,
        };
        if previous_range_start < 2 || previous_range_start - 2 < gap {
            return Err(SerializationError::InvalidAckRange);
        }
        let range_end = (previous_range_start - gap) - 2;
        let (range_size, q2) = match get_varint(src, q1) {
            None => return Err(SerializationError::BufferTooShort),
            Some(x) => x,
        };
        if range_end < range_size {
            return Err(SerializationError::InvalidAckRange);
        }
        let range_start = range_end - range_size;
        let ghost before = ack_ranges@;
        ack_ranges.push(Range { start: range_start, end: range_end + 1 });
        proof {
            assert(ranges_view(ack_ranges@) =~= ranges_view(before).push(
                (range_start, (range_end + 1) as u64),
            ));
        }
        previous_range_start = range_start;
        p = q2;
        k = k + 1;
    }
    Ok((ack_ranges, p))
}

fn read_ack(src: &[u8], pos: usize) -> (r: Result<Packet, SerializationError>)
    requires
        pos <= src@.len(),
    ensures
        match dec_ack(rest_from(src@, pos as int)) {
            Ok(pv) => (r matches Ok(pk) && pk@ == pv),
            Err(e) => (r matches Err(e2) && e2 == e),
        },
{
    let (sequence, p1) = match get_varint(src, pos) {
        None => return Err(SerializationError::BufferTooShort),
        Some(x) => x,
    };
    let (first_range_end, p2) = match get_varint(src, p1) {
        None => return Err(SerializationError::BufferTooShort),
        Some(x) => x,
    };
    let (first_range_size, p3) = match get_varint(src, p2) {
        None => return Err(SerializationError::BufferTooShort),
        Some(x) => x,
    };
    let (num_remaining_ranges, p4) = match get_varint(src, p3) {
        None => return Err(SerializationError::BufferTooShort),
        Some(x) => x,
    };
    if first_range_end < first_range_size {
        return Err(SerializationError::InvalidAckRange);
    }
    proof {
        lemma_varint_decode_bound(rest_from(src@, p1 as int));
    }
    let first_range_start = first_range_end - first_range_size;
    let mut ack_ranges: Vec<Range<u64>> = Vec::new();
    ack_ranges.push(Range { start: first_range_start, end: first_range_end + 1 });
    proof {
        assert(ranges_view(ack_ranges@) =~= seq![(first_range_start, (first_range_end + 1) as u64)]);
    }
    let (ack_ranges, _) = match read_ack_ranges(src, p4, first_range_start, num_remaining_ranges, ack_ranges) {
        Err(e) => return Err(e),
        Ok(x) => x,
    };
    let ack_ranges = reverse_ranges(ack_ranges);
    Ok(Packet::Ack { sequence, ack_ranges })
}

impl Packet {
    /// Reads a packet from the front of `src`; what follows it is ignored.
    pub fn from_bytes(src: &[u8]) -> (r: Result<Packet, SerializationError>)
        ensures
            match spec_decode(src@) {
                Ok(pv) => (r matches Ok(pk) && pk@ == pv),
                Err(e) => (r matches Err(e2) && e2 == e),
            },
    {
        proof {
            assert(rest_from(src@, 0) =~= src@);
        }
        let (packet_type, p) = match read_u8(src, 0) {
            None => return Err(SerializationError::BufferTooShort),
            Some(x) => x,
        };
        if packet_type == 0 || packet_type == 1 {
            read_small(src, p, packet_type)
        } else if packet_type == 2 || packet_type == 3 {
            read_slice_packet(src, p, packet_type)
        } else if packet_type == 4 {
            read_ack(src, p)
        } else {
            Err(SerializationError::InvalidPacketType)
        }
    }
}

} // verus!
