//! Unreliable channels: messages may be lost; big messages travel in slices.
use vstd::prelude::*;

use crate::error::ChannelError;
use crate::packet::{copy_range, Packet, PacketView, Slice, SliceView, SLICE_SIZE};
use crate::slice_constructor::{concat_slices, slice_len_ok, SliceConstructor};
use crate::sorted_map::{
    lemma_sum_weights_insert, lemma_sum_weights_remove, lemma_sum_weights_update, sum_weights,
    SortedMap,
};
use crate::varint::{spec_varint_len, varint_len};
use std::collections::VecDeque;

verus! {

/// The view of each packet of a list.
pub open spec fn packets_view(s: Seq<Packet>) -> Seq<PacketView> {
    s.map_values(|p: Packet| p@)
}

/// The view of each message of a queue.
pub open spec fn queue_view(q: Seq<Vec<u8>>) -> Seq<Seq<u8>> {
    q.map_values(|m: Vec<u8>| m@)
}

/// Total length of the messages.
pub open spec fn total_len(q: Seq<Seq<u8>>) -> nat
    decreases q.len(),
{
    if q.len() == 0 {
        0
    } else {
        q[0].len() + total_len(q.drop_first())
    }
}

/// Number of slices of a message of `len` bytes.
pub open spec fn num_slices_of(len: nat) -> nat {
    ((len + SLICE_SIZE - 1) / (SLICE_SIZE as int)) as nat
}

/// Bytes of slice `i` of a message cut in `n` slices.
pub open spec fn slice_payload(msg: Seq<u8>, n: nat, i: int) -> Seq<u8> {
    msg.subrange(
        i * SLICE_SIZE,
        if i == n - 1 {
            msg.len() as int
        } else {
            (i + 1) * SLICE_SIZE
        },
    )
}

/// Room a small message takes in a packet: its bytes and its length prefix.
pub open spec fn small_size(len: nat) -> nat {
    len + spec_varint_len(len as u64)
}

/// Packing progress: packets made so far, the small messages waiting for a
/// packet and their room, the next packet sequence, the next sliced message
/// id and the bytes still allowed.
pub ghost struct PackState {
    pub packets: Seq<PacketView>,
    pub small: Seq<Seq<u8>>,
    pub small_bytes: nat,
    pub seq: int,
    pub sliced_id: int,
    pub avail: int,
}

/// The slice packets of a big unreliable message.
pub open spec fn unreliable_slice_packets(msg: Seq<u8>, seq: int, channel_id: u8, id: int) -> Seq<
    PacketView,
> {
    let n = num_slices_of(msg.len());
    Seq::new(
        n,
        |i: int|
            PacketView::UnreliableSlice {
                sequence: (seq + i) as u64,
                channel_id,
                slice: SliceView {
                    message_id: id as u64,
                    slice_index: i as usize,
                    num_slices: n as usize,
                    payload: slice_payload(msg, n, i),
                },
            },
    )
}

/// Packing one unreliable message: a message above the bytes still allowed
/// is dropped; a big one is sent in slices; a small one joins the pending
/// small messages, which go out in a packet first when it would not fit.
pub open spec fn unreliable_step(st: PackState, msg: Seq<u8>, channel_id: u8) -> PackState {
    if st.avail < msg.len() {
        st
    } else {
        let avail = st.avail - msg.len();
        if msg.len() > SLICE_SIZE {
            let n = num_slices_of(msg.len());
            PackState {
                packets: st.packets + unreliable_slice_packets(msg, st.seq, channel_id, st.sliced_id),
                seq: st.seq + n,
                sliced_id: st.sliced_id + 1,
                avail,
                ..st
            }
        } else {
            let size = small_size(msg.len());
            if st.small_bytes + size > SLICE_SIZE {
                PackState {
                    packets: st.packets.push(
                        PacketView::SmallUnreliable {
                            sequence: st.seq as u64,
                            channel_id,
                            messages: st.small,
                        },
                    ),
                    small: seq![msg],
                    small_bytes: size,
                    seq: st.seq + 1,
                    avail,
                    ..st
                }
            } else {
                PackState {
                    small: st.small.push(msg),
                    small_bytes: st.small_bytes + size,
                    avail,
                    ..st
                }
            }
        }
    }
}

pub open spec fn unreliable_fold(q: Seq<Seq<u8>>, st: PackState, channel_id: u8) -> PackState
    decreases q.len(),
{
    if q.len() == 0 {
        st
    } else {
        unreliable_fold(q.drop_first(), unreliable_step(st, q[0], channel_id), channel_id)
    }
}

/// The last packet, for the small messages still pending.
pub open spec fn unreliable_flush(st: PackState, channel_id: u8) -> PackState {
    if st.small.len() > 0 {
        PackState {
            packets: st.packets.push(
                PacketView::SmallUnreliable { sequence: st.seq as u64, channel_id, messages: st.small },
            ),
            small: Seq::empty(),
            small_bytes: 0,
            seq: st.seq + 1,
            ..st
        }
    } else {
        st
    }
}

/// Everything `get_packets_to_send` does with a queue.
pub open spec fn unreliable_packing(
    q: Seq<Seq<u8>>,
    seq: u64,
    sliced_id: u64,
    avail: u64,
    channel_id: u8,
) -> PackState {
    unreliable_flush(
        unreliable_fold(
            q,
            PackState {
                packets: Seq::empty(),
                small: Seq::empty(),
                small_bytes: 0,
                seq: seq as int,
                sliced_id: sliced_id as int,
                avail: avail as int,
            },
            channel_id,
        ),
        channel_id,
    )
}

pub struct SendChannelUnreliable {
    channel_id: u8,
    unreliable_messages: VecDeque<Vec<u8>>,
    sliced_message_id: u64,
    max_memory_usage_bytes: usize,
    memory_usage_bytes: usize,
}

/// Cuts out slice `slice_index` of `message`.
fn slice_of(message: &Vec<u8>, slice_index: usize, num_slices: usize) -> (r: Vec<u8>)
    requires
        num_slices == num_slices_of(message@.len()),
        slice_index < num_slices,
        message@.len() + SLICE_SIZE <= usize::MAX,
    ensures
        r@ == slice_payload(message@, num_slices as nat, slice_index as int),
{
    proof {
        lemma_slice_bounds(message@.len(), num_slices as nat, slice_index as int);
    }
    let start = slice_index * SLICE_SIZE;
    let end = if slice_index == num_slices - 1 {
        message.len()
    } else {
        (slice_index + 1) * SLICE_SIZE
    };
    copy_range(message.as_slice(), start, end)
}

/// Cuts out slice `slice_index` of `message`.
pub(crate) fn slice_of_pub(message: &Vec<u8>, slice_index: usize, num_slices: usize) -> (r: Vec<u8>)
    requires
        num_slices == num_slices_of(message@.len()),
        slice_index < num_slices,
        message@.len() + SLICE_SIZE <= usize::MAX,
    ensures
        r@ == slice_payload(message@, num_slices as nat, slice_index as int),
{
    slice_of(message, slice_index, num_slices)
}

/// A slice is at most `SLICE_SIZE` long.
pub proof fn lemma_slice_len(len: nat, n: nat, i: int)
    requires
        n == num_slices_of(len),
        0 <= i < n,
    ensures
        i * SLICE_SIZE <= len,
        (if i == n - 1 {
            len as int
        } else {
            (i + 1) * SLICE_SIZE
        }) - i * SLICE_SIZE <= SLICE_SIZE,
        (if i == n - 1 {
            len as int
        } else {
            (i + 1) * SLICE_SIZE
        }) <= len,
{
    lemma_slice_bounds(len, n, i);
    assert((i + 1) * SLICE_SIZE == i * SLICE_SIZE + SLICE_SIZE) by (nonlinear_arith);
}

/// Slice `i` of `n` lies inside the message, and is `SLICE_SIZE` long but
/// for the last.
proof fn lemma_slice_bounds(len: nat, n: nat, i: int)
    requires
        n == num_slices_of(len),
        0 <= i < n,
    ensures
        (i + 1) * SLICE_SIZE <= len + SLICE_SIZE,
        i * SLICE_SIZE <= len,
        i < n - 1 ==> (i + 1) * SLICE_SIZE <= len,
        i * SLICE_SIZE <= (if i == n - 1 {
            len as int
        } else {
            (i + 1) * SLICE_SIZE
        }),
{
    let s = SLICE_SIZE as int;
    assert(n * s <= len + s - 1) by (nonlinear_arith)
        requires
            n == (len + s - 1) / s,
            s > 0,
    ;
    assert((n - 1) * s < len) by (nonlinear_arith)
        requires
            n * s <= len + s - 1,
            s > 0,
    ;
    if i < n - 1 {
        assert((i + 1) * s <= (n - 1) * s) by (nonlinear_arith)
            requires
                i + 1 <= n - 1,
                s > 0,
        ;
    }
    assert((i + 1) * s <= n * s) by (nonlinear_arith)
        requires
            i + 1 <= n,
            s > 0,
    ;
    assert(i * s <= (i + 1) * s) by (nonlinear_arith)
        requires
            i >= 0,
            s > 0,
    ;
}

proof fn lemma_total_len_push(q: Seq<Seq<u8>>, m: Seq<u8>)
    ensures
        total_len(q.push(m)) == total_len(q) + m.len(),
    decreases q.len(),
{
    if q.len() > 0 {
        lemma_total_len_push(q.drop_first(), m);
        assert(q.push(m).drop_first() =~= q.drop_first().push(m));
        assert(q.push(m)[0] == q[0]);
    } else {
        assert(q.push(m).drop_first() =~= q);
        assert(q.push(m)[0] == m);
    }
}

impl SendChannelUnreliable {
    pub closed spec fn wf(&self) -> bool {
        &&& self.memory_usage_bytes == total_len(queue_view(self.unreliable_messages@))
        &&& self.memory_usage_bytes <= self.max_memory_usage_bytes
    }

    /// Messages waiting to be sent, oldest first.
    pub closed spec fn queued(&self) -> Seq<Seq<u8>> {
        queue_view(self.unreliable_messages@)
    }

    pub closed spec fn channel_id_view(&self) -> u8 {
        self.channel_id
    }

    pub closed spec fn sliced_message_id_view(&self) -> u64 {
        self.sliced_message_id
    }

    pub closed spec fn max_memory_view(&self) -> nat {
        self.max_memory_usage_bytes as nat
    }

    /// Bytes held by the queued messages.
    pub open spec fn memory_usage(&self) -> nat {
        total_len(self.queued())
    }

    pub fn new(channel_id: u8, max_memory_usage_bytes: usize) -> (r: Self)
        ensures
            r.wf(),
            r.queued() == Seq::<Seq<u8>>::empty(),
            r.channel_id_view() == channel_id,
            r.sliced_message_id_view() == 0,
            r.max_memory_view() == max_memory_usage_bytes,
    {
        let r = Self {
            channel_id,
            unreliable_messages: VecDeque::new(),
            sliced_message_id: 0,
            max_memory_usage_bytes,
            memory_usage_bytes: 0,
        };
        proof {
            assert(queue_view(r.unreliable_messages@) =~= Seq::<Seq<u8>>::empty());
        }
        r
    }

    /// Bytes the channel may still take.
    pub fn available_memory(&self) -> (r: usize)
        requires
            self.wf(),
        ensures
            r == self.max_memory_view() - self.memory_usage(),
    {
        self.max_memory_usage_bytes - self.memory_usage_bytes
    }

    /// Queues `message`; it is dropped when the channel would hold more than
    /// its memory limit.
    pub fn send_message(&mut self, message: Vec<u8>)
        requires
            old(self).wf(),
        ensures
            final(self).wf(),
            final(self).channel_id_view() == old(self).channel_id_view(),
            final(self).sliced_message_id_view() == old(self).sliced_message_id_view(),
            final(self).max_memory_view() == old(self).max_memory_view(),
            old(self).memory_usage() + message@.len() > old(self).max_memory_view() ==> final(self).queued() == old(self).queued(),
            old(self).memory_usage() + message@.len() <= old(self).max_memory_view() ==> final(self).queued() == old(self).queued().push(message@),
    {
        if message.len() > self.max_memory_usage_bytes - self.memory_usage_bytes {
            return;
        }
        let ghost m = message@;
        let ghost before = self.unreliable_messages@;
        self.memory_usage_bytes = self.memory_usage_bytes + message.len();
        self.unreliable_messages.push_back(message);
        proof {
            assert(queue_view(self.unreliable_messages@) =~= queue_view(before).push(m));
            lemma_total_len_push(queue_view(before), m);
        }
    }

    /// Packs the queued messages into packets, numbered from
    /// `*packet_sequence` on, within `*available_bytes`; what does not fit
    /// is dropped. The queue ends empty.
    pub fn get_packets_to_send(&mut self, packet_sequence: &mut u64, available_bytes: &mut u64) -> (r:
        Vec<Packet>)
        requires
            old(self).wf(),
            ({
                let fin = unreliable_packing(
                    old(self).queued(),
                    *old(packet_sequence),
                    old(self).sliced_message_id_view(),
                    *old(available_bytes),
                    old(self).channel_id_view(),
                );
                fin.seq <= u64::MAX && fin.sliced_id <= u64::MAX
            }),
            forall|i: int| 0 <= i < old(self).queued().len() ==> #[trigger] old(self).queued()[i].len() + SLICE_SIZE <= usize::MAX,
        ensures
            final(self).wf(),
            final(self).queued() == Seq::<Seq<u8>>::empty(),
            final(self).channel_id_view() == old(self).channel_id_view(),
            final(self).max_memory_view() == old(self).max_memory_view(),
            ({
                let fin = unreliable_packing(
                    old(self).queued(),
                    *old(packet_sequence),
                    old(self).sliced_message_id_view(),
                    *old(available_bytes),
                    old(self).channel_id_view(),
                );
                &&& packets_view(r@) == fin.packets
                &&& *final(packet_sequence) == fin.seq
                &&& *final(available_bytes) == fin.avail
                &&& final(self).sliced_message_id_view() == fin.sliced_id
            }),
            forall|i: int| 0 <= i < r@.len() ==> #[trigger] unreliable_kind(r@[i]@),
    {
        let ghost ch = self.channel_id;
        let ghost q0 = self.queued();
        let ghost st0 = PackState {
            packets: Seq::empty(),
            small: Seq::empty(),
            small_bytes: 0,
            seq: *packet_sequence as int,
            sliced_id: self.sliced_message_id as int,
            avail: *available_bytes as int,
        };
        let ghost fin = unreliable_fold(q0, st0, ch);
        let mut packets: Vec<Packet> = Vec::new();
        let mut small_messages: Vec<Vec<u8>> = Vec::new();
        let mut small_messages_bytes: usize = 0;
        proof {
            lemma_fold_bounds(q0, st0, ch);
            assert(packets_view(packets@) =~= Seq::<PacketView>::empty());
            assert(queue_view(small_messages@) =~= Seq::<Seq<u8>>::empty());
        }
        while self.unreliable_messages.len() > 0
            invariant
                self.wf(),
                self.channel_id == ch,
                self.max_memory_usage_bytes == old(self).max_memory_usage_bytes,
                fin == unreliable_fold(
                    self.queued(),
                    PackState {
                        packets: packets_view(packets@),
                        small: queue_view(small_messages@),
                        small_bytes: small_messages_bytes as nat,
                        seq: *packet_sequence as int,
                        sliced_id: self.sliced_message_id as int,
                        avail: *available_bytes as int,
                    },
                    ch,
                ),
                unreliable_flush(fin, ch).seq <= u64::MAX,
                fin.sliced_id <= u64::MAX,
                small_messages_bytes <= SLICE_SIZE + 2,
                forall|i: int| 0 <= i < self.queued().len() ==> #[trigger] self.queued()[i].len() + SLICE_SIZE <= usize::MAX,
            decreases self.unreliable_messages@.len(),
        {
            let ghost q = self.queued();
            let ghost st = PackState {
                packets: packets_view(packets@),
                small: queue_view(small_messages@),
                small_bytes: small_messages_bytes as nat,
                seq: *packet_sequence as int,
                sliced_id: self.sliced_message_id as int,
                avail: *available_bytes as int,
            };
            let message = self.unreliable_messages.pop_front().unwrap();
            proof {
                assert(q[0] == message@);
                assert(self.queued() =~= q.drop_first());
                assert(q.len() > 0);
                lemma_fold_bounds(q.drop_first(), unreliable_step(st, q[0], ch), ch);
            }
            self.memory_usage_bytes = self.memory_usage_bytes - message.len();
            if *available_bytes < message.len() as u64 {
                continue;
            }
            *available_bytes = *available_bytes - message.len() as u64;
            if message.len() > SLICE_SIZE {
                let num_slices = (message.len() + SLICE_SIZE - 1) / SLICE_SIZE;
                let mut slice_index: usize = 0;
                let ghost base = packets_view(packets@);
                let ghost seq0 = *packet_sequence as int;
                let ghost all = unreliable_slice_packets(message@, seq0, ch, self.sliced_message_id as int);
                while slice_index < num_slices
                    invariant
                        num_slices == num_slices_of(message@.len()),
                        slice_index <= num_slices,
                        message@.len() + SLICE_SIZE <= usize::MAX,
                        all == unreliable_slice_packets(message@, seq0, ch, self.sliced_message_id as int),
                        packets_view(packets@) == base + all.subrange(0, slice_index as int),
                        *packet_sequence == seq0 + slice_index,
                        seq0 + num_slices <= u64::MAX,
                        self.channel_id == ch,
                        self.max_memory_usage_bytes == old(self).max_memory_usage_bytes,
                    decreases num_slices - slice_index,
                {
                    let payload = slice_of(&message, slice_index, num_slices);
                    let slice = Slice {
                        message_id: self.sliced_message_id,
                        slice_index,
                        num_slices,
                        payload,
                    };
                    let p = Packet::UnreliableSlice {
                        sequence: *packet_sequence,
                        channel_id: self.channel_id,
                        slice,
                    };
                    let ghost pv = p@;
                    let ghost before = packets@;
                    packets.push(p);
                    proof {
                        assert(pv == all[slice_index as int]);
                        assert(packets_view(packets@) =~= packets_view(before).push(pv));
                        assert(all.subrange(0, slice_index + 1) =~= all.subrange(0, slice_index as int).push(pv));
                        assert(packets_view(packets@) =~= base + all.subrange(0, slice_index + 1));
                    }
                    *packet_sequence = *packet_sequence + 1;
                    slice_index = slice_index + 1;
                }
                proof {
                    assert(all.subrange(0, num_slices as int) =~= all);
                }
                self.sliced_message_id = self.sliced_message_id + 1;
            } else {
                let serialized_size = message.len() + varint_len(message.len() as u64);
                if small_messages_bytes + serialized_size > SLICE_SIZE {
                    let mut taken: Vec<Vec<u8>> = Vec::new();
                    std::mem::swap(&mut taken, &mut small_messages);
                    let p = Packet::SmallUnreliable {
                        sequence: *packet_sequence,
                        channel_id: self.channel_id,
                        messages: taken,
                    };
                    let ghost before = packets_view(packets@);
                    let ghost pv = p@;
                    packets.push(p);
                    proof {
                        assert(packets_view(packets@) =~= before.push(pv));
                    }
                    *packet_sequence = *packet_sequence + 1;
                    small_messages_bytes = 0;
                }
                small_messages_bytes = small_messages_bytes + serialized_size;
                let ghost before_small = queue_view(small_messages@);
                let ghost mv = message@;
                small_messages.push(message);
                proof {
                    assert(queue_view(small_messages@) =~= before_small.push(mv));
                    if before_small.len() == 0 {
                        assert(before_small.push(mv) =~= seq![mv]);
                    }
                }
            }
        }
        proof {
            assert(self.queued() =~= Seq::<Seq<u8>>::empty());
        }
        if small_messages.len() > 0 {
            let p = Packet::SmallUnreliable {
                sequence: *packet_sequence,
                channel_id: self.channel_id,
                messages: small_messages,
            };
            let ghost before = packets_view(packets@);
            let ghost pv = p@;
            packets.push(p);
            proof {
                assert(packets_view(packets@) =~= before.push(pv));
            }
            *packet_sequence = *packet_sequence + 1;
        }
        proof {
            lemma_fold_kinds(q0, st0, ch);
            let f = unreliable_flush(unreliable_fold(q0, st0, ch), ch);
            assert forall|i: int| 0 <= i < packets@.len() implies #[trigger] unreliable_kind(packets@[i]@) by {
                assert(packets_view(packets@)[i] == packets@[i]@);
                assert(unreliable_kind(f.packets[i]));
            }
        }
        packets
    }
}

/// Packing never moves the sequence or the sliced id back, and what the
/// whole queue ends at bounds every intermediate state.
proof fn lemma_fold_bounds(q: Seq<Seq<u8>>, st: PackState, ch: u8)
    ensures
        st.seq <= unreliable_fold(q, st, ch).seq,
        st.sliced_id <= unreliable_fold(q, st, ch).sliced_id,
        q.len() > 0 ==> unreliable_step(st, q[0], ch).seq <= unreliable_fold(q, st, ch).seq,
        q.len() > 0 ==> unreliable_step(st, q[0], ch).sliced_id <= unreliable_fold(q, st, ch).sliced_id,
        st.seq <= unreliable_flush(unreliable_fold(q, st, ch), ch).seq,
    decreases q.len(),
{
    if q.len() > 0 {
        lemma_fold_bounds(q.drop_first(), unreliable_step(st, q[0], ch), ch);
    }
}

/// A packet an unreliable channel makes: small messages or a slice.
pub open spec fn unreliable_kind(p: PacketView) -> bool {
    p is SmallUnreliable || p is UnreliableSlice
}

proof fn lemma_fold_kinds(q: Seq<Seq<u8>>, st: PackState, ch: u8)
    requires
        forall|i: int| 0 <= i < st.packets.len() ==> #[trigger] unreliable_kind(st.packets[i]),
    ensures
        forall|i: int|
            0 <= i < unreliable_flush(unreliable_fold(q, st, ch), ch).packets.len() ==> #[trigger] unreliable_kind(
                unreliable_flush(unreliable_fold(q, st, ch), ch).packets[i],
            ),
    decreases q.len(),
{
    if q.len() > 0 {
        let st1 = unreliable_step(st, q[0], ch);
        assert forall|i: int| 0 <= i < st1.packets.len() implies #[trigger] unreliable_kind(st1.packets[i]) by {
            if i < st.packets.len() {
                assert(unreliable_kind(st.packets[i]));
            }
        }
        lemma_fold_kinds(q.drop_first(), st1, ch);
        assert(unreliable_fold(q, st, ch) == unreliable_fold(q.drop_first(), st1, ch));
    } else {
        let f = unreliable_flush(st, ch);
        assert forall|i: int| 0 <= i < f.packets.len() implies #[trigger] unreliable_kind(f.packets[i]) by {
            if i < st.packets.len() {
                assert(unreliable_kind(st.packets[i]));
            }
        }
    }
}

/// A message being put back together from its slices.
pub ghost struct PendingMessage {
    pub num_slices: usize,
    pub received: Seq<bool>,
    pub slices: Seq<Seq<u8>>,
}

pub open spec fn pending_of(c: SliceConstructor) -> PendingMessage {
    PendingMessage {
        num_slices: c.num_slices_view(),
        received: c.received_view(),
        slices: c.slices_view(),
    }
}

/// Some slice of the message has not arrived yet.
pub open spec fn incomplete(c: SliceConstructor) -> bool {
    exists|j: int| 0 <= j < c.num_slices_view() && !#[trigger] c.received_view()[j]
}

/// Bytes set aside for a message being put back together.
pub open spec fn reserved_of(c: SliceConstructor) -> nat {
    (c.num_slices_view() * SLICE_SIZE) as nat
}

/// A message that no slice has arrived for yet.
pub open spec fn fresh_pending(num_slices: usize) -> PendingMessage {
    PendingMessage {
        num_slices,
        received: Seq::new(num_slices as nat, |i: int| false),
        slices: Seq::new(num_slices as nat, |i: int| Seq::<u8>::empty()),
    }
}

/// The message being put back together under `id`, or a new one of `n`
/// slices when there is none.
pub open spec fn pending_or_fresh(m: Map<u64, PendingMessage>, id: u64, n: usize) -> PendingMessage {
    if m.dom().contains(id) {
        m[id]
    } else {
        fresh_pending(n)
    }
}

/// The message after slice `i`, holding `payload`, arrived: a slice that
/// arrived before keeps what it held.
pub open spec fn pending_after(p: PendingMessage, i: int, payload: Seq<u8>) -> PendingMessage {
    PendingMessage {
        received: p.received.update(i, true),
        slices: if p.received[i] {
            p.slices
        } else {
            p.slices.update(i, payload)
        },
        ..p
    }
}

/// Every slice of the message has arrived.
pub open spec fn all_received(p: PendingMessage) -> bool {
    forall|j: int| 0 <= j < p.num_slices ==> #[trigger] p.received[j]
}

/// Slices older than this (in nanoseconds) are given up on.
pub const DISCARD_AFTER: u64 = 3_000_000_000;

pub struct ReceiveChannelUnreliable {
    channel_id: u8,
    messages: VecDeque<Vec<u8>>,
    slices: SortedMap<SliceConstructor>,
    slices_last_received: SortedMap<u64>,
    max_memory_usage_bytes: usize,
    memory_usage_bytes: usize,
}

/// How an unreliable receive channel takes a small message; see
/// `process_message`.
pub open spec fn unreliable_message_processed(before: ReceiveChannelUnreliable, after: ReceiveChannelUnreliable, message: Seq<u8>) -> bool {
    &&& (after.pending() == before.pending())
    &&& (after.last_received() == before.last_received())
    &&& (after.last_received_entries() == before.last_received_entries())
    &&& (after.max_memory_view() == before.max_memory_view())
    &&& (before.memory_usage_view() + message.len() > before.max_memory_view() ==> after.messages_view() == before.messages_view() && after.memory_usage_view() == before.memory_usage_view())
    &&& (before.memory_usage_view() + message.len() <= before.max_memory_view() ==> after.messages_view() == before.messages_view().push(message) && after.memory_usage_view() == before.memory_usage_view() + message.len())
}

/// A slice that no message being put back together can take: its number
/// of slices overflows the byte count, is zero for a new message, or
/// differs from the one recorded for its message.
pub open spec fn slice_malformed(pending: Map<u64, PendingMessage>, slice: SliceView) -> bool {
    let n = slice.num_slices;
    ||| n * SLICE_SIZE > usize::MAX
    ||| !pending.dom().contains(slice.message_id) && n == 0
    ||| pending.dom().contains(slice.message_id) && pending[slice.message_id].num_slices != n
}

/// A slice of the right size whose index lies beyond its message.
pub open spec fn slice_index_beyond(slice: SliceView) -> bool {
    slice_len_ok(slice.num_slices as nat, SLICE_SIZE as nat, slice.slice_index as int, slice.payload.len())
        && slice.slice_index >= slice.num_slices
}

/// How an unreliable receive channel takes a slice; see `process_slice`.
pub open spec fn unreliable_slice_processed(before: ReceiveChannelUnreliable, after: ReceiveChannelUnreliable, slice: SliceView, current_time: u64, r: Result<(), ChannelError>) -> bool {
    &&& (after.max_memory_view() == before.max_memory_view())
    &&& (({
                let id = slice.message_id;
                let n = slice.num_slices;
                let known = before.pending().dom().contains(id);
                let p = pending_or_fresh(before.pending(), id, n);
                let q = pending_after(p, slice.slice_index as int, slice.payload);
                let reserved = if known {
                    0
                } else {
                    n * SLICE_SIZE
                };
                let malformed = slice_malformed(before.pending(), slice);
                let dropped = !known && before.memory_usage_view() + n * SLICE_SIZE > before.max_memory_view();
                &&& malformed ==> r == Err::<(), ChannelError>(ChannelError::InvalidSliceMessage) && after == before
                &&& !malformed && !dropped && slice_index_beyond(slice) ==> r == Err::<(), ChannelError>(
                    ChannelError::InvalidSliceMessage,
                ) && after == before
                &&& !malformed && dropped
                    ==> r is Ok && after.messages_view() == before.messages_view() && after.pending()
                    == before.pending() && after.last_received() == before.last_received()
                    && after.memory_usage_view() == before.memory_usage_view()
                &&& !malformed && !dropped
                    && !slice_len_ok(n as nat, SLICE_SIZE as nat, slice.slice_index as int, slice.payload.len())
                    ==> r == Err::<(), ChannelError>(ChannelError::InvalidSliceMessage) && after.messages_view()
                    == before.messages_view() && after.pending() == before.pending().insert(id, p)
                    && after.last_received() == before.last_received() && after.memory_usage_view()
                    == before.memory_usage_view() + reserved
                &&& !malformed && !dropped
                    && slice_len_ok(n as nat, SLICE_SIZE as nat, slice.slice_index as int, slice.payload.len())
                    && !slice_index_beyond(slice) && all_received(q) ==> r is Ok && after.messages_view() == before.messages_view().push(
                    concat_slices(q.slices)) && after.pending() == before.pending().remove(id) && after.last_received() == before.last_received().remove(id) && after.memory_usage_view()
                    == before.memory_usage_view() + reserved - n * SLICE_SIZE + concat_slices(q.slices).len()
                &&& !malformed && !dropped
                    && slice_len_ok(n as nat, SLICE_SIZE as nat, slice.slice_index as int, slice.payload.len())
                    && !slice_index_beyond(slice) && !all_received(q) ==> r is Ok && after.messages_view() == before.messages_view()
                    && after.pending() == before.pending().insert(id, q) && after.last_received()
                    == before.last_received().insert(id, current_time) && after.memory_usage_view()
                    == before.memory_usage_view() + reserved
            }))
}

impl ReceiveChannelUnreliable {
    pub closed spec fn wf(&self) -> bool {
        &&& self.slices.wf()
        &&& self.slices_last_received.wf()
        &&& forall|k: u64| #[trigger] self.slices@.dom().contains(k) ==> self.slices@[k].wf()
            && incomplete(self.slices@[k])
        &&& forall|k: u64|
            #[trigger] self.slices_last_received@.dom().contains(k) ==> self.slices@.dom().contains(k)
        &&& self.memory_usage_bytes == total_len(queue_view(self.messages@)) + sum_weights(
            self.slices.entries_view(),
            |c: SliceConstructor| reserved_of(c),
        )
        &&& self.memory_usage_bytes <= self.max_memory_usage_bytes
    }

    /// Messages received and not yet taken, oldest first.
    pub closed spec fn messages_view(&self) -> Seq<Seq<u8>> {
        queue_view(self.messages@)
    }

    /// Messages being put back together, by message id.
    pub closed spec fn pending(&self) -> Map<u64, PendingMessage> {
        self.slices@.map_values(|c: SliceConstructor| pending_of(c))
    }

    /// When a slice of each message being put back together last arrived.
    pub closed spec fn last_received(&self) -> Map<u64, u64> {
        self.slices_last_received@
    }

    /// The same, in increasing message id order.
    pub closed spec fn last_received_entries(&self) -> Seq<(u64, u64)> {
        self.slices_last_received.entries_view()
    }

    pub closed spec fn memory_usage_view(&self) -> nat {
        self.memory_usage_bytes as nat
    }

    pub closed spec fn max_memory_view(&self) -> nat {
        self.max_memory_usage_bytes as nat
    }

    pub closed spec fn channel_id_view(&self) -> u8 {
        self.channel_id
    }

    pub fn new(channel_id: u8, max_memory_usage_bytes: usize) -> (r: Self)
        ensures
            r.wf(),
            r.messages_view() == Seq::<Seq<u8>>::empty(),
            r.pending() == Map::<u64, PendingMessage>::empty(),
            r.last_received() == Map::<u64, u64>::empty(),
            r.memory_usage_view() == 0,
            r.max_memory_view() == max_memory_usage_bytes,
            r.channel_id_view() == channel_id,
    {
        let r = Self {
            channel_id,
            slices: SortedMap::new(),
            slices_last_received: SortedMap::new(),
            messages: VecDeque::new(),
            memory_usage_bytes: 0,
            max_memory_usage_bytes,
        };
        proof {
            assert(queue_view(r.messages@) =~= Seq::<Seq<u8>>::empty());
            assert(r.pending() =~= Map::<u64, PendingMessage>::empty());
        }
        r
    }

    /// Queues a received message, unless the channel would hold more than
    /// its memory limit.
    pub fn process_message(&mut self, message: Vec<u8>)
        requires
            old(self).wf(),
        ensures
            final(self).wf(),
            unreliable_message_processed(*old(self), *final(self), message@),
    {
        if message.len() > self.max_memory_usage_bytes - self.memory_usage_bytes {
            return;
        }
        let ghost m = message@;
        let ghost before = self.messages@;
        self.memory_usage_bytes = self.memory_usage_bytes + message.len();
        self.messages.push_back(message);
        proof {
            assert(queue_view(self.messages@) =~= queue_view(before).push(m));
            lemma_total_len_push(queue_view(before), m);
        }
    }

    /// Takes a slice of a big message. The first slice of a message sets
    /// aside room for all of it, and is dropped when that room is not there.
    /// A slice of the wrong size is refused. Once every slice arrived the
    /// message is queued, the slices end to end.
    pub fn process_slice(&mut self, slice: Slice, current_time: u64) -> (r: Result<(), ChannelError>)
        requires
            old(self).wf(),
        ensures
            final(self).wf(),
            unreliable_slice_processed(*old(self), *final(self), slice@, current_time, r),
    {
        let id = slice.message_id;
        let ghost old_pending = self.pending();
        let ghost old_entries = self.slices.entries_view();
        let ghost w = |c: SliceConstructor| reserved_of(c);
        proof {
            self.slices.lemma_wf();
            self.slices_last_received.lemma_wf();
        }
        let known = self.slices.contains_key(id);
        if slice_is_malformed(&self.slices, &slice) {
            return Err(ChannelError::InvalidSliceMessage);
        }
        if !known && slice.num_slices * SLICE_SIZE > self.max_memory_usage_bytes - self.memory_usage_bytes {
            return Ok(());
        }
        if slice_index_is_beyond(&slice) {
            return Err(ChannelError::InvalidSliceMessage);
        }
        let mut constructor = if known {
            self.slices.remove(id).unwrap()
        } else {
            let message_len = slice.num_slices * SLICE_SIZE;
            self.memory_usage_bytes = self.memory_usage_bytes + message_len;
            SliceConstructor::new(id, slice.num_slices)
        };
        let ghost c0 = constructor;
        proof {
            constructor.lemma_wf_bounds();
            if known {
                let ii = choose|ii: int|
                    0 <= ii < old_entries.len() && old_entries[ii].0 == id
                        && self.slices.entries_view() == old_entries.remove(ii);
                lemma_sum_weights_remove(old_entries, ii, w);
                assert(old_entries[ii].1 == c0);
            }
            assert(pending_of(c0) == (if known {
                old_pending[id]
            } else {
                fresh_pending(slice.num_slices)
            }));
        }
        let result = constructor.process_slice(slice.slice_index, slice.payload.as_slice());
        let ghost mid_entries = self.slices.entries_view();
        match result {
            Err(e) => {
                proof {
                    if !known {
                        assert(!c0.received_view()[0]);
                    }
                }
                self.slices.insert(id, constructor);
                proof {
                    self.slices.lemma_wf();
                    let ii = choose|ii: int|
                        0 <= ii <= mid_entries.len() && self.slices.entries_view() == mid_entries.insert(ii, (id, constructor));
                    lemma_sum_weights_insert(mid_entries, ii, (id, constructor), w);
                    assert(self.pending() =~= old_pending.insert(id, pending_of(c0)));
                }
                Err(e)
            },
            Ok(Some(message)) => {
                let ghost mv = message@;
                proof {
                    if !known {
                        assert(!c0.received_view()[0]);
                    }
                    assert(incomplete(c0));
                    let j = choose|j: int| 0 <= j < c0.num_slices_view() && !#[trigger] c0.received_view()[j];
                    assert(mv == concat_slices(constructor.slices_view()));
                    let q = pending_after(pending_of(c0), slice.slice_index as int, slice.payload@);
                    assert(pending_of(constructor) == q);
                    assert(all_received(q));
                }
                self.slices_last_received.remove(id);
                self.memory_usage_bytes = self.memory_usage_bytes - slice.num_slices * SLICE_SIZE;
                self.memory_usage_bytes = self.memory_usage_bytes + message.len();
                let ghost before = self.messages@;
                self.messages.push_back(message);
                proof {
                    assert(queue_view(self.messages@) =~= queue_view(before).push(mv));
                    lemma_total_len_push(queue_view(before), mv);
                    assert(self.pending() =~= old_pending.remove(id));
                }
                Ok(())
            },
            Ok(None) => {
                proof {
                    assert(incomplete(constructor)) by {
                        if !incomplete(constructor) {
                            assert forall|j: int| 0 <= j < constructor.num_slices_view() implies #[trigger] constructor.received_view()[j] by {}
                        }
                    }
                    let q = pending_after(pending_of(c0), slice.slice_index as int, slice.payload@);
                    assert(pending_of(constructor) == q);
                    assert(!all_received(q)) by {
                        let j = choose|j: int| 0 <= j < constructor.num_slices_view() && !#[trigger] constructor.received_view()[j];
                        assert(!q.received[j]);
                    }
                }
                self.slices.insert(id, constructor);
                self.slices_last_received.insert(id, current_time);
                proof {
                    self.slices.lemma_wf();
                    let ii = choose|ii: int|
                        0 <= ii <= mid_entries.len() && self.slices.entries_view() == mid_entries.insert(ii, (id, constructor));
                    lemma_sum_weights_insert(mid_entries, ii, (id, constructor), w);
                    assert(self.pending() =~= old_pending.insert(id, pending_of(constructor)));
                }
                Ok(())
            },
        }
    }

    /// The oldest message received and not yet taken.
    pub fn receive_message(&mut self) -> (r: Option<Vec<u8>>)
        requires
            old(self).wf(),
        ensures
            final(self).wf(),
            final(self).pending() == old(self).pending(),
            final(self).last_received() == old(self).last_received(),
            final(self).last_received_entries() == old(self).last_received_entries(),
            final(self).max_memory_view() == old(self).max_memory_view(),
            old(self).messages_view().len() == 0 ==> r is None && final(self).messages_view() == old(self).messages_view(),
            old(self).messages_view().len() > 0 ==> (r matches Some(m) && m@ == old(self).messages_view()[0]) && final(self).messages_view() == old(self).messages_view().drop_first(),
            final(self).memory_usage_view() + total_len(old(self).messages_view()) == old(self).memory_usage_view()
                + total_len(final(self).messages_view()),
    {
        let ghost before = self.messages@;
        match self.messages.pop_front() {
            Some(message) => {
                proof {
                    assert(queue_view(before)[0] == message@);
                    assert(queue_view(self.messages@) =~= queue_view(before).drop_first());
                }
                self.memory_usage_bytes = self.memory_usage_bytes - message.len();
                Some(message)
            },
            None => None,
        }
    }

    /// The newest message received; the older ones are dropped.
    pub fn receive_last_message(&mut self) -> (r: Option<Vec<u8>>)
        requires
            old(self).wf(),
        ensures
            final(self).wf(),
            final(self).pending() == old(self).pending(),
            final(self).last_received() == old(self).last_received(),
            final(self).max_memory_view() == old(self).max_memory_view(),
            final(self).messages_view() == Seq::<Seq<u8>>::empty(),
            old(self).messages_view().len() == 0 ==> r is None,
            old(self).messages_view().len() > 0 ==> (r matches Some(m) && m@ == old(self).messages_view().last()),
            final(self).memory_usage_view() + total_len(old(self).messages_view()) == old(self).memory_usage_view(),
    {
        let ghost q0 = self.messages_view();
        while self.messages.len() > 1
            invariant
                self.wf(),
                self.pending() == old(self).pending(),
                self.last_received() == old(self).last_received(),
                self.max_memory_view() == old(self).max_memory_view(),
                q0 == old(self).messages_view(),
                self.messages_view().len() >= 1 ==> q0.len() >= 1 && self.messages_view().last() == q0.last(),
                q0.len() >= 1 ==> self.messages_view().len() >= 1,
                q0.len() == 0 ==> self.messages_view().len() == 0,
                self.memory_usage_view() + total_len(q0) == old(self).memory_usage_view() + total_len(self.messages_view()),
            decreases self.messages@.len(),
        {
            let ghost q = self.messages_view();
            let _ = self.receive_message();
            proof {
                assert(self.messages_view().last() == q.last());
            }
        }
        let r = self.receive_message();
        proof {
            assert(self.messages_view() =~= Seq::<Seq<u8>>::empty());
        }
        r
    }
}

/// How many of the first entries (in message id order) have waited
/// `DISCARD_AFTER` or more at `now`.
pub open spec fn expired_prefix(e: Seq<(u64, u64)>, now: u64) -> nat
    decreases e.len(),
{
    if e.len() == 0 || now - e[0].1 < DISCARD_AFTER {
        0
    } else {
        1 + expired_prefix(e.drop_first(), now)
    }
}

/// The map without the message ids of the entries.
pub open spec fn remove_entries(m: Map<u64, PendingMessage>, e: Seq<(u64, u64)>) -> Map<
    u64,
    PendingMessage,
>
    decreases e.len(),
{
    if e.len() == 0 {
        m
    } else {
        remove_entries(m, e.drop_last()).remove(e.last().0)
    }
}

proof fn lemma_expired_prefix_bound(e: Seq<(u64, u64)>, now: u64)
    ensures
        expired_prefix(e, now) <= e.len(),
        expired_prefix(e, now) < e.len() ==> now - e[expired_prefix(e, now) as int].1 < DISCARD_AFTER,
        forall|i: int| 0 <= i < expired_prefix(e, now) ==> now - #[trigger] e[i].1 >= DISCARD_AFTER,
    decreases e.len(),
{
    if e.len() > 0 && now - e[0].1 >= DISCARD_AFTER {
        lemma_expired_prefix_bound(e.drop_first(), now);
        assert forall|i: int| 0 <= i < expired_prefix(e, now) implies now - #[trigger] e[i].1 >= DISCARD_AFTER by {
            if i > 0 {
                assert(e[i] == e.drop_first()[i - 1]);
            }
        }
        if expired_prefix(e, now) < e.len() {
            assert(e[expired_prefix(e, now) as int] == e.drop_first()[expired_prefix(e.drop_first(), now) as int]);
        }
    }
}

/// A prefix that passes the test and stops at an entry that fails it is the
/// expired prefix.
proof fn lemma_expired_prefix_is(e: Seq<(u64, u64)>, now: u64, k: nat)
    requires
        k <= e.len(),
        forall|i: int| 0 <= i < k ==> now - #[trigger] e[i].1 >= DISCARD_AFTER,
        k < e.len() ==> now - e[k as int].1 < DISCARD_AFTER,
    ensures
        expired_prefix(e, now) == k,
    decreases k,
{
    if k > 0 {
        assert forall|i: int| 0 <= i < k - 1 implies now - #[trigger] e.drop_first()[i].1 >= DISCARD_AFTER by {
            assert(e.drop_first()[i] == e[i + 1]);
        }
        if k < e.len() {
            assert(e.drop_first()[k - 1] == e[k as int]);
        }
        lemma_expired_prefix_is(e.drop_first(), now, (k - 1) as nat);
    }
}

impl ReceiveChannelUnreliable {
    /// Gives up on the messages whose last slice arrived `DISCARD_AFTER` or
    /// more before `current_time`, walking them in message id order and
    /// stopping at the first one still waiting for less; their room is freed.
    pub fn discard_incomplete_old_slices(&mut self, current_time: u64)
        requires
            old(self).wf(),
            forall|k: u64| #[trigger] old(self).last_received().dom().contains(k) ==> old(self).last_received()[k]
                <= current_time,
        ensures
            final(self).wf(),
            final(self).messages_view() == old(self).messages_view(),
            final(self).max_memory_view() == old(self).max_memory_view(),
            ({
                let e = old(self).last_received_entries();
                let k = expired_prefix(e, current_time);
                &&& final(self).last_received_entries() == e.subrange(k as int, e.len() as int)
                &&& final(self).pending() == remove_entries(old(self).pending(), e.subrange(0, k as int))
                &&& final(self).memory_usage_view() <= old(self).memory_usage_view()
            }),
    {
        let ghost e = self.last_received_entries();
        proof {
            self.slices_last_received.lemma_wf();
            lemma_expired_prefix_bound(e, current_time);
        }
        let mut lost_messages: Vec<u64> = Vec::new();
        let n = self.slices_last_received.len();
        let mut i: usize = 0;
        while i < n
            invariant
                self.wf(),
                e == self.last_received_entries(),
                n == e.len(),
                i <= n,
                forall|k: u64| #[trigger] self.last_received().dom().contains(k) ==> self.last_received()[k] <= current_time,
                lost_messages@ == e.subrange(0, i as int).map_values(|x: (u64, u64)| x.0),
                forall|j: int| 0 <= j < i ==> current_time - #[trigger] e[j].1 >= DISCARD_AFTER,
            ensures
                i <= n,
                lost_messages@ == e.subrange(0, i as int).map_values(|x: (u64, u64)| x.0),
                forall|j: int| 0 <= j < i ==> current_time - #[trigger] e[j].1 >= DISCARD_AFTER,
                i < n ==> current_time - e[i as int].1 < DISCARD_AFTER,
            decreases n - i,
        {
            let (message_id, last_received) = self.slices_last_received.entry_at(i);
            let last_received = *last_received;
            proof {
                self.slices_last_received.lemma_wf();
                assert(self.last_received().dom().contains(message_id));
            }
            if current_time - last_received >= DISCARD_AFTER {
                lost_messages.push(message_id);
                proof {
                    assert(lost_messages@ =~= e.subrange(0, i + 1).map_values(|x: (u64, u64)| x.0));
                }
                i = i + 1;
            } else {
                break;
            }
        }
        proof {
            lemma_expired_prefix_is(e, current_time, i as nat);
            assert(keys_increasing_pairs(e));
        }
        let ghost k = i;
        let ghost p0 = self.pending();
        let ghost m0 = self.memory_usage_bytes;
        let mut j: usize = 0;
        while j < lost_messages.len()
            invariant
                self.wf(),
                j <= lost_messages@.len(),
                lost_messages@ == e.subrange(0, k as int).map_values(|x: (u64, u64)| x.0),
                k <= e.len(),
                keys_increasing_pairs(e),
                self.last_received_entries() == e.subrange(j as int, e.len() as int),
                self.pending() == remove_entries(p0, e.subrange(0, j as int)),
                self.messages_view() == old(self).messages_view(),
                self.max_memory_view() == old(self).max_memory_view(),
                self.memory_usage_bytes <= m0,
                m0 == old(self).memory_usage_bytes,
                p0 == old(self).pending(),
            decreases lost_messages@.len() - j,
        {
            let message_id = lost_messages[j];
            let ghost entries = self.slices_last_received.entries_view();
            let ghost pend = self.pending();
            proof {
                assert(message_id == e[j as int].0);
                assert(entries[0] == e[j as int]);
                self.slices_last_received.lemma_wf();
                self.slices.lemma_wf();
                assert(self.slices_last_received@.dom().contains(message_id));
                assert(self.slices@.dom().contains(message_id));
                assert(self.slices@[message_id].wf());
            }
            self.slices_last_received.remove(message_id);
            proof {
                let ii = choose|ii: int|
                    0 <= ii < entries.len() && entries[ii].0 == message_id
                        && self.slices_last_received.entries_view() == entries.remove(ii);
                if ii != 0 {
                    assert(entries[ii] == e[j + ii]);
                    assert(e[j as int].0 < e[j + ii].0);
                }
                assert(entries.remove(0) =~= e.subrange(j + 1, e.len() as int));
            }
            let ghost slice_entries = self.slices.entries_view();
            let removed = self.slices.remove(message_id);
            let constructor = removed.unwrap();
            proof {
                let ii = choose|ii: int|
                    0 <= ii < slice_entries.len() && slice_entries[ii].0 == message_id
                        && self.slices.entries_view() == slice_entries.remove(ii);
                lemma_sum_weights_remove(slice_entries, ii, |c: SliceConstructor| reserved_of(c));
                constructor.lemma_wf_bounds();
                assert(e.subrange(0, j + 1).drop_last() =~= e.subrange(0, j as int));
                assert(self.pending() =~= pend.remove(message_id));
            }
            self.memory_usage_bytes = self.memory_usage_bytes - constructor.num_slices() * SLICE_SIZE;
            j = j + 1;
        }
    }
}

/// Message ids in strictly increasing order.
pub open spec fn keys_increasing_pairs(e: Seq<(u64, u64)>) -> bool {
    forall|a: int, b: int| 0 <= a < b < e.len() ==> #[trigger] e[a].0 < #[trigger] e[b].0
}

/// Whether `slice_malformed` holds of `slice` against the messages being
/// put back together in `slices`.
pub(crate) fn slice_is_malformed(slices: &SortedMap<SliceConstructor>, slice: &Slice) -> (r: bool)
    requires
        slices.wf(),
    ensures
        r == slice_malformed(slices@.map_values(|c: SliceConstructor| pending_of(c)), slice@),
{
    if slice.num_slices > usize::MAX / SLICE_SIZE {
        return true;
    }
    match slices.get(slice.message_id) {
        Some(c) => c.num_slices() != slice.num_slices,
        None => slice.num_slices == 0,
    }
}

/// Whether `slice_index_beyond` holds of `slice`.
pub(crate) fn slice_index_is_beyond(slice: &Slice) -> (r: bool)
    ensures
        r == slice_index_beyond(slice@),
{
    if slice.slice_index < slice.num_slices {
        return false;
    }
    let len = slice.payload.len();
    if slice.num_slices > 0 && slice.slice_index == slice.num_slices - 1 {
        len <= SLICE_SIZE
    } else {
        len == SLICE_SIZE
    }
}

} // verus!
