//! The packets a connection makes in one call carry consecutive sequence
//! numbers, from the connection's next one on, and only the last may be an
//! ack packet: it is one exactly when acks are pending.
use vstd::prelude::*;

use crate::packet::{packet_sequence_of, PacketView};
use crate::reliable_channel::{
    reliable_flush, reliable_message_step, reliable_packing, reliable_slice_step, reliable_slices_upto,
    reliable_small_step, reliable_upto, RelPack, SliceLoop, UnackedView,
};
use crate::remote_connection::{client_pack_step, client_pack_upto, ChannelOrder, RenetClient};
use crate::reliable_channel::SendChannelReliable;
use crate::unreliable_channel::{
    num_slices_of, unreliable_flush, unreliable_fold, unreliable_packing, unreliable_slice_packets,
    unreliable_step, PackState, SendChannelUnreliable,
};

verus! {

/// Packet `i` of `packets` carries sequence number `first + i`, and none
/// is an ack packet.
pub open spec fn numbered(packets: Seq<PacketView>, first: int) -> bool {
    forall|i: int|
        0 <= i < packets.len() ==> packet_sequence_of(#[trigger] packets[i]) == (first + i) as u64
            && !(packets[i] is Ack)
}

proof fn lemma_numbered_push(packets: Seq<PacketView>, first: int, p: PacketView)
    requires
        numbered(packets, first),
        packet_sequence_of(p) == (first + packets.len()) as u64,
        !(p is Ack),
    ensures
        numbered(packets.push(p), first),
{
    assert forall|i: int| 0 <= i < packets.push(p).len() implies packet_sequence_of(#[trigger] packets.push(p)[i])
        == (first + i) as u64 && !(packets.push(p)[i] is Ack) by {
        if i < packets.len() {
            assert(packets.push(p)[i] == packets[i]);
        }
    }
}

proof fn lemma_numbered_append(a: Seq<PacketView>, first: int, b: Seq<PacketView>)
    requires
        numbered(a, first),
        numbered(b, first + a.len()),
    ensures
        numbered(a + b, first),
{
    assert forall|i: int| 0 <= i < (a + b).len() implies packet_sequence_of(#[trigger] (a + b)[i]) == (first + i) as u64
        && !((a + b)[i] is Ack) by {
        if i < a.len() {
            assert((a + b)[i] == a[i]);
        } else {
            assert((a + b)[i] == b[i - a.len()]);
        }
    }
}

/// A reliable packing state whose packets are numbered from `first` on.
pub open spec fn rel_numbered(st: RelPack, first: int) -> bool {
    numbered(st.packets, first) && st.seq == first + st.packets.len()
}

proof fn lemma_slices_numbered(
    init: SliceLoop,
    k: nat,
    start: nat,
    id: u64,
    msg: Seq<u8>,
    n: nat,
    acked: Seq<bool>,
    now: u64,
    resend_time: u64,
    channel_id: u8,
    first: int,
)
    requires
        rel_numbered(init.st, first),
    ensures
        rel_numbered(reliable_slices_upto(init, k, start, id, msg, n, acked, now, resend_time, channel_id).st, first),
    decreases k,
{
    if k > 0 {
        lemma_slices_numbered(init, (k - 1) as nat, start, id, msg, n, acked, now, resend_time, channel_id, first);
        let prev = reliable_slices_upto(init, (k - 1) as nat, start, id, msg, n, acked, now, resend_time, channel_id);
        let next = reliable_slice_step(prev, k - 1, start, id, msg, n, acked, now, resend_time, channel_id);
        if next.st.packets.len() != prev.st.packets.len() {
            lemma_numbered_push(prev.st.packets, first, next.st.packets.last());
            assert(next.st.packets =~= prev.st.packets.push(next.st.packets.last()));
        }
    }
}

proof fn lemma_message_step_numbered(st: RelPack, id: u64, u: UnackedView, now: u64, resend_time: u64, channel_id: u8, first: int)
    requires
        rel_numbered(st, first),
    ensures
        rel_numbered(reliable_message_step(st, id, u, now, resend_time, channel_id).0, first),
{
    match u {
        UnackedView::Small { message, last_sent } => {
            let r = reliable_small_step(st, id, message, last_sent, now, resend_time, channel_id);
            if r.0.packets.len() != st.packets.len() {
                lemma_numbered_push(st.packets, first, r.0.packets.last());
                assert(r.0.packets =~= st.packets.push(r.0.packets.last()));
            }
        },
        UnackedView::Sliced { message, num_slices, next_slice_to_send, acked, last_sent, .. } => {
            lemma_slices_numbered(
                SliceLoop { st, last_sent, next: next_slice_to_send, stopped: false },
                num_slices,
                next_slice_to_send,
                id,
                message,
                num_slices,
                acked,
                now,
                resend_time,
                channel_id,
                first,
            );
        },
    }
}

proof fn lemma_upto_numbered(
    init: RelPack,
    entries: Seq<(u64, UnackedView)>,
    j: nat,
    now: u64,
    resend_time: u64,
    channel_id: u8,
    first: int,
)
    requires
        rel_numbered(init, first),
    ensures
        rel_numbered(reliable_upto(init, entries, j, now, resend_time, channel_id).0, first),
    decreases j,
{
    if j > 0 && j <= entries.len() {
        lemma_upto_numbered(init, entries, (j - 1) as nat, now, resend_time, channel_id, first);
        let prev = reliable_upto(init, entries, (j - 1) as nat, now, resend_time, channel_id);
        let e = prev.1[j - 1];
        lemma_message_step_numbered(prev.0, e.0, e.1, now, resend_time, channel_id, first);
    }
}

/// The packets of one reliable channel's packing are numbered from the
/// sequence it starts at, and the next sequence follows the last of them.
pub proof fn lemma_reliable_packing_numbered(
    entries: Seq<(u64, UnackedView)>,
    seq: u64,
    avail: u64,
    now: u64,
    resend_time: u64,
    channel_id: u8,
)
    ensures
        ({
            let r = reliable_packing(entries, seq, avail, now, resend_time, channel_id).0;
            numbered(r.packets, seq as int) && r.seq == seq + r.packets.len()
        }),
{
    let init = RelPack { packets: Seq::empty(), small: Seq::empty(), small_bytes: 0, seq: seq as int, avail: avail as int };
    lemma_upto_numbered(init, entries, entries.len(), now, resend_time, channel_id, seq as int);
    let r = reliable_upto(init, entries, entries.len(), now, resend_time, channel_id).0;
    let f = reliable_flush(r, channel_id);
    if f.packets.len() != r.packets.len() {
        lemma_numbered_push(r.packets, seq as int, f.packets.last());
        assert(f.packets =~= r.packets.push(f.packets.last()));
    }
}

/// An unreliable packing state whose packets are numbered from `first` on.
pub open spec fn unrel_numbered(st: PackState, first: int) -> bool {
    numbered(st.packets, first) && st.seq == first + st.packets.len()
}

proof fn lemma_unreliable_step_numbered(st: PackState, msg: Seq<u8>, channel_id: u8, first: int)
    requires
        unrel_numbered(st, first),
    ensures
        unrel_numbered(unreliable_step(st, msg, channel_id), first),
{
    let r = unreliable_step(st, msg, channel_id);
    if st.avail >= msg.len() {
        if msg.len() > crate::packet::SLICE_SIZE {
            let sp = unreliable_slice_packets(msg, st.seq, channel_id, st.sliced_id);
            assert(numbered(sp, first + st.packets.len())) by {
                assert forall|i: int| 0 <= i < sp.len() implies packet_sequence_of(#[trigger] sp[i]) == (first
                    + st.packets.len() + i) as u64 && !(sp[i] is Ack) by {}
            }
            lemma_numbered_append(st.packets, first, sp);
        } else if r.packets.len() != st.packets.len() {
            lemma_numbered_push(st.packets, first, r.packets.last());
            assert(r.packets =~= st.packets.push(r.packets.last()));
        }
    }
}

proof fn lemma_unreliable_fold_numbered(q: Seq<Seq<u8>>, st: PackState, channel_id: u8, first: int)
    requires
        unrel_numbered(st, first),
    ensures
        unrel_numbered(unreliable_fold(q, st, channel_id), first),
    decreases q.len(),
{
    if q.len() > 0 {
        lemma_unreliable_step_numbered(st, q[0], channel_id, first);
        lemma_unreliable_fold_numbered(q.drop_first(), unreliable_step(st, q[0], channel_id), channel_id, first);
    }
}

/// The packets of one unreliable channel's packing are numbered from the
/// sequence it starts at, and the next sequence follows the last of them.
pub proof fn lemma_unreliable_packing_numbered(q: Seq<Seq<u8>>, seq: u64, sliced_id: u64, avail: u64, channel_id: u8)
    ensures
        ({
            let r = unreliable_packing(q, seq, sliced_id, avail, channel_id);
            numbered(r.packets, seq as int) && r.seq == seq + r.packets.len()
        }),
{
    let init = PackState {
        packets: Seq::empty(),
        small: Seq::empty(),
        small_bytes: 0,
        seq: seq as int,
        sliced_id: sliced_id as int,
        avail: avail as int,
    };
    lemma_unreliable_fold_numbered(q, init, channel_id, seq as int);
    let r = unreliable_fold(q, init, channel_id);
    let f = unreliable_flush(r, channel_id);
    if f.packets.len() != r.packets.len() {
        lemma_numbered_push(r.packets, seq as int, f.packets.last());
        assert(f.packets =~= r.packets.push(f.packets.last()));
    }
}

proof fn lemma_client_pack_numbered(
    order: Seq<ChannelOrder>,
    n: nat,
    rel: Map<u64, SendChannelReliable>,
    unrel: Map<u64, SendChannelUnreliable>,
    seq: u64,
    avail: u64,
    now: u64,
)
    requires
        n <= order.len(),
        client_pack_upto(order, n, rel, unrel, seq, avail, now).ok,
    ensures
        ({
            let st = client_pack_upto(order, n, rel, unrel, seq, avail, now);
            numbered(st.packets, seq as int) && st.seq == seq + st.packets.len() && st.seq <= u64::MAX
        }),
    decreases n,
{
    if n > 0 {
        let prev = client_pack_upto(order, (n - 1) as nat, rel, unrel, seq, avail, now);
        let st = client_pack_upto(order, n, rel, unrel, seq, avail, now);
        assert(st == client_pack_step(prev, order[n - 1], rel, unrel, now));
        assert(prev.ok);
        lemma_client_pack_numbered(order, (n - 1) as nat, rel, unrel, seq, avail, now);
        match order[n - 1] {
            ChannelOrder::Reliable(id) => {
                let k = id as u64;
                lemma_reliable_packing_numbered(
                    prev.reliable[k],
                    prev.seq as u64,
                    prev.avail as u64,
                    now,
                    rel[k].resend_time_view(),
                    rel[k].channel_id_view(),
                );
                let r = reliable_packing(
                    prev.reliable[k],
                    prev.seq as u64,
                    prev.avail as u64,
                    now,
                    rel[k].resend_time_view(),
                    rel[k].channel_id_view(),
                );
                lemma_numbered_append(prev.packets, seq as int, r.0.packets);
            },
            ChannelOrder::Unreliable(id) => {
                let k = id as u64;
                lemma_unreliable_packing_numbered(
                    prev.unreliable[k].0,
                    prev.seq as u64,
                    prev.unreliable[k].1,
                    prev.avail as u64,
                    unrel[k].channel_id_view(),
                );
                let f = unreliable_packing(
                    prev.unreliable[k].0,
                    prev.seq as u64,
                    prev.unreliable[k].1,
                    prev.avail as u64,
                    unrel[k].channel_id_view(),
                );
                lemma_numbered_append(prev.packets, seq as int, f.packets);
            },
        }
    }
}

/// The packets `get_packets_to_send` makes carry consecutive sequence
/// numbers from the connection's next one on; only the last can be an ack
/// packet, and it is one exactly when acks are pending. Afterwards the
/// connection's next sequence follows the last packet (see `packets_made`).
pub proof fn lemma_packets_in_a_row(c: RenetClient)
    requires
        c.packing().ok,
    ensures
        ({
            let planned = c.planned_packets();
            let n = planned.len();
            &&& forall|i: int| 0 <= i < n ==> packet_sequence_of(#[trigger] planned[i]) == (c.packet_sequence_view() + i) as u64
            &&& forall|i: int| 0 <= i < n - 1 ==> !(#[trigger] planned[i] is Ack)
            &&& (n > 0 && planned[n - 1] is Ack) <==> c.pending_acks_view().len() > 0
            &&& c.packing().seq + (if c.pending_acks_view().len() > 0 {
                1int
            } else {
                0
            }) == c.packet_sequence_view() + n
        }),
{
    lemma_client_pack_numbered(
        c.send_order_view(),
        c.send_order_view().len(),
        c.send_reliable_view(),
        c.send_unreliable_view(),
        c.packet_sequence_view(),
        c.available_bytes_view(),
        c.current_time_view(),
    );
    let fin = c.packing();
    let planned = c.planned_packets();
    if c.pending_acks_view().len() > 0 {
        assert(planned == fin.packets.push(PacketView::Ack { sequence: fin.seq as u64, ack_ranges: c.pending_acks_view() }));
        assert forall|i: int| 0 <= i < planned.len() implies packet_sequence_of(#[trigger] planned[i]) == (
        c.packet_sequence_view() + i) as u64 by {
            if i < fin.packets.len() {
                assert(planned[i] == fin.packets[i]);
            }
        }
        assert forall|i: int| 0 <= i < planned.len() - 1 implies !(#[trigger] planned[i] is Ack) by {
            assert(planned[i] == fin.packets[i]);
        }
    } else {
        if planned.len() > 0 {
            assert(!(fin.packets[planned.len() - 1] is Ack));
        }
    }
}

/// Every packet is one of an unreliable channel.
pub open spec fn unreliable_kinds(packets: Seq<PacketView>) -> bool {
    forall|i: int| 0 <= i < packets.len() ==> (#[trigger] packets[i] is SmallUnreliable || packets[i] is UnreliableSlice)
}

proof fn lemma_unreliable_fold_kinds(q: Seq<Seq<u8>>, st: PackState, channel_id: u8)
    requires
        unreliable_kinds(st.packets),
    ensures
        unreliable_kinds(unreliable_fold(q, st, channel_id).packets),
    decreases q.len(),
{
    if q.len() > 0 {
        let r = unreliable_step(st, q[0], channel_id);
        assert(unreliable_kinds(r.packets)) by {
            if st.avail >= q[0].len() {
                if q[0].len() > crate::packet::SLICE_SIZE {
                    let sp = unreliable_slice_packets(q[0], st.seq, channel_id, st.sliced_id);
                    assert forall|i: int| 0 <= i < r.packets.len() implies (#[trigger] r.packets[i] is SmallUnreliable
                        || r.packets[i] is UnreliableSlice) by {
                        if i < st.packets.len() {
                            assert(r.packets[i] == st.packets[i]);
                        } else {
                            assert(r.packets[i] == sp[i - st.packets.len()]);
                        }
                    }
                } else {
                    assert forall|i: int| 0 <= i < r.packets.len() implies (#[trigger] r.packets[i] is SmallUnreliable
                        || r.packets[i] is UnreliableSlice) by {
                        if i < st.packets.len() {
                            assert(r.packets[i] == st.packets[i]);
                        }
                    }
                }
            }
        }
        lemma_unreliable_fold_kinds(q.drop_first(), r, channel_id);
    }
}

/// An unreliable channel packs only unreliable packets.
pub proof fn lemma_unreliable_packing_kinds(q: Seq<Seq<u8>>, seq: u64, sliced_id: u64, avail: u64, channel_id: u8)
    ensures
        unreliable_kinds(unreliable_packing(q, seq, sliced_id, avail, channel_id).packets),
{
    let init = PackState {
        packets: Seq::empty(),
        small: Seq::empty(),
        small_bytes: 0,
        seq: seq as int,
        sliced_id: sliced_id as int,
        avail: avail as int,
    };
    lemma_unreliable_fold_kinds(q, init, channel_id);
    let r = unreliable_fold(q, init, channel_id);
    let f = unreliable_flush(r, channel_id);
    assert forall|i: int| 0 <= i < f.packets.len() implies (#[trigger] f.packets[i] is SmallUnreliable
        || f.packets[i] is UnreliableSlice) by {
        if i < r.packets.len() {
            assert(f.packets[i] == r.packets[i]);
        }
    }
}

} // verus!
