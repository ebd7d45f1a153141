//! What a receiver gets of what a sender packed on a reliable channel: the
//! slices of a big message put back together in any order give the message,
//! and an ordered channel hands out the messages it holds in id order.
use vstd::prelude::*;

use crate::packet::SLICE_SIZE;
use crate::error::ChannelError;
use crate::packet::{spec_decode, PacketView, SliceView};
use crate::remote_connection::{packet_taken, receive_error, reliable_messages_branch, reliable_messages_taken, RenetClient};
use crate::reliable_channel::{
    message_processed, packet_refs, received_from, slice_processed, small_holds, OrderView, ReceiveChannelReliable,
    UnackedView,
};
use crate::send_block_channel::{lemma_slices_make_the_block, num_slices_for, slice_bytes};
use crate::slice_constructor::{concat_slices, slice_len_ok};
use crate::unreliable_channel::{
    all_received, fresh_pending, num_slices_of, pending_after, pending_or_fresh, slice_index_beyond,
    slice_payload, PendingMessage,
};

verus! {

/// The slices of message `m`, in order, as a sender cuts it.
pub open spec fn message_slices(m: Seq<u8>) -> Seq<Seq<u8>> {
    Seq::new(num_slices_of(m.len()), |i: int| slice_payload(m, num_slices_of(m.len()), i))
}

/// The slices of a big message, end to end, are the message, and each has
/// the size a receiver checks: `SLICE_SIZE` bytes, the last at most that.
pub proof fn lemma_message_slices_reassemble(m: Seq<u8>)
    ensures
        concat_slices(message_slices(m)) == m,
        forall|i: int|
            0 <= i < num_slices_of(m.len()) ==> slice_len_ok(
                num_slices_of(m.len()),
                SLICE_SIZE as nat,
                i,
                #[trigger] slice_payload(m, num_slices_of(m.len()), i).len(),
            ),
{
    let n = num_slices_of(m.len());
    let size = SLICE_SIZE as nat;
    assert(n == num_slices_for(m.len(), size));
    lemma_slices_make_the_block(m, size);
    assert(message_slices(m) =~= Seq::new(n, |i: int| slice_bytes(m, size, n, i as nat)));
    assert forall|i: int| 0 <= i < n implies slice_len_ok(n, size, i, #[trigger] slice_payload(m, n, i).len()) by {
        lemma_slice_bounds(m.len(), n, i);
    }
}

proof fn lemma_slice_bounds(len: nat, n: nat, i: int)
    requires
        n == num_slices_of(len),
        0 <= i < n,
    ensures
        i * SLICE_SIZE + SLICE_SIZE <= len || i == n - 1,
        i == n - 1 ==> i * SLICE_SIZE <= len <= i * SLICE_SIZE + SLICE_SIZE,
        (i + 1) * SLICE_SIZE == i * SLICE_SIZE + SLICE_SIZE,
{
    assert((i + 1) * SLICE_SIZE == i * SLICE_SIZE + SLICE_SIZE) by (nonlinear_arith);
    assert(n * 1200 >= len && (n - 1) * 1200 < len) by (nonlinear_arith)
        requires
            n == (len + 1199) / 1200,
            n >= 1,
    ;
    if i < n - 1 {
        assert((i + 1) * 1200 <= (n - 1) * 1200) by (nonlinear_arith)
            requires
                i + 1 <= n - 1,
        ;
    } else {
        assert(i * 1200 == (n - 1) * 1200);
    }
}

/// The message being put back together after the slices at `order` arrived,
/// one after another, each holding its bytes of `m`.
pub open spec fn slices_arrived(p: PendingMessage, m: Seq<u8>, order: Seq<int>) -> PendingMessage
    decreases order.len(),
{
    if order.len() == 0 {
        p
    } else {
        let q = slices_arrived(p, m, order.drop_last());
        pending_after(q, order.last(), slice_payload(m, p.num_slices as nat, order.last()))
    }
}

proof fn lemma_slices_arrived_state(m: Seq<u8>, n: usize, order: Seq<int>)
    requires
        forall|j: int| 0 <= j < order.len() ==> 0 <= #[trigger] order[j] < n,
    ensures
        ({
            let q = slices_arrived(fresh_pending(n), m, order);
            &&& q.num_slices == n
            &&& q.received.len() == n
            &&& q.slices.len() == n
            &&& forall|i: int| 0 <= i < n ==> (#[trigger] q.received[i] <==> order.contains(i))
            &&& forall|i: int| 0 <= i < n && q.received[i] ==> #[trigger] q.slices[i] == slice_payload(m, n as nat, i)
        }),
    decreases order.len(),
{
    let q = slices_arrived(fresh_pending(n), m, order);
    if order.len() == 0 {
        assert forall|i: int| 0 <= i < n implies (#[trigger] q.received[i] <==> order.contains(i)) by {}
    } else {
        let prefix = order.drop_last();
        assert forall|j: int| 0 <= j < prefix.len() implies 0 <= #[trigger] prefix[j] < n by {
            assert(prefix[j] == order[j]);
        }
        lemma_slices_arrived_state(m, n, prefix);
        let k = order.last();
        assert(order[order.len() - 1] == k);
        assert forall|i: int| 0 <= i < n implies (#[trigger] q.received[i] <==> order.contains(i)) by {
            if i == k {
                assert(order.contains(i));
            } else {
                if order.contains(i) {
                    let j = choose|j: int| 0 <= j < order.len() && order[j] == i;
                    assert(j < order.len() - 1);
                    assert(prefix[j] == i);
                }
                if prefix.contains(i) {
                    let j = choose|j: int| 0 <= j < prefix.len() && prefix[j] == i;
                    assert(order[j] == i);
                }
            }
        }
    }
}

/// The slices of a big message, arriving in any order and any number of
/// times each, put the message back together once each has arrived.
pub proof fn lemma_slices_arrive_in_any_order(m: Seq<u8>, order: Seq<int>)
    requires
        m.len() > SLICE_SIZE,
        m.len() + SLICE_SIZE <= usize::MAX,
        forall|j: int| 0 <= j < order.len() ==> 0 <= #[trigger] order[j] < num_slices_of(m.len()),
        forall|i: int| 0 <= i < num_slices_of(m.len()) ==> #[trigger] order.contains(i),
    ensures
        ({
            let q = slices_arrived(fresh_pending(num_slices_of(m.len()) as usize), m, order);
            &&& all_received(q)
            &&& concat_slices(q.slices) == m
        }),
{
    let n = num_slices_of(m.len());
    assert(n <= usize::MAX) by (nonlinear_arith)
        requires
            n == (m.len() + 1199) / 1200,
            m.len() + 1200 <= usize::MAX,
    ;
    let nu = n as usize;
    lemma_slices_arrived_state(m, nu, order);
    let q = slices_arrived(fresh_pending(nu), m, order);
    assert forall|j: int| 0 <= j < q.num_slices implies #[trigger] q.received[j] by {
        assert(order.contains(j));
    }
    lemma_message_slices_reassemble(m);
    assert(q.slices =~= message_slices(m));
}

/// An ordered channel hands out the messages it holds in id order: along
/// a run of `receive_message` calls from `chain[0]`, whose messages include
/// the `k` ids from the oldest pending one on, call `j` gives the message
/// held under the `j`-th of those ids.
pub proof fn lemma_ordered_delivery(chain: Seq<ReceiveChannelReliable>, out: Seq<Option<Seq<u8>>>, k: nat)
    requires
        chain.len() == k + 1,
        out.len() == k,
        forall|j: int| 0 <= j <= k ==> (#[trigger] chain[j]).order() is Ordered,
        forall|j: int| 0 <= j < k ==> received_from(#[trigger] chain[j], chain[j + 1], out[j]),
        forall|j: int|
            0 <= j < k ==> chain[0].messages_view().dom().contains(#[trigger] (chain[0].oldest() + j) as u64),
        chain[0].oldest() + k <= u64::MAX,
    ensures
        forall|j: int|
            0 <= j < k ==> #[trigger] out[j] == Some(chain[0].messages_view()[(chain[0].oldest() + j) as u64]),
        chain[k as int].oldest() == chain[0].oldest() + k,
    decreases k,
{
    if k > 0 {
        let k1 = (k - 1) as nat;
        lemma_ordered_delivery(chain.drop_last(), out.drop_last(), k1);
        let c0 = chain[0];
        let last = chain[k1 as int];
        assert(chain.drop_last()[k1 as int] == last);
        assert forall|j: int| 0 <= j < k1 implies #[trigger] out[j] == Some(
            c0.messages_view()[(c0.oldest() + j) as u64],
        ) by {
            assert(out.drop_last()[j] == out[j]);
            assert(chain.drop_last()[0] == c0);
        }
        lemma_messages_kept(chain, out, k1);
        let id = (c0.oldest() + k1) as u64;
        assert(c0.messages_view().dom().contains(id));
        assert(last.oldest() == id);
        assert(received_from(chain[k1 as int], chain[k as int], out[k1 as int]));
        assert(last.order() is Ordered);
    }
}

/// Along such a run, the messages under ids not handed out yet stay.
proof fn lemma_messages_kept(chain: Seq<ReceiveChannelReliable>, out: Seq<Option<Seq<u8>>>, j: nat)
    requires
        j < chain.len(),
        out.len() + 1 == chain.len(),
        forall|i: int| 0 <= i < chain.len() ==> (#[trigger] chain[i]).order() is Ordered,
        forall|i: int| 0 <= i < out.len() ==> received_from(#[trigger] chain[i], chain[i + 1], out[i]),
    ensures
        chain[j as int].oldest() >= chain[0].oldest(),
        forall|id: u64|
            id >= chain[j as int].oldest() && #[trigger] chain[0].messages_view().dom().contains(id) ==> chain[j as int].messages_view().dom().contains(id)
                && chain[j as int].messages_view()[id] == chain[0].messages_view()[id],
    decreases j,
{
    if j > 0 {
        lemma_messages_kept(chain, out, (j - 1) as nat);
        assert(received_from(chain[j - 1], chain[j - 1 + 1], out[j - 1]));
    }
}

/// A small message a sender packed arrives as it was sent: when a receive
/// channel takes entry `j` of a small reliable packet that a send channel
/// packed from its messages `u` (see `packet_refs`), and the id was neither
/// handed out nor held yet and the room was there, the receiver holds under
/// that id the bytes the sender holds.
pub proof fn lemma_small_message_arrives(
    u: Map<u64, UnackedView>,
    channel_id: u8,
    p: PacketView,
    j: int,
    before: ReceiveChannelReliable,
    after: ReceiveChannelReliable,
    r: Result<(), ChannelError>,
)
    requires
        packet_refs(p, u, channel_id),
        p matches PacketView::SmallReliable { messages, .. } && 0 <= j < messages.len() && message_processed(
            before,
            after,
            messages[j].1,
            messages[j].0,
            r,
        ) && messages[j].0 >= before.oldest() && !before.messages_view().dom().contains(messages[j].0),
        before.order() is Ordered,
        r is Ok,
    ensures
        ({
            let id = p->SmallReliable_messages[j].0;
            &&& after.messages_view().dom().contains(id)
            &&& u[id] matches UnackedView::Small { message, .. } && after.messages_view()[id] == message
        }),
{
    let messages = p->SmallReliable_messages;
    assert(small_holds(u, messages[j].0, messages[j].1));
}

/// Messages whose ids are all different.
pub open spec fn ids_distinct(messages: Seq<(u64, Seq<u8>)>) -> bool {
    forall|i: int, j: int| 0 <= i < j < messages.len() ==> messages[i].0 != messages[j].0
}

proof fn lemma_chain_stores(chain: Seq<ReceiveChannelReliable>, messages: Seq<(u64, Seq<u8>)>, k: nat)
    requires
        reliable_messages_taken(chain, messages, None),
        chain[0].order() is Ordered,
        ids_distinct(messages),
        forall|i: int|
            0 <= i < messages.len() ==> #[trigger] messages[i].0 >= chain[0].oldest()
                && !chain[0].messages_view().dom().contains(messages[i].0),
        k <= messages.len(),
    ensures
        chain[k as int].order() is Ordered,
        chain[k as int].oldest() == chain[0].oldest(),
        forall|i: int|
            0 <= i < k ==> chain[k as int].messages_view().dom().contains(#[trigger] messages[i].0)
                && chain[k as int].messages_view()[messages[i].0] == messages[i].1,
        forall|i: int| k <= i < messages.len() ==> !chain[k as int].messages_view().dom().contains(#[trigger] messages[i].0),
    decreases k,
{
    if k > 0 {
        let j = k - 1;
        lemma_chain_stores(chain, messages, j as nat);
        let before = chain[j];
        let after = chain[k as int];
        assert(message_processed(chain[j], chain[j + 1], messages[j].1, messages[j].0, Ok(())));
        let id = messages[j].0;
        assert(id >= chain[0].oldest());
        assert(!before.messages_view().dom().contains(id));
        assert(after.messages_view() == before.messages_view().insert(id, messages[j].1));
        assert forall|i: int| 0 <= i < k implies after.messages_view().dom().contains(#[trigger] messages[i].0)
            && after.messages_view()[messages[i].0] == messages[i].1 by {
            if i < j {
                assert(messages[i].0 != id);
                assert(before.messages_view().dom().contains(messages[i].0));
            }
        }
        assert forall|i: int| k <= i < messages.len() implies !after.messages_view().dom().contains(#[trigger] messages[i].0) by {
            assert(messages[j].0 != messages[i].0);
            assert(!before.messages_view().dom().contains(messages[i].0));
        }
    }
}

/// A small reliable packet is delivered as it was sent: when a connection
/// takes a packet that reads as small reliable messages for one of its
/// ordered channels, with ids all different, none handed out or held yet,
/// and the connection stays open, its channel then holds each message under
/// its id. When the packet carries messages `u` of a sender as they are
/// (see `packet_refs`, which `lemma_packets_carry_sent_messages` gives of
/// the packets a connection makes), the bytes held are the sender's.
pub proof fn lemma_small_reliable_packet_delivered(
    b: RenetClient,
    a: RenetClient,
    bytes: Seq<u8>,
    samples: Seq<u64>,
    u: Map<u64, UnackedView>,
)
    requires
        packet_taken(b, a, bytes, samples),
        spec_decode(bytes) matches Ok(PacketView::SmallReliable { channel_id, messages, .. }) && b.receive_reliable_ids().contains(
            channel_id as u64,
        ) && b.receive_reliable_view()[channel_id as u64].order() is Ordered && ids_distinct(messages) && (forall|i: int|
            0 <= i < messages.len() ==> #[trigger] messages[i].0 >= b.receive_reliable_view()[channel_id as u64].oldest()
                && !b.receive_reliable_view()[channel_id as u64].messages_view().dom().contains(messages[i].0)),
        a.disconnect_reason_view() is None,
    ensures
        ({
            let p = spec_decode(bytes)->Ok_0;
            let k = p->SmallReliable_channel_id as u64;
            let messages = p->SmallReliable_messages;
            &&& forall|i: int|
                0 <= i < messages.len() ==> a.receive_reliable_view()[k].messages_view().dom().contains(
                    #[trigger] messages[i].0,
                ) && a.receive_reliable_view()[k].messages_view()[messages[i].0] == messages[i].1
            &&& packet_refs(p, u, p->SmallReliable_channel_id) ==> forall|i: int|
                0 <= i < messages.len() ==> (u[#[trigger] messages[i].0] matches UnackedView::Small { message, .. }
                    && a.receive_reliable_view()[k].messages_view()[messages[i].0] == message)
        }),
{
    let p = spec_decode(bytes)->Ok_0;
    let channel_id = p->SmallReliable_channel_id;
    let k = channel_id as u64;
    let messages = p->SmallReliable_messages;
    assert(reliable_messages_branch(b, a, channel_id, messages));
    let (chain, err) = choose|chain: Seq<ReceiveChannelReliable>, err: Option<ChannelError>|
        {
            &&& reliable_messages_taken(chain, messages, err)
            &&& chain[0] == b.receive_reliable_view()[k]
            &&& chain.last() == a.receive_reliable_view()[k]
            &&& a.disconnect_reason_view() == receive_error(channel_id, err)
        };
    assert(err is None);
    lemma_chain_stores(chain, messages, messages.len());
    assert(chain[messages.len() as int] == chain.last());
    if packet_refs(p, u, channel_id) {
        assert forall|i: int| 0 <= i < messages.len() implies (u[#[trigger] messages[i].0] matches UnackedView::Small {
            message,
            ..
        } && a.receive_reliable_view()[k].messages_view()[messages[i].0] == message) by {
            assert(small_holds(u, messages[i].0, messages[i].1));
        }
    }
}

/// The slice that completes a big message delivers the message as it was
/// sent: when an ordered receive channel takes, without error, slice `idx`
/// of message `m` (as a sender cuts it), and the slices of `m` at `order`
/// had arrived before (none when `order` is empty), and with this one
/// every slice has arrived, the channel then holds `m` under its id.
pub proof fn lemma_last_slice_delivers(
    before: ReceiveChannelReliable,
    after: ReceiveChannelReliable,
    slice: SliceView,
    r: Result<(), ChannelError>,
    m: Seq<u8>,
    order: Seq<int>,
)
    requires
        slice_processed(before, after, slice, r),
        r is Ok,
        before.order() is Ordered,
        !before.messages_view().dom().contains(slice.message_id),
        slice.message_id >= before.oldest(),
        m.len() > SLICE_SIZE,
        m.len() + SLICE_SIZE <= usize::MAX,
        slice.num_slices == num_slices_of(m.len()),
        slice.slice_index < slice.num_slices,
        slice.payload == slice_payload(m, num_slices_of(m.len()), slice.slice_index as int),
        pending_or_fresh(before.pending(), slice.message_id, slice.num_slices) == slices_arrived(
            fresh_pending(slice.num_slices),
            m,
            order,
        ),
        forall|j: int| 0 <= j < order.len() ==> 0 <= #[trigger] order[j] < num_slices_of(m.len()),
        forall|i: int| 0 <= i < num_slices_of(m.len()) ==> #[trigger] order.push(slice.slice_index as int).contains(i),
    ensures
        after.messages_view().dom().contains(slice.message_id),
        after.messages_view()[slice.message_id] == m,
{
    let n = slice.num_slices;
    let full = order.push(slice.slice_index as int);
    assert(full.drop_last() =~= order);
    assert forall|j: int| 0 <= j < full.len() implies 0 <= #[trigger] full[j] < num_slices_of(m.len()) by {
        if j < order.len() {
            assert(full[j] == order[j]);
        }
    }
    lemma_slices_arrive_in_any_order(m, full);
    let q = slices_arrived(fresh_pending(n), m, full);
    assert(q == pending_after(
        slices_arrived(fresh_pending(n), m, order),
        slice.slice_index as int,
        slice_payload(m, n as nat, slice.slice_index as int),
    ));
    lemma_message_slices_reassemble(m);
    assert(slice_len_ok(n as nat, SLICE_SIZE as nat, slice.slice_index as int, slice.payload.len()));
    assert(!slice_index_beyond(slice));
}

} // verus!
