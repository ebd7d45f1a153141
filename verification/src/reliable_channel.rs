//! Reliable channels: every message is resent until acknowledged; big
//! messages travel in slices that are acknowledged one by one.
use vstd::prelude::*;

use crate::error::ChannelError;
use crate::packet::{copy_range, reliable_messages_view, Packet, PacketView, Slice, SliceView, SLICE_SIZE};
use crate::slice_constructor::count_true;
use crate::sorted_map::{
    lemma_sum_weights_insert, lemma_sum_weights_remove, lemma_sum_weights_update, sum_weights,
    SortedMap,
};
use crate::slice_constructor::{concat_slices, slice_len_ok, SliceConstructor};
use crate::unreliable_channel::{
    slice_index_beyond, slice_index_is_beyond, slice_is_malformed, slice_malformed,
    all_received, fresh_pending, incomplete, num_slices_of, packets_view, pending_after,
    pending_of, pending_or_fresh, reserved_of, slice_payload, PendingMessage,
};
use crate::varint::{spec_varint_len, varint_len, MAX_VAR_INT};

verus! {

/// A message not acknowledged yet, with when it (or each of its slices)
/// was last sent.
pub ghost enum UnackedView {
    Small { message: Seq<u8>, last_sent: Option<u64> },
    Sliced {
        message: Seq<u8>,
        num_slices: nat,
        num_acked_slices: nat,
        next_slice_to_send: nat,
        acked: Seq<bool>,
        last_sent: Seq<Option<u64>>,
    },
}

pub enum UnackedMessage {
    Small { message: Vec<u8>, last_sent: Option<u64> },
    Sliced {
        message: Vec<u8>,
        num_slices: usize,
        num_acked_slices: usize,
        next_slice_to_send: usize,
        acked: Vec<bool>,
        last_sent: Vec<Option<u64>>,
    },
}

impl View for UnackedMessage {
    type V = UnackedView;

    open spec fn view(&self) -> UnackedView {
        match self {
            UnackedMessage::Small { message, last_sent } => UnackedView::Small {
                message: message@,
                last_sent: *last_sent,
            },
            UnackedMessage::Sliced {
                message,
                num_slices,
                num_acked_slices,
                next_slice_to_send,
                acked,
                last_sent,
            } => UnackedView::Sliced {
                message: message@,
                num_slices: *num_slices as nat,
                num_acked_slices: *num_acked_slices as nat,
                next_slice_to_send: *next_slice_to_send as nat,
                acked: acked@,
                last_sent: last_sent@,
            },
        }
    }
}

/// The bytes of a message, small or sliced.
pub open spec fn unacked_message(u: UnackedView) -> Seq<u8> {
    match u {
        UnackedView::Small { message, .. } => message,
        UnackedView::Sliced { message, .. } => message,
    }
}

pub open spec fn unacked_len(u: UnackedMessage) -> nat {
    unacked_message(u@).len()
}

/// A message in a consistent state: a small one fits a slice; a sliced one
/// has one flag and one send time per slice, and some slice still unacked.
pub open spec fn unacked_wf(u: UnackedView) -> bool {
    match u {
        UnackedView::Small { message, .. } => message.len() <= SLICE_SIZE,
        UnackedView::Sliced {
            message,
            num_slices,
            num_acked_slices,
            acked,
            last_sent,
            next_slice_to_send,
        } => {
            &&& next_slice_to_send <= num_slices
            &&& message.len() > SLICE_SIZE
            &&& message.len() + SLICE_SIZE <= usize::MAX
            &&& num_slices == num_slices_of(message.len())
            &&& acked.len() == num_slices
            &&& last_sent.len() == num_slices
            &&& num_acked_slices == count_true(acked)
            &&& num_acked_slices < num_slices
        },
    }
}

/// Whether something sent at `last` must still wait before being resent.
pub open spec fn waiting(last: Option<u64>, now: u64, resend_time: u64) -> bool {
    last matches Some(t) && now - t < resend_time
}

/// Packing progress of a reliable channel.
pub ghost struct RelPack {
    pub packets: Seq<PacketView>,
    pub small: Seq<(u64, Seq<u8>)>,
    pub small_bytes: nat,
    pub seq: int,
    pub avail: int,
}

/// Room a small reliable message takes: its bytes, its length and its id.
pub open spec fn reliable_small_size(id: u64, len: nat) -> nat {
    len + spec_varint_len(len as u64) + spec_varint_len(id)
}

/// Packing a small message: skipped when above the bytes still allowed or
/// sent less than `resend_time` ago; otherwise it joins the pending small
/// messages, which go out in a packet first when it would not fit.
pub open spec fn reliable_small_step(
    st: RelPack,
    id: u64,
    msg: Seq<u8>,
    last: Option<u64>,
    now: u64,
    resend_time: u64,
    channel_id: u8,
) -> (RelPack, Option<u64>) {
    if st.avail < msg.len() || waiting(last, now, resend_time) {
        (st, last)
    } else {
        let size = reliable_small_size(id, msg.len());
        let st1 = if st.small_bytes + size > SLICE_SIZE {
            RelPack {
                packets: st.packets.push(
                    PacketView::SmallReliable { sequence: st.seq as u64, channel_id, messages: st.small },
                ),
                small: Seq::empty(),
                small_bytes: 0,
                seq: st.seq + 1,
                ..st
            }
        } else {
            st
        };
        (
            RelPack {
                small: st1.small.push((id, msg)),
                small_bytes: st1.small_bytes + size,
                avail: st.avail - msg.len(),
                ..st1
            },
            Some(now),
        )
    }
}

/// Progress through the slices of one message.
pub ghost struct SliceLoop {
    pub st: RelPack,
    pub last_sent: Seq<Option<u64>>,
    pub next: nat,
    pub stopped: bool,
}

/// The `k`-th slice visited, counting from `start`: when fewer than
/// `SLICE_SIZE` bytes are left the message is left for later; acked slices
/// and slices sent less than `resend_time` ago are skipped; any other is
/// sent.
pub open spec fn reliable_slice_step(
    sl: SliceLoop,
    k: int,
    start: nat,
    id: u64,
    msg: Seq<u8>,
    n: nat,
    acked: Seq<bool>,
    now: u64,
    resend_time: u64,
    channel_id: u8,
) -> SliceLoop {
    if sl.stopped {
        sl
    } else if sl.st.avail < SLICE_SIZE {
        SliceLoop { stopped: true, ..sl }
    } else {
        let i = (start + k) % (n as int);
        if acked[i] || waiting(sl.last_sent[i], now, resend_time) {
            sl
        } else {
            let payload = slice_payload(msg, n, i);
            SliceLoop {
                st: RelPack {
                    packets: sl.st.packets.push(
                        PacketView::ReliableSlice {
                            sequence: sl.st.seq as u64,
                            channel_id,
                            slice: SliceView {
                                message_id: id,
                                slice_index: i as usize,
                                num_slices: n as usize,
                                payload,
                            },
                        },
                    ),
                    seq: sl.st.seq + 1,
                    avail: sl.st.avail - payload.len(),
                    ..sl.st
                },
                last_sent: sl.last_sent.update(i, Some(now)),
                next: (i + 1) as nat,
                stopped: false,
            }
        }
    }
}

/// The slice loop after visiting `k` slices.
pub open spec fn reliable_slices_upto(
    init: SliceLoop,
    k: nat,
    start: nat,
    id: u64,
    msg: Seq<u8>,
    n: nat,
    acked: Seq<bool>,
    now: u64,
    resend_time: u64,
    channel_id: u8,
) -> SliceLoop
    decreases k,
{
    if k == 0 {
        init
    } else {
        reliable_slice_step(
            reliable_slices_upto(init, (k - 1) as nat, start, id, msg, n, acked, now, resend_time, channel_id),
            k - 1,
            start,
            id,
            msg,
            n,
            acked,
            now,
            resend_time,
            channel_id,
        )
    }
}

/// Packing one unacked message, giving the new packing state and the
/// message with its send times updated.
pub open spec fn reliable_message_step(
    st: RelPack,
    id: u64,
    u: UnackedView,
    now: u64,
    resend_time: u64,
    channel_id: u8,
) -> (RelPack, UnackedView) {
    match u {
        UnackedView::Small { message, last_sent } => {
            let r = reliable_small_step(st, id, message, last_sent, now, resend_time, channel_id);
            (r.0, UnackedView::Small { message, last_sent: r.1 })
        },
        UnackedView::Sliced {
            message,
            num_slices,
            num_acked_slices,
            next_slice_to_send,
            acked,
            last_sent,
        } => {
            let fin = reliable_slices_upto(
                SliceLoop { st, last_sent, next: next_slice_to_send, stopped: false },
                num_slices,
                next_slice_to_send,
                id,
                message,
                num_slices,
                acked,
                now,
                resend_time,
                channel_id,
            );
            (
                fin.st,
                UnackedView::Sliced {
                    message,
                    num_slices,
                    num_acked_slices,
                    next_slice_to_send: fin.next,
                    acked,
                    last_sent: fin.last_sent,
                },
            )
        },
    }
}

/// Packing the first `j` unacked messages, in message id order.
pub open spec fn reliable_upto(
    init: RelPack,
    entries: Seq<(u64, UnackedView)>,
    j: nat,
    now: u64,
    resend_time: u64,
    channel_id: u8,
) -> (RelPack, Seq<(u64, UnackedView)>)
    decreases j,
{
    if j == 0 || j > entries.len() {
        (init, entries)
    } else {
        let prev = reliable_upto(init, entries, (j - 1) as nat, now, resend_time, channel_id);
        let e = prev.1[j - 1];
        let r = reliable_message_step(prev.0, e.0, e.1, now, resend_time, channel_id);
        (r.0, prev.1.update(j - 1, (e.0, r.1)))
    }
}

/// The last packet, for the small messages still pending.
pub open spec fn reliable_flush(st: RelPack, channel_id: u8) -> RelPack {
    if st.small.len() > 0 {
        RelPack {
            packets: st.packets.push(
                PacketView::SmallReliable { sequence: st.seq as u64, channel_id, messages: st.small },
            ),
            small: Seq::empty(),
            small_bytes: 0,
            seq: st.seq + 1,
            ..st
        }
    } else {
        st
    }
}

/// The view of each unacked message, in message id order.
pub open spec fn unacked_entries(s: Seq<(u64, UnackedMessage)>) -> Seq<(u64, UnackedView)> {
    s.map_values(|e: (u64, UnackedMessage)| (e.0, e.1@))
}

/// Everything `get_packets_to_send` does: the packing state at the end and
/// the unacked messages with their send times updated.
pub open spec fn reliable_packing(
    entries: Seq<(u64, UnackedView)>,
    seq: u64,
    avail: u64,
    now: u64,
    resend_time: u64,
    channel_id: u8,
) -> (RelPack, Seq<(u64, UnackedView)>) {
    let r = reliable_upto(
        RelPack {
            packets: Seq::empty(),
            small: Seq::empty(),
            small_bytes: 0,
            seq: seq as int,
            avail: avail as int,
        },
        entries,
        entries.len(),
        now,
        resend_time,
        channel_id,
    );
    (reliable_flush(r.0, channel_id), r.1)
}

pub struct SendChannelReliable {
    channel_id: u8,
    unacked_messages: SortedMap<UnackedMessage>,
    next_reliable_message_id: u64,
    resend_time: u64,
    max_memory_usage_bytes: usize,
    memory_usage_bytes: usize,
}

impl SendChannelReliable {
    pub closed spec fn wf(&self) -> bool {
        &&& self.unacked_messages.wf()
        &&& forall|k: u64|
            #[trigger] self.unacked_messages@.dom().contains(k) ==> unacked_wf(self.unacked_messages@[k]@)
                && k < self.next_reliable_message_id
        &&& self.memory_usage_bytes == sum_weights(
            self.unacked_messages.entries_view(),
            |u: UnackedMessage| unacked_len(u),
        )
        &&& self.memory_usage_bytes <= self.max_memory_usage_bytes
    }

    /// The messages not acknowledged yet, by message id.
    pub closed spec fn unacked(&self) -> Map<u64, UnackedView> {
        self.unacked_messages@.map_values(|u: UnackedMessage| u@)
    }

    /// The same, in message id order.
    pub closed spec fn unacked_in_order(&self) -> Seq<(u64, UnackedView)> {
        unacked_entries(self.unacked_messages.entries_view())
    }

    pub closed spec fn next_message_id(&self) -> u64 {
        self.next_reliable_message_id
    }

    pub closed spec fn memory_usage_view(&self) -> nat {
        self.memory_usage_bytes as nat
    }

    pub closed spec fn max_memory_view(&self) -> nat {
        self.max_memory_usage_bytes as nat
    }

    pub closed spec fn resend_time_view(&self) -> u64 {
        self.resend_time
    }

    pub closed spec fn channel_id_view(&self) -> u8 {
        self.channel_id
    }

    /// Whether every send time is at or before `now`.
    pub open spec fn sent_before(&self, now: u64) -> bool {
        forall|k: u64|
            #[trigger] self.unacked().dom().contains(k) ==> match self.unacked()[k] {
                UnackedView::Small { last_sent, .. } => last_sent matches Some(t) ==> t <= now,
                UnackedView::Sliced { last_sent, .. } => forall|i: int|
                    0 <= i < last_sent.len() ==> (#[trigger] last_sent[i] matches Some(t) ==> t <= now),
            }
    }

    /// Every unacked message has an id given out already.
    pub proof fn lemma_ids_below_next(&self)
        requires
            self.wf(),
        ensures
            forall|m: u64| #[trigger] self.unacked().dom().contains(m) ==> m < self.next_message_id(),
    {
        assert forall|m: u64| #[trigger] self.unacked().dom().contains(m) implies m < self.next_message_id() by {
            assert(self.unacked_messages@.dom().contains(m));
        }
    }

    /// The unacked messages in id order are the messages the channel holds,
    /// each consistent.
    pub proof fn lemma_entries_of(&self)
        requires
            self.wf(),
        ensures
            entries_match(self.unacked_in_order(), self.unacked()),
            forall|i: int| 0 <= i < self.unacked_in_order().len() ==> unacked_wf(#[trigger] self.unacked_in_order()[i].1),
    {
        let e0 = self.unacked_in_order();
        let raw0 = self.unacked_messages.entries_view();
        self.unacked_messages.lemma_wf();
        assert forall|i: int| 0 <= i < e0.len() implies self.unacked().dom().contains(#[trigger] e0[i].0) && same_shape(
            e0[i].1,
            self.unacked()[e0[i].0],
        ) && unacked_wf(e0[i].1) by {
            assert(self.unacked_messages@.dom().contains(raw0[i].0));
            assert(self.unacked_messages@[raw0[i].0] == raw0[i].1);
        }
        assert forall|i: int| 0 <= i < e0.len() implies unacked_wf(#[trigger] e0[i].1) by {
            assert(self.unacked_messages@.dom().contains(raw0[i].0));
            assert(self.unacked_messages@[raw0[i].0] == raw0[i].1);
        }
    }

    pub fn new(channel_id: u8, resend_time: u64, max_memory_usage_bytes: usize) -> (r: Self)
        ensures
            r.wf(),
            r.unacked() == Map::<u64, UnackedView>::empty(),
            r.next_message_id() == 0,
            r.memory_usage_view() == 0,
            r.max_memory_view() == max_memory_usage_bytes,
            r.resend_time_view() == resend_time,
            r.channel_id_view() == channel_id,
    {
        let r = Self {
            channel_id,
            unacked_messages: SortedMap::new(),
            next_reliable_message_id: 0,
            resend_time,
            max_memory_usage_bytes,
            memory_usage_bytes: 0,
        };
        proof {
            assert(r.unacked() =~= Map::<u64, UnackedView>::empty());
        }
        r
    }

    /// Bytes the channel may still take.
    pub fn available_memory(&self) -> (r: usize)
        requires
            self.wf(),
        ensures
            r == self.max_memory_view() - self.memory_usage_view(),
    {
        self.max_memory_usage_bytes - self.memory_usage_bytes
    }

    /// Whether a message of `size_bytes` bytes would fit the memory limit.
    pub fn can_send_message(&self, size_bytes: usize) -> (r: bool)
        requires
            self.wf(),
        ensures
            r == (size_bytes + self.memory_usage_view() <= self.max_memory_view()),
    {
        size_bytes <= self.max_memory_usage_bytes - self.memory_usage_bytes
    }

    /// Queues `message` under the next message id; a message that would
    /// take the channel above its memory limit is refused.
    pub fn send_message(&mut self, message: Vec<u8>) -> (r: Result<(), ChannelError>)
        requires
            old(self).wf(),
            old(self).next_message_id() < u64::MAX,
            message@.len() + SLICE_SIZE <= usize::MAX,
        ensures
            final(self).wf(),
            final(self).max_memory_view() == old(self).max_memory_view(),
            final(self).resend_time_view() == old(self).resend_time_view(),
            final(self).channel_id_view() == old(self).channel_id_view(),
            old(self).memory_usage_view() + message@.len() > old(self).max_memory_view() ==> r
                == Err::<(), ChannelError>(ChannelError::ReliableChannelMaxMemoryReached) && *final(self)
                == *old(self),
            old(self).memory_usage_view() + message@.len() <= old(self).max_memory_view() ==> {
                &&& r is Ok
                &&& final(self).next_message_id() == old(self).next_message_id() + 1
                &&& final(self).memory_usage_view() == old(self).memory_usage_view() + message@.len()
                &&& final(self).unacked() == old(self).unacked().insert(
                    old(self).next_message_id(),
                    new_unacked(message@),
                )
                &&& final(self).unacked_in_order() == old(self).unacked_in_order().push(
                    (old(self).next_message_id(), new_unacked(message@)),
                )
            },
    {
        if message.len() > self.max_memory_usage_bytes - self.memory_usage_bytes {
            return Err(ChannelError::ReliableChannelMaxMemoryReached);
        }
        self.memory_usage_bytes = self.memory_usage_bytes + message.len();
        let ghost mv = message@;
        let unacked_message = if message.len() > SLICE_SIZE {
            let num_slices = (message.len() + SLICE_SIZE - 1) / SLICE_SIZE;
            let acked = vec![false; num_slices];
            let last_sent: Vec<Option<u64>> = vec![None; num_slices];
            proof {
                assert(acked@ =~= Seq::new(num_slices as nat, |i: int| false));
                lemma_count_false(acked@);
                assert(num_slices >= 2) by {
                    assert(message@.len() + SLICE_SIZE - 1 >= 2 * SLICE_SIZE);
                }
            }
            UnackedMessage::Sliced {
                message,
                num_slices,
                num_acked_slices: 0,
                next_slice_to_send: 0,
                acked,
                last_sent,
            }
        } else {
            UnackedMessage::Small { message, last_sent: None }
        };
        let ghost entries = self.unacked_messages.entries_view();
        let id = self.next_reliable_message_id;
        proof {
            self.unacked_messages.lemma_wf();
            assert forall|j: int| 0 <= j < entries.len() implies #[trigger] entries[j].0 < id by {
                assert(self.unacked_messages@.dom().contains(entries[j].0));
            }
            assert(unacked_message@ == new_unacked(mv)) by {
                if mv.len() > SLICE_SIZE {
                    match unacked_message {
                        UnackedMessage::Sliced { acked, last_sent, .. } => {
                            assert(acked@ =~= Seq::new(num_slices_of(mv.len()), |i: int| false));
                            assert(last_sent@ =~= Seq::new(num_slices_of(mv.len()), |i: int| None::<u64>));
                        },
                        _ => {},
                    }
                }
            }
        }
        self.unacked_messages.insert(id, unacked_message);
        self.next_reliable_message_id = self.next_reliable_message_id + 1;
        proof {
            lemma_sum_weights_insert(entries, entries.len() as int, (id, unacked_message), |u: UnackedMessage| unacked_len(u));
            assert(entries.insert(entries.len() as int, (id, unacked_message)) =~= entries.push((id, unacked_message)));
            self.unacked_messages.lemma_wf();
            assert(self.unacked() =~= old(self).unacked().insert(id, new_unacked(mv)));
            assert(self.unacked_in_order() =~= old(self).unacked_in_order().push((id, new_unacked(mv))));
        }
        Ok(())
    }
}

/// The unacked state of a message just sent: never sent yet, and for a big
/// message no slice acked.
pub open spec fn new_unacked(m: Seq<u8>) -> UnackedView {
    if m.len() > SLICE_SIZE {
        UnackedView::Sliced {
            message: m,
            num_slices: num_slices_of(m.len()),
            num_acked_slices: 0,
            next_slice_to_send: 0,
            acked: Seq::new(num_slices_of(m.len()), |i: int| false),
            last_sent: Seq::new(num_slices_of(m.len()), |i: int| None),
        }
    } else {
        UnackedView::Small { message: m, last_sent: None }
    }
}

proof fn lemma_count_false(s: Seq<bool>)
    requires
        forall|i: int| 0 <= i < s.len() ==> !s[i],
    ensures
        count_true(s) == 0,
    decreases s.len(),
{
    if s.len() > 0 {
        lemma_count_false(s.drop_last());
    }
}

/// Two unacked messages of the same kind with the same bytes, and for
/// sliced ones of the same number of slices.
pub open spec fn same_shape(a: UnackedView, b: UnackedView) -> bool {
    match (a, b) {
        (UnackedView::Small { message: m1, .. }, UnackedView::Small { message: m2, .. }) => m1 == m2,
        (
            UnackedView::Sliced { message: m1, num_slices: n1, .. },
            UnackedView::Sliced { message: m2, num_slices: n2, .. },
        ) => m1 == m2 && n1 == n2,
        _ => false,
    }
}

/// One small message acknowledged: dropped with its bytes, if pending.
pub open spec fn ack_message_step(u: Map<u64, UnackedView>, mem: int, id: u64) -> (Map<u64, UnackedView>, int) {
    if u.dom().contains(id) {
        (u.remove(id), mem - unacked_message(u[id]).len())
    } else {
        (u, mem)
    }
}

/// Small messages `ids` acknowledged in turn: the unacked messages and the
/// bytes they hold.
pub open spec fn ack_messages(u: Map<u64, UnackedView>, mem: int, ids: Seq<u64>) -> (Map<u64, UnackedView>, int)
    decreases ids.len(),
{
    if ids.len() == 0 {
        (u, mem)
    } else {
        let p = ack_messages(u, mem, ids.drop_last());
        ack_message_step(p.0, p.1, ids.last())
    }
}

/// How a reliable send channel takes the ack of one slice; see
/// `process_slice_message_ack`.
pub open spec fn slice_ack_applied(before: SendChannelReliable, after: SendChannelReliable, message_id: u64, slice_index: usize) -> bool {
    &&& (after.next_message_id() == before.next_message_id())
    &&& (after.max_memory_view() == before.max_memory_view())
    &&& (after.resend_time_view() == before.resend_time_view())
    &&& (after.channel_id_view() == before.channel_id_view())
    &&& (!before.unacked().dom().contains(message_id) ==> after.unacked() == before.unacked()
                && after.memory_usage_view() == before.memory_usage_view())
    &&& (before.unacked().dom().contains(message_id) ==> ({
                let u = before.unacked()[message_id];
                let acked = u->acked.update(slice_index as int, true);
                if u->acked[slice_index as int] {
                    after.unacked() == before.unacked() && after.memory_usage_view()
                        == before.memory_usage_view()
                } else if forall|i: int| 0 <= i < u->num_slices ==> #[trigger] acked[i] {
                    after.unacked() == before.unacked().remove(message_id)
                        && after.memory_usage_view() == before.memory_usage_view()
                        - u->Sliced_message.len()
                } else {
                    after.unacked() == before.unacked().insert(
                        message_id,
                        UnackedView::Sliced {
                            message: u->Sliced_message,
                            num_slices: u->num_slices,
                            num_acked_slices: u->num_acked_slices + 1,
                            next_slice_to_send: u->next_slice_to_send,
                            acked,
                            last_sent: u->Sliced_last_sent,
                        },
                    ) && after.memory_usage_view() == before.memory_usage_view()
                }
            }))
}

impl SendChannelReliable {
    /// Drops small message `message_id`, acknowledged by the peer; an id
    /// that is not pending changes nothing.
    pub fn process_message_ack(&mut self, message_id: u64)
        requires
            old(self).wf(),
            old(self).unacked().dom().contains(message_id) ==> old(self).unacked()[message_id] is Small,
        ensures
            final(self).wf(),
            final(self).unacked() == old(self).unacked().remove(message_id),
            final(self).next_message_id() == old(self).next_message_id(),
            final(self).max_memory_view() == old(self).max_memory_view(),
            final(self).resend_time_view() == old(self).resend_time_view(),
            final(self).channel_id_view() == old(self).channel_id_view(),
            old(self).unacked().dom().contains(message_id) ==> final(self).memory_usage_view()
                == old(self).memory_usage_view() - unacked_message(old(self).unacked()[message_id]).len(),
            !old(self).unacked().dom().contains(message_id) ==> final(self).memory_usage_view()
                == old(self).memory_usage_view(),
    {
        let ghost entries = self.unacked_messages.entries_view();
        proof {
            self.unacked_messages.lemma_wf();
        }
        if self.unacked_messages.contains_key(message_id) {
            let removed = self.unacked_messages.remove(message_id).unwrap();
            proof {
                let ii = choose|ii: int|
                    0 <= ii < entries.len() && entries[ii].0 == message_id
                        && self.unacked_messages.entries_view() == entries.remove(ii);
                lemma_sum_weights_remove(entries, ii, |u: UnackedMessage| unacked_len(u));
                assert(entries[ii].1 == removed);
                assert(self.unacked() =~= old(self).unacked().remove(message_id));
            }
            match removed {
                UnackedMessage::Small { message, .. } => {
                    self.memory_usage_bytes = self.memory_usage_bytes - message.len();
                },
                UnackedMessage::Sliced { .. } => {
                    proof {
                        assert(false);
                    }
                },
            }
        } else {
            proof {
                assert(self.unacked() =~= old(self).unacked().remove(message_id));
            }
        }
    }

    /// Marks slice `slice_index` of sliced message `message_id` as
    /// acknowledged; once every slice is, the message is dropped.
    pub fn process_slice_message_ack(&mut self, message_id: u64, slice_index: usize)
        requires
            old(self).wf(),
            old(self).unacked().dom().contains(message_id) ==> (old(self).unacked()[message_id] matches UnackedView::Sliced {
                num_slices,
                ..
            } && slice_index < num_slices),
        ensures
            final(self).wf(),
            slice_ack_applied(*old(self), *final(self), message_id, slice_index),
    {
        let ghost entries = self.unacked_messages.entries_view();
        proof {
            self.unacked_messages.lemma_wf();
        }
        if !self.unacked_messages.contains_key(message_id) {
            return;
        }
        let removed = self.unacked_messages.remove(message_id).unwrap();
        let ghost mid = self.unacked_messages.entries_view();
        proof {
            let ii = choose|ii: int|
                0 <= ii < entries.len() && entries[ii].0 == message_id
                    && self.unacked_messages.entries_view() == entries.remove(ii);
            lemma_sum_weights_remove(entries, ii, |u: UnackedMessage| unacked_len(u));
            assert(entries[ii].1 == removed);
        }
        match removed {
            UnackedMessage::Small { .. } => {
                proof {
                    assert(false);
                }
            },
            UnackedMessage::Sliced {
                message,
                num_slices,
                num_acked_slices,
                next_slice_to_send,
                mut acked,
                last_sent,
            } => {
                if acked[slice_index] {
                    let back = UnackedMessage::Sliced {
                        message,
                        num_slices,
                        num_acked_slices,
                        next_slice_to_send,
                        acked,
                        last_sent,
                    };
                    self.unacked_messages.insert(message_id, back);
                    proof {
                        self.unacked_messages.lemma_wf();
                        let jj = choose|jj: int|
                            0 <= jj <= mid.len() && self.unacked_messages.entries_view() == mid.insert(jj, (message_id, back));
                        lemma_sum_weights_insert(mid, jj, (message_id, back), |u: UnackedMessage| unacked_len(u));
                        assert(self.unacked() =~= old(self).unacked());
                    }
                    return;
                }
                let ghost old_acked = acked@;
                acked.set(slice_index, true);
                let num_acked_slices = num_acked_slices + 1;
                proof {
                    crate::slice_constructor::lemma_count_true_set_pub(old_acked, slice_index as int);
                    crate::slice_constructor::lemma_complete_iff_pub(acked@, num_acked_slices as nat);
                }
                if num_acked_slices == num_slices {
                    self.memory_usage_bytes = self.memory_usage_bytes - message.len();
                    proof {
                        assert(self.unacked() =~= old(self).unacked().remove(message_id));
                    }
                } else {
                    let back = UnackedMessage::Sliced {
                        message,
                        num_slices,
                        num_acked_slices,
                        next_slice_to_send,
                        acked,
                        last_sent,
                    };
                    self.unacked_messages.insert(message_id, back);
                    proof {
                        self.unacked_messages.lemma_wf();
                        let jj = choose|jj: int|
                            0 <= jj <= mid.len() && self.unacked_messages.entries_view() == mid.insert(jj, (message_id, back));
                        lemma_sum_weights_insert(mid, jj, (message_id, back), |u: UnackedMessage| unacked_len(u));
                        assert(self.unacked() =~= old(self).unacked().insert(message_id, back@));
                    }
                }
            },
        }
    }
}

/// The packing state that the variables of `get_packets_to_send` hold.
pub open spec fn rel_state(
    packets: Seq<Packet>,
    small: Seq<(u64, Vec<u8>)>,
    small_bytes: usize,
    seq: u64,
    avail: u64,
) -> RelPack {
    RelPack {
        packets: packets_view(packets),
        small: reliable_messages_view(small),
        small_bytes: small_bytes as nat,
        seq: seq as int,
        avail: avail as int,
    }
}

/// Packs one small message; see `reliable_small_step`.
fn pack_small(
    packets: &mut Vec<Packet>,
    small: &mut Vec<(u64, Vec<u8>)>,
    small_bytes: &mut usize,
    seq: &mut u64,
    avail: &mut u64,
    id: u64,
    message: &Vec<u8>,
    last_sent: Option<u64>,
    now: u64,
    resend_time: u64,
    channel_id: u8,
) -> (r: Option<u64>)
    requires
        id <= MAX_VAR_INT,
        message@.len() <= SLICE_SIZE,
        *old(small_bytes) <= 2 * SLICE_SIZE,
        last_sent matches Some(t) ==> t <= now,
        reliable_small_step(
            rel_state(old(packets)@, old(small)@, *old(small_bytes), *old(seq), *old(avail)),
            id,
            message@,
            last_sent,
            now,
            resend_time,
            channel_id,
        ).0.seq <= u64::MAX,
    ensures
        ({
            let step = reliable_small_step(
                rel_state(old(packets)@, old(small)@, *old(small_bytes), *old(seq), *old(avail)),
                id,
                message@,
                last_sent,
                now,
                resend_time,
                channel_id,
            );
            &&& rel_state(final(packets)@, final(small)@, *final(small_bytes), *final(seq), *final(avail))
                == step.0
            &&& r == step.1
        }),
        *final(small_bytes) <= 2 * SLICE_SIZE,
{
    if *avail < message.len() as u64 {
        return last_sent;
    }
    if let Some(t) = last_sent {
        if now - t < resend_time {
            return last_sent;
        }
    }
    *avail = *avail - message.len() as u64;
    let serialized_size = message.len() + varint_len(message.len() as u64) + varint_len(id);
    if *small_bytes + serialized_size > SLICE_SIZE {
        let mut taken: Vec<(u64, Vec<u8>)> = Vec::new();
        std::mem::swap(&mut taken, small);
        let p = Packet::SmallReliable { sequence: *seq, channel_id, messages: taken };
        let ghost before = packets@;
        let ghost pv = p@;
        packets.push(p);
        proof {
            assert(packets_view(packets@) =~= packets_view(before).push(pv));
            assert(reliable_messages_view(small@) =~= Seq::<(u64, Seq<u8>)>::empty());
        }
        *seq = *seq + 1;
        *small_bytes = 0;
    }
    *small_bytes = *small_bytes + serialized_size;
    let copy = copy_range(message.as_slice(), 0, message.len());
    let ghost before_small = small@;
    small.push((id, copy));
    proof {
        assert(message@.subrange(0, message@.len() as int) =~= message@);
        assert(reliable_messages_view(small@) =~= reliable_messages_view(before_small).push((id, message@)));
    }
    Some(now)
}

/// After the slice loop has stopped, later steps change nothing.
proof fn lemma_stopped_stays(
    init: SliceLoop,
    k: nat,
    m: nat,
    start: nat,
    id: u64,
    msg: Seq<u8>,
    n: nat,
    acked: Seq<bool>,
    now: u64,
    resend_time: u64,
    channel_id: u8,
)
    requires
        k <= m,
        reliable_slices_upto(init, k, start, id, msg, n, acked, now, resend_time, channel_id).stopped,
    ensures
        reliable_slices_upto(init, m, start, id, msg, n, acked, now, resend_time, channel_id)
            == reliable_slices_upto(init, k, start, id, msg, n, acked, now, resend_time, channel_id),
    decreases m - k,
{
    if k < m {
        lemma_stopped_stays(init, k, (m - 1) as nat, start, id, msg, n, acked, now, resend_time, channel_id);
    }
}

/// The sequence never goes back along the slice loop.
proof fn lemma_slices_seq_monotone(
    init: SliceLoop,
    k: nat,
    m: nat,
    start: nat,
    id: u64,
    msg: Seq<u8>,
    n: nat,
    acked: Seq<bool>,
    now: u64,
    resend_time: u64,
    channel_id: u8,
)
    requires
        k <= m,
    ensures
        reliable_slices_upto(init, k, start, id, msg, n, acked, now, resend_time, channel_id).st.seq
            <= reliable_slices_upto(init, m, start, id, msg, n, acked, now, resend_time, channel_id).st.seq,
    decreases m - k,
{
    if k < m {
        lemma_slices_seq_monotone(init, k, (m - 1) as nat, start, id, msg, n, acked, now, resend_time, channel_id);
    }
}

/// Packs the slices of one sliced message; see `reliable_slices_upto`.
fn pack_slices(
    packets: &mut Vec<Packet>,
    small: &Vec<(u64, Vec<u8>)>,
    small_bytes: usize,
    seq: &mut u64,
    avail: &mut u64,
    id: u64,
    message: &Vec<u8>,
    num_slices: usize,
    start: usize,
    acked: &Vec<bool>,
    last_sent: &mut Vec<Option<u64>>,
    now: u64,
    resend_time: u64,
    channel_id: u8,
) -> (next: usize)
    requires
        num_slices == num_slices_of(message@.len()),
        message@.len() > SLICE_SIZE,
        message@.len() + SLICE_SIZE <= usize::MAX,
        start <= num_slices,
        acked@.len() == num_slices,
        old(last_sent)@.len() == num_slices,
        forall|i: int| 0 <= i < num_slices ==> (#[trigger] old(last_sent)@[i] matches Some(t) ==> t <= now),
        reliable_slices_upto(
            SliceLoop {
                st: rel_state(old(packets)@, small@, small_bytes, *old(seq), *old(avail)),
                last_sent: old(last_sent)@,
                next: start as nat,
                stopped: false,
            },
            num_slices as nat,
            start as nat,
            id,
            message@,
            num_slices as nat,
            acked@,
            now,
            resend_time,
            channel_id,
        ).st.seq <= u64::MAX,
    ensures
        ({
            let fin = reliable_slices_upto(
                SliceLoop {
                    st: rel_state(old(packets)@, small@, small_bytes, *old(seq), *old(avail)),
                    last_sent: old(last_sent)@,
                    next: start as nat,
                    stopped: false,
                },
                num_slices as nat,
                start as nat,
                id,
                message@,
                num_slices as nat,
                acked@,
                now,
                resend_time,
                channel_id,
            );
            &&& rel_state(final(packets)@, small@, small_bytes, *final(seq), *final(avail)) == fin.st
            &&& final(last_sent)@ == fin.last_sent
            &&& next == fin.next
        }),
        next <= num_slices,
        final(last_sent)@.len() == num_slices,
        forall|i: int| 0 <= i < num_slices ==> (#[trigger] final(last_sent)@[i] matches Some(t) ==> t <= now),
{
    let ghost init = SliceLoop {
        st: rel_state(packets@, small@, small_bytes, *seq, *avail),
        last_sent: last_sent@,
        next: start as nat,
        stopped: false,
    };
    let ghost n = num_slices as nat;
    let ghost fin = reliable_slices_upto(init, n, start as nat, id, message@, n, acked@, now, resend_time, channel_id);
    let mut next = start;
    let mut k: usize = 0;
    while k < num_slices
        invariant
            k <= num_slices,
            n == num_slices,
            num_slices == num_slices_of(message@.len()),
            message@.len() > SLICE_SIZE,
            message@.len() + SLICE_SIZE <= usize::MAX,
            start <= num_slices,
            acked@.len() == num_slices,
            last_sent@.len() == num_slices,
            next <= num_slices,
            fin == reliable_slices_upto(init, n, start as nat, id, message@, n, acked@, now, resend_time, channel_id),
            fin.st.seq <= u64::MAX,
            forall|i: int| 0 <= i < num_slices ==> (#[trigger] last_sent@[i] matches Some(t) ==> t <= now),
            reliable_slices_upto(init, k as nat, start as nat, id, message@, n, acked@, now, resend_time, channel_id)
                == (SliceLoop {
                st: rel_state(packets@, small@, small_bytes, *seq, *avail),
                last_sent: last_sent@,
                next: next as nat,
                stopped: false,
            }),
        ensures
            k <= num_slices,
            next <= num_slices,
            last_sent@.len() == num_slices,
            forall|i: int| 0 <= i < num_slices ==> (#[trigger] last_sent@[i] matches Some(t) ==> t <= now),
            fin.st == rel_state(packets@, small@, small_bytes, *seq, *avail),
            fin.last_sent == last_sent@,
            fin.next == next,
        decreases num_slices - k,
    {
        let ghost cur = reliable_slices_upto(init, k as nat, start as nat, id, message@, n, acked@, now, resend_time, channel_id);
        proof {
            lemma_slices_seq_monotone(init, (k + 1) as nat, n, start as nat, id, message@, n, acked@, now, resend_time, channel_id);
        }
        if *avail < SLICE_SIZE as u64 {
            proof {
                lemma_stopped_stays(init, (k + 1) as nat, n, start as nat, id, message@, n, acked@, now, resend_time, channel_id);
            }
            break;
        }
        let i = (start + k) % num_slices;
        if acked[i] {
            k = k + 1;
            continue;
        }
        let waiting_now = match last_sent[i] {
            Some(t) => now - t < resend_time,
            None => false,
        };
        if waiting_now {
            k = k + 1;
            continue;
        }
        let payload = crate::unreliable_channel::slice_of_pub(message, i, num_slices);
        let payload_len = payload.len();
        proof {
            crate::unreliable_channel::lemma_slice_len(message@.len(), n, i as int);
        }
        let p = Packet::ReliableSlice {
            sequence: *seq,
            channel_id,
            slice: Slice { message_id: id, slice_index: i, num_slices, payload },
        };
        let ghost before = packets@;
        let ghost pv = p@;
        packets.push(p);
        proof {
            assert(packets_view(packets@) =~= packets_view(before).push(pv));
        }
        *avail = *avail - payload_len as u64;
        *seq = *seq + 1;
        last_sent.set(i, Some(now));
        next = i + 1;
        k = k + 1;
    }
    if k == num_slices {
        proof {
            assert(fin == reliable_slices_upto(init, k as nat, start as nat, id, message@, n, acked@, now, resend_time, channel_id));
        }
    }
    next
}

/// The sequence never goes back along the packing of the messages.
proof fn lemma_upto_seq_monotone(
    init: RelPack,
    entries: Seq<(u64, UnackedView)>,
    j: nat,
    m: nat,
    now: u64,
    resend_time: u64,
    channel_id: u8,
)
    requires
        j <= m <= entries.len(),
    ensures
        reliable_upto(init, entries, j, now, resend_time, channel_id).0.seq <= reliable_upto(
            init,
            entries,
            m,
            now,
            resend_time,
            channel_id,
        ).0.seq,
    decreases m - j,
{
    if j < m {
        lemma_upto_seq_monotone(init, entries, j, (m - 1) as nat, now, resend_time, channel_id);
        let prev = reliable_upto(init, entries, (m - 1) as nat, now, resend_time, channel_id);
        let e = prev.1[m - 1];
        match e.1 {
            UnackedView::Sliced { message, num_slices, next_slice_to_send, acked, last_sent, .. } => {
                lemma_slices_seq_monotone(
                    SliceLoop { st: prev.0, last_sent, next: next_slice_to_send, stopped: false },
                    0,
                    num_slices,
                    next_slice_to_send,
                    e.0,
                    message,
                    num_slices,
                    acked,
                    now,
                    resend_time,
                    channel_id,
                );
            },
            _ => {},
        }
    }
}

/// The packing keeps the keys and the messages, and only steps the entries
/// it went through.
/// Small message `id` of `u` holds exactly `bytes`.
pub open spec fn small_holds(u: Map<u64, UnackedView>, id: u64, bytes: Seq<u8>) -> bool {
    u.dom().contains(id) && (u[id] matches UnackedView::Small { message, .. } && message == bytes)
}

/// A packet a reliable channel makes carries messages it holds, as they
/// are: small ones by id with their bytes, or one slice of a sliced one,
/// with its number of slices and the bytes of that slice.
pub open spec fn packet_refs(p: PacketView, u: Map<u64, UnackedView>, channel_id: u8) -> bool {
    match p {
        PacketView::SmallReliable { channel_id: c, messages, .. } => c == channel_id && forall|j: int|
            0 <= j < messages.len() ==> small_holds(u, #[trigger] messages[j].0, messages[j].1),
        PacketView::ReliableSlice { channel_id: c, slice, .. } => c == channel_id && u.dom().contains(slice.message_id)
            && (u[slice.message_id] matches UnackedView::Sliced { message, num_slices, .. } && slice.slice_index
            < num_slices && slice.num_slices == num_slices && slice.payload == slice_payload(
            message,
            num_slices,
            slice.slice_index as int,
        )),
        _ => false,
    }
}

/// Every packet made so far and every small message waiting for one
/// carries messages of `u`, as they are.
pub open spec fn pack_refs(st: RelPack, u: Map<u64, UnackedView>, channel_id: u8) -> bool {
    &&& forall|i: int| 0 <= i < st.packets.len() ==> #[trigger] packet_refs(st.packets[i], u, channel_id)
    &&& forall|j: int| 0 <= j < st.small.len() ==> small_holds(u, #[trigger] st.small[j].0, st.small[j].1)
}

/// Entries whose ids are in `u`, each of the kind `u` has for it.
pub open spec fn entries_match(e: Seq<(u64, UnackedView)>, u: Map<u64, UnackedView>) -> bool {
    forall|i: int| 0 <= i < e.len() ==> u.dom().contains(#[trigger] e[i].0) && same_shape(e[i].1, u[e[i].0])
}

proof fn lemma_slices_refs(
    init: SliceLoop,
    k: nat,
    start: nat,
    id: u64,
    msg: Seq<u8>,
    n: nat,
    acked: Seq<bool>,
    now: u64,
    resend_time: u64,
    channel_id: u8,
    u: Map<u64, UnackedView>,
)
    requires
        1 <= n <= usize::MAX,
        u.dom().contains(id),
        u[id] matches UnackedView::Sliced { message, num_slices, .. } && num_slices == n && message == msg,
        pack_refs(init.st, u, channel_id),
    ensures
        pack_refs(
            reliable_slices_upto(init, k, start, id, msg, n, acked, now, resend_time, channel_id).st,
            u,
            channel_id,
        ),
    decreases k,
{
    if k > 0 {
        lemma_slices_refs(init, (k - 1) as nat, start, id, msg, n, acked, now, resend_time, channel_id, u);
        let prev = reliable_slices_upto(init, (k - 1) as nat, start, id, msg, n, acked, now, resend_time, channel_id);
        let next = reliable_slices_upto(init, k, start, id, msg, n, acked, now, resend_time, channel_id);
        assert(next == reliable_slice_step(prev, k - 1, start, id, msg, n, acked, now, resend_time, channel_id));
        let i = (start + k - 1) % (n as int);
        assert(0 <= i < n);
        assert forall|t: int| 0 <= t < next.st.packets.len() implies #[trigger] packet_refs(next.st.packets[t], u, channel_id) by {
            if t < prev.st.packets.len() {
                assert(packet_refs(prev.st.packets[t], u, channel_id));
            }
        }
    }
}

proof fn lemma_message_step_refs(
    st: RelPack,
    id: u64,
    ue: UnackedView,
    now: u64,
    resend_time: u64,
    channel_id: u8,
    u: Map<u64, UnackedView>,
)
    requires
        unacked_wf(ue),
        u.dom().contains(id),
        same_shape(ue, u[id]),
        pack_refs(st, u, channel_id),
    ensures
        pack_refs(reliable_message_step(st, id, ue, now, resend_time, channel_id).0, u, channel_id),
        same_shape(reliable_message_step(st, id, ue, now, resend_time, channel_id).1, ue),
{
    let r = reliable_message_step(st, id, ue, now, resend_time, channel_id);
    match ue {
        UnackedView::Small { message, last_sent } => {
            let sm = reliable_small_step(st, id, message, last_sent, now, resend_time, channel_id);
            assert(r.0 == sm.0);
            assert forall|t: int| 0 <= t < sm.0.packets.len() implies #[trigger] packet_refs(sm.0.packets[t], u, channel_id) by {
                if t < st.packets.len() {
                    assert(packet_refs(st.packets[t], u, channel_id));
                } else {
                    assert forall|j: int| 0 <= j < st.small.len() implies small_holds(u, #[trigger] st.small[j].0, st.small[j].1) by {}
                }
            }
            assert forall|j: int| 0 <= j < sm.0.small.len() implies small_holds(u, #[trigger] sm.0.small[j].0, sm.0.small[j].1) by {
                if sm.0.small.len() > 0 && j == sm.0.small.len() - 1 && !(st.avail < message.len() || waiting(last_sent, now, resend_time)) {
                } else {
                }
            }
        },
        UnackedView::Sliced { message, num_slices, num_acked_slices, next_slice_to_send, acked, last_sent } => {
            lemma_slices_refs(
                SliceLoop { st, last_sent, next: next_slice_to_send, stopped: false },
                num_slices,
                next_slice_to_send,
                id,
                message,
                num_slices,
                acked,
                now,
                resend_time,
                channel_id,
                u,
            );
        },
    }
}

proof fn lemma_upto_refs(
    init: RelPack,
    entries: Seq<(u64, UnackedView)>,
    j: nat,
    now: u64,
    resend_time: u64,
    channel_id: u8,
    u: Map<u64, UnackedView>,
)
    requires
        j <= entries.len(),
        entries_match(entries, u),
        forall|i: int| 0 <= i < entries.len() ==> unacked_wf(#[trigger] entries[i].1),
        pack_refs(init, u, channel_id),
    ensures
        ({
            let r = reliable_upto(init, entries, j, now, resend_time, channel_id);
            &&& pack_refs(r.0, u, channel_id)
            &&& r.1.len() == entries.len()
            &&& forall|i: int| 0 <= i < entries.len() ==> #[trigger] r.1[i].0 == entries[i].0 && same_shape(r.1[i].1, entries[i].1)
        }),
    decreases j,
{
    lemma_upto_entries(init, entries, j, now, resend_time, channel_id);
    if j > 0 {
        lemma_upto_refs(init, entries, (j - 1) as nat, now, resend_time, channel_id, u);
        lemma_upto_entries(init, entries, (j - 1) as nat, now, resend_time, channel_id);
        let prev = reliable_upto(init, entries, (j - 1) as nat, now, resend_time, channel_id);
        let e = prev.1[j - 1];
        assert(e == entries[j - 1]);
        assert(u.dom().contains(entries[j - 1].0));
        lemma_message_step_refs(prev.0, e.0, e.1, now, resend_time, channel_id, u);
        let r = reliable_upto(init, entries, j, now, resend_time, channel_id);
        assert forall|i: int| 0 <= i < entries.len() implies #[trigger] r.1[i].0 == entries[i].0 && same_shape(r.1[i].1, entries[i].1) by {
            if i != j - 1 {
                assert(r.1[i] == prev.1[i]);
            }
        }
    }
}

proof fn lemma_flush_refs(st: RelPack, channel_id: u8, u: Map<u64, UnackedView>)
    requires
        pack_refs(st, u, channel_id),
    ensures
        forall|i: int| 0 <= i < reliable_flush(st, channel_id).packets.len()
            ==> #[trigger] packet_refs(reliable_flush(st, channel_id).packets[i], u, channel_id),
{
    let f = reliable_flush(st, channel_id);
    assert forall|i: int| 0 <= i < f.packets.len() implies #[trigger] packet_refs(f.packets[i], u, channel_id) by {
        if i < st.packets.len() {
            assert(packet_refs(st.packets[i], u, channel_id));
        } else {
            assert forall|j: int| 0 <= j < st.small.len() implies small_holds(u, #[trigger] st.small[j].0, st.small[j].1) by {}
        }
    }
}

proof fn lemma_upto_entries(
    init: RelPack,
    entries: Seq<(u64, UnackedView)>,
    j: nat,
    now: u64,
    resend_time: u64,
    channel_id: u8,
)
    requires
        j <= entries.len(),
    ensures
        reliable_upto(init, entries, j, now, resend_time, channel_id).1.len() == entries.len(),
        forall|i: int|
            j <= i < entries.len() ==> #[trigger] reliable_upto(init, entries, j, now, resend_time, channel_id).1[i]
                == entries[i],
    decreases j,
{
    if j > 0 {
        lemma_upto_entries(init, entries, (j - 1) as nat, now, resend_time, channel_id);
    }
}

proof fn lemma_slices_shape(
    init: SliceLoop,
    k: nat,
    start: nat,
    id: u64,
    msg: Seq<u8>,
    n: nat,
    acked: Seq<bool>,
    now: u64,
    resend_time: u64,
    channel_id: u8,
)
    requires
        n >= 1,
        init.next <= n,
        init.last_sent.len() == n,
    ensures
        ({
            let r = reliable_slices_upto(init, k, start, id, msg, n, acked, now, resend_time, channel_id);
            r.next <= n && r.last_sent.len() == n
        }),
    decreases k,
{
    if k > 0 {
        lemma_slices_shape(init, (k - 1) as nat, start, id, msg, n, acked, now, resend_time, channel_id);
    }
}

proof fn lemma_upto_wf(
    init: RelPack,
    entries: Seq<(u64, UnackedView)>,
    j: nat,
    now: u64,
    resend_time: u64,
    channel_id: u8,
)
    requires
        j <= entries.len(),
        forall|i: int| 0 <= i < entries.len() ==> unacked_wf(#[trigger] entries[i].1),
    ensures
        forall|i: int|
            0 <= i < entries.len() ==> unacked_wf(#[trigger] reliable_upto(init, entries, j, now, resend_time, channel_id).1[i].1),
    decreases j,
{
    lemma_upto_entries(init, entries, j, now, resend_time, channel_id);
    if j > 0 {
        lemma_upto_wf(init, entries, (j - 1) as nat, now, resend_time, channel_id);
        lemma_upto_entries(init, entries, (j - 1) as nat, now, resend_time, channel_id);
        let prev = reliable_upto(init, entries, (j - 1) as nat, now, resend_time, channel_id);
        let e = prev.1[j - 1];
        let r = reliable_upto(init, entries, j, now, resend_time, channel_id);
        match e.1 {
            UnackedView::Small { .. } => {},
            UnackedView::Sliced { message, num_slices, next_slice_to_send, acked, last_sent, .. } => {
                lemma_slices_shape(
                    SliceLoop { st: prev.0, last_sent, next: next_slice_to_send, stopped: false },
                    num_slices,
                    next_slice_to_send,
                    e.0,
                    message,
                    num_slices,
                    acked,
                    now,
                    resend_time,
                    channel_id,
                );
            },
        }
        assert forall|i: int| 0 <= i < entries.len() implies unacked_wf(#[trigger] r.1[i].1) by {
            if i != j - 1 {
                assert(r.1[i] == prev.1[i]);
            }
        }
    }
}

/// The packets a reliable channel packs from `entries`, messages it holds
/// in `u`, carry them as they are (see `packet_refs`); the entries after
/// packing still match `u` and stay consistent.
pub proof fn lemma_packing_carries(
    entries: Seq<(u64, UnackedView)>,
    u: Map<u64, UnackedView>,
    seq: u64,
    avail: u64,
    now: u64,
    resend_time: u64,
    channel_id: u8,
)
    requires
        entries_match(entries, u),
        forall|i: int| 0 <= i < entries.len() ==> unacked_wf(#[trigger] entries[i].1),
    ensures
        ({
            let r = reliable_packing(entries, seq, avail, now, resend_time, channel_id);
            &&& forall|i: int| 0 <= i < r.0.packets.len() ==> #[trigger] packet_refs(r.0.packets[i], u, channel_id)
            &&& entries_match(r.1, u)
            &&& forall|i: int| 0 <= i < r.1.len() ==> unacked_wf(#[trigger] r.1[i].1)
        }),
{
    let init = RelPack { packets: Seq::empty(), small: Seq::empty(), small_bytes: 0, seq: seq as int, avail: avail as int };
    lemma_upto_refs(init, entries, entries.len(), now, resend_time, channel_id, u);
    let total = reliable_upto(init, entries, entries.len(), now, resend_time, channel_id);
    lemma_flush_refs(total.0, channel_id, u);
    lemma_upto_wf(init, entries, entries.len(), now, resend_time, channel_id);
    assert forall|i: int| 0 <= i < total.1.len() implies u.dom().contains(#[trigger] total.1[i].0) && same_shape(
        total.1[i].1,
        u[total.1[i].0],
    ) by {
        assert(total.1[i].0 == entries[i].0);
        assert(same_shape(total.1[i].1, entries[i].1));
        assert(u.dom().contains(entries[i].0) && same_shape(entries[i].1, u[entries[i].0]));
    }
}

impl SendChannelReliable {
    /// Packs the unacked messages that are due into packets, numbered from
    /// `*packet_sequence` on, within `*available_bytes`, and records when
    /// each was sent; see `reliable_packing`.
    #[verifier::spinoff_prover]
    pub fn get_packets_to_send(&mut self, packet_sequence: &mut u64, available_bytes: &mut u64, current_time: u64) -> (r: Vec<Packet>)
        requires
            old(self).wf(),
            old(self).sent_before(current_time),
            forall|k: u64| #[trigger] old(self).unacked().dom().contains(k) ==> k <= MAX_VAR_INT,
            reliable_packing(
                old(self).unacked_in_order(),
                *old(packet_sequence),
                *old(available_bytes),
                current_time,
                old(self).resend_time_view(),
                old(self).channel_id_view(),
            ).0.seq <= u64::MAX,
        ensures
            final(self).wf(),
            final(self).sent_before(current_time),
            final(self).next_message_id() == old(self).next_message_id(),
            final(self).memory_usage_view() == old(self).memory_usage_view(),
            final(self).max_memory_view() == old(self).max_memory_view(),
            final(self).resend_time_view() == old(self).resend_time_view(),
            final(self).channel_id_view() == old(self).channel_id_view(),
            final(self).unacked().dom() == old(self).unacked().dom(),
            ({
                let fin = reliable_packing(
                    old(self).unacked_in_order(),
                    *old(packet_sequence),
                    *old(available_bytes),
                    current_time,
                    old(self).resend_time_view(),
                    old(self).channel_id_view(),
                );
                &&& packets_view(r@) == fin.0.packets
                &&& *final(packet_sequence) == fin.0.seq
                &&& *final(available_bytes) == fin.0.avail
                &&& final(self).unacked_in_order() == fin.1
            }),
            forall|k: u64| #[trigger] final(self).unacked().dom().contains(k) ==> same_shape(
                final(self).unacked()[k],
                old(self).unacked()[k],
            ),
            forall|i: int| 0 <= i < r@.len() ==> #[trigger] packet_refs(r@[i]@, old(self).unacked(), old(self).channel_id_view()),
    {
        let ghost e0 = self.unacked_in_order();
        let ghost ch = self.channel_id;
        let ghost resend = self.resend_time;
        let ghost init = RelPack {
            packets: Seq::empty(),
            small: Seq::empty(),
            small_bytes: 0,
            seq: *packet_sequence as int,
            avail: *available_bytes as int,
        };
        let ghost total = reliable_upto(init, e0, e0.len(), current_time, resend, ch);
        let ghost raw0 = self.unacked_messages.entries_view();
        let ghost dom0 = self.unacked_messages@.dom();
        proof {
            self.unacked_messages.lemma_wf();
        }
        let mut packets: Vec<Packet> = Vec::new();
        let mut small_messages: Vec<(u64, Vec<u8>)> = Vec::new();
        let mut small_messages_bytes: usize = 0;
        let n = self.unacked_messages.len();
        let mut j: usize = 0;
        proof {
            assert(packets_view(packets@) =~= Seq::<PacketView>::empty());
            assert(reliable_messages_view(small_messages@) =~= Seq::<(u64, Seq<u8>)>::empty());
            assert forall|i: int| 0 <= i < n implies unacked_wf(#[trigger] raw0[i].1@) && raw0[i].0 <= MAX_VAR_INT
                && sent_before_entry(raw0[i].1@, current_time) by {
                let k = raw0[i].0;
                assert(self.unacked_messages@.dom().contains(k));
                assert(self.unacked_messages@[k] == raw0[i].1);
                assert(self.unacked().dom().contains(k));
                assert(self.unacked()[k] == raw0[i].1@);
            }
        }
        while j < n
            invariant
                self.unacked_messages.wf(),
                n == e0.len(),
                j <= n,
                self.channel_id == ch,
                self.resend_time == resend,
                self.next_reliable_message_id == old(self).next_reliable_message_id,
                self.max_memory_usage_bytes == old(self).max_memory_usage_bytes,
                self.memory_usage_bytes == old(self).memory_usage_bytes,
                e0 == unacked_entries(raw0),
                total == reliable_upto(init, e0, e0.len(), current_time, resend, ch),
                reliable_flush(total.0, ch).seq <= u64::MAX,
                small_messages_bytes <= 2 * SLICE_SIZE,
                self.unacked_messages.entries_view().len() == n,
                forall|i: int| 0 <= i < n ==> #[trigger] self.unacked_messages.entries_view()[i].0 == raw0[i].0,
                forall|i: int| 0 <= i < n ==> unacked_message(#[trigger] self.unacked_messages.entries_view()[i].1@)
                    == unacked_message(raw0[i].1@),
                forall|i: int| 0 <= i < n ==> unacked_wf(#[trigger] self.unacked_messages.entries_view()[i].1@),
                forall|i: int| 0 <= i < n ==> #[trigger] raw0[i].0 <= MAX_VAR_INT,
                forall|i: int| 0 <= i < n ==> sent_before_entry(#[trigger] self.unacked_messages.entries_view()[i].1@, current_time),
                unacked_entries(self.unacked_messages.entries_view()) == reliable_upto(init, e0, j as nat, current_time, resend, ch).1,
                rel_state(packets@, small_messages@, small_messages_bytes, *packet_sequence, *available_bytes)
                    == reliable_upto(init, e0, j as nat, current_time, resend, ch).0,
            decreases n - j,
        {
            let ghost before_entries = self.unacked_messages.entries_view();
            let ghost prev = reliable_upto(init, e0, j as nat, current_time, resend, ch);
            proof {
                lemma_upto_entries(init, e0, j as nat, current_time, resend, ch);
                lemma_upto_seq_monotone(init, e0, (j + 1) as nat, e0.len(), current_time, resend, ch);
                assert(prev.1[j as int] == e0[j as int]);
                assert(unacked_entries(before_entries)[j as int] == prev.1[j as int]);
            }
            let (id, _) = self.unacked_messages.entry_at(j);
            let placeholder = UnackedMessage::Small { message: Vec::new(), last_sent: None };
            let taken = self.unacked_messages.replace_at(j, placeholder);
            let ghost tv = taken@;
            let updated = match taken {
                UnackedMessage::Small { message, last_sent } => {
                    let new_last = pack_small(
                        &mut packets,
                        &mut small_messages,
                        &mut small_messages_bytes,
                        packet_sequence,
                        available_bytes,
                        id,
                        &message,
                        last_sent,
                        current_time,
                        self.resend_time,
                        self.channel_id,
                    );
                    UnackedMessage::Small { message, last_sent: new_last }
                },
                UnackedMessage::Sliced {
                    message,
                    num_slices,
                    num_acked_slices,
                    next_slice_to_send,
                    acked,
                    mut last_sent,
                } => {
                    let next = pack_slices(
                        &mut packets,
                        &small_messages,
                        small_messages_bytes,
                        packet_sequence,
                        available_bytes,
                        id,
                        &message,
                        num_slices,
                        next_slice_to_send,
                        &acked,
                        &mut last_sent,
                        current_time,
                        self.resend_time,
                        self.channel_id,
                    );
                    UnackedMessage::Sliced {
                        message,
                        num_slices,
                        num_acked_slices,
                        next_slice_to_send: next,
                        acked,
                        last_sent,
                    }
                },
            };
            let ghost uv = updated@;
            self.unacked_messages.replace_at(j, updated);
            proof {
                let step = reliable_message_step(prev.0, id, tv, current_time, resend, ch);
                assert(uv == step.1);
                assert(unacked_entries(self.unacked_messages.entries_view()) =~= prev.1.update(j as int, (id, step.1)));
            }
            j = j + 1;
        }
        proof {
            let fe = self.unacked_messages.entries_view();
            assert(fe.len() == raw0.len());
            lemma_same_weights(raw0, fe);
            self.unacked_messages.lemma_wf();
            assert(self.unacked_messages@.dom() =~= dom0) by {
                assert forall|k: u64| self.unacked_messages@.dom().contains(k) <==> dom0.contains(k) by {
                    if self.unacked_messages@.dom().contains(k) {
                        let i = choose|i: int| 0 <= i < fe.len() && #[trigger] fe[i].0 == k;
                        assert(raw0[i].0 == k);
                    }
                    if dom0.contains(k) {
                        let i = choose|i: int| 0 <= i < raw0.len() && #[trigger] raw0[i].0 == k;
                        assert(fe[i].0 == k);
                    }
                }
            }
            assert forall|k: u64| #[trigger] self.unacked_messages@.dom().contains(k) implies unacked_wf(self.unacked_messages@[k]@)
                && k < self.next_reliable_message_id by {
                let i = choose|i: int| 0 <= i < fe.len() && #[trigger] fe[i].0 == k;
                assert(self.unacked_messages@[fe[i].0] == fe[i].1);
                assert(old(self).unacked_messages@.dom().contains(k));
            }
            assert forall|k: u64| #[trigger] self.unacked().dom().contains(k) implies match self.unacked()[k] {
                UnackedView::Small { last_sent, .. } => last_sent matches Some(t) ==> t <= current_time,
                UnackedView::Sliced { last_sent, .. } => forall|i: int|
                    0 <= i < last_sent.len() ==> (#[trigger] last_sent[i] matches Some(t) ==> t <= current_time),
            } by {
                let i = choose|i: int| 0 <= i < fe.len() && #[trigger] fe[i].0 == k;
                assert(self.unacked_messages@[fe[i].0] == fe[i].1);
                assert(sent_before_entry(fe[i].1@, current_time));
            }
        }
        proof {
            let u0 = old(self).unacked();
            let fe = self.unacked_messages.entries_view();
            old(self).unacked_messages.lemma_wf();
            assert(entries_match(e0, u0)) by {
                assert forall|i: int| 0 <= i < e0.len() implies u0.dom().contains(#[trigger] e0[i].0) && same_shape(
                    e0[i].1,
                    u0[e0[i].0],
                ) by {
                    assert(old(self).unacked_messages@.dom().contains(raw0[i].0));
                    assert(old(self).unacked_messages@[raw0[i].0] == raw0[i].1);
                }
            }
            assert forall|i: int| 0 <= i < e0.len() implies unacked_wf(#[trigger] e0[i].1) by {
                assert(old(self).unacked_messages@.dom().contains(raw0[i].0));
                assert(old(self).unacked_messages@[raw0[i].0] == raw0[i].1);
            }
            lemma_upto_refs(init, e0, e0.len(), current_time, resend, ch, u0);
            lemma_flush_refs(total.0, ch, u0);
            lemma_upto_entries(init, e0, e0.len(), current_time, resend, ch);
            assert forall|k: u64| #[trigger] self.unacked().dom().contains(k) implies same_shape(self.unacked()[k], u0[k]) by {
                let i = choose|i: int| 0 <= i < fe.len() && #[trigger] fe[i].0 == k;
                assert(self.unacked_messages@[fe[i].0] == fe[i].1);
                assert(old(self).unacked_messages@.dom().contains(k));
                assert(total.1[i].0 == e0[i].0);
                assert(same_shape(total.1[i].1, e0[i].1));
            }
        }
        if small_messages.len() > 0 {
            let p = Packet::SmallReliable {
                sequence: *packet_sequence,
                channel_id: self.channel_id,
                messages: small_messages,
            };
            let ghost before = packets@;
            let ghost pv = p@;
            packets.push(p);
            proof {
                assert(packets_view(packets@) =~= packets_view(before).push(pv));
            }
            *packet_sequence = *packet_sequence + 1;
        }
        proof {
            let fin = reliable_flush(total.0, ch);
            assert(packets_view(packets@) == fin.packets);
            assert forall|i: int| 0 <= i < packets@.len() implies #[trigger] packet_refs(packets@[i]@, old(self).unacked(), ch) by {
                assert(packets_view(packets@)[i] == packets@[i]@);
                assert(packet_refs(fin.packets[i], old(self).unacked(), ch));
            }
        }
        packets
    }
}

/// Every send time of a message is at or before `now`.
pub open spec fn sent_before_entry(u: UnackedView, now: u64) -> bool {
    match u {
        UnackedView::Small { last_sent, .. } => last_sent matches Some(t) ==> t <= now,
        UnackedView::Sliced { last_sent, .. } => forall|i: int|
            0 <= i < last_sent.len() ==> (#[trigger] last_sent[i] matches Some(t) ==> t <= now),
    }
}

/// Entries with the same messages weigh the same.
proof fn lemma_same_weights(a: Seq<(u64, UnackedMessage)>, b: Seq<(u64, UnackedMessage)>)
    requires
        a.len() == b.len(),
        forall|i: int| 0 <= i < a.len() ==> unacked_message(#[trigger] b[i].1@) == unacked_message(a[i].1@),
    ensures
        sum_weights(a, |u: UnackedMessage| unacked_len(u)) == sum_weights(b, |u: UnackedMessage| unacked_len(u)),
    decreases a.len(),
{
    if a.len() > 0 {
        assert forall|i: int| 0 <= i < a.drop_last().len() implies unacked_message(
            #[trigger] b.drop_last()[i].1@,
        ) == unacked_message(a.drop_last()[i].1@) by {
            assert(b.drop_last()[i] == b[i]);
            assert(a.drop_last()[i] == a[i]);
        }
        lemma_same_weights(a.drop_last(), b.drop_last());
        assert(unacked_message(b[b.len() - 1].1@) == unacked_message(a[a.len() - 1].1@));
    }
}

/// How a reliable channel hands out messages.
pub ghost enum OrderView {
    /// In message id order.
    Ordered,
    /// As they come; the ids at or above the oldest pending one that
    /// already came are remembered.
    Unordered { most_recent_message_id: u64, received: Set<u64> },
}

enum ReliableOrder {
    Ordered,
    Unordered { most_recent_message_id: u64, received_messages: SortedMap<()> },
}

pub struct ReceiveChannelReliable {
    slices: SortedMap<SliceConstructor>,
    messages: SortedMap<Vec<u8>>,
    oldest_pending_message_id: u64,
    reliable_order: ReliableOrder,
    memory_usage_bytes: usize,
    max_memory_usage_bytes: usize,
}

/// Total length of the messages.
pub open spec fn message_bytes(m: Vec<u8>) -> nat {
    m@.len()
}

/// How a reliable receive channel takes a small message; see
/// `process_message`.
pub open spec fn message_processed(before: ReceiveChannelReliable, after: ReceiveChannelReliable, message: Seq<u8>, message_id: u64, r: Result<(), ChannelError>) -> bool {
    &&& (after.pending() == before.pending())
    &&& (after.oldest() == before.oldest())
    &&& (after.max_memory_view() == before.max_memory_view())
    &&& (({
                let known = match before.order() {
                    OrderView::Ordered => before.messages_view().dom().contains(message_id),
                    OrderView::Unordered { received, .. } => received.contains(message_id),
                };
                let order_after = match before.order() {
                    OrderView::Ordered => OrderView::Ordered,
                    OrderView::Unordered { most_recent_message_id, received } => OrderView::Unordered {
                        most_recent_message_id: if most_recent_message_id < message_id {
                            message_id
                        } else {
                            most_recent_message_id
                        },
                        received: if !known && before.memory_usage_view() + message.len()
                            <= before.max_memory_view() {
                            received.insert(message_id)
                        } else {
                            received
                        },
                    },
                };
                if message_id < before.oldest() {
                    r is Ok && after == before
                } else if known {
                    r is Ok && after.messages_view() == before.messages_view() && after.order()
                        == order_after && after.memory_usage_view() == before.memory_usage_view()
                } else if before.memory_usage_view() + message.len() > before.max_memory_view() {
                    r == Err::<(), ChannelError>(ChannelError::ReliableChannelMaxMemoryReached) && after.messages_view()
                        == before.messages_view() && after.order() == order_after && after.memory_usage_view()
                        == before.memory_usage_view()
                } else {
                    r is Ok && after.messages_view() == before.messages_view().insert(message_id, message)
                        && after.order() == order_after && after.memory_usage_view()
                        == before.memory_usage_view() + message.len()
                }
            }))
}

impl ReceiveChannelReliable {
    pub closed spec fn wf(&self) -> bool {
        &&& self.slices.wf()
        &&& self.messages.wf()
        &&& forall|k: u64| #[trigger] self.slices@.dom().contains(k) ==> self.slices@[k].wf()
            && incomplete(self.slices@[k])
        &&& self.memory_usage_bytes == sum_weights(self.messages.entries_view(), |m: Vec<u8>| message_bytes(m))
            + sum_weights(self.slices.entries_view(), |c: SliceConstructor| reserved_of(c))
        &&& self.memory_usage_bytes <= self.max_memory_usage_bytes
        &&& match self.reliable_order {
            ReliableOrder::Unordered { received_messages, .. } => {
                &&& received_messages.wf()
                &&& forall|k: u64|
                    #[trigger] self.messages@.dom().contains(k) ==> k < self.oldest_pending_message_id
                        || received_messages@.dom().contains(k)
            },
            ReliableOrder::Ordered => true,
        }
    }

    /// Messages received and not handed out yet, by message id.
    pub closed spec fn messages_view(&self) -> Map<u64, Seq<u8>> {
        self.messages@.map_values(|m: Vec<u8>| m@)
    }

    /// The same, in message id order.
    pub closed spec fn messages_in_order(&self) -> Seq<(u64, Vec<u8>)> {
        self.messages.entries_view()
    }

    /// Sliced messages being put back together, by message id.
    pub closed spec fn pending(&self) -> Map<u64, PendingMessage> {
        self.slices@.map_values(|c: SliceConstructor| pending_of(c))
    }

    /// The lowest message id that can still be handed out.
    pub closed spec fn oldest(&self) -> u64 {
        self.oldest_pending_message_id
    }

    pub closed spec fn order(&self) -> OrderView {
        match self.reliable_order {
            ReliableOrder::Ordered => OrderView::Ordered,
            ReliableOrder::Unordered { most_recent_message_id, received_messages } => OrderView::Unordered {
                most_recent_message_id,
                received: received_messages@.dom(),
            },
        }
    }

    /// How many ids the channel keeps track of: messages held and ids
    /// remembered as received.
    pub closed spec fn tracked_ids(&self) -> nat {
        self.messages@.dom().len() + match self.reliable_order {
            ReliableOrder::Unordered { received_messages, .. } => received_messages@.dom().len(),
            ReliableOrder::Ordered => 0,
        }
    }

    pub closed spec fn memory_usage_view(&self) -> nat {
        self.memory_usage_bytes as nat
    }

    pub closed spec fn max_memory_view(&self) -> nat {
        self.max_memory_usage_bytes as nat
    }

    pub fn new(max_memory_usage_bytes: usize, ordered: bool) -> (r: Self)
        ensures
            r.wf(),
            r.messages_view() == Map::<u64, Seq<u8>>::empty(),
            r.pending() == Map::<u64, PendingMessage>::empty(),
            r.oldest() == 0,
            r.memory_usage_view() == 0,
            r.max_memory_view() == max_memory_usage_bytes,
            ordered ==> r.order() == OrderView::Ordered,
            !ordered ==> r.order() == (OrderView::Unordered {
                most_recent_message_id: 0,
                received: Set::<u64>::empty(),
            }),
    {
        let reliable_order = if ordered {
            ReliableOrder::Ordered
        } else {
            ReliableOrder::Unordered { most_recent_message_id: 0, received_messages: SortedMap::new() }
        };
        let r = Self {
            slices: SortedMap::new(),
            messages: SortedMap::new(),
            oldest_pending_message_id: 0,
            reliable_order,
            memory_usage_bytes: 0,
            max_memory_usage_bytes,
        };
        proof {
            assert(r.messages_view() =~= Map::<u64, Seq<u8>>::empty());
            assert(r.pending() =~= Map::<u64, PendingMessage>::empty());
            if !ordered {
                assert(r.order() == (OrderView::Unordered {
                    most_recent_message_id: 0,
                    received: Set::<u64>::empty(),
                }));
            }
        }
        r
    }

    /// Stores message `message_id`. Ids below the oldest pending one, and
    /// ids already received, are ignored; a message that would take the
    /// channel above its memory limit is refused.
    pub fn process_message(&mut self, message: Vec<u8>, message_id: u64) -> (r: Result<(), ChannelError>)
        requires
            old(self).wf(),
        ensures
            final(self).wf(),
            message_processed(*old(self), *final(self), message@, message_id, r),
    {
        if message_id < self.oldest_pending_message_id {
            return Ok(());
        }
        let ghost entries = self.messages.entries_view();
        proof {
            self.messages.lemma_wf();
        }
        let store = match &mut self.reliable_order {
            ReliableOrder::Ordered => {
                if self.messages.contains_key(message_id) {
                    proof {
                        assert(self.messages_view().dom().contains(message_id));
                    }
                    false
                } else {
                    if message.len() > self.max_memory_usage_bytes - self.memory_usage_bytes {
                        return Err(ChannelError::ReliableChannelMaxMemoryReached);
                    }
                    true
                }
            },
            ReliableOrder::Unordered { most_recent_message_id, received_messages } => {
                if *most_recent_message_id < message_id {
                    *most_recent_message_id = message_id;
                }
                if received_messages.contains_key(message_id) {
                    false
                } else {
                    if message.len() > self.max_memory_usage_bytes - self.memory_usage_bytes {
                        return Err(ChannelError::ReliableChannelMaxMemoryReached);
                    }
                    received_messages.insert(message_id, ());
                    proof {
                        assert(received_messages@.dom() =~= old(self).order()->received.insert(message_id));
                    }
                    true
                }
            },
        };
        if store {
            let ghost mv = message@;
            self.memory_usage_bytes = self.memory_usage_bytes + message.len();
            let ghost mi = message;
            let replaced = self.messages.insert(message_id, message);
            proof {
                self.messages.lemma_wf();
                if old(self).messages@.dom().contains(message_id) {
                    let ii = choose|ii: int|
                        0 <= ii < entries.len() && entries[ii].0 == message_id
                            && self.messages.entries_view() == entries.update(ii, (message_id, mi));
                    lemma_sum_weights_update(entries, ii, (message_id, mi), |m: Vec<u8>| message_bytes(m));
                    assert(false);
                } else {
                    let ii = choose|ii: int|
                        0 <= ii <= entries.len() && self.messages.entries_view() == entries.insert(ii, (message_id, mi));
                    lemma_sum_weights_insert(entries, ii, (message_id, mi), |m: Vec<u8>| message_bytes(m));
                }
                assert(self.messages_view() =~= old(self).messages_view().insert(message_id, mv));
            }
        }
        Ok(())
    }
}

/// Whether an assembled message `id` is stored: always for an ordered
/// channel, and for an unordered one when its id was not received yet.
pub open spec fn stores(order: OrderView, id: u64) -> bool {
    match order {
        OrderView::Ordered => true,
        OrderView::Unordered { received, .. } => !received.contains(id),
    }
}

/// The order state after message `id` arrived and was stored or not.
pub open spec fn order_after(order: OrderView, id: u64, stored: bool) -> OrderView {
    match order {
        OrderView::Ordered => OrderView::Ordered,
        OrderView::Unordered { most_recent_message_id, received } => OrderView::Unordered {
            most_recent_message_id: if most_recent_message_id < id {
                id
            } else {
                most_recent_message_id
            },
            received: if stored {
                received.insert(id)
            } else {
                received
            },
        },
    }
}

/// How a reliable receive channel takes a slice; see `process_slice`.
pub open spec fn slice_processed(before: ReceiveChannelReliable, after: ReceiveChannelReliable, slice: SliceView, r: Result<(), ChannelError>) -> bool {
    &&& (after.oldest() == before.oldest())
    &&& (after.max_memory_view() == before.max_memory_view())
    &&& (({
                let id = slice.message_id;
                let n = slice.num_slices;
                let known = before.pending().dom().contains(id);
                let p = pending_or_fresh(before.pending(), id, n);
                let q = pending_after(p, slice.slice_index as int, slice.payload);
                let reserved = if known {
                    0
                } else {
                    n * SLICE_SIZE
                };
                let fits = known || before.memory_usage_view() + n * SLICE_SIZE <= before.max_memory_view();
                let size_ok = slice_len_ok(n as nat, SLICE_SIZE as nat, slice.slice_index as int, slice.payload.len());
                let m = concat_slices(q.slices);
                let stored = stores(before.order(), id);
                let malformed = slice_malformed(before.pending(), slice);
                let beyond = slice_index_beyond(slice);
                &&& before.messages_view().dom().contains(id) || id < before.oldest() ==> r is Ok
                    && after == before
                &&& !(before.messages_view().dom().contains(id) || id < before.oldest()) ==> {
                    &&& malformed ==> r == Err::<(), ChannelError>(ChannelError::InvalidSliceMessage) && after == before
                    &&& !malformed && !fits ==> r == Err::<(), ChannelError>(ChannelError::ReliableChannelMaxMemoryReached)
                        && after == before
                    &&& !malformed && fits && beyond ==> r == Err::<(), ChannelError>(ChannelError::InvalidSliceMessage)
                        && after == before
                    &&& !malformed && fits && !size_ok ==> r == Err::<(), ChannelError>(ChannelError::InvalidSliceMessage)
                        && after.pending() == before.pending().insert(id, p) && after.messages_view()
                        == before.messages_view() && after.order() == before.order()
                        && after.memory_usage_view() == before.memory_usage_view() + reserved
                    &&& !malformed && fits && size_ok && !beyond && !all_received(q) ==> r is Ok && after.pending() == before.pending().insert(id, q) && after.messages_view() == before.messages_view()
                        && after.order() == before.order() && after.memory_usage_view() == before.memory_usage_view() + reserved
                    &&& !malformed && fits && size_ok && !beyond && all_received(q) ==> r is Ok && after.pending() == before.pending().remove(id) && after.messages_view() == (if stored {
                        before.messages_view().insert(id, m)
                    } else {
                        before.messages_view()
                    }) && after.order() == order_after(before.order(), id, stored)
                        && after.memory_usage_view() == before.memory_usage_view() + reserved - n
                        * SLICE_SIZE + (if stored {
                        m.len()
                    } else {
                        0
                    })
                }
            }))
}

impl ReceiveChannelReliable {
    /// Takes a slice of a big message. Slices of messages already stored
    /// or handed out are ignored. The first slice of a message sets aside
    /// room for all of it, and is refused when that room is not there; a
    /// slice of the wrong size is refused. Once every slice arrived, the
    /// message, its slices end to end, is stored as `process_message` would.
    pub fn process_slice(&mut self, slice: Slice) -> (r: Result<(), ChannelError>)
        requires
            old(self).wf(),
        ensures
            final(self).wf(),
            slice_processed(*old(self), *final(self), slice@, r),
    {
        let id = slice.message_id;
        proof {
            self.messages.lemma_wf();
            self.slices.lemma_wf();
        }
        if self.messages.contains_key(id) || id < self.oldest_pending_message_id {
            proof {
                if self.messages@.dom().contains(id) {
                    assert(self.messages_view().dom().contains(id));
                }
            }
            return Ok(());
        }
        proof {
            assert(!self.messages_view().dom().contains(id));
        }
        let ghost old_pending = self.pending();
        let ghost old_entries = self.slices.entries_view();
        let ghost w = |c: SliceConstructor| reserved_of(c);
        let known = self.slices.contains_key(id);
        if slice_is_malformed(&self.slices, &slice) {
            return Err(ChannelError::InvalidSliceMessage);
        }
        if !known && slice.num_slices * SLICE_SIZE > self.max_memory_usage_bytes - self.memory_usage_bytes {
            return Err(ChannelError::ReliableChannelMaxMemoryReached);
        }
        if slice_index_is_beyond(&slice) {
            return Err(ChannelError::InvalidSliceMessage);
        }
        let mut constructor = if known {
            self.slices.remove(id).unwrap()
        } else {
            let message_len = slice.num_slices * SLICE_SIZE;
            self.memory_usage_bytes = self.memory_usage_bytes + message_len;
            SliceConstructor::new(id, slice.num_slices)
        };
        let ghost c0 = constructor;
        proof {
            constructor.lemma_wf_bounds();
            if known {
                let ii = choose|ii: int|
                    0 <= ii < old_entries.len() && old_entries[ii].0 == id
                        && self.slices.entries_view() == old_entries.remove(ii);
                lemma_sum_weights_remove(old_entries, ii, w);
                assert(old_entries[ii].1 == c0);
            } else {
                assert(!c0.received_view()[0]);
            }
            assert(pending_of(c0) == pending_or_fresh(old_pending, id, slice.num_slices));
        }
        let result = constructor.process_slice(slice.slice_index, slice.payload.as_slice());
        let ghost mid_entries = self.slices.entries_view();
        match result {
            Err(e) => {
                self.slices.insert(id, constructor);
                proof {
                    self.slices.lemma_wf();
                    let ii = choose|ii: int|
                        0 <= ii <= mid_entries.len() && self.slices.entries_view() == mid_entries.insert(ii, (id, constructor));
                    lemma_sum_weights_insert(mid_entries, ii, (id, constructor), w);
                    assert(self.pending() =~= old_pending.insert(id, pending_of(c0)));
                }
                Err(e)
            },
            Ok(None) => {
                proof {
                    assert(incomplete(constructor)) by {
                        if !incomplete(constructor) {
                            assert forall|j: int| 0 <= j < constructor.num_slices_view() implies #[trigger] constructor.received_view()[j] by {}
                        }
                    }
                    let q = pending_after(pending_of(c0), slice.slice_index as int, slice.payload@);
                    assert(pending_of(constructor) == q);
                    assert(!all_received(q)) by {
                        let j = choose|j: int| 0 <= j < constructor.num_slices_view() && !#[trigger] constructor.received_view()[j];
                        assert(!q.received[j]);
                    }
                }
                self.slices.insert(id, constructor);
                proof {
                    self.slices.lemma_wf();
                    let ii = choose|ii: int|
                        0 <= ii <= mid_entries.len() && self.slices.entries_view() == mid_entries.insert(ii, (id, constructor));
                    lemma_sum_weights_insert(mid_entries, ii, (id, constructor), w);
                    assert(self.pending() =~= old_pending.insert(id, pending_of(constructor)));
                }
                Ok(())
            },
            Ok(Some(message)) => {
                proof {
                    assert(incomplete(c0));
                    let j = choose|j: int| 0 <= j < c0.num_slices_view() && !#[trigger] c0.received_view()[j];
                    let q = pending_after(pending_of(c0), slice.slice_index as int, slice.payload@);
                    assert(pending_of(constructor) == q);
                    assert(all_received(q));
                    assert(message@ == concat_slices(q.slices));
                }
                self.memory_usage_bytes = self.memory_usage_bytes - slice.num_slices * SLICE_SIZE;
                proof {
                    assert(self.pending() =~= old_pending.remove(id));
                }
                match self.process_message(message, id) {
                    Ok(()) => {},
                    Err(_) => {
                        proof {
                            assert(false);
                        }
                    },
                }
                Ok(())
            },
        }
    }

    /// Hands out the next message: for an ordered channel the message with
    /// the oldest pending id, if it arrived; for an unordered one the
    /// stored message with the smallest id, and when that id is the oldest
    /// pending one, the oldest pending id moves past every id received in a
    /// row.
    pub fn receive_message(&mut self) -> (r: Option<Vec<u8>>)
        requires
            old(self).wf(),
            old(self).oldest() + old(self).tracked_ids() < u64::MAX,
        ensures
            final(self).wf(),
            final(self).pending() == old(self).pending(),
            final(self).max_memory_view() == old(self).max_memory_view(),
            old(self).order() is Ordered ==> final(self).order() is Ordered,
            received_from(*old(self), *final(self), opt_bytes_view(r)),
    {
        proof {
            self.messages.lemma_wf();
        }
        let ghost entries = self.messages.entries_view();
        match self.reliable_order {
            ReliableOrder::Ordered => {
                let oldest = self.oldest_pending_message_id;
                if !self.messages.contains_key(oldest) {
                    proof {
                        assert(!old(self).messages_view().dom().contains(oldest));
                    }
                    return None;
                }
                let removed = self.messages.remove(oldest);
                match removed {
                    Some(message) => {
                        proof {
                            let ii = choose|ii: int|
                                0 <= ii < entries.len() && entries[ii].0 == oldest
                                    && self.messages.entries_view() == entries.remove(ii);
                            lemma_sum_weights_remove(entries, ii, |m: Vec<u8>| message_bytes(m));
                            assert(entries[ii].1 == message);
                            assert(old(self).messages@.dom().len() >= 1);
                        }
                        self.oldest_pending_message_id = self.oldest_pending_message_id + 1;
                        self.memory_usage_bytes = self.memory_usage_bytes - message.len();
                        proof {
                            assert(self.messages_view() =~= old(self).messages_view().remove(oldest));
                        }
                        Some(message)
                    },
                    None => {
                        proof {
                            assert(!old(self).messages_view().dom().contains(oldest));
                        }
                        None
                    },
                }
            },
            ReliableOrder::Unordered { .. } => {
                if self.messages.is_empty() {
                    return None;
                }
                let popped = self.messages.pop_first();
                match popped {
                    None => None,
                    Some((message_id, message)) => {
                        proof {
                            lemma_sum_weights_remove(entries, 0, |m: Vec<u8>| message_bytes(m));
                            assert(entries.remove(0) =~= entries.drop_first());
                            assert(self.messages_view() =~= old(self).messages_view().remove(message_id));
                            assert(entries[0].1 == message);
                        }
                        if self.oldest_pending_message_id == message_id {
                            match &mut self.reliable_order {
                                ReliableOrder::Unordered { received_messages, .. } => {
                                    advance_oldest(received_messages, &mut self.oldest_pending_message_id);
                                },
                                ReliableOrder::Ordered => {},
                            }
                        }
                        self.memory_usage_bytes = self.memory_usage_bytes - message.len();
                        Some(message)
                    },
                }
            },
        }
    }
}

/// Moves `*oldest` past every id received in a row from it, forgetting
/// those ids.
fn advance_oldest(received: &mut SortedMap<()>, oldest: &mut u64)
    requires
        old(received).wf(),
        *old(oldest) + old(received)@.dom().len() < u64::MAX,
    ensures
        final(received).wf(),
        *final(oldest) >= *old(oldest),
        forall|k: u64| *old(oldest) <= k < *final(oldest) ==> old(received)@.dom().contains(k),
        !old(received)@.dom().contains(*final(oldest)),
        forall|k: u64| #[trigger] final(received)@.dom().contains(k) <==> old(received)@.dom().contains(k)
            && !(*old(oldest) <= k && k < *final(oldest)),
{
    let ghost o = *oldest;
    let ghost r0 = received@.dom();
    proof {
        received.lemma_wf();
    }
    let ghost len0 = received@.dom().len();
    while received.contains_key(*oldest)
        invariant
            received.wf(),
            o <= *oldest,
            forall|k: u64| o <= k < *oldest ==> r0.contains(k),
            forall|k: u64| #[trigger] received@.dom().contains(k) <==> r0.contains(k) && !(o <= k && k < *oldest),
            (*oldest - o) + received@.dom().len() == len0,
            o + len0 < u64::MAX,
            r0.finite(),
        decreases received@.dom().len(),
    {
        let cur = *oldest;
        proof {
            received.lemma_wf();
        }
        received.remove(cur);
        proof {
            received.lemma_wf();
        }
        *oldest = cur + 1;
    }
}

/// The ids of `r` outside `[o, cur]`.
/// How a message taken from a reliable receive channel relates its states
/// before and after; see `receive_message`.
pub open spec fn received_from(before: ReceiveChannelReliable, after: ReceiveChannelReliable, r: Option<Seq<u8>>) -> bool {
    &&& (before.order() is Ordered && !before.messages_view().dom().contains(before.oldest())
                ==> r is None && after == before)
    &&& (before.order() is Ordered && before.messages_view().dom().contains(before.oldest())
                ==> (r matches Some(m) && m == before.messages_view()[before.oldest()]) && after.messages_view()
                == before.messages_view().remove(before.oldest()) && after.oldest() == before.oldest() + 1
                && after.memory_usage_view() == before.memory_usage_view()
                - before.messages_view()[before.oldest()].len())
    &&& (before.order() is Unordered && before.messages_in_order().len() == 0 ==> r is None && after == before)
    &&& (before.order() is Unordered && before.messages_in_order().len() > 0 ==> ({
                let first = before.messages_in_order()[0];
                let received = before.order()->received;
                let new_received = after.order()->received;
                let o = before.oldest();
                let o2 = after.oldest();
                &&& r matches Some(m) && m == first.1@
                &&& after.messages_view() == before.messages_view().remove(first.0)
                &&& after.memory_usage_view() == before.memory_usage_view() - first.1@.len()
                &&& after.order() is Unordered
                &&& after.order()->most_recent_message_id == before.order()->most_recent_message_id
                &&& first.0 != o ==> o2 == o && new_received == received
                &&& first.0 == o ==> {
                    &&& o2 >= o
                    &&& forall|k: u64| o <= k < o2 ==> received.contains(k)
                    &&& !received.contains(o2)
                    &&& forall|k: u64| #[trigger] new_received.contains(k) <==> received.contains(k) && !(o <= k
                        && k < o2)
                }
            }))
}

/// The bytes of a message, if there is one.
pub open spec fn opt_bytes_view(r: Option<Vec<u8>>) -> Option<Seq<u8>> {
    match r {
        Some(m) => Some(m@),
        None => None,
    }
}

pub open spec fn old_dom_removed(r: Set<u64>, o: u64, cur: u64) -> Set<u64> {
    r.filter(|k: u64| !(o <= k && k <= cur))
}

impl ReceiveChannelReliable {
    /// The highest message id seen by an unordered channel.
    pub fn most_recent_message_id(&self) -> (r: Option<u64>)
        ensures
            r == (match self.order() {
                OrderView::Ordered => None,
                OrderView::Unordered { most_recent_message_id, .. } => Some(most_recent_message_id),
            }),
    {
        match &self.reliable_order {
            ReliableOrder::Ordered => None,
            ReliableOrder::Unordered { most_recent_message_id, .. } => Some(*most_recent_message_id),
        }
    }

    /// How many ids an unordered channel remembers as received.
    pub fn received_ids_len(&self) -> (r: usize)
        requires
            self.wf(),
        ensures
            r == (match self.order() {
                OrderView::Ordered => 0,
                OrderView::Unordered { received, .. } => received.len(),
            }),
    {
        match &self.reliable_order {
            ReliableOrder::Ordered => 0,
            ReliableOrder::Unordered { received_messages, .. } => {
                proof {
                    received_messages.lemma_wf();
                }
                received_messages.len()
            },
        }
    }
}

} // verus!
