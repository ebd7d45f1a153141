//! A connection to a remote peer: its channels, the packets it sent and
//! waits to see acknowledged, and the packets it received and must
//! acknowledge. Times are nanoseconds since the connection started.
use vstd::prelude::*;

use crate::channel_config::{ChannelConfig, DefaultChannel, SendType};
use crate::connection_stats::{spec_index, ConnectionStats, SIZE, WINDOW};
use crate::error::{ChannelError, DisconnectReason};
use crate::packet::SerializationError;
use crate::packet::{
    lemma_decoded_sequence_bound, packet_sequence_of, ranges_view, reliable_messages_view, spec_decode, spec_encode,
    spec_writable,
    unreliable_messages_view, Packet, PacketView, Slice, SliceView, SLICE_SIZE,
};
use crate::slice_constructor::slice_len_ok;
use crate::pending_acks::{ack_added, acks_above, add_pending_ack, in_ranges, ranges_wf, remove_acked_up_to};
use crate::reliable_channel::{
    ack_messages, entries_match, lemma_packing_carries, message_processed, new_unacked, packet_refs, reliable_packing, opt_bytes_view, received_from, same_shape, slice_ack_applied, unacked_wf,
    slice_processed, ReceiveChannelReliable,
    SendChannelReliable, UnackedView,
};
use crate::sorted_map::SortedMap;
use crate::unreliable_channel::{
    unreliable_kind, unreliable_message_processed, unreliable_packing, unreliable_slice_processed, packets_view,
    ReceiveChannelUnreliable, SendChannelUnreliable,
};
use crate::varint::MAX_VAR_INT;
use crate::packet_numbering::lemma_unreliable_packing_kinds;
use std::ops::Range;

verus! {

/// Sent packets older than this, up to the largest acked one, are taken
/// as lost: 3 seconds.
pub const DISCARD_AFTER: u64 = 3_000_000_000;

/// Configuration of a connection: how many bytes it may send per tick and
/// the channels of each side.
#[derive(Debug, Clone)]
pub struct ConnectionConfig {
    pub available_bytes_per_tick: u64,
    pub server_channels_config: Vec<ChannelConfig>,
    pub client_channels_config: Vec<ChannelConfig>,
}

impl Default for ConnectionConfig {
    fn default() -> (r: Self)
        ensures
            r.available_bytes_per_tick == 60 * 1024,
            r.server_channels_config@ == crate::channel_config::spec_default_config(),
            r.client_channels_config@ == crate::channel_config::spec_default_config(),
    {
        Self {
            available_bytes_per_tick: 60 * 1024,
            server_channels_config: DefaultChannel::config(),
            client_channels_config: DefaultChannel::config(),
        }
    }
}

/// What a sent packet carried that matters once it is acknowledged.
#[derive(Debug, Clone)]
pub enum PacketSentInfo {
    /// No need to track info for unreliable messages.
    Untracked,
    ReliableMessages { channel_id: u8, message_ids: Vec<u64> },
    ReliableSliceMessage { channel_id: u8, message_id: u64, slice_index: usize },
    /// When an ack packet is acknowledged, the pending acks up to the
    /// largest one it carried are dropped.
    Ack { largest_acked_packet: u64 },
}

#[derive(Debug, Clone)]
pub struct PacketSent {
    pub sent_at: u64,
    pub info: PacketSentInfo,
}

#[derive(Debug, Clone, Copy)]
pub enum ChannelOrder {
    Reliable(u8),
    Unreliable(u8),
}

/// Channel ids that occur once in a list of channel configurations.
pub open spec fn ids_unique(c: Seq<ChannelConfig>) -> bool {
    forall|i: int, j: int| 0 <= i < j < c.len() ==> #[trigger] c[i].channel_id != #[trigger] c[j].channel_id
}

pub struct RenetClient {
    packet_sequence: u64,
    current_time: u64,
    sent_packets: SortedMap<PacketSent>,
    pending_acks: Vec<Range<u64>>,
    channel_send_order: Vec<ChannelOrder>,
    send_unreliable_channels: SortedMap<SendChannelUnreliable>,
    receive_unreliable_channels: SortedMap<ReceiveChannelUnreliable>,
    send_reliable_channels: SortedMap<SendChannelReliable>,
    receive_reliable_channels: SortedMap<ReceiveChannelReliable>,
    stats: ConnectionStats,
    available_bytes_per_tick: u64,
    largest_acked_packet: u64,
    disconnect_reason: Option<DisconnectReason>,
}

/// A sent packet's info agrees with the reliable send channels: the
/// channel exists, the message ids it names were given out already, those
/// still unacked are small messages, and a slice it names is a slice of a
/// sliced message.
pub open spec fn info_consistent(info: PacketSentInfo, channels: Map<u64, SendChannelReliable>) -> bool {
    match info {
        PacketSentInfo::Untracked => true,
        PacketSentInfo::Ack { largest_acked_packet } => largest_acked_packet < u64::MAX,
        PacketSentInfo::ReliableMessages { channel_id, message_ids } => {
            &&& channels.dom().contains(channel_id as u64)
            &&& forall|i: int|
                0 <= i < message_ids@.len() ==> #[trigger] message_ids@[i] < channels[channel_id as u64].next_message_id()
                    && (channels[channel_id as u64].unacked().dom().contains(message_ids@[i])
                    ==> channels[channel_id as u64].unacked()[message_ids@[i]] is Small)
        },
        PacketSentInfo::ReliableSliceMessage { channel_id, message_id, slice_index } => {
            &&& channels.dom().contains(channel_id as u64)
            &&& message_id < channels[channel_id as u64].next_message_id()
            &&& channels[channel_id as u64].unacked().dom().contains(message_id) ==> (
            channels[channel_id as u64].unacked()[message_id] matches UnackedView::Sliced {
                num_slices,
                ..
            } && slice_index < num_slices)
        },
    }
}

/// How many of the oldest sent packets are taken as lost at `now`: those
/// in a row, from the first, up to the largest acked sequence and sent at
/// least `DISCARD_AFTER` ago.
pub open spec fn lost_prefix(e: Seq<(u64, PacketSent)>, largest: u64, now: u64) -> nat
    decreases e.len(),
{
    if e.len() > 0 && e[0].0 <= largest && now - e[0].1.sent_at >= DISCARD_AFTER {
        1 + lost_prefix(e.drop_first(), largest, now)
    } else {
        0
    }
}

proof fn lemma_lost_prefix_bound(e: Seq<(u64, PacketSent)>, largest: u64, now: u64)
    ensures
        lost_prefix(e, largest, now) <= e.len(),
    decreases e.len(),
{
    if e.len() > 0 {
        lemma_lost_prefix_bound(e.drop_first(), largest, now);
    }
}

/// What an ack of our acks up to `largest` does: below the largest acked
/// sequence already, nothing; else that is the new largest, and only the
/// pending acks above it stay.
pub open spec fn largest_acked_applied(b: RenetClient, a: RenetClient, largest: u64) -> bool {
    &&& b.largest_acked_view() > largest ==> a.pending_acks_view() == b.pending_acks_view()
        && a.largest_acked_view() == b.largest_acked_view()
    &&& b.largest_acked_view() <= largest ==> a.largest_acked_view() == largest && acks_above(
        b.pending_acks_view(),
        a.pending_acks_view(),
        largest,
    )
}

/// The stats after `len` bytes arrived: counted in the current bucket.
pub open spec fn bytes_counted(b: ConnectionStats, a: ConnectionStats, len: nat) -> bool {
    &&& a.current_index == b.current_index
    &&& a.bytes_received@ == b.bytes_received@.update(
        b.current_index as int,
        (b.bytes_received@[b.current_index as int] + len) as u64,
    )
    &&& a.packets_sent@ == b.packets_sent@
    &&& a.packets_acked@ == b.packets_acked@
    &&& a.bytes_sent@ == b.bytes_sent@
}

/// The stats after the ack of a packet sent at `sent_at` came at `now`:
/// counted in the bucket it was sent in, unless it came a window or more
/// later.
pub open spec fn ack_counted(b: ConnectionStats, a: ConnectionStats, sent_at: u64, now: u64) -> bool {
    &&& a.current_index == b.current_index
    &&& a.packets_acked@ == (if now - sent_at > WINDOW {
        b.packets_acked@
    } else {
        b.packets_acked@.update(spec_index(sent_at), (b.packets_acked@[spec_index(sent_at)] + 1) as u64)
    })
    &&& a.packets_sent@ == b.packets_sent@
    &&& a.bytes_received@ == b.bytes_received@
    &&& a.bytes_sent@ == b.bytes_sent@
}

/// What the ack of sent packet `q` does, from connection state `b` to `a`:
/// nothing when it is not waiting any more; else it stops waiting, the ack
/// is counted and what the packet carried is acknowledged in its channel.
pub open spec fn packet_acked(b: RenetClient, a: RenetClient, q: u64) -> bool {
    if !b.sent_view().dom().contains(q) {
        a == b
    } else {
        let sp = b.sent_view()[q];
        &&& a.sent_view() == b.sent_view().remove(q)
        &&& a.current_time_view() == b.current_time_view()
        &&& a.packet_sequence_view() == b.packet_sequence_view()
        &&& a.disconnect_reason_view() == b.disconnect_reason_view()
        &&& a.receive_reliable_view() == b.receive_reliable_view()
        &&& a.receive_unreliable_view() == b.receive_unreliable_view()
        &&& a.send_unreliable_view() == b.send_unreliable_view()
        &&& a.send_order_view() == b.send_order_view()
        &&& a.available_bytes_view() == b.available_bytes_view()
        &&& ack_counted(b.stats_view(), a.stats_view(), sp.sent_at, b.current_time_view())
        &&& match sp.info {
            PacketSentInfo::Untracked => {
                &&& a.send_reliable_view() == b.send_reliable_view()
                &&& a.pending_acks_view() == b.pending_acks_view()
                &&& a.largest_acked_view() == b.largest_acked_view()
            },
            PacketSentInfo::ReliableMessages { channel_id, message_ids } => {
                let k = channel_id as u64;
                let c = b.send_reliable_view()[k];
                let c2 = a.send_reliable_view()[k];
                let acked = ack_messages(c.unacked(), c.memory_usage_view() as int, message_ids@);
                &&& a.pending_acks_view() == b.pending_acks_view()
                &&& a.largest_acked_view() == b.largest_acked_view()
                &&& a.send_reliable_view() == b.send_reliable_view().insert(k, c2)
                &&& c2.unacked() == acked.0
                &&& c2.memory_usage_view() == acked.1
                &&& c2.next_message_id() == c.next_message_id()
                &&& c2.max_memory_view() == c.max_memory_view()
                &&& c2.resend_time_view() == c.resend_time_view()
                &&& c2.channel_id_view() == c.channel_id_view()
            },
            PacketSentInfo::ReliableSliceMessage { channel_id, message_id, slice_index } => {
                let k = channel_id as u64;
                &&& a.pending_acks_view() == b.pending_acks_view()
                &&& a.largest_acked_view() == b.largest_acked_view()
                &&& a.send_reliable_view() == b.send_reliable_view().insert(k, a.send_reliable_view()[k])
                &&& slice_ack_applied(b.send_reliable_view()[k], a.send_reliable_view()[k], message_id, slice_index)
            },
            PacketSentInfo::Ack { largest_acked_packet } => {
                &&& a.send_reliable_view() == b.send_reliable_view()
                &&& largest_acked_applied(b, a, largest_acked_packet)
            },
        }
    }
}

/// Whether two unacked maps differ only by dropped entries and entries
/// that kept their kind and number of slices.
pub open spec fn shapes_kept(before: Map<u64, UnackedView>, after: Map<u64, UnackedView>) -> bool {
    forall|m: u64| #[trigger] after.dom().contains(m) ==> before.dom().contains(m) && same_shape(after[m], before[m])
}

/// The sequences of the sent packets `e` that fall in `[lo, hi)`, in order.
pub open spec fn keys_in(e: Seq<(u64, PacketSent)>, lo: u64, hi: u64) -> Seq<u64>
    decreases e.len(),
{
    if e.len() == 0 {
        Seq::empty()
    } else {
        let rest = keys_in(e.drop_last(), lo, hi);
        if lo <= e.last().0 && e.last().0 < hi {
            rest.push(e.last().0)
        } else {
            rest
        }
    }
}

/// The sequences an ack packet acknowledges, range after range.
pub open spec fn acks_listed(e: Seq<(u64, PacketSent)>, ranges: Seq<(u64, u64)>) -> Seq<u64>
    decreases ranges.len(),
{
    if ranges.len() == 0 {
        Seq::empty()
    } else {
        acks_listed(e, ranges.drop_last()) + keys_in(e, ranges.last().0, ranges.last().1)
    }
}

/// The round trip times of the first `n` acks of `qs`, through the states
/// of `chain`: one for each ack of a packet still waiting.
pub open spec fn ack_samples(chain: Seq<RenetClient>, qs: Seq<u64>, n: nat) -> Seq<u64>
    decreases n,
{
    if n == 0 {
        Seq::empty()
    } else {
        let rest = ack_samples(chain, qs, (n - 1) as nat);
        let b = chain[n - 1];
        if b.sent_view().dom().contains(qs[n - 1]) {
            rest.push((b.current_time_view() - b.sent_view()[qs[n - 1]].sent_at) as u64)
        } else {
            rest
        }
    }
}

/// `chain` runs a reliable receive channel through `messages` in turn,
/// stopping after the first one refused, with `err`.
pub open spec fn reliable_messages_taken(
    chain: Seq<ReceiveChannelReliable>,
    messages: Seq<(u64, Seq<u8>)>,
    err: Option<ChannelError>,
) -> bool {
    &&& 1 <= chain.len() <= messages.len() + 1
    &&& err is None ==> chain.len() == messages.len() + 1
    &&& err is Some ==> chain.len() >= 2
    &&& forall|j: int|
        #![trigger chain[j]]
        0 <= j < chain.len() - 1 ==> message_processed(
            chain[j],
            chain[j + 1],
            messages[j].1,
            messages[j].0,
            if err is Some && j == chain.len() - 2 {
                Err(err->Some_0)
            } else {
                Ok(())
            },
        )
}

/// `chain` runs an unreliable receive channel through `messages` in turn.
pub open spec fn unreliable_messages_taken(chain: Seq<ReceiveChannelUnreliable>, messages: Seq<Seq<u8>>) -> bool {
    &&& chain.len() == messages.len() + 1
    &&& forall|j: int| #![trigger chain[j]] 0 <= j < messages.len() ==> unreliable_message_processed(chain[j], chain[j + 1], messages[j])
}

/// The disconnect reason for what a receive channel returned.
pub open spec fn receive_error(channel_id: u8, err: Option<ChannelError>) -> Option<DisconnectReason> {
    match err {
        Some(e) => Some(DisconnectReason::ReceiveChannelError { channel_id, error: e }),
        None => None,
    }
}

/// The error of a result, if any.
pub open spec fn err_of(r: Result<(), ChannelError>) -> Option<ChannelError> {
    match r {
        Ok(_) => None,
        Err(e) => Some(e),
    }
}

/// `a` and `b` agree on what taking a packet other than an ack leaves
/// alone.
pub open spec fn receive_frame(a: RenetClient, b: RenetClient) -> bool {
    &&& a.current_time_view() == b.current_time_view()
    &&& a.packet_sequence_view() == b.packet_sequence_view()
    &&& a.sent_in_order() == b.sent_in_order()
    &&& a.sent_view() == b.sent_view()
    &&& a.send_reliable_view() == b.send_reliable_view()
    &&& a.send_unreliable_view() == b.send_unreliable_view()
    &&& a.send_order_view() == b.send_order_view()
    &&& a.available_bytes_view() == b.available_bytes_view()
    &&& a.largest_acked_view() == b.largest_acked_view()
}

/// `a` is `b` once a packet of `len` bytes with sequence `s` arrived: the
/// bytes counted and `s` pending acknowledgement.
pub open spec fn packet_arrived(b: RenetClient, a: RenetClient, len: nat, s: u64) -> bool {
    &&& receive_frame(a, b)
    &&& bytes_counted(b.stats_view(), a.stats_view(), len)
    &&& ack_added(b.pending_acks_view(), a.pending_acks_view(), s)
    &&& a.receive_reliable_view() == b.receive_reliable_view()
    &&& a.receive_unreliable_view() == b.receive_unreliable_view()
    &&& a.disconnect_reason_view() == b.disconnect_reason_view()
}

/// An unknown channel closes the connection, all else unchanged.
pub open spec fn invalid_channel(b: RenetClient, a: RenetClient, channel_id: u8) -> bool {
    &&& a.disconnect_reason_view() == Some(DisconnectReason::ReceivedInvalidChannelId(channel_id))
    &&& a.receive_reliable_view() == b.receive_reliable_view()
    &&& a.receive_unreliable_view() == b.receive_unreliable_view()
}

/// Small reliable `messages` for channel `channel_id`, taken in turn by
/// its receive channel, which stops at the first it refuses.
pub open spec fn reliable_messages_branch(b: RenetClient, a: RenetClient, channel_id: u8, messages: Seq<(u64, Seq<u8>)>) -> bool {
    let k = channel_id as u64;
    &&& !b.receive_reliable_ids().contains(k) ==> invalid_channel(b, a, channel_id)
    &&& b.receive_reliable_ids().contains(k) ==> {
        &&& a.receive_unreliable_view() == b.receive_unreliable_view()
        &&& a.receive_reliable_view() == b.receive_reliable_view().insert(k, a.receive_reliable_view()[k])
        &&& exists|chain: Seq<ReceiveChannelReliable>, err: Option<ChannelError>|
            #![trigger reliable_messages_taken(chain, messages, err)]
            {
                &&& reliable_messages_taken(chain, messages, err)
                &&& chain[0] == b.receive_reliable_view()[k]
                &&& chain.last() == a.receive_reliable_view()[k]
                &&& a.disconnect_reason_view() == receive_error(channel_id, err)
            }
    }
}

/// Small unreliable `messages` for channel `channel_id`, taken in turn by
/// its receive channel.
pub open spec fn unreliable_messages_branch(b: RenetClient, a: RenetClient, channel_id: u8, messages: Seq<Seq<u8>>) -> bool {
    let k = channel_id as u64;
    &&& !b.receive_unreliable_ids().contains(k) ==> invalid_channel(b, a, channel_id)
    &&& b.receive_unreliable_ids().contains(k) ==> {
        &&& a.disconnect_reason_view() == b.disconnect_reason_view()
        &&& a.receive_reliable_view() == b.receive_reliable_view()
        &&& a.receive_unreliable_view() == b.receive_unreliable_view().insert(k, a.receive_unreliable_view()[k])
        &&& exists|chain: Seq<ReceiveChannelUnreliable>|
            #![trigger unreliable_messages_taken(chain, messages)]
            {
                &&& unreliable_messages_taken(chain, messages)
                &&& chain[0] == b.receive_unreliable_view()[k]
                &&& chain.last() == a.receive_unreliable_view()[k]
            }
    }
}

/// A reliable slice for channel `channel_id`, taken by its receive channel.
pub open spec fn reliable_slice_branch(b: RenetClient, a: RenetClient, channel_id: u8, slice: SliceView) -> bool {
    let k = channel_id as u64;
    &&& !b.receive_reliable_ids().contains(k) ==> invalid_channel(b, a, channel_id)
    &&& b.receive_reliable_ids().contains(k) ==> {
        &&& a.receive_unreliable_view() == b.receive_unreliable_view()
        &&& a.receive_reliable_view() == b.receive_reliable_view().insert(k, a.receive_reliable_view()[k])
        &&& exists|r: Result<(), ChannelError>|
            #![trigger slice_processed(b.receive_reliable_view()[k], a.receive_reliable_view()[k], slice, r)]
            {
                &&& slice_processed(b.receive_reliable_view()[k], a.receive_reliable_view()[k], slice, r)
                &&& a.disconnect_reason_view() == receive_error(channel_id, err_of(r))
            }
    }
}

/// An unreliable slice for channel `channel_id`, taken by its receive
/// channel.
pub open spec fn unreliable_slice_branch(b: RenetClient, a: RenetClient, channel_id: u8, slice: SliceView) -> bool {
    let k = channel_id as u64;
    &&& !b.receive_unreliable_ids().contains(k) ==> invalid_channel(b, a, channel_id)
    &&& b.receive_unreliable_ids().contains(k) ==> {
        &&& a.receive_reliable_view() == b.receive_reliable_view()
        &&& a.receive_unreliable_view() == b.receive_unreliable_view().insert(k, a.receive_unreliable_view()[k])
        &&& exists|r: Result<(), ChannelError>|
            #![trigger unreliable_slice_processed(b.receive_unreliable_view()[k], a.receive_unreliable_view()[k], slice, b.current_time_view(), r)]
            {
                &&& unreliable_slice_processed(
                    b.receive_unreliable_view()[k],
                    a.receive_unreliable_view()[k],
                    slice,
                    b.current_time_view(),
                    r,
                )
                &&& a.disconnect_reason_view() == receive_error(channel_id, err_of(r))
            }
    }
}

/// `chain` runs the connection from `b` to `a` through the acks of `qs`
/// in turn, giving the round trip times `samples`.
pub open spec fn ack_chain(chain: Seq<RenetClient>, qs: Seq<u64>, b: RenetClient, a: RenetClient, samples: Seq<u64>) -> bool {
    &&& chain.len() == qs.len() + 1
    &&& chain[0] == b
    &&& forall|i: int| #![trigger chain[i]] 0 <= i < qs.len() ==> packet_acked(chain[i], chain[i + 1], qs[i])
    &&& chain.last() == a
    &&& samples == ack_samples(chain, qs, qs.len())
}

/// The acks of an ack packet with `ranges`: every sent packet still
/// waiting whose sequence is in a range, range after range.
pub open spec fn acks_branch(b: RenetClient, a: RenetClient, ranges: Seq<(u64, u64)>, samples: Seq<u64>) -> bool {
    let qs = acks_listed(b.sent_in_order(), ranges);
    exists|chain: Seq<RenetClient>| #![trigger ack_chain(chain, qs, b, a, samples)] ack_chain(chain, qs, b, a, samples)
}

/// What taking the packet in `bytes` does to an open connection, from `b`
/// to `a`, with the round trip times `samples` it gives.
pub open spec fn packet_taken(b: RenetClient, a: RenetClient, bytes: Seq<u8>, samples: Seq<u64>) -> bool {
    match spec_decode(bytes) {
        Err(e) => {
            &&& samples.len() == 0
            &&& a.disconnect_reason_view() == Some(DisconnectReason::PacketDeserialization(e))
            &&& receive_frame(a, b)
            &&& bytes_counted(b.stats_view(), a.stats_view(), bytes.len())
            &&& a.pending_acks_view() == b.pending_acks_view()
            &&& a.receive_reliable_view() == b.receive_reliable_view()
            &&& a.receive_unreliable_view() == b.receive_unreliable_view()
        },
        Ok(PacketView::Ack { sequence, ack_ranges }) => exists|mid: RenetClient|
            #![trigger packet_arrived(b, mid, bytes.len(), sequence)]
            packet_arrived(b, mid, bytes.len(), sequence) && acks_branch(mid, a, ack_ranges, samples),
        Ok(p) => {
            &&& samples.len() == 0
            &&& receive_frame(a, b)
            &&& bytes_counted(b.stats_view(), a.stats_view(), bytes.len())
            &&& ack_added(b.pending_acks_view(), a.pending_acks_view(), packet_sequence_of(p))
            &&& match p {
                PacketView::SmallReliable { channel_id, messages, .. } => reliable_messages_branch(b, a, channel_id, messages),
                PacketView::SmallUnreliable { channel_id, messages, .. } => unreliable_messages_branch(b, a, channel_id, messages),
                PacketView::ReliableSlice { channel_id, slice, .. } => reliable_slice_branch(b, a, channel_id, slice),
                PacketView::UnreliableSlice { channel_id, slice, .. } => unreliable_slice_branch(b, a, channel_id, slice),
                PacketView::Ack { .. } => true,
            }
        },
    }
}

/// The round trip times through two chains that agree on their first `n`
/// states are the same.
proof fn lemma_ack_samples_agree(c1: Seq<RenetClient>, c2: Seq<RenetClient>, qs: Seq<u64>, n: nat)
    requires
        n <= c1.len(),
        n <= c2.len(),
        forall|i: int| 0 <= i < n ==> c1[i] == c2[i],
    ensures
        ack_samples(c1, qs, n) == ack_samples(c2, qs, n),
    decreases n,
{
    if n > 0 {
        lemma_ack_samples_agree(c1, c2, qs, (n - 1) as nat);
    }
}

/// Packets larger than this are refused when written.
pub const MAX_PACKET_BYTES: usize = 1400;

/// Packing progress over the send channels: the packets made so far, the
/// next sequence, the bytes still allowed, the unacked messages of each
/// reliable channel (in id order), the queue and next sliced message id of
/// each unreliable channel, and whether every number stayed in range.
pub ghost struct ClientPack {
    pub packets: Seq<PacketView>,
    pub seq: int,
    pub avail: int,
    pub reliable: Map<u64, Seq<(u64, UnackedView)>>,
    pub unreliable: Map<u64, (Seq<Seq<u8>>, u64)>,
    pub ok: bool,
}

/// Packing starts from what the channels hold.
pub open spec fn client_pack_init(
    rel: Map<u64, SendChannelReliable>,
    unrel: Map<u64, SendChannelUnreliable>,
    seq: u64,
    avail: u64,
) -> ClientPack {
    ClientPack {
        packets: Seq::empty(),
        seq: seq as int,
        avail: avail as int,
        reliable: rel.map_values(|c: SendChannelReliable| c.unacked_in_order()),
        unreliable: unrel.map_values(|c: SendChannelUnreliable| (c.queued(), c.sliced_message_id_view())),
        ok: true,
    }
}

/// Packing one send channel, as the channel packs itself.
pub open spec fn client_pack_step(
    st: ClientPack,
    order: ChannelOrder,
    rel: Map<u64, SendChannelReliable>,
    unrel: Map<u64, SendChannelUnreliable>,
    now: u64,
) -> ClientPack {
    match order {
        ChannelOrder::Reliable(id) => {
            let k = id as u64;
            let r = reliable_packing(
                st.reliable[k],
                st.seq as u64,
                st.avail as u64,
                now,
                rel[k].resend_time_view(),
                rel[k].channel_id_view(),
            );
            ClientPack {
                packets: st.packets + r.0.packets,
                seq: r.0.seq,
                avail: r.0.avail,
                reliable: st.reliable.insert(k, r.1),
                ok: st.ok && r.0.seq <= u64::MAX,
                ..st
            }
        },
        ChannelOrder::Unreliable(id) => {
            let k = id as u64;
            let f = unreliable_packing(
                st.unreliable[k].0,
                st.seq as u64,
                st.unreliable[k].1,
                st.avail as u64,
                unrel[k].channel_id_view(),
            );
            ClientPack {
                packets: st.packets + f.packets,
                seq: f.seq,
                avail: f.avail,
                unreliable: st.unreliable.insert(k, (Seq::empty(), f.sliced_id as u64)),
                ok: st.ok && f.seq <= u64::MAX && f.sliced_id <= u64::MAX,
                ..st
            }
        },
    }
}

/// Packing the first `n` channels of the send order.
pub open spec fn client_pack_upto(
    order: Seq<ChannelOrder>,
    n: nat,
    rel: Map<u64, SendChannelReliable>,
    unrel: Map<u64, SendChannelUnreliable>,
    seq: u64,
    avail: u64,
    now: u64,
) -> ClientPack
    decreases n,
{
    if n == 0 || n > order.len() {
        client_pack_init(rel, unrel, seq, avail)
    } else {
        client_pack_step(client_pack_upto(order, (n - 1) as nat, rel, unrel, seq, avail, now), order[n - 1], rel, unrel, now)
    }
}

proof fn lemma_pack_ok_prefix(
    order: Seq<ChannelOrder>,
    i: nat,
    n: nat,
    rel: Map<u64, SendChannelReliable>,
    unrel: Map<u64, SendChannelUnreliable>,
    seq: u64,
    avail: u64,
    now: u64,
)
    requires
        i <= n <= order.len(),
        client_pack_upto(order, n, rel, unrel, seq, avail, now).ok,
    ensures
        client_pack_upto(order, i, rel, unrel, seq, avail, now).ok,
    decreases n,
{
    if i < n {
        lemma_pack_ok_prefix(order, i, (n - 1) as nat, rel, unrel, seq, avail, now);
    }
}

/// A packet of a reliable channel of `rel` carries that channel's messages
/// as they are (see `packet_refs`); any other packet passes.
pub open spec fn carried_by(p: PacketView, rel: Map<u64, SendChannelReliable>) -> bool {
    match p {
        PacketView::SmallReliable { channel_id, .. } => rel.dom().contains(channel_id as u64) && packet_refs(
            p,
            rel[channel_id as u64].unacked(),
            channel_id,
        ),
        PacketView::ReliableSlice { channel_id, .. } => rel.dom().contains(channel_id as u64) && packet_refs(
            p,
            rel[channel_id as u64].unacked(),
            channel_id,
        ),
        _ => true,
    }
}

proof fn lemma_client_pack_carries(
    order: Seq<ChannelOrder>,
    n: nat,
    rel: Map<u64, SendChannelReliable>,
    unrel: Map<u64, SendChannelUnreliable>,
    seq: u64,
    avail: u64,
    now: u64,
)
    requires
        n <= order.len(),
        forall|k: u64| #[trigger] rel.dom().contains(k) ==> rel[k].wf() && rel[k].channel_id_view() as u64 == k,
        forall|i: int| 0 <= i < order.len() ==> (#[trigger] order[i] matches ChannelOrder::Reliable(id) ==> rel.dom().contains(
            id as u64,
        )),
    ensures
        ({
            let st = client_pack_upto(order, n, rel, unrel, seq, avail, now);
            &&& forall|k: u64| #[trigger] rel.dom().contains(k) ==> st.reliable.dom().contains(k) && entries_match(
                st.reliable[k],
                rel[k].unacked(),
            ) && forall|i: int| 0 <= i < st.reliable[k].len() ==> unacked_wf(#[trigger] st.reliable[k][i].1)
            &&& forall|i: int| 0 <= i < st.packets.len() ==> carried_by(#[trigger] st.packets[i], rel)
        }),
    decreases n,
{
    if n == 0 {
        let st = client_pack_init(rel, unrel, seq, avail);
        assert forall|k: u64| #[trigger] rel.dom().contains(k) implies st.reliable.dom().contains(k) && entries_match(
            st.reliable[k],
            rel[k].unacked(),
        ) && forall|i: int| 0 <= i < st.reliable[k].len() ==> unacked_wf(#[trigger] st.reliable[k][i].1) by {
            rel[k].lemma_entries_of();
        }
    } else {
        lemma_client_pack_carries(order, (n - 1) as nat, rel, unrel, seq, avail, now);
        let prev = client_pack_upto(order, (n - 1) as nat, rel, unrel, seq, avail, now);
        let st = client_pack_upto(order, n, rel, unrel, seq, avail, now);
        assert(st == client_pack_step(prev, order[n - 1], rel, unrel, now));
        match order[n - 1] {
            ChannelOrder::Reliable(id) => {
                let k = id as u64;
                assert(rel.dom().contains(k));
                lemma_packing_carries(
                    prev.reliable[k],
                    rel[k].unacked(),
                    prev.seq as u64,
                    prev.avail as u64,
                    now,
                    rel[k].resend_time_view(),
                    rel[k].channel_id_view(),
                );
                let r = reliable_packing(
                    prev.reliable[k],
                    prev.seq as u64,
                    prev.avail as u64,
                    now,
                    rel[k].resend_time_view(),
                    rel[k].channel_id_view(),
                );
                assert(rel[k].channel_id_view() == id);
                assert forall|i: int| 0 <= i < st.packets.len() implies carried_by(#[trigger] st.packets[i], rel) by {
                    if i < prev.packets.len() {
                        assert(st.packets[i] == prev.packets[i]);
                    } else {
                        assert(st.packets[i] == r.0.packets[i - prev.packets.len()]);
                        assert(packet_refs(r.0.packets[i - prev.packets.len()], rel[k].unacked(), id));
                    }
                }
            },
            ChannelOrder::Unreliable(id) => {
                let k = id as u64;
                lemma_unreliable_packing_kinds(
                    prev.unreliable[k].0,
                    prev.seq as u64,
                    prev.unreliable[k].1,
                    prev.avail as u64,
                    unrel[k].channel_id_view(),
                );
                let f = unreliable_packing(
                    prev.unreliable[k].0,
                    prev.seq as u64,
                    prev.unreliable[k].1,
                    prev.avail as u64,
                    unrel[k].channel_id_view(),
                );
                assert forall|i: int| 0 <= i < st.packets.len() implies carried_by(#[trigger] st.packets[i], rel) by {
                    if i < prev.packets.len() {
                        assert(st.packets[i] == prev.packets[i]);
                    } else {
                        assert(st.packets[i] == f.packets[i - prev.packets.len()]);
                    }
                }
            },
        }
    }
}

/// What a sent packet carried, with its message ids as a sequence.
pub ghost enum InfoView {
    Untracked,
    ReliableMessages { channel_id: u8, message_ids: Seq<u64> },
    ReliableSliceMessage { channel_id: u8, message_id: u64, slice_index: usize },
    Ack { largest_acked_packet: u64 },
}

pub open spec fn info_view(info: PacketSentInfo) -> InfoView {
    match info {
        PacketSentInfo::Untracked => InfoView::Untracked,
        PacketSentInfo::ReliableMessages { channel_id, message_ids } => InfoView::ReliableMessages {
            channel_id,
            message_ids: message_ids@,
        },
        PacketSentInfo::ReliableSliceMessage { channel_id, message_id, slice_index } => InfoView::ReliableSliceMessage {
            channel_id,
            message_id,
            slice_index,
        },
        PacketSentInfo::Ack { largest_acked_packet } => InfoView::Ack { largest_acked_packet },
    }
}

/// What is kept of a sent packet until it is acknowledged: the ids of its
/// small reliable messages, its reliable slice, or the largest sequence
/// its ack ranges acknowledged.
pub open spec fn packet_info(p: PacketView) -> InfoView {
    match p {
        PacketView::SmallReliable { channel_id, messages, .. } => InfoView::ReliableMessages {
            channel_id,
            message_ids: messages.map_values(|m: (u64, Seq<u8>)| m.0),
        },
        PacketView::ReliableSlice { channel_id, slice, .. } => InfoView::ReliableSliceMessage {
            channel_id,
            message_id: slice.message_id,
            slice_index: slice.slice_index,
        },
        PacketView::Ack { ack_ranges, .. } => InfoView::Ack {
            largest_acked_packet: (ack_ranges.last().1 - 1) as u64,
        },
        _ => InfoView::Untracked,
    }
}

/// The sent packets `m` once `ps` are recorded as sent at `now`.
pub open spec fn record_sent(m: Map<u64, (u64, InfoView)>, ps: Seq<PacketView>, now: u64) -> Map<u64, (u64, InfoView)>
    decreases ps.len(),
{
    if ps.len() == 0 {
        m
    } else {
        record_sent(m, ps.drop_last(), now).insert(packet_sequence_of(ps.last()), (now, packet_info(ps.last())))
    }
}

/// Total bytes of the packets once written.
pub open spec fn total_encoded(ps: Seq<PacketView>) -> nat
    decreases ps.len(),
{
    if ps.len() == 0 {
        0
    } else {
        total_encoded(ps.drop_last()) + spec_encode(ps.last()).len()
    }
}

/// Every packet fits in `MAX_PACKET_BYTES` once written.
pub open spec fn all_fit(ps: Seq<PacketView>) -> bool {
    forall|i: int| 0 <= i < ps.len() ==> (#[trigger] spec_encode(ps[i])).len() <= MAX_PACKET_BYTES
}

/// The packets, written.
pub open spec fn encoded_all(ps: Seq<PacketView>) -> Seq<Seq<u8>> {
    ps.map_values(|p: PacketView| spec_encode(p))
}

/// The view of each buffer.
pub open spec fn buffers_view(bs: Seq<Vec<u8>>) -> Seq<Seq<u8>> {
    bs.map_values(|b: Vec<u8>| b@)
}

/// A packet about to be recorded as sent agrees with the reliable send
/// channels, as `info_consistent` asks of recorded ones.
pub open spec fn packet_info_ok(p: PacketView, channels: Map<u64, SendChannelReliable>) -> bool {
    match p {
        PacketView::SmallReliable { channel_id, messages, .. } => {
            &&& channels.dom().contains(channel_id as u64)
            &&& forall|j: int|
                0 <= j < messages.len() ==> #[trigger] messages[j].0 < channels[channel_id as u64].next_message_id()
                    && (channels[channel_id as u64].unacked().dom().contains(messages[j].0)
                    ==> channels[channel_id as u64].unacked()[messages[j].0] is Small)
        },
        PacketView::ReliableSlice { channel_id, slice, .. } => {
            &&& channels.dom().contains(channel_id as u64)
            &&& slice.message_id < channels[channel_id as u64].next_message_id()
            &&& channels[channel_id as u64].unacked().dom().contains(slice.message_id) ==> (
            channels[channel_id as u64].unacked()[slice.message_id] matches UnackedView::Sliced {
                num_slices,
                ..
            } && slice.slice_index < num_slices)
        },
        PacketView::Ack { ack_ranges, .. } => ack_ranges.len() > 0 && ack_ranges.last().1 >= 1,
        _ => true,
    }
}

proof fn lemma_packet_info_kept(p: PacketView, before: Map<u64, SendChannelReliable>, after: Map<u64, SendChannelReliable>)
    requires
        packet_info_ok(p, before),
        after.dom() == before.dom(),
        forall|k: u64| #[trigger] after.dom().contains(k) ==> after[k].next_message_id() == before[k].next_message_id()
            && shapes_kept(before[k].unacked(), after[k].unacked()),
    ensures
        packet_info_ok(p, after),
{
    match p {
        PacketView::SmallReliable { channel_id, messages, .. } => {
            let c = channel_id as u64;
            assert(after.dom().contains(c));
            assert forall|j: int| 0 <= j < messages.len() implies #[trigger] messages[j].0 < after[c].next_message_id()
                && (after[c].unacked().dom().contains(messages[j].0) ==> after[c].unacked()[messages[j].0] is Small) by {
                let m = messages[j].0;
                if after[c].unacked().dom().contains(m) {
                    assert(before[c].unacked().dom().contains(m));
                    assert(same_shape(after[c].unacked()[m], before[c].unacked()[m]));
                }
            }
        },
        PacketView::ReliableSlice { channel_id, slice, .. } => {
            let c = channel_id as u64;
            assert(after.dom().contains(c));
            if after[c].unacked().dom().contains(slice.message_id) {
                assert(before[c].unacked().dom().contains(slice.message_id));
                assert(same_shape(after[c].unacked()[slice.message_id], before[c].unacked()[slice.message_id]));
            }
        },
        _ => {},
    }
}

/// The stats after `n` packets of `bytes` bytes in all were sent: counted
/// in the current bucket.
pub open spec fn sends_counted(b: ConnectionStats, a: ConnectionStats, n: nat, bytes: nat) -> bool {
    &&& a.current_index == b.current_index
    &&& a.packets_sent@ == b.packets_sent@.update(
        b.current_index as int,
        (b.packets_sent@[b.current_index as int] + n) as u64,
    )
    &&& a.bytes_sent@ == b.bytes_sent@.update(b.current_index as int, (b.bytes_sent@[b.current_index as int] + bytes) as u64)
    &&& a.packets_acked@ == b.packets_acked@
    &&& a.bytes_received@ == b.bytes_received@
}

/// What making the packets to send does to an open connection, from `b`
/// to `a`, with the written packets `bufs`: the channels packed as
/// `packing` says, the planned packets recorded as sent now, and, when
/// they all fit, written and counted; else the connection closes and
/// nothing is sent.
pub open spec fn packets_made(b: RenetClient, a: RenetClient, bufs: Seq<Seq<u8>>) -> bool {
    let fin = b.packing();
    let planned = b.planned_packets();
    &&& a.packet_sequence_view() == (if b.pending_acks_view().len() > 0 {
        fin.seq + 1
    } else {
        fin.seq
    })
    &&& a.send_reliable_view().dom() == b.send_reliable_view().dom()
    &&& forall|k: u64| #[trigger] a.send_reliable_view().dom().contains(k) ==> {
        let c = b.send_reliable_view()[k];
        let c2 = a.send_reliable_view()[k];
        &&& c2.unacked_in_order() == fin.reliable[k]
        &&& c2.unacked().dom() == c.unacked().dom()
        &&& c2.next_message_id() == c.next_message_id()
        &&& c2.memory_usage_view() == c.memory_usage_view()
        &&& c2.max_memory_view() == c.max_memory_view()
        &&& c2.resend_time_view() == c.resend_time_view()
        &&& c2.channel_id_view() == c.channel_id_view()
    }
    &&& a.send_unreliable_view().dom() == b.send_unreliable_view().dom()
    &&& forall|k: u64| #[trigger] a.send_unreliable_view().dom().contains(k) ==> {
        let c = b.send_unreliable_view()[k];
        let c2 = a.send_unreliable_view()[k];
        &&& c2.queued() == fin.unreliable[k].0
        &&& c2.sliced_message_id_view() == fin.unreliable[k].1
        &&& c2.max_memory_view() == c.max_memory_view()
        &&& c2.channel_id_view() == c.channel_id_view()
    }
    &&& a.sent_records() == record_sent(b.sent_records(), planned, b.current_time_view())
    &&& a.current_time_view() == b.current_time_view()
    &&& a.pending_acks_view() == b.pending_acks_view()
    &&& a.largest_acked_view() == b.largest_acked_view()
    &&& a.receive_reliable_view() == b.receive_reliable_view()
    &&& a.receive_unreliable_view() == b.receive_unreliable_view()
    &&& a.send_order_view() == b.send_order_view()
    &&& a.available_bytes_view() == b.available_bytes_view()
    &&& all_fit(planned) ==> {
        &&& bufs == encoded_all(planned)
        &&& a.disconnect_reason_view() == b.disconnect_reason_view()
        &&& sends_counted(b.stats_view(), a.stats_view(), planned.len(), total_encoded(planned))
    }
    &&& !all_fit(planned) ==> {
        &&& bufs.len() == 0
        &&& a.disconnect_reason_view() == Some(
            DisconnectReason::PacketSerialization(SerializationError::BufferTooShort),
        )
        &&& a.stats_view() == b.stats_view()
    }
}

proof fn lemma_total_encoded_prefix(ps: Seq<PacketView>, t: nat)
    requires
        t <= ps.len(),
    ensures
        total_encoded(ps.take(t as int)) <= total_encoded(ps),
    decreases ps.len() - t,
{
    if t < ps.len() {
        lemma_total_encoded_prefix(ps, t + 1);
        assert(ps.take((t + 1) as int).drop_last() =~= ps.take(t as int));
        assert(total_encoded(ps.take((t + 1) as int)) == total_encoded(ps.take(t as int)) + spec_encode(
            ps.take((t + 1) as int).last(),
        ).len());
    } else {
        assert(ps.take(t as int) =~= ps);
    }
}

proof fn lemma_info_from_packet(info: PacketSentInfo, p: PacketView, rel: Map<u64, SendChannelReliable>)
    requires
        packet_info_ok(p, rel),
        info_view(info) == packet_info(p),
    ensures
        info_consistent(info, rel),
{
    match p {
        PacketView::SmallReliable { channel_id, messages, .. } => {
            match info {
                PacketSentInfo::ReliableMessages { message_ids, .. } => {
                    let c = channel_id as u64;
                    assert forall|i: int| 0 <= i < message_ids@.len() implies #[trigger] message_ids@[i] < rel[c].next_message_id()
                        && (rel[c].unacked().dom().contains(message_ids@[i]) ==> rel[c].unacked()[message_ids@[i]] is Small) by {
                        assert(message_ids@[i] == messages[i].0);
                    }
                },
                _ => {},
            }
        },
        _ => {},
    }
}

/// What queueing `message` on send channel `channel_id` does, from
/// `before` to `after`; see `RenetClient::send_message`.
pub open spec fn message_queued(before: RenetClient, after: RenetClient, channel_id: u8, message: Seq<u8>) -> bool {
    &&& (before.disconnect_reason_view() is Some ==> after == before)
    &&& (before.disconnect_reason_view() is None ==> after.same_but_send(&before))
    &&& (before.disconnect_reason_view() is None && before.send_reliable_ids().contains(channel_id as u64) ==> ({
                let k = channel_id as u64;
                let c = before.send_reliable_view()[k];
                let c2 = after.send_reliable_view()[k];
                &&& after.send_unreliable_view() == before.send_unreliable_view()
                &&& after.send_reliable_view().dom() == before.send_reliable_view().dom()
                &&& after.send_reliable_view().remove(k) == before.send_reliable_view().remove(k)
                &&& c.memory_usage_view() + message.len() > c.max_memory_view() ==> {
                    &&& c2 == c
                    &&& after.disconnect_reason_view() == Some(
                        DisconnectReason::SendChannelError {
                            channel_id,
                            error: ChannelError::ReliableChannelMaxMemoryReached,
                        },
                    )
                }
                &&& c.memory_usage_view() + message.len() <= c.max_memory_view() ==> {
                    &&& after.disconnect_reason_view() is None
                    &&& c2.unacked() == c.unacked().insert(c.next_message_id(), new_unacked(message))
                    &&& c2.unacked_in_order() == c.unacked_in_order().push((c.next_message_id(), new_unacked(message)))
                    &&& c2.next_message_id() == c.next_message_id() + 1
                    &&& c2.memory_usage_view() == c.memory_usage_view() + message.len()
                    &&& c2.max_memory_view() == c.max_memory_view()
                    &&& c2.resend_time_view() == c.resend_time_view()
                    &&& c2.channel_id_view() == c.channel_id_view()
                }
            }))
    &&& (before.disconnect_reason_view() is None && !before.send_reliable_ids().contains(channel_id as u64) ==> ({
                let k = channel_id as u64;
                let c = before.send_unreliable_view()[k];
                let c2 = after.send_unreliable_view()[k];
                &&& after.disconnect_reason_view() is None
                &&& after.send_reliable_view() == before.send_reliable_view()
                &&& after.send_unreliable_view().dom() == before.send_unreliable_view().dom()
                &&& after.send_unreliable_view().remove(k) == before.send_unreliable_view().remove(k)
                &&& c2.channel_id_view() == c.channel_id_view()
                &&& c2.sliced_message_id_view() == c.sliced_message_id_view()
                &&& c2.max_memory_view() == c.max_memory_view()
                &&& c.memory_usage() + message.len() > c.max_memory_view() ==> c2.queued() == c.queued()
                &&& c.memory_usage() + message.len() <= c.max_memory_view() ==> c2.queued() == c.queued().push(message)
            }))
}

/// What moving the clock `duration` nanoseconds on does, from `before`
/// to `after`; see `RenetClient::advance_time`.
pub open spec fn time_advanced(before: RenetClient, after: RenetClient, duration: u64) -> bool {
    &&& (after.current_time_view() == before.current_time_view() + duration)
    &&& (after.sent_in_order() == before.sent_in_order().skip(
        lost_prefix(before.sent_in_order(), before.largest_acked_view(), after.current_time_view()) as int,
    ))
    &&& (after.stats_view().current_index == spec_index(after.current_time_view()))
    &&& (after.disconnect_reason_view() == before.disconnect_reason_view())
    &&& (after.packet_sequence_view() == before.packet_sequence_view())
    &&& (after.largest_acked_view() == before.largest_acked_view())
    &&& (after.pending_acks_view() == before.pending_acks_view())
    &&& (after.send_reliable_view() == before.send_reliable_view())
    &&& (after.send_unreliable_view() == before.send_unreliable_view())
    &&& (after.receive_reliable_view() == before.receive_reliable_view())
    &&& (after.receive_unreliable_view() == before.receive_unreliable_view())
}

/// What taking the next message of receive channel `channel_id` does,
/// from `before` to `after`, with the message `r`; see
/// `RenetClient::receive_message`.
pub open spec fn message_taken(before: RenetClient, after: RenetClient, channel_id: u8, r: Option<Seq<u8>>) -> bool {
    &&& (before.disconnect_reason_view() is Some ==> r is None && after == before)
    &&& (before.disconnect_reason_view() is None ==> after.same_but_receive(&before))
    &&& (before.disconnect_reason_view() is None && before.receive_reliable_ids().contains(channel_id as u64) ==> ({
                let k = channel_id as u64;
                let c = before.receive_reliable_view()[k];
                let c2 = after.receive_reliable_view()[k];
                &&& after.receive_unreliable_view() == before.receive_unreliable_view()
                &&& after.receive_reliable_view().dom() == before.receive_reliable_view().dom()
                &&& after.receive_reliable_view().remove(k) == before.receive_reliable_view().remove(k)
                &&& c2.pending() == c.pending()
                &&& c2.max_memory_view() == c.max_memory_view()
                &&& received_from(c, c2, r)
            }))
    &&& (before.disconnect_reason_view() is None && !before.receive_reliable_ids().contains(channel_id as u64) ==> ({
                let k = channel_id as u64;
                let c = before.receive_unreliable_view()[k];
                let c2 = after.receive_unreliable_view()[k];
                &&& after.receive_reliable_view() == before.receive_reliable_view()
                &&& after.receive_unreliable_view().dom() == before.receive_unreliable_view().dom()
                &&& after.receive_unreliable_view().remove(k) == before.receive_unreliable_view().remove(k)
                &&& c2.pending() == c.pending()
                &&& c2.last_received() == c.last_received()
                &&& c2.max_memory_view() == c.max_memory_view()
                &&& c.messages_view().len() == 0 ==> r is None && c2.messages_view() == c.messages_view()
                &&& c.messages_view().len() > 0 ==> (r matches Some(m) && m == c.messages_view()[0])
                    && c2.messages_view() == c.messages_view().drop_first()
            }))
}

impl RenetClient {
    pub closed spec fn wf(&self) -> bool {
        &&& self.sent_packets.wf()
        &&& self.send_unreliable_channels.wf()
        &&& self.receive_unreliable_channels.wf()
        &&& self.send_reliable_channels.wf()
        &&& self.receive_reliable_channels.wf()
        &&& self.stats.wf()
        &&& ranges_wf(ranges_view(self.pending_acks@))
        &&& self.largest_acked_packet < u64::MAX
        &&& forall|k: u64| #[trigger] self.send_unreliable_channels@.dom().contains(k) ==> {
            &&& self.send_unreliable_channels@[k].wf()
            &&& self.send_unreliable_channels@[k].channel_id_view() as u64 == k
            &&& forall|i: int| 0 <= i < self.send_unreliable_channels@[k].queued().len()
                ==> #[trigger] self.send_unreliable_channels@[k].queued()[i].len() + SLICE_SIZE <= usize::MAX
        }
        &&& forall|k: u64| #[trigger] self.receive_unreliable_channels@.dom().contains(k) ==> self.receive_unreliable_channels@[k].wf()
        &&& forall|k: u64| #[trigger] self.send_reliable_channels@.dom().contains(k) ==> {
            &&& self.send_reliable_channels@[k].wf()
            &&& self.send_reliable_channels@[k].sent_before(self.current_time)
            &&& self.send_reliable_channels@[k].channel_id_view() as u64 == k
        }
        &&& forall|k: u64| #[trigger] self.receive_reliable_channels@.dom().contains(k) ==> self.receive_reliable_channels@[k].wf()
        &&& forall|i: int| 0 <= i < self.channel_send_order@.len() ==> match #[trigger] self.channel_send_order@[i] {
            ChannelOrder::Reliable(id) => self.send_reliable_channels@.dom().contains(id as u64),
            ChannelOrder::Unreliable(id) => self.send_unreliable_channels@.dom().contains(id as u64),
        }
        &&& self.stats.current_index == spec_index(self.current_time)
        &&& forall|k: u64| #[trigger] self.sent_packets@.dom().contains(k) ==> {
            &&& self.sent_packets@[k].sent_at <= self.current_time
            &&& info_consistent(self.sent_packets@[k].info, self.send_reliable_channels@)
        }
    }

    /// The sequence numbers received and still to acknowledge.
    pub closed spec fn pending_acks_view(&self) -> Seq<(u64, u64)> {
        ranges_view(self.pending_acks@)
    }

    pub closed spec fn disconnect_reason_view(&self) -> Option<DisconnectReason> {
        self.disconnect_reason
    }

    pub closed spec fn current_time_view(&self) -> u64 {
        self.current_time
    }

    pub closed spec fn packet_sequence_view(&self) -> u64 {
        self.packet_sequence
    }

    pub closed spec fn largest_acked_view(&self) -> u64 {
        self.largest_acked_packet
    }

    /// The packets sent and not yet acknowledged or lost, by sequence.
    pub closed spec fn sent_view(&self) -> Map<u64, PacketSent> {
        self.sent_packets@
    }

    pub closed spec fn send_reliable_ids(&self) -> Set<u64> {
        self.send_reliable_channels@.dom()
    }

    pub closed spec fn send_unreliable_ids(&self) -> Set<u64> {
        self.send_unreliable_channels@.dom()
    }

    pub closed spec fn receive_reliable_ids(&self) -> Set<u64> {
        self.receive_reliable_channels@.dom()
    }

    pub closed spec fn receive_unreliable_ids(&self) -> Set<u64> {
        self.receive_unreliable_channels@.dom()
    }

    pub closed spec fn available_bytes_view(&self) -> u64 {
        self.available_bytes_per_tick
    }

    /// The packets sent and not yet acknowledged or lost, in sequence order.
    pub closed spec fn sent_in_order(&self) -> Seq<(u64, PacketSent)> {
        self.sent_packets.entries_view()
    }

    pub closed spec fn send_reliable_view(&self) -> Map<u64, SendChannelReliable> {
        self.send_reliable_channels@
    }

    pub closed spec fn send_unreliable_view(&self) -> Map<u64, SendChannelUnreliable> {
        self.send_unreliable_channels@
    }

    pub closed spec fn receive_reliable_view(&self) -> Map<u64, ReceiveChannelReliable> {
        self.receive_reliable_channels@
    }

    pub closed spec fn receive_unreliable_view(&self) -> Map<u64, ReceiveChannelUnreliable> {
        self.receive_unreliable_channels@
    }

    pub closed spec fn stats_view(&self) -> ConnectionStats {
        self.stats
    }

    pub closed spec fn send_order_view(&self) -> Seq<ChannelOrder> {
        self.channel_send_order@
    }

    /// Everything packing the send channels does at this state.
    pub open spec fn packing(&self) -> ClientPack {
        client_pack_upto(
            self.send_order_view(),
            self.send_order_view().len(),
            self.send_reliable_view(),
            self.send_unreliable_view(),
            self.packet_sequence_view(),
            self.available_bytes_view(),
            self.current_time_view(),
        )
    }

    /// The packets `get_packets_to_send` makes: those of the channels, in
    /// send order, then an ack packet for the pending acks, if any.
    pub open spec fn planned_packets(&self) -> Seq<PacketView> {
        let fin = self.packing();
        if self.pending_acks_view().len() > 0 {
            fin.packets.push(PacketView::Ack { sequence: fin.seq as u64, ack_ranges: self.pending_acks_view() })
        } else {
            fin.packets
        }
    }

    /// The sent packets, with what each carried.
    pub open spec fn sent_records(&self) -> Map<u64, (u64, InfoView)> {
        self.sent_view().map_values(|p: PacketSent| (p.sent_at, info_view(p.info)))
    }

    /// Sending a message of `len` bytes on channel `channel_id` cannot
    /// fail: on an open connection the channel exists, and a reliable one
    /// has a message id left; the message fits the slicing arithmetic.
    pub open spec fn can_send(&self, channel_id: u8, len: nat) -> bool {
        &&& self.disconnect_reason_view() is None ==> self.send_reliable_ids().contains(channel_id as u64)
            || self.send_unreliable_ids().contains(channel_id as u64)
        &&& self.disconnect_reason_view() is None && self.send_reliable_ids().contains(channel_id as u64)
            ==> self.send_reliable_view()[channel_id as u64].next_message_id() < u64::MAX
        &&& len + SLICE_SIZE <= usize::MAX
    }

    /// Taking a message from channel `channel_id` cannot fail: on an open
    /// connection the channel exists, and a reliable one has message ids
    /// left.
    pub open spec fn can_receive(&self, channel_id: u8) -> bool {
        &&& self.disconnect_reason_view() is None ==> self.receive_reliable_ids().contains(channel_id as u64)
            || self.receive_unreliable_ids().contains(channel_id as u64)
        &&& self.disconnect_reason_view() is None && self.receive_reliable_ids().contains(channel_id as u64)
            ==> self.receive_reliable_view()[channel_id as u64].oldest() + self.receive_reliable_view()[channel_id
            as u64].tracked_ids() < u64::MAX
    }

    /// Taking the packet in `bytes` cannot overflow a counter: the byte
    /// count of this second and the ack counts have room.
    pub open spec fn can_take_packet(&self, bytes: Seq<u8>) -> bool {
        &&& self.disconnect_reason_view() is None ==> self.stats_view().bytes_received@[self.stats_view().current_index as int]
            + bytes.len() <= u64::MAX
        &&& self.disconnect_reason_view() is None ==> forall|i: int|
            0 <= i < SIZE ==> #[trigger] self.stats_view().packets_acked@[i] + self.sent_view().dom().len() <= u64::MAX
    }

    /// Making the packets to send cannot fail: every sequence number and
    /// message id stays in range, every packet can be written, and the
    /// counters have room.
    pub open spec fn can_make_packets(&self) -> bool {
        self.disconnect_reason_view() is None ==> {
            let planned = self.planned_packets();
            let ci = self.stats_view().current_index as int;
            &&& self.packing().ok
            &&& self.pending_acks_view().len() > 0 ==> self.packing().seq < u64::MAX
            &&& forall|i: int| 0 <= i < planned.len() ==> spec_writable(#[trigger] planned[i])
            &&& forall|k: u64, m: u64|
                self.send_reliable_view().dom().contains(k) && #[trigger] self.send_reliable_view()[k].unacked().dom().contains(m)
                    ==> m <= MAX_VAR_INT
            &&& self.stats_view().packets_sent@[ci] + planned.len() <= u64::MAX
            &&& self.stats_view().bytes_sent@[ci] + total_encoded(planned) <= u64::MAX
        }
    }

    /// `self` and `other` agree on all but the send channels and the
    /// disconnect reason.
    pub open spec fn same_but_send(&self, other: &Self) -> bool {
        &&& self.current_time_view() == other.current_time_view()
        &&& self.packet_sequence_view() == other.packet_sequence_view()
        &&& self.largest_acked_view() == other.largest_acked_view()
        &&& self.pending_acks_view() == other.pending_acks_view()
        &&& self.sent_in_order() == other.sent_in_order()
        &&& self.sent_view() == other.sent_view()
        &&& self.receive_reliable_view() == other.receive_reliable_view()
        &&& self.receive_unreliable_view() == other.receive_unreliable_view()
        &&& self.stats_view() == other.stats_view()
        &&& self.send_order_view() == other.send_order_view()
        &&& self.available_bytes_view() == other.available_bytes_view()
    }

    /// `self` and `other` agree on all but the pending acks and the largest
    /// acked sequence.
    pub open spec fn same_but_acks(&self, other: &Self) -> bool {
        &&& self.current_time_view() == other.current_time_view()
        &&& self.packet_sequence_view() == other.packet_sequence_view()
        &&& self.sent_in_order() == other.sent_in_order()
        &&& self.sent_view() == other.sent_view()
        &&& self.send_reliable_view() == other.send_reliable_view()
        &&& self.send_unreliable_view() == other.send_unreliable_view()
        &&& self.receive_reliable_view() == other.receive_reliable_view()
        &&& self.receive_unreliable_view() == other.receive_unreliable_view()
        &&& self.stats_view() == other.stats_view()
        &&& self.send_order_view() == other.send_order_view()
        &&& self.available_bytes_view() == other.available_bytes_view()
        &&& self.disconnect_reason_view() == other.disconnect_reason_view()
    }

    /// `self` and `other` agree on all but the disconnect reason.
    pub open spec fn same_but_reason(&self, other: &Self) -> bool {
        &&& self.current_time_view() == other.current_time_view()
        &&& self.packet_sequence_view() == other.packet_sequence_view()
        &&& self.largest_acked_view() == other.largest_acked_view()
        &&& self.pending_acks_view() == other.pending_acks_view()
        &&& self.sent_in_order() == other.sent_in_order()
        &&& self.sent_view() == other.sent_view()
        &&& self.send_reliable_view() == other.send_reliable_view()
        &&& self.send_unreliable_view() == other.send_unreliable_view()
        &&& self.receive_reliable_view() == other.receive_reliable_view()
        &&& self.receive_unreliable_view() == other.receive_unreliable_view()
        &&& self.stats_view() == other.stats_view()
        &&& self.send_order_view() == other.send_order_view()
        &&& self.available_bytes_view() == other.available_bytes_view()
    }

    /// `self` and `other` agree on all but the sent packets.
    pub open spec fn same_but_sent(&self, other: &Self) -> bool {
        &&& self.current_time_view() == other.current_time_view()
        &&& self.packet_sequence_view() == other.packet_sequence_view()
        &&& self.largest_acked_view() == other.largest_acked_view()
        &&& self.pending_acks_view() == other.pending_acks_view()
        &&& self.send_reliable_view() == other.send_reliable_view()
        &&& self.send_unreliable_view() == other.send_unreliable_view()
        &&& self.receive_reliable_view() == other.receive_reliable_view()
        &&& self.receive_unreliable_view() == other.receive_unreliable_view()
        &&& self.stats_view() == other.stats_view()
        &&& self.send_order_view() == other.send_order_view()
        &&& self.available_bytes_view() == other.available_bytes_view()
        &&& self.disconnect_reason_view() == other.disconnect_reason_view()
    }

    /// `self` and `other` agree on all but the receive channels.
    pub open spec fn same_but_receive(&self, other: &Self) -> bool {
        &&& self.current_time_view() == other.current_time_view()
        &&& self.packet_sequence_view() == other.packet_sequence_view()
        &&& self.largest_acked_view() == other.largest_acked_view()
        &&& self.pending_acks_view() == other.pending_acks_view()
        &&& self.sent_in_order() == other.sent_in_order()
        &&& self.sent_view() == other.sent_view()
        &&& self.send_reliable_view() == other.send_reliable_view()
        &&& self.send_unreliable_view() == other.send_unreliable_view()
        &&& self.stats_view() == other.stats_view()
        &&& self.send_order_view() == other.send_order_view()
        &&& self.available_bytes_view() == other.available_bytes_view()
        &&& self.disconnect_reason_view() == other.disconnect_reason_view()
    }

    /// A connection with the given channels, none of which holds anything.
    pub fn new(config: ConnectionConfig) -> (r: Self)
        requires
            ids_unique(config.client_channels_config@),
            ids_unique(config.server_channels_config@),
        ensures
            r.wf(),
            r.disconnect_reason_view() is None,
            r.current_time_view() == 0,
            r.packet_sequence_view() == 0,
            r.pending_acks_view() == Seq::<(u64, u64)>::empty(),
            r.sent_view() == Map::<u64, PacketSent>::empty(),
            r.available_bytes_view() == config.available_bytes_per_tick,
    {
        Self::from_channels(
            config.available_bytes_per_tick,
            config.client_channels_config,
            config.server_channels_config,
        )
    }

    /// The connection a server keeps for a client: the server channels
    /// send and the client channels receive.
    pub fn new_from_server(config: ConnectionConfig) -> (r: Self)
        requires
            ids_unique(config.client_channels_config@),
            ids_unique(config.server_channels_config@),
        ensures
            r.wf(),
            r.disconnect_reason_view() is None,
            r.current_time_view() == 0,
            r.packet_sequence_view() == 0,
            r.pending_acks_view() == Seq::<(u64, u64)>::empty(),
            r.sent_view() == Map::<u64, PacketSent>::empty(),
            r.available_bytes_view() == config.available_bytes_per_tick,
    {
        Self::from_channels(
            config.available_bytes_per_tick,
            config.server_channels_config,
            config.client_channels_config,
        )
    }

    fn from_channels(
        available_bytes_per_tick: u64,
        send_channels_config: Vec<ChannelConfig>,
        receive_channels_config: Vec<ChannelConfig>,
    ) -> (r: Self)
        requires
            ids_unique(send_channels_config@),
            ids_unique(receive_channels_config@),
        ensures
            r.wf(),
            r.disconnect_reason_view() is None,
            r.current_time_view() == 0,
            r.packet_sequence_view() == 0,
            r.pending_acks_view() == Seq::<(u64, u64)>::empty(),
            r.sent_view() == Map::<u64, PacketSent>::empty(),
            r.available_bytes_view() == available_bytes_per_tick,
            forall|i: int| 0 <= i < send_channels_config@.len() ==> match #[trigger] send_channels_config@[i].send_type {
                SendType::Unreliable => r.send_unreliable_ids().contains(send_channels_config@[i].channel_id as u64),
                _ => r.send_reliable_ids().contains(send_channels_config@[i].channel_id as u64),
            },
            forall|i: int| 0 <= i < receive_channels_config@.len() ==> match #[trigger] receive_channels_config@[i].send_type {
                SendType::Unreliable => r.receive_unreliable_ids().contains(receive_channels_config@[i].channel_id as u64),
                _ => r.receive_reliable_ids().contains(receive_channels_config@[i].channel_id as u64),
            },
    {
        let mut send_unreliable_channels: SortedMap<SendChannelUnreliable> = SortedMap::new();
        let mut send_reliable_channels: SortedMap<SendChannelReliable> = SortedMap::new();
        let mut channel_send_order: Vec<ChannelOrder> = Vec::new();
        let mut i: usize = 0;
        while i < send_channels_config.len()
            invariant
                i <= send_channels_config@.len(),
                ids_unique(send_channels_config@),
                send_unreliable_channels.wf(),
                send_reliable_channels.wf(),
                forall|k: u64| #[trigger] send_unreliable_channels@.dom().contains(k) ==> {
                    &&& send_unreliable_channels@[k].wf()
                    &&& send_unreliable_channels@[k].queued().len() == 0
                    &&& send_unreliable_channels@[k].channel_id_view() as u64 == k
                },
                forall|k: u64| #[trigger] send_reliable_channels@.dom().contains(k) ==> {
                    &&& send_reliable_channels@[k].wf()
                    &&& send_reliable_channels@[k].sent_before(0)
                    &&& send_reliable_channels@[k].channel_id_view() as u64 == k
                },
                forall|j: int| 0 <= j < channel_send_order@.len() ==> match #[trigger] channel_send_order@[j] {
                    ChannelOrder::Reliable(id) => send_reliable_channels@.dom().contains(id as u64),
                    ChannelOrder::Unreliable(id) => send_unreliable_channels@.dom().contains(id as u64),
                },
                forall|j: int| 0 <= j < i ==> match #[trigger] send_channels_config@[j].send_type {
                    SendType::Unreliable => send_unreliable_channels@.dom().contains(send_channels_config@[j].channel_id as u64),
                    _ => send_reliable_channels@.dom().contains(send_channels_config@[j].channel_id as u64),
                },
                forall|k: u64| #[trigger] send_unreliable_channels@.dom().contains(k)
                    ==> exists|j: int| 0 <= j < i && #[trigger] send_channels_config@[j].channel_id as u64 == k,
                forall|k: u64| #[trigger] send_reliable_channels@.dom().contains(k)
                    ==> exists|j: int| 0 <= j < i && #[trigger] send_channels_config@[j].channel_id as u64 == k,
            decreases send_channels_config@.len() - i,
        {
            let channel_config = send_channels_config[i];
            let id = channel_config.channel_id as u64;
            proof {
                send_unreliable_channels.lemma_wf();
                send_reliable_channels.lemma_wf();
                assert(!send_unreliable_channels@.dom().contains(id) && !send_reliable_channels@.dom().contains(id)) by {
                    if send_unreliable_channels@.dom().contains(id) || send_reliable_channels@.dom().contains(id) {
                        let j = choose|j: int| 0 <= j < i && #[trigger] send_channels_config@[j].channel_id as u64 == id;
                        assert(send_channels_config@[j].channel_id as u64 == id);
                        assert(send_channels_config@[j].channel_id != send_channels_config@[i as int].channel_id);
                    }
                }
            }
            let ghost before_u = send_unreliable_channels@.dom();
            let ghost before_r = send_reliable_channels@.dom();
            match channel_config.send_type {
                SendType::Unreliable => {
                    let channel = SendChannelUnreliable::new(channel_config.channel_id, channel_config.max_memory_usage_bytes);
                    send_unreliable_channels.insert(id, channel);
                    channel_send_order.push(ChannelOrder::Unreliable(channel_config.channel_id));
                },
                SendType::ReliableOrdered { resend_time } | SendType::ReliableUnordered { resend_time } => {
                    let channel = SendChannelReliable::new(channel_config.channel_id, resend_time, channel_config.max_memory_usage_bytes);
                    send_reliable_channels.insert(id, channel);
                    channel_send_order.push(ChannelOrder::Reliable(channel_config.channel_id));
                },
            }
            proof {
                assert forall|k: u64| #[trigger] send_unreliable_channels@.dom().contains(k)
                    implies exists|j: int| 0 <= j < i + 1 && #[trigger] send_channels_config@[j].channel_id as u64 == k by {
                    if k == id {
                        assert(send_channels_config@[i as int].channel_id as u64 == k);
                    } else {
                        assert(before_u.contains(k));
                        let j = choose|j: int| 0 <= j < i && #[trigger] send_channels_config@[j].channel_id as u64 == k;
                        assert(send_channels_config@[j].channel_id as u64 == k);
                    }
                }
                assert forall|k: u64| #[trigger] send_reliable_channels@.dom().contains(k)
                    implies exists|j: int| 0 <= j < i + 1 && #[trigger] send_channels_config@[j].channel_id as u64 == k by {
                    if k == id {
                        assert(send_channels_config@[i as int].channel_id as u64 == k);
                    } else {
                        assert(before_r.contains(k));
                        let j = choose|j: int| 0 <= j < i && #[trigger] send_channels_config@[j].channel_id as u64 == k;
                        assert(send_channels_config@[j].channel_id as u64 == k);
                    }
                }
            }
            i = i + 1;
        }
        let mut receive_unreliable_channels: SortedMap<ReceiveChannelUnreliable> = SortedMap::new();
        let mut receive_reliable_channels: SortedMap<ReceiveChannelReliable> = SortedMap::new();
        let mut i: usize = 0;
        while i < receive_channels_config.len()
            invariant
                i <= receive_channels_config@.len(),
                ids_unique(receive_channels_config@),
                receive_unreliable_channels.wf(),
                receive_reliable_channels.wf(),
                forall|k: u64| #[trigger] receive_unreliable_channels@.dom().contains(k) ==> receive_unreliable_channels@[k].wf(),
                forall|k: u64| #[trigger] receive_reliable_channels@.dom().contains(k) ==> receive_reliable_channels@[k].wf(),
                forall|j: int| 0 <= j < i ==> match #[trigger] receive_channels_config@[j].send_type {
                    SendType::Unreliable => receive_unreliable_channels@.dom().contains(receive_channels_config@[j].channel_id as u64),
                    _ => receive_reliable_channels@.dom().contains(receive_channels_config@[j].channel_id as u64),
                },
                forall|k: u64| #[trigger] receive_unreliable_channels@.dom().contains(k)
                    ==> exists|j: int| 0 <= j < i && #[trigger] receive_channels_config@[j].channel_id as u64 == k,
                forall|k: u64| #[trigger] receive_reliable_channels@.dom().contains(k)
                    ==> exists|j: int| 0 <= j < i && #[trigger] receive_channels_config@[j].channel_id as u64 == k,
            decreases receive_channels_config@.len() - i,
        {
            let channel_config = receive_channels_config[i];
            let id = channel_config.channel_id as u64;
            proof {
                receive_unreliable_channels.lemma_wf();
                receive_reliable_channels.lemma_wf();
                assert(!receive_unreliable_channels@.dom().contains(id) && !receive_reliable_channels@.dom().contains(id)) by {
                    if receive_unreliable_channels@.dom().contains(id) || receive_reliable_channels@.dom().contains(id) {
                        let j = choose|j: int| 0 <= j < i && #[trigger] receive_channels_config@[j].channel_id as u64 == id;
                        assert(receive_channels_config@[j].channel_id as u64 == id);
                        assert(receive_channels_config@[j].channel_id != receive_channels_config@[i as int].channel_id);
                    }
                }
            }
            let ghost before_u = receive_unreliable_channels@.dom();
            let ghost before_r = receive_reliable_channels@.dom();
            match channel_config.send_type {
                SendType::Unreliable => {
                    let channel = ReceiveChannelUnreliable::new(channel_config.channel_id, channel_config.max_memory_usage_bytes);
                    receive_unreliable_channels.insert(id, channel);
                },
                SendType::ReliableOrdered { .. } => {
                    let channel = ReceiveChannelReliable::new(channel_config.max_memory_usage_bytes, true);
                    receive_reliable_channels.insert(id, channel);
                },
                SendType::ReliableUnordered { .. } => {
                    let channel = ReceiveChannelReliable::new(channel_config.max_memory_usage_bytes, false);
                    receive_reliable_channels.insert(id, channel);
                },
            }
            proof {
                assert forall|k: u64| #[trigger] receive_unreliable_channels@.dom().contains(k)
                    implies exists|j: int| 0 <= j < i + 1 && #[trigger] receive_channels_config@[j].channel_id as u64 == k by {
                    if k == id {
                        assert(receive_channels_config@[i as int].channel_id as u64 == k);
                    } else {
                        assert(before_u.contains(k));
                        let j = choose|j: int| 0 <= j < i && #[trigger] receive_channels_config@[j].channel_id as u64 == k;
                        assert(receive_channels_config@[j].channel_id as u64 == k);
                    }
                }
                assert forall|k: u64| #[trigger] receive_reliable_channels@.dom().contains(k)
                    implies exists|j: int| 0 <= j < i + 1 && #[trigger] receive_channels_config@[j].channel_id as u64 == k by {
                    if k == id {
                        assert(receive_channels_config@[i as int].channel_id as u64 == k);
                    } else {
                        assert(before_r.contains(k));
                        let j = choose|j: int| 0 <= j < i && #[trigger] receive_channels_config@[j].channel_id as u64 == k;
                        assert(receive_channels_config@[j].channel_id as u64 == k);
                    }
                }
            }
            i = i + 1;
        }
        let r = Self {
            packet_sequence: 0,
            current_time: 0,
            sent_packets: SortedMap::new(),
            pending_acks: Vec::new(),
            channel_send_order,
            send_unreliable_channels,
            receive_unreliable_channels,
            send_reliable_channels,
            receive_reliable_channels,
            stats: ConnectionStats::new(),
            available_bytes_per_tick,
            largest_acked_packet: 0,
            disconnect_reason: None,
        };
        proof {
            assert(ranges_view(r.pending_acks@) =~= Seq::<(u64, u64)>::empty());
        }
        r
    }

    /// Whether `process_packet` can take `packet` now: the counters have
    /// room for it (see `can_take_packet`).
    pub fn can_take_packet_now(&self, packet: &[u8]) -> (r: bool)
        requires
            self.wf(),
        ensures
            r == self.can_take_packet(packet@),
    {
        if self.disconnect_reason.is_some() {
            return true;
        }
        proof {
            self.sent_packets.lemma_wf();
        }
        let received = self.stats.bytes_received[self.stats.current_index];
        if packet.len() as u64 > u64::MAX - received {
            return false;
        }
        let sent = self.sent_packets.len() as u64;
        let mut i: usize = 0;
        while i < SIZE
            invariant
                self.wf(),
                self.disconnect_reason_view() is None,
                i <= SIZE,
                sent == self.sent_view().dom().len(),
                forall|j: int| 0 <= j < i ==> #[trigger] self.stats_view().packets_acked@[j] + self.sent_view().dom().len() <= u64::MAX,
            decreases SIZE - i,
        {
            if sent > u64::MAX - self.stats.packets_acked[i] {
                proof {
                    assert(self.stats_view().packets_acked@[i as int] + self.sent_view().dom().len() > u64::MAX);
                }
                return false;
            }
            i = i + 1;
        }
        true
    }

    /// What a connection puts on the wire for its reliable channels is what
    /// they hold: every small reliable packet it makes carries messages of
    /// its channel under their ids with their bytes, and every reliable slice
    /// packet carries the number of slices and the bytes of that slice of a
    /// message the channel holds.
    pub proof fn lemma_packets_carry_sent_messages(&self)
        requires
            self.wf(),
        ensures
            forall|i: int|
                0 <= i < self.planned_packets().len() ==> carried_by(
                    #[trigger] self.planned_packets()[i],
                    self.send_reliable_view(),
                ),
    {
        let order = self.send_order_view();
        assert forall|i: int| 0 <= i < order.len() implies (#[trigger] order[i] matches ChannelOrder::Reliable(id)
            ==> self.send_reliable_view().dom().contains(id as u64)) by {
            assert(order[i] == self.channel_send_order@[i]);
        }
        lemma_client_pack_carries(
            order,
            order.len(),
            self.send_reliable_view(),
            self.send_unreliable_view(),
            self.packet_sequence_view(),
            self.available_bytes_view(),
            self.current_time_view(),
        );
        let fin = self.packing();
        let planned = self.planned_packets();
        assert forall|i: int| 0 <= i < planned.len() implies carried_by(#[trigger] planned[i], self.send_reliable_view()) by {
            if i < fin.packets.len() {
                assert(planned[i] == fin.packets[i]);
            }
        }
    }

    pub fn is_disconnected(&self) -> (r: bool)
        ensures
            r == self.disconnect_reason_view() is Some,
    {
        self.disconnect_reason.is_some()
    }

    pub fn is_connected(&self) -> (r: bool)
        ensures
            r == self.disconnect_reason_view() is None,
    {
        self.disconnect_reason.is_none()
    }

    pub fn disconnect_reason(&self) -> (r: Option<DisconnectReason>)
        ensures
            r == self.disconnect_reason_view(),
    {
        self.disconnect_reason
    }

    /// Closes the connection from this side, unless it is already closed.
    pub fn disconnect(&mut self)
        requires
            old(self).wf(),
        ensures
            final(self).wf(),
            old(self).disconnect_reason_view() is Some ==> final(self).disconnect_reason_view()
                == old(self).disconnect_reason_view(),
            old(self).disconnect_reason_view() is None ==> final(self).disconnect_reason_view()
                == Some(DisconnectReason::DisconnectedByClient),
            final(self).same_but_reason(&*old(self)),
    {
        if self.disconnect_reason.is_some() {
            return;
        }
        self.disconnect_reason = Some(DisconnectReason::DisconnectedByClient);
    }

    /// The traffic counters of the connection.
    pub fn stats(&self) -> (r: &ConnectionStats)
        requires
            self.wf(),
        ensures
            r.wf(),
    {
        &self.stats
    }

    /// The current time of the connection.
    pub fn current_time(&self) -> (r: u64)
        ensures
            r == self.current_time_view(),
    {
        self.current_time
    }

    /// The pending acks, as ranges.
    pub fn pending_acks(&self) -> (r: &Vec<Range<u64>>)
        ensures
            ranges_view(r@) == self.pending_acks_view(),
    {
        &self.pending_acks
    }

    /// How many sent packets wait for an acknowledgement.
    pub fn num_sent_packets(&self) -> (r: usize)
        requires
            self.wf(),
        ensures
            r == self.sent_view().dom().len(),
    {
        self.sent_packets.len()
    }

    /// Records that packet `sequence` arrived and must be acknowledged.
    pub fn add_pending_ack(&mut self, sequence: u64)
        requires
            old(self).wf(),
            sequence < u64::MAX,
        ensures
            final(self).wf(),
            ack_added(old(self).pending_acks_view(), final(self).pending_acks_view(), sequence),
            final(self).same_but_acks(&*old(self)),
            final(self).largest_acked_view() == old(self).largest_acked_view(),
    {
        add_pending_ack(&mut self.pending_acks, sequence);
    }

    /// The peer acknowledged our acks up to `largest_ack`: those no longer
    /// need acknowledging. An older largest ack changes nothing.
    pub fn acked_largest(&mut self, largest_ack: u64)
        requires
            old(self).wf(),
            largest_ack < u64::MAX,
        ensures
            final(self).wf(),
            final(self).same_but_acks(&*old(self)),
            largest_acked_applied(*old(self), *final(self), largest_ack),
    {
        if self.largest_acked_packet > largest_ack {
            return;
        }
        self.largest_acked_packet = largest_ack;
        remove_acked_up_to(&mut self.pending_acks, largest_ack);
    }

    /// Queues `message` on send channel `channel_id`. Nothing happens on a
    /// closed connection; a reliable channel that refuses the message for
    /// its memory limit closes the connection.
    pub fn send_message(&mut self, channel_id: u8, message: Vec<u8>)
        requires
            old(self).wf(),
            old(self).can_send(channel_id, message@.len()),
        ensures
            final(self).wf(),
            message_queued(*old(self), *final(self), channel_id, message@),
    {
        if self.is_disconnected() {
            return;
        }
        let k = channel_id as u64;
        if self.send_reliable_channels.contains_key(k) {
            let ghost before = self.send_reliable_channels@;
            let mut channel = self.send_reliable_channels.remove(k).unwrap();
            let ghost c0 = channel;
            proof {
                c0.lemma_ids_below_next();
            }
            let r = channel.send_message(message);
            self.send_reliable_channels.insert(k, channel);
            proof {
                assert(self.send_reliable_channels@ =~= before.insert(k, channel));
                assert(self.send_reliable_channels@.remove(k) =~= before.remove(k));
                assert(channel.sent_before(self.current_time)) by {
                    assert forall|m: u64| #[trigger] channel.unacked().dom().contains(m) implies match channel.unacked()[m] {
                        UnackedView::Small { last_sent, .. } => last_sent matches Some(t) ==> t <= self.current_time,
                        UnackedView::Sliced { last_sent, .. } => forall|i: int|
                            0 <= i < last_sent.len() ==> (#[trigger] last_sent[i] matches Some(t) ==> t <= self.current_time),
                    } by {
                        if m != c0.next_message_id() && r is Ok {
                            assert(c0.unacked().dom().contains(m));
                        }
                        if r is Err {
                            assert(c0.unacked().dom().contains(m));
                        }
                    }
                }
                self.lemma_infos_after_send(before, k);
            }
            if let Err(error) = r {
                self.disconnect_reason = Some(DisconnectReason::SendChannelError { channel_id, error });
            }
        } else {
            let ghost before = self.send_unreliable_channels@;
            let mut channel = self.send_unreliable_channels.remove(k).unwrap();
            let ghost c0 = channel;
            channel.send_message(message);
            self.send_unreliable_channels.insert(k, channel);
            proof {
                assert(self.send_unreliable_channels@ =~= before.insert(k, channel));
                assert(self.send_unreliable_channels@.remove(k) =~= before.remove(k));
                assert forall|i: int| 0 <= i < channel.queued().len()
                    implies #[trigger] channel.queued()[i].len() + SLICE_SIZE <= usize::MAX by {
                    if i < c0.queued().len() {
                        assert(channel.queued()[i] == c0.queued()[i]);
                    }
                }
            }
        }
    }

    /// Sent packet infos stay consistent when one reliable send channel
    /// only gained a message under its next id, or did not change.
    proof fn lemma_infos_after_send(&self, before: Map<u64, SendChannelReliable>, k: u64)
        requires
            before.dom().contains(k),
            self.send_reliable_channels@ == before.insert(k, self.send_reliable_channels@[k]),
            self.send_reliable_channels@[k].next_message_id() >= before[k].next_message_id(),
            forall|m: u64| #[trigger] before[k].unacked().dom().contains(m)
                ==> self.send_reliable_channels@[k].unacked().dom().contains(m)
                && self.send_reliable_channels@[k].unacked()[m] == before[k].unacked()[m],
            forall|m: u64| #[trigger] self.send_reliable_channels@[k].unacked().dom().contains(m)
                && !before[k].unacked().dom().contains(m) ==> m >= before[k].next_message_id(),
            forall|q: u64| #[trigger] self.sent_packets@.dom().contains(q)
                ==> info_consistent(self.sent_packets@[q].info, before),
        ensures
            forall|q: u64| #[trigger] self.sent_packets@.dom().contains(q)
                ==> info_consistent(self.sent_packets@[q].info, self.send_reliable_channels@),
    {
        let after = self.send_reliable_channels@;
        assert forall|q: u64| #[trigger] self.sent_packets@.dom().contains(q)
            implies info_consistent(self.sent_packets@[q].info, after) by {
            let info = self.sent_packets@[q].info;
            assert(info_consistent(info, before));
            match info {
                PacketSentInfo::ReliableMessages { channel_id, message_ids } => {
                    let c = channel_id as u64;
                    assert forall|i: int| 0 <= i < message_ids@.len() implies #[trigger] message_ids@[i] < after[c].next_message_id()
                        && (after[c].unacked().dom().contains(message_ids@[i]) ==> after[c].unacked()[message_ids@[i]] is Small) by {
                        let m = message_ids@[i];
                        if c == k && after[c].unacked().dom().contains(m) {
                            assert(m < before[k].next_message_id());
                            assert(before[k].unacked().dom().contains(m));
                        }
                    }
                },
                PacketSentInfo::ReliableSliceMessage { channel_id, message_id, slice_index } => {
                    let c = channel_id as u64;
                    if c == k && after[c].unacked().dom().contains(message_id) {
                        assert(before[k].unacked().dom().contains(message_id));
                    }
                },
                _ => {},
            }
        }
    }

    /// Takes the next message of receive channel `channel_id`; a closed
    /// connection gives nothing.
    pub fn receive_message(&mut self, channel_id: u8) -> (r: Option<Vec<u8>>)
        requires
            old(self).wf(),
            old(self).can_receive(channel_id),
        ensures
            final(self).wf(),
            message_taken(*old(self), *final(self), channel_id, opt_bytes_view(r)),
    {
        if self.is_disconnected() {
            return None;
        }
        let k = channel_id as u64;
        if self.receive_reliable_channels.contains_key(k) {
            let ghost before = self.receive_reliable_channels@;
            let mut channel = self.receive_reliable_channels.remove(k).unwrap();
            let r = channel.receive_message();
            self.receive_reliable_channels.insert(k, channel);
            proof {
                assert(self.receive_reliable_channels@ =~= before.insert(k, channel));
                assert(self.receive_reliable_channels@.remove(k) =~= before.remove(k));
            }
            r
        } else {
            let ghost before = self.receive_unreliable_channels@;
            let mut channel = self.receive_unreliable_channels.remove(k).unwrap();
            let r = channel.receive_message();
            self.receive_unreliable_channels.insert(k, channel);
            proof {
                assert(self.receive_unreliable_channels@ =~= before.insert(k, channel));
                assert(self.receive_unreliable_channels@.remove(k) =~= before.remove(k));
            }
            r
        }
    }

    /// Moves the clock `duration` nanoseconds on; the oldest sent packets,
    /// up to the largest acked one, that were sent `DISCARD_AFTER` ago or
    /// more are taken as lost.
    pub fn advance_time(&mut self, duration: u64)
        requires
            old(self).wf(),
            old(self).current_time_view() + duration <= u64::MAX,
        ensures
            final(self).wf(),
            time_advanced(*old(self), *final(self), duration),
    {
        self.current_time = self.current_time + duration;
        self.stats.update(self.current_time);
        let ghost e0 = self.sent_packets.entries_view();
        let ghost now = self.current_time;
        let ghost largest = self.largest_acked_packet;
        proof {
            lemma_lost_prefix_bound(e0, largest, now);
            let rel = self.send_reliable_channels@;
            assert forall|k: u64| #[trigger] rel.dom().contains(k) implies rel[k].sent_before(now) by {
                assert(rel[k].sent_before(old(self).current_time));
            }
        }
        let total = self.sent_packets.len();
        let mut removed: usize = 0;
        proof {
            assert(e0.skip(0) =~= e0);
        }
        loop
            invariant
                self.wf(),
                self.current_time == now,
                self.largest_acked_packet == largest,
                self.send_reliable_channels@ == old(self).send_reliable_channels@,
                self.send_unreliable_channels@ == old(self).send_unreliable_channels@,
                self.receive_reliable_channels@ == old(self).receive_reliable_channels@,
                self.receive_unreliable_channels@ == old(self).receive_unreliable_channels@,
                self.pending_acks@ == old(self).pending_acks@,
                self.packet_sequence == old(self).packet_sequence,
                self.disconnect_reason == old(self).disconnect_reason,
                self.stats.current_index == spec_index(now),
                removed <= lost_prefix(e0, largest, now),
                lost_prefix(e0, largest, now) <= e0.len(),
                e0.len() == total,
                self.sent_packets.entries_view() == e0.skip(removed as int),
                lost_prefix(e0.skip(removed as int), largest, now) == lost_prefix(e0, largest, now) - removed,
            ensures
                self.wf(),
                self.sent_packets.entries_view() == e0.skip(lost_prefix(e0, largest, now) as int),
                self.current_time == now,
                self.largest_acked_packet == largest,
                self.send_reliable_channels@ == old(self).send_reliable_channels@,
                self.send_unreliable_channels@ == old(self).send_unreliable_channels@,
                self.receive_reliable_channels@ == old(self).receive_reliable_channels@,
                self.receive_unreliable_channels@ == old(self).receive_unreliable_channels@,
                self.pending_acks@ == old(self).pending_acks@,
                self.packet_sequence == old(self).packet_sequence,
                self.disconnect_reason == old(self).disconnect_reason,
                self.stats.current_index == spec_index(now),
            decreases e0.len() - removed,
        {
            if self.sent_packets.is_empty() {
                break;
            }
            proof {
                self.sent_packets.lemma_wf();
                assert(self.sent_packets@.dom().contains(self.sent_packets.entries_view()[0].0));
            }
            let (sequence, sent) = self.sent_packets.entry_at(0);
            let lost = sequence <= self.largest_acked_packet && self.current_time - sent.sent_at >= DISCARD_AFTER;
            if !lost {
                break;
            }
            let ghost cur = self.sent_packets.entries_view();
            proof {
                self.sent_packets.lemma_wf();
                assert(self.sent_packets@.dom().contains(cur[0].0));
                assert(cur.drop_first() =~= e0.skip(removed + 1));
            }
            let _ = self.sent_packets.pop_first();
            removed = removed + 1;
        }
    }


    /// Sent packet infos stay consistent when one reliable send channel
    /// kept its next id and only dropped messages or kept their kinds.
    proof fn lemma_infos_kept(&self, before: Map<u64, SendChannelReliable>, k: u64)
        requires
            before.dom().contains(k),
            self.send_reliable_channels@ == before.insert(k, self.send_reliable_channels@[k]),
            self.send_reliable_channels@[k].next_message_id() == before[k].next_message_id(),
            shapes_kept(before[k].unacked(), self.send_reliable_channels@[k].unacked()),
            forall|q: u64| #[trigger] self.sent_packets@.dom().contains(q)
                ==> info_consistent(self.sent_packets@[q].info, before),
        ensures
            forall|q: u64| #[trigger] self.sent_packets@.dom().contains(q)
                ==> info_consistent(self.sent_packets@[q].info, self.send_reliable_channels@),
    {
        let after = self.send_reliable_channels@;
        assert forall|q: u64| #[trigger] self.sent_packets@.dom().contains(q)
            implies info_consistent(self.sent_packets@[q].info, after) by {
            let info = self.sent_packets@[q].info;
            assert(info_consistent(info, before));
            match info {
                PacketSentInfo::ReliableMessages { channel_id, message_ids } => {
                    let c = channel_id as u64;
                    assert forall|i: int| 0 <= i < message_ids@.len() implies #[trigger] message_ids@[i] < after[c].next_message_id()
                        && (after[c].unacked().dom().contains(message_ids@[i]) ==> after[c].unacked()[message_ids@[i]] is Small) by {
                        let m = message_ids@[i];
                        if c == k && after[c].unacked().dom().contains(m) {
                            assert(before[k].unacked().dom().contains(m));
                            assert(same_shape(after[k].unacked()[m], before[k].unacked()[m]));
                        }
                    }
                },
                PacketSentInfo::ReliableSliceMessage { channel_id, message_id, slice_index } => {
                    let c = channel_id as u64;
                    if c == k && after[c].unacked().dom().contains(message_id) {
                        assert(before[k].unacked().dom().contains(message_id));
                        assert(same_shape(after[k].unacked()[message_id], before[k].unacked()[message_id]));
                    }
                },
                _ => {},
            }
        }
    }

    /// Acknowledges sent packet `sequence`, if it still waits: the ack is
    /// counted, what the packet carried is acknowledged in its channel, and
    /// the round trip time of the packet comes back.
    fn ack_packet(&mut self, sequence: u64) -> (r: Option<u64>)
        requires
            old(self).wf(),
            forall|i: int| 0 <= i < SIZE ==> #[trigger] old(self).stats_view().packets_acked@[i]
                + old(self).sent_view().dom().len() <= u64::MAX,
        ensures
            final(self).wf(),
            packet_acked(*old(self), *final(self), sequence),
            forall|i: int| 0 <= i < SIZE ==> #[trigger] final(self).stats_view().packets_acked@[i]
                + final(self).sent_view().dom().len() <= u64::MAX,
            r == (if old(self).sent_view().dom().contains(sequence) {
                Some((old(self).current_time_view() - old(self).sent_view()[sequence].sent_at) as u64)
            } else {
                None
            }),
    {
        proof {
            self.sent_packets.lemma_wf();
        }
        let ghost len0 = self.sent_packets@.dom().len();
        let ghost sent0 = self.sent_packets@;
        if !self.sent_packets.contains_key(sequence) {
            return None;
        }
        let sent = self.sent_packets.remove(sequence).unwrap();
        proof {
            self.sent_packets.lemma_wf();
            assert(self.sent_packets@.dom() =~= sent0.dom().remove(sequence));
            let b = spec_index(sent.sent_at);
            assert(0 <= b < SIZE as int);
            assert(old(self).stats_view().packets_acked@[b] + old(self).sent_view().dom().len() <= u64::MAX);
        }
        self.stats.acked_packet(sent.sent_at, self.current_time);
        proof {
            assert forall|i: int| 0 <= i < SIZE implies #[trigger] self.stats.packets_acked@[i]
                + self.sent_packets@.dom().len() <= u64::MAX by {
                assert(old(self).stats_view().packets_acked@[i] + old(self).sent_view().dom().len() <= u64::MAX);
            }
        }
        let ghost acked_stats = self.stats;
        let rtt = self.current_time - sent.sent_at;
        let ghost rel0 = self.send_reliable_channels@;
        proof {
            assert(info_consistent(sent.info, rel0));
            assert forall|q: u64| #[trigger] self.sent_packets@.dom().contains(q)
                implies info_consistent(self.sent_packets@[q].info, rel0) by {
                assert(sent0.dom().contains(q));
            }
        }
        match sent.info {
            PacketSentInfo::ReliableMessages { channel_id, message_ids } => {
                let k = channel_id as u64;
                let mut channel = self.send_reliable_channels.remove(k).unwrap();
                let ghost c0 = channel;
                let mut i: usize = 0;
                proof {
                    assert(message_ids@.take(0) =~= Seq::<u64>::empty());
                }
                while i < message_ids.len()
                    invariant
                        i <= message_ids@.len(),
                        channel.wf(),
                        c0.wf(),
                        channel.next_message_id() == c0.next_message_id(),
                        channel.max_memory_view() == c0.max_memory_view(),
                        channel.resend_time_view() == c0.resend_time_view(),
                        channel.channel_id_view() == c0.channel_id_view(),
                        (channel.unacked(), channel.memory_usage_view() as int) == ack_messages(
                            c0.unacked(),
                            c0.memory_usage_view() as int,
                            message_ids@.take(i as int),
                        ),
                        forall|m: u64| #[trigger] channel.unacked().dom().contains(m) ==> c0.unacked().dom().contains(m)
                            && channel.unacked()[m] == c0.unacked()[m],
                        forall|j: int| 0 <= j < message_ids@.len() ==> (c0.unacked().dom().contains(#[trigger] message_ids@[j])
                            ==> c0.unacked()[message_ids@[j]] is Small),
                    decreases message_ids@.len() - i,
                {
                    let id = message_ids[i];
                    proof {
                        if channel.unacked().dom().contains(id) {
                            assert(c0.unacked().dom().contains(message_ids@[i as int]));
                        }
                    }
                    let ghost before_step = channel;
                    channel.process_message_ack(id);
                    proof {
                        assert(message_ids@.take(i + 1).drop_last() =~= message_ids@.take(i as int));
                        assert(message_ids@.take(i + 1).last() == id);
                        assert(channel.unacked() =~= before_step.unacked().remove(id));
                    }
                    i = i + 1;
                }
                proof {
                    assert(message_ids@.take(message_ids@.len() as int) =~= message_ids@);
                    assert(channel.sent_before(self.current_time)) by {
                        assert(c0.sent_before(self.current_time));
                        assert forall|m: u64| #[trigger] channel.unacked().dom().contains(m) implies c0.unacked().dom().contains(m) by {}
                    }
                }
                self.send_reliable_channels.insert(k, channel);
                proof {
                    assert(self.send_reliable_channels@ =~= rel0.insert(k, channel));
                    self.lemma_infos_kept(rel0, k);
                }
            },
            PacketSentInfo::ReliableSliceMessage { channel_id, message_id, slice_index } => {
                let k = channel_id as u64;
                let mut channel = self.send_reliable_channels.remove(k).unwrap();
                let ghost c0 = channel;
                channel.process_slice_message_ack(message_id, slice_index);
                proof {
                    assert(c0.sent_before(self.current_time));
                    assert(shapes_kept(c0.unacked(), channel.unacked()));
                    assert(channel.sent_before(self.current_time)) by {
                        assert forall|m: u64| #[trigger] channel.unacked().dom().contains(m) implies c0.unacked().dom().contains(m) by {}
                    }
                }
                self.send_reliable_channels.insert(k, channel);
                proof {
                    assert(self.send_reliable_channels@ =~= rel0.insert(k, channel));
                    self.lemma_infos_kept(rel0, k);
                }
            },
            PacketSentInfo::Ack { largest_acked_packet } => {
                self.acked_largest(largest_acked_packet);
            },
            PacketSentInfo::Untracked => {},
        }
        proof {
            assert(self.stats == acked_stats);
            assert forall|i: int| 0 <= i < SIZE implies #[trigger] self.stats.packets_acked@[i]
                + self.sent_packets@.dom().len() <= u64::MAX by {
                assert(acked_stats.packets_acked@[i] + self.sent_packets@.dom().len() <= u64::MAX);
            }
        }
        Some(rtt)
    }


    /// Takes a packet from the peer: its bytes are counted, its sequence
    /// becomes pending acknowledgement and its content goes to its channel;
    /// an ack acknowledges the packets it names and gives their round trip
    /// times, in nanoseconds. A packet that cannot be read, or names a
    /// channel that does not exist, closes the connection; so does a
    /// channel that refuses what it carries. A closed connection takes
    /// nothing. See `packet_taken`.
    #[verifier::spinoff_prover]
    #[verifier::rlimit(30)]
    pub fn process_packet(&mut self, packet: &[u8]) -> (r: Vec<u64>)
        requires
            old(self).wf(),
            old(self).can_take_packet(packet@),
        ensures
            final(self).wf(),
            old(self).disconnect_reason_view() is Some ==> r@.len() == 0 && *final(self) == *old(self),
            old(self).disconnect_reason_view() is None ==> packet_taken(*old(self), *final(self), packet@, r@),
    {
        if self.is_disconnected() {
            return Vec::new();
        }
        self.stats.received_packet(packet.len() as u64);
        let decoded = Packet::from_bytes(packet);
        let pk = match decoded {
            Err(e) => {
                self.disconnect_reason = Some(DisconnectReason::PacketDeserialization(e));
                return Vec::new();
            },
            Ok(pk) => pk,
        };
        proof {
            lemma_decoded_sequence_bound(packet@);
        }
        let sequence = pk.sequence();
        self.add_pending_ack(sequence);
        let ghost mid = *self;
        match pk {
            Packet::SmallReliable { channel_id, messages, .. } => {
                self.take_reliable_messages(channel_id, messages);
                proof {
                    assert(packet_arrived(*old(self), mid, packet@.len(), sequence));
                }
                Vec::new()
            },
            Packet::SmallUnreliable { channel_id, messages, .. } => {
                self.take_unreliable_messages(channel_id, messages);
                proof {
                    assert(packet_arrived(*old(self), mid, packet@.len(), sequence));
                }
                Vec::new()
            },
            Packet::ReliableSlice { channel_id, slice, .. } => {
                self.take_reliable_slice(channel_id, slice);
                proof {
                    assert(packet_arrived(*old(self), mid, packet@.len(), sequence));
                }
                Vec::new()
            },
            Packet::UnreliableSlice { channel_id, slice, .. } => {
                self.take_unreliable_slice(channel_id, slice);
                proof {
                    assert(packet_arrived(*old(self), mid, packet@.len(), sequence));
                }
                Vec::new()
            },
            Packet::Ack { ack_ranges, .. } => {
                let samples = self.take_acks(&ack_ranges);
                proof {
                    assert(packet_arrived(*old(self), mid, packet@.len(), sequence));
                }
                samples
            },
        }
    }

    /// The small reliable `messages` of a packet for channel `channel_id`.
    fn take_reliable_messages(&mut self, channel_id: u8, messages: Vec<(u64, Vec<u8>)>)
        requires
            old(self).wf(),
            old(self).disconnect_reason_view() is None,
        ensures
            final(self).wf(),
            receive_frame(*final(self), *old(self)),
            final(self).stats_view() == old(self).stats_view(),
            final(self).pending_acks_view() == old(self).pending_acks_view(),
            reliable_messages_branch(*old(self), *final(self), channel_id, reliable_messages_view(messages@)),
    {
        let k = channel_id as u64;
        if !self.receive_reliable_channels.contains_key(k) {
            self.disconnect_reason = Some(DisconnectReason::ReceivedInvalidChannelId(channel_id));
            return;
        }
        let ghost rel0 = self.receive_reliable_channels@;
        let ghost msgs0 = reliable_messages_view(messages@);
        let mut messages = messages;
        let mut channel = self.receive_reliable_channels.remove(k).unwrap();
        let ghost mut chain: Seq<ReceiveChannelReliable> = seq![channel];
        let n = messages.len();
        let mut i: usize = 0;
        let mut error: Option<ChannelError> = None;
        proof {
            assert(msgs0.skip(0) =~= msgs0);
        }
        while i < n && error.is_none()
            invariant
                n == msgs0.len(),
                i <= n,
                channel.wf(),
                reliable_messages_view(messages@) == msgs0.skip(i as int),
                chain.len() == i + 1,
                chain[0] == rel0[k],
                chain.last() == channel,
                error is Some ==> i >= 1,
                forall|j: int|
                    #![trigger chain[j]]
                    0 <= j < i ==> message_processed(
                        chain[j],
                        chain[j + 1],
                        msgs0[j].1,
                        msgs0[j].0,
                        if error is Some && j == i - 1 {
                            Err(error->Some_0)
                        } else {
                            Ok(())
                        },
                    ),
            decreases n - i,
        {
            let ghost before_msgs = messages@;
            proof {
                assert(reliable_messages_view(before_msgs).len() == before_msgs.len());
                assert(reliable_messages_view(before_msgs)[0] == msgs0[i as int]);
            }
            let (message_id, message) = messages.remove(0);
            let ghost old_chain = chain;
            let res = channel.process_message(message, message_id);
            proof {
                assert(reliable_messages_view(messages@) =~= msgs0.skip(i + 1)) by {
                    assert forall|j: int| 0 <= j < messages@.len() implies #[trigger] reliable_messages_view(messages@)[j]
                        == msgs0.skip(i + 1)[j] by {
                        assert(messages@[j] == before_msgs[j + 1]);
                        assert(reliable_messages_view(before_msgs)[j + 1] == msgs0.skip(i as int)[j + 1]);
                    }
                }
                chain = chain.push(channel);
                assert forall|j: int| #![trigger chain[j]] 0 <= j < i + 1 implies message_processed(
                    chain[j],
                    chain[j + 1],
                    msgs0[j].1,
                    msgs0[j].0,
                    if res is Err && j == i {
                        Err(res->Err_0)
                    } else {
                        Ok(())
                    },
                ) by {
                    if j < i {
                        assert(old_chain[j] == chain[j]);
                        assert(old_chain[j + 1] == chain[j + 1]);
                    }
                }
            }
            if let Err(e) = res {
                error = Some(e);
            }
            i = i + 1;
        }
        self.receive_reliable_channels.insert(k, channel);
        proof {
            assert(self.receive_reliable_channels@ =~= rel0.insert(k, channel));
            assert(reliable_messages_taken(chain, msgs0, error));
        }
        if let Some(e) = error {
            self.disconnect_reason = Some(DisconnectReason::ReceiveChannelError { channel_id, error: e });
        }
        proof {
            assert(reliable_messages_taken(chain, msgs0, error) && chain[0] == old(self).receive_reliable_view()[k]
                && chain.last() == self.receive_reliable_view()[k] && self.disconnect_reason_view() == receive_error(
                channel_id,
                error,
            ));
        }
    }

    /// The small unreliable `messages` of a packet for channel `channel_id`.
    fn take_unreliable_messages(&mut self, channel_id: u8, messages: Vec<Vec<u8>>)
        requires
            old(self).wf(),
            old(self).disconnect_reason_view() is None,
        ensures
            final(self).wf(),
            receive_frame(*final(self), *old(self)),
            final(self).stats_view() == old(self).stats_view(),
            final(self).pending_acks_view() == old(self).pending_acks_view(),
            unreliable_messages_branch(*old(self), *final(self), channel_id, unreliable_messages_view(messages@)),
    {
        let k = channel_id as u64;
        if !self.receive_unreliable_channels.contains_key(k) {
            self.disconnect_reason = Some(DisconnectReason::ReceivedInvalidChannelId(channel_id));
            return;
        }
        let ghost unrel0 = self.receive_unreliable_channels@;
        let ghost msgs0 = unreliable_messages_view(messages@);
        let mut messages = messages;
        let mut channel = self.receive_unreliable_channels.remove(k).unwrap();
        let ghost mut chain: Seq<ReceiveChannelUnreliable> = seq![channel];
        let n = messages.len();
        let mut i: usize = 0;
        proof {
            assert(msgs0.skip(0) =~= msgs0);
        }
        while i < n
            invariant
                n == msgs0.len(),
                i <= n,
                channel.wf(),
                unreliable_messages_view(messages@) == msgs0.skip(i as int),
                chain.len() == i + 1,
                chain[0] == unrel0[k],
                chain.last() == channel,
                forall|j: int| #![trigger chain[j]] 0 <= j < i ==> unreliable_message_processed(chain[j], chain[j + 1], msgs0[j]),
            decreases n - i,
        {
            let ghost before_msgs = messages@;
            proof {
                assert(unreliable_messages_view(before_msgs).len() == before_msgs.len());
                assert(unreliable_messages_view(before_msgs)[0] == msgs0[i as int]);
            }
            let message = messages.remove(0);
            let ghost old_chain = chain;
            channel.process_message(message);
            proof {
                assert(unreliable_messages_view(messages@) =~= msgs0.skip(i + 1)) by {
                    assert forall|j: int| 0 <= j < messages@.len() implies #[trigger] unreliable_messages_view(messages@)[j]
                        == msgs0.skip(i + 1)[j] by {
                        assert(messages@[j] == before_msgs[j + 1]);
                        assert(unreliable_messages_view(before_msgs)[j + 1] == msgs0.skip(i as int)[j + 1]);
                    }
                }
                chain = chain.push(channel);
                assert forall|j: int| #![trigger chain[j]] 0 <= j < i + 1 implies unreliable_message_processed(
                    chain[j],
                    chain[j + 1],
                    msgs0[j],
                ) by {
                    if j < i {
                        assert(old_chain[j] == chain[j]);
                        assert(old_chain[j + 1] == chain[j + 1]);
                    }
                }
            }
            i = i + 1;
        }
        self.receive_unreliable_channels.insert(k, channel);
        proof {
            assert(self.receive_unreliable_channels@ =~= unrel0.insert(k, channel));
            assert(unreliable_messages_taken(chain, msgs0) && chain[0] == old(self).receive_unreliable_view()[k]
                && chain.last() == self.receive_unreliable_view()[k]);
        }
    }

    /// A reliable slice for channel `channel_id`.
    fn take_reliable_slice(&mut self, channel_id: u8, slice: Slice)
        requires
            old(self).wf(),
            old(self).disconnect_reason_view() is None,
        ensures
            final(self).wf(),
            receive_frame(*final(self), *old(self)),
            final(self).stats_view() == old(self).stats_view(),
            final(self).pending_acks_view() == old(self).pending_acks_view(),
            reliable_slice_branch(*old(self), *final(self), channel_id, slice@),
    {
        let k = channel_id as u64;
        if !self.receive_reliable_channels.contains_key(k) {
            self.disconnect_reason = Some(DisconnectReason::ReceivedInvalidChannelId(channel_id));
            return;
        }
        let ghost rel0 = self.receive_reliable_channels@;
        let ghost sv = slice@;
        let mut channel = self.receive_reliable_channels.remove(k).unwrap();
        let ghost c0 = channel;
        let res = channel.process_slice(slice);
        self.receive_reliable_channels.insert(k, channel);
        proof {
            assert(self.receive_reliable_channels@ =~= rel0.insert(k, channel));
            assert(slice_processed(c0, channel, sv, res));
        }
        if let Err(error) = res {
            self.disconnect_reason = Some(DisconnectReason::ReceiveChannelError { channel_id, error });
        }
        proof {
            assert(slice_processed(old(self).receive_reliable_view()[k], self.receive_reliable_view()[k], sv, res)
                && self.disconnect_reason_view() == receive_error(channel_id, err_of(res)));
        }
    }

    /// An unreliable slice for channel `channel_id`.
    fn take_unreliable_slice(&mut self, channel_id: u8, slice: Slice)
        requires
            old(self).wf(),
            old(self).disconnect_reason_view() is None,
        ensures
            final(self).wf(),
            receive_frame(*final(self), *old(self)),
            final(self).stats_view() == old(self).stats_view(),
            final(self).pending_acks_view() == old(self).pending_acks_view(),
            unreliable_slice_branch(*old(self), *final(self), channel_id, slice@),
    {
        let k = channel_id as u64;
        if !self.receive_unreliable_channels.contains_key(k) {
            self.disconnect_reason = Some(DisconnectReason::ReceivedInvalidChannelId(channel_id));
            return;
        }
        let ghost unrel0 = self.receive_unreliable_channels@;
        let ghost sv = slice@;
        let mut channel = self.receive_unreliable_channels.remove(k).unwrap();
        let ghost c0 = channel;
        let res = channel.process_slice(slice, self.current_time);
        self.receive_unreliable_channels.insert(k, channel);
        proof {
            assert(self.receive_unreliable_channels@ =~= unrel0.insert(k, channel));
            assert(unreliable_slice_processed(c0, channel, sv, self.current_time, res));
        }
        if let Err(error) = res {
            self.disconnect_reason = Some(DisconnectReason::ReceiveChannelError { channel_id, error });
        }
        proof {
            assert(unreliable_slice_processed(
                old(self).receive_unreliable_view()[k],
                self.receive_unreliable_view()[k],
                sv,
                old(self).current_time_view(),
                res,
            ) && self.disconnect_reason_view() == receive_error(channel_id, err_of(res)));
        }
    }

    /// The acks of an ack packet with `ack_ranges`; gives the round trip
    /// times of the packets acked.
    fn take_acks(&mut self, ack_ranges: &Vec<Range<u64>>) -> (r: Vec<u64>)
        requires
            old(self).wf(),
            forall|i: int|
                0 <= i < SIZE ==> #[trigger] old(self).stats_view().packets_acked@[i] + old(self).sent_view().dom().len()
                    <= u64::MAX,
        ensures
            final(self).wf(),
            acks_branch(*old(self), *final(self), ranges_view(ack_ranges@), r@),
    {
        let ghost st0 = *self;
        let new_acks = self.sent_in_ranges(ack_ranges);
        let ghost qs = new_acks@;
        let mut samples: Vec<u64> = Vec::new();
        let ghost mut chain: Seq<RenetClient> = seq![*self];
        let mut t: usize = 0;
        while t < new_acks.len()
            invariant
                self.wf(),
                t <= qs.len(),
                new_acks@ == qs,
                chain.len() == t + 1,
                chain[0] == st0,
                chain.last() == *self,
                forall|i: int| #![trigger chain[i]] 0 <= i < t ==> packet_acked(chain[i], chain[i + 1], qs[i]),
                samples@ == ack_samples(chain, qs, t as nat),
                forall|i: int|
                    0 <= i < SIZE ==> #[trigger] self.stats_view().packets_acked@[i] + self.sent_view().dom().len()
                        <= u64::MAX,
            decreases qs.len() - t,
        {
            let ghost before_step = *self;
            let ghost old_chain = chain;
            let r = self.ack_packet(new_acks[t]);
            proof {
                chain = chain.push(*self);
                assert(chain[t as int] == before_step);
                lemma_ack_samples_agree(old_chain, chain, qs, t as nat);
                assert forall|i: int| #![trigger chain[i]] 0 <= i < t + 1 implies packet_acked(chain[i], chain[i + 1], qs[i]) by {
                    if i < t {
                        assert(old_chain[i] == chain[i]);
                        assert(old_chain[i + 1] == chain[i + 1]);
                    }
                }
            }
            if let Some(rtt) = r {
                samples.push(rtt);
            }
            proof {
                assert(ack_samples(chain, qs, (t + 1) as nat) =~= samples@);
            }
            t = t + 1;
        }
        proof {
            assert(ack_chain(chain, qs, st0, *self, samples@));
        }
        samples
    }

    /// The sequences of the sent packets that fall in the ranges, range
    /// after range, each range in sequence order.
    fn sent_in_ranges(&self, ranges: &Vec<Range<u64>>) -> (r: Vec<u64>)
        requires
            self.wf(),
        ensures
            r@ == acks_listed(self.sent_in_order(), ranges_view(ranges@)),
    {
        let ghost e = self.sent_packets.entries_view();
        let ghost rv = ranges_view(ranges@);
        let n = self.sent_packets.len();
        let mut r: Vec<u64> = Vec::new();
        let mut j: usize = 0;
        proof {
            assert(rv.take(0) =~= Seq::<(u64, u64)>::empty());
        }
        while j < ranges.len()
            invariant
                self.wf(),
                e == self.sent_packets.entries_view(),
                n == e.len(),
                rv == ranges_view(ranges@),
                j <= ranges@.len(),
                r@ == acks_listed(e, rv.take(j as int)),
            decreases ranges@.len() - j,
        {
            let lo = ranges[j].start;
            let hi = ranges[j].end;
            let ghost base = r@;
            let mut i: usize = 0;
            proof {
                assert(e.take(0) =~= Seq::<(u64, PacketSent)>::empty());
            }
            while i < n
                invariant
                    self.wf(),
                    e == self.sent_packets.entries_view(),
                    n == e.len(),
                    i <= n,
                    r@ == base + keys_in(e.take(i as int), lo, hi),
                decreases n - i,
            {
                let (key, _) = self.sent_packets.entry_at(i);
                proof {
                    assert(e.take(i + 1).drop_last() =~= e.take(i as int));
                    assert(e.take(i + 1).last() == e[i as int]);
                }
                if lo <= key && key < hi {
                    r.push(key);
                }
                proof {
                    assert(r@ =~= base + keys_in(e.take(i + 1), lo, hi));
                }
                i = i + 1;
            }
            proof {
                assert(e.take(n as int) =~= e);
                assert(rv.take(j + 1).drop_last() =~= rv.take(j as int));
                assert(rv.take(j + 1).last() == (lo, hi));
                assert(r@ =~= acks_listed(e, rv.take(j + 1)));
            }
            j = j + 1;
        }
        proof {
            assert(rv.take(ranges@.len() as int) =~= rv);
        }
        r
    }


    /// Packs every send channel in send order, as `packing` says, and
    /// gives the packets.
    fn pack_channels(&mut self) -> (r: Vec<Packet>)
        requires
            old(self).wf(),
            old(self).packing().ok,
            forall|k: u64, m: u64|
                old(self).send_reliable_view().dom().contains(k) && #[trigger] old(self).send_reliable_view()[k].unacked().dom().contains(m)
                    ==> m <= MAX_VAR_INT,
        ensures
            final(self).wf(),
            ({
                let fin = old(self).packing();
                &&& packets_view(r@) == fin.packets
                &&& final(self).packet_sequence_view() == fin.seq
                &&& final(self).send_reliable_view().dom() == old(self).send_reliable_view().dom()
                &&& forall|k: u64| #[trigger] final(self).send_reliable_view().dom().contains(k) ==> {
                    let c = old(self).send_reliable_view()[k];
                    let c2 = final(self).send_reliable_view()[k];
                    &&& c2.unacked_in_order() == fin.reliable[k]
                    &&& c2.unacked().dom() == c.unacked().dom()
                    &&& shapes_kept(c.unacked(), c2.unacked())
                    &&& c2.next_message_id() == c.next_message_id()
                    &&& c2.memory_usage_view() == c.memory_usage_view()
                    &&& c2.max_memory_view() == c.max_memory_view()
                    &&& c2.resend_time_view() == c.resend_time_view()
                    &&& c2.channel_id_view() == c.channel_id_view()
                }
                &&& final(self).send_unreliable_view().dom() == old(self).send_unreliable_view().dom()
                &&& forall|k: u64| #[trigger] final(self).send_unreliable_view().dom().contains(k) ==> {
                    let c = old(self).send_unreliable_view()[k];
                    let c2 = final(self).send_unreliable_view()[k];
                    &&& c2.queued() == fin.unreliable[k].0
                    &&& c2.sliced_message_id_view() == fin.unreliable[k].1
                    &&& c2.max_memory_view() == c.max_memory_view()
                    &&& c2.channel_id_view() == c.channel_id_view()
                }
            }),
            forall|t: int| 0 <= t < r@.len() ==> #[trigger] packet_info_ok(r@[t]@, final(self).send_reliable_view()),
            final(self).current_time_view() == old(self).current_time_view(),
            final(self).sent_in_order() == old(self).sent_in_order(),
            final(self).sent_view() == old(self).sent_view(),
            final(self).pending_acks_view() == old(self).pending_acks_view(),
            final(self).largest_acked_view() == old(self).largest_acked_view(),
            final(self).receive_reliable_view() == old(self).receive_reliable_view(),
            final(self).receive_unreliable_view() == old(self).receive_unreliable_view(),
            final(self).stats_view() == old(self).stats_view(),
            final(self).send_order_view() == old(self).send_order_view(),
            final(self).available_bytes_view() == old(self).available_bytes_view(),
            final(self).disconnect_reason_view() == old(self).disconnect_reason_view(),
    {
        let ghost rel0 = self.send_reliable_channels@;
        let ghost unrel0 = self.send_unreliable_channels@;
        let ghost order = self.channel_send_order@;
        let ghost now = self.current_time;
        let ghost seq0 = self.packet_sequence;
        let ghost avail0 = self.available_bytes_per_tick;
        let mut available_bytes = self.available_bytes_per_tick;
        let mut packets: Vec<Packet> = Vec::new();
        let mut i: usize = 0;
        proof {
            assert(packets_view(packets@) =~= Seq::<PacketView>::empty());
        }
        while i < self.channel_send_order.len()
            invariant
                self.wf(),
                self.channel_send_order@ == order,
                i <= order.len(),
                self.current_time == now,
                now == old(self).current_time,
                self.sent_packets == old(self).sent_packets,
                self.pending_acks == old(self).pending_acks,
                self.largest_acked_packet == old(self).largest_acked_packet,
                self.receive_reliable_channels == old(self).receive_reliable_channels,
                self.receive_unreliable_channels == old(self).receive_unreliable_channels,
                self.stats == old(self).stats,
                self.available_bytes_per_tick == old(self).available_bytes_per_tick,
                self.disconnect_reason == old(self).disconnect_reason,
                rel0 == old(self).send_reliable_channels@,
                unrel0 == old(self).send_unreliable_channels@,
                client_pack_upto(order, order.len() as nat, rel0, unrel0, seq0, avail0, now).ok,
                ({
                    let st = client_pack_upto(order, i as nat, rel0, unrel0, seq0, avail0, now);
                    &&& packets_view(packets@) == st.packets
                    &&& self.packet_sequence == st.seq
                    &&& available_bytes == st.avail
                    &&& st.reliable.dom() == rel0.dom()
                    &&& st.unreliable.dom() == unrel0.dom()
                    &&& forall|k: u64| #[trigger] self.send_reliable_channels@.dom().contains(k) ==> {
                        let c = rel0[k];
                        let c2 = self.send_reliable_channels@[k];
                        &&& c2.unacked_in_order() == st.reliable[k]
                        &&& c2.unacked().dom() == c.unacked().dom()
                        &&& shapes_kept(c.unacked(), c2.unacked())
                        &&& c2.next_message_id() == c.next_message_id()
                        &&& c2.memory_usage_view() == c.memory_usage_view()
                        &&& c2.max_memory_view() == c.max_memory_view()
                        &&& c2.resend_time_view() == c.resend_time_view()
                        &&& c2.channel_id_view() == c.channel_id_view()
                    }
                    &&& forall|k: u64| #[trigger] self.send_unreliable_channels@.dom().contains(k) ==> {
                        let c = unrel0[k];
                        let c2 = self.send_unreliable_channels@[k];
                        &&& c2.queued() == st.unreliable[k].0
                        &&& c2.sliced_message_id_view() == st.unreliable[k].1
                        &&& c2.max_memory_view() == c.max_memory_view()
                        &&& c2.channel_id_view() == c.channel_id_view()
                    }
                }),
                self.send_reliable_channels@.dom() == rel0.dom(),
                self.send_unreliable_channels@.dom() == unrel0.dom(),
                forall|k: u64, m: u64|
                    rel0.dom().contains(k) && #[trigger] rel0[k].unacked().dom().contains(m) ==> m <= MAX_VAR_INT,
                forall|t: int| 0 <= t < packets@.len() ==> #[trigger] packet_info_ok(packets@[t]@, self.send_reliable_channels@),
            decreases order.len() - i,
        {
            let ghost st = client_pack_upto(order, i as nat, rel0, unrel0, seq0, avail0, now);
            let ghost rel_i = self.send_reliable_channels@;
            let ghost before_packets = packets@;
            proof {
                lemma_pack_ok_prefix(order, (i + 1) as nat, order.len() as nat, rel0, unrel0, seq0, avail0, now);
                assert(client_pack_upto(order, (i + 1) as nat, rel0, unrel0, seq0, avail0, now) == client_pack_step(
                    st,
                    order[i as int],
                    rel0,
                    unrel0,
                    now,
                ));
            }
            let o = self.channel_send_order[i];
            match o {
                ChannelOrder::Reliable(id) => {
                    let k = id as u64;
                    proof {
                        assert(match order[i as int] {
                            ChannelOrder::Reliable(id) => self.send_reliable_channels@.dom().contains(id as u64),
                            ChannelOrder::Unreliable(id) => self.send_unreliable_channels@.dom().contains(id as u64),
                        });
                    }
                    let mut channel = self.send_reliable_channels.remove(k).unwrap();
                    let ghost c1 = channel;
                    proof {
                        c1.lemma_ids_below_next();
                        assert forall|m: u64| #[trigger] c1.unacked().dom().contains(m) implies m <= MAX_VAR_INT by {
                            assert(rel0[k].unacked().dom().contains(m));
                        }
                    }
                    let mut ps = channel.get_packets_to_send(&mut self.packet_sequence, &mut available_bytes, self.current_time);
                    let ghost psv = ps@;
                    self.send_reliable_channels.insert(k, channel);
                    packets.append(&mut ps);
                    proof {
                        assert(self.send_reliable_channels@ =~= rel_i.insert(k, channel));
                        assert(packets_view(packets@) =~= packets_view(before_packets) + packets_view(psv));
                        assert(shapes_kept(c1.unacked(), channel.unacked())) by {
                            assert forall|m: u64| #[trigger] channel.unacked().dom().contains(m) implies c1.unacked().dom().contains(m)
                                && same_shape(channel.unacked()[m], c1.unacked()[m]) by {}
                        }
                        let rel_n = self.send_reliable_channels@;
                        assert forall|t: int| 0 <= t < packets@.len() implies #[trigger] packet_info_ok(packets@[t]@, rel_n) by {
                            if t < before_packets.len() {
                                assert(packets@[t] == before_packets[t]);
                                assert(packet_info_ok(before_packets[t]@, rel_i));
                                lemma_packet_info_kept(before_packets[t]@, rel_i, rel_n);
                            } else {
                                let p = psv[t - before_packets.len()];
                                assert(packets@[t] == p);
                                assert(packet_refs(p@, c1.unacked(), c1.channel_id_view()));
                                match p@ {
                                    PacketView::SmallReliable { channel_id, messages, .. } => {
                                        assert forall|j: int| 0 <= j < messages.len() implies #[trigger] messages[j].0
                                            < rel_n[channel_id as u64].next_message_id() && (rel_n[channel_id as u64].unacked().dom().contains(
                                            messages[j].0,
                                        ) ==> rel_n[channel_id as u64].unacked()[messages[j].0] is Small) by {
                                            assert(c1.unacked().dom().contains(messages[j].0));
                                            if channel.unacked().dom().contains(messages[j].0) {
                                                assert(same_shape(channel.unacked()[messages[j].0], c1.unacked()[messages[j].0]));
                                            }
                                        }
                                    },
                                    PacketView::ReliableSlice { channel_id, slice, .. } => {
                                        assert(c1.unacked().dom().contains(slice.message_id));
                                        assert(same_shape(channel.unacked()[slice.message_id], c1.unacked()[slice.message_id]));
                                    },
                                    _ => {},
                                }
                            }
                        }
                    }
                },
                ChannelOrder::Unreliable(id) => {
                    let k = id as u64;
                    proof {
                        assert(match order[i as int] {
                            ChannelOrder::Reliable(id) => self.send_reliable_channels@.dom().contains(id as u64),
                            ChannelOrder::Unreliable(id) => self.send_unreliable_channels@.dom().contains(id as u64),
                        });
                    }
                    let ghost unrel_i = self.send_unreliable_channels@;
                    let mut channel = self.send_unreliable_channels.remove(k).unwrap();
                    let mut ps = channel.get_packets_to_send(&mut self.packet_sequence, &mut available_bytes);
                    let ghost psv = ps@;
                    self.send_unreliable_channels.insert(k, channel);
                    packets.append(&mut ps);
                    proof {
                        assert(self.send_unreliable_channels@ =~= unrel_i.insert(k, channel));
                        assert(packets_view(packets@) =~= packets_view(before_packets) + packets_view(psv));
                        assert forall|t: int| 0 <= t < packets@.len() implies #[trigger] packet_info_ok(packets@[t]@, self.send_reliable_channels@) by {
                            if t < before_packets.len() {
                                assert(packets@[t] == before_packets[t]);
                            } else {
                                assert(unreliable_kind(psv[t - before_packets.len()]@));
                            }
                        }
                        assert forall|j: int| 0 <= j < channel.queued().len() implies #[trigger] channel.queued()[j].len() + SLICE_SIZE
                            <= usize::MAX by {}
                    }
                },
            }
            i = i + 1;
        }
        packets
    }


    /// What is kept of a packet until it is acknowledged.
    fn info_of(p: &Packet) -> (r: PacketSentInfo)
        requires
            p@ matches PacketView::Ack { ack_ranges, .. } ==> ack_ranges.len() > 0 && ack_ranges.last().1 >= 1,
        ensures
            info_view(r) == packet_info(p@),
    {
        match p {
            Packet::SmallReliable { channel_id, messages, .. } => {
                let mut message_ids: Vec<u64> = Vec::new();
                let mut i: usize = 0;
                while i < messages.len()
                    invariant
                        i <= messages@.len(),
                        message_ids@ == reliable_messages_view(messages@).map_values(|m: (u64, Seq<u8>)| m.0).take(i as int),
                    decreases messages@.len() - i,
                {
                    message_ids.push(messages[i].0);
                    proof {
                        assert(message_ids@ =~= reliable_messages_view(messages@).map_values(|m: (u64, Seq<u8>)| m.0).take(i + 1));
                    }
                    i = i + 1;
                }
                proof {
                    assert(message_ids@ =~= reliable_messages_view(messages@).map_values(|m: (u64, Seq<u8>)| m.0));
                }
                PacketSentInfo::ReliableMessages { channel_id: *channel_id, message_ids }
            },
            Packet::ReliableSlice { channel_id, slice, .. } => PacketSentInfo::ReliableSliceMessage {
                channel_id: *channel_id,
                message_id: slice.message_id,
                slice_index: slice.slice_index,
            },
            Packet::Ack { ack_ranges, .. } => {
                let last = ack_ranges.len() - 1;
                proof {
                    assert(ranges_view(ack_ranges@)[last as int] == (ack_ranges@[last as int].start, ack_ranges@[last as int].end));
                }
                PacketSentInfo::Ack { largest_acked_packet: ack_ranges[last].end - 1 }
            },
            _ => PacketSentInfo::Untracked,
        }
    }

    /// Records `packets` as sent now.
    fn record_sent_packets(&mut self, packets: &Vec<Packet>)
        requires
            old(self).wf(),
            forall|u: int| 0 <= u < packets@.len() ==> #[trigger] packet_info_ok(packets@[u]@, old(self).send_reliable_view()),
        ensures
            final(self).wf(),
            final(self).sent_records() == record_sent(old(self).sent_records(), packets_view(packets@), old(self).current_time_view()),
            final(self).same_but_sent(&*old(self)),
    {
        let sent_at = self.current_time;
        let ghost records0 = self.sent_records();
        let ghost planned = packets_view(packets@);
        let ghost rel_p = self.send_reliable_channels@;
        let mut t: usize = 0;
        proof {
            assert(planned.take(0) =~= Seq::<PacketView>::empty());
            assert forall|u: int| 0 <= u < packets@.len() implies #[trigger] packet_info_ok(packets@[u]@, rel_p) by {
                assert(packet_info_ok(packets@[u]@, old(self).send_reliable_view()));
            }
        }
        while t < packets.len()
            invariant
                self.wf(),
                t <= packets@.len(),
                planned == packets_view(packets@),
                self.send_reliable_channels@ == rel_p,
                self.current_time == sent_at,
                sent_at == old(self).current_time,
                rel_p == old(self).send_reliable_channels@,
                forall|u: int| 0 <= u < packets@.len() ==> #[trigger] packet_info_ok(packets@[u]@, rel_p),
                self.sent_records() == record_sent(records0, planned.take(t as int), sent_at),
                self.same_but_sent(&*old(self)),
            decreases packets@.len() - t,
        {
            proof {
                assert(planned[t as int] == packets@[t as int]@);
                assert(packet_info_ok(packets@[t as int]@, rel_p));
            }
            let info = Self::info_of(&packets[t]);
            let sequence = packets[t].sequence();
            let ghost before = self.sent_packets@;
            let ghost r_before = self.sent_records();
            let ghost pv = packets@[t as int]@;
            proof {
                self.sent_packets.lemma_wf();
            }
            self.sent_packets.insert(sequence, PacketSent { sent_at, info });
            proof {
                self.sent_packets.lemma_wf();
                assert(planned.take(t + 1).drop_last() =~= planned.take(t as int));
                assert(planned.take(t + 1).last() == pv);
                assert(packet_sequence_of(pv) == sequence);
                assert(self.sent_records() =~= r_before.insert(sequence, (sent_at, packet_info(pv))));
                assert forall|q: u64| #[trigger] self.sent_packets@.dom().contains(q) implies {
                    &&& self.sent_packets@[q].sent_at <= self.current_time
                    &&& info_consistent(self.sent_packets@[q].info, self.send_reliable_channels@)
                } by {
                    if q != sequence {
                        assert(before.dom().contains(q));
                    } else {
                        lemma_info_from_packet(info, pv, rel_p);
                    }
                }
            }
            t = t + 1;
        }
        proof {
            assert(planned.take(planned.len() as int) =~= planned);
        }
    }

    /// Writes each packet; the first one larger than `MAX_PACKET_BYTES`
    /// stops it.
    fn write_packets(packets: &Vec<Packet>) -> (r: Result<(Vec<Vec<u8>>, u64), SerializationError>)
        requires
            forall|i: int| 0 <= i < packets@.len() ==> spec_writable(#[trigger] packets@[i]@),
            total_encoded(packets_view(packets@)) <= u64::MAX,
        ensures
            all_fit(packets_view(packets@)) ==> (r matches Ok((bufs, n)) && buffers_view(bufs@) == encoded_all(
                packets_view(packets@),
            ) && n == total_encoded(packets_view(packets@))),
            !all_fit(packets_view(packets@)) ==> r == Err::<(Vec<Vec<u8>>, u64), SerializationError>(
                SerializationError::BufferTooShort,
            ),
    {
        let ghost planned = packets_view(packets@);
        let mut buffers: Vec<Vec<u8>> = Vec::new();
        let mut bytes_sent: u64 = 0;
        let mut t: usize = 0;
        proof {
            assert(buffers_view(buffers@) =~= encoded_all(planned.take(0)));
            lemma_total_encoded_prefix(planned, 0);
        }
        while t < packets.len()
            invariant
                t <= packets@.len(),
                planned == packets_view(packets@),
                forall|i: int| 0 <= i < packets@.len() ==> spec_writable(#[trigger] packets@[i]@),
                total_encoded(planned) <= u64::MAX,
                buffers_view(buffers@) == encoded_all(planned.take(t as int)),
                bytes_sent == total_encoded(planned.take(t as int)),
                all_fit(planned.take(t as int)),
            decreases packets@.len() - t,
        {
            proof {
                assert(planned[t as int] == packets@[t as int]@);
                lemma_total_encoded_prefix(planned, (t + 1) as nat);
                assert(planned.take(t + 1).drop_last() =~= planned.take(t as int));
                assert(planned.take(t + 1).last() == planned[t as int]);
            }
            match packets[t].to_bytes(MAX_PACKET_BYTES) {
                Err(e) => {
                    proof {
                        assert(!all_fit(planned)) by {
                            assert(spec_encode(planned[t as int]).len() > MAX_PACKET_BYTES);
                        }
                    }
                    return Err(e);
                },
                Ok(bytes) => {
                    let ghost before = buffers@;
                    let ghost bv = bytes@;
                    bytes_sent = bytes_sent + bytes.len() as u64;
                    buffers.push(bytes);
                    proof {
                        assert(bv == spec_encode(planned[t as int]));
                        assert(buffers_view(buffers@) =~= buffers_view(before).push(bv));
                        assert(encoded_all(planned.take(t + 1)) =~= encoded_all(planned.take(t as int)).push(bv));
                        assert(all_fit(planned.take(t + 1))) by {
                            assert forall|i: int| 0 <= i < t + 1 implies (#[trigger] spec_encode(planned.take(t + 1)[i])).len()
                                <= MAX_PACKET_BYTES by {
                                if i < t {
                                    assert(planned.take(t + 1)[i] == planned.take(t as int)[i]);
                                }
                            }
                        }
                    }
                },
            }
            t = t + 1;
        }
        proof {
            assert(planned.take(planned.len() as int) =~= planned);
        }
        Ok((buffers, bytes_sent))
    }

    /// Makes the packets to send now: each send channel, in send order,
    /// packs what it holds within the bytes allowed per tick, then an ack
    /// packet carries the pending acks. Each packet is recorded as sent and
    /// written; one larger than `MAX_PACKET_BYTES` closes the connection
    /// and nothing is sent. A closed connection sends nothing. See
    /// `packets_made`.
    #[verifier::spinoff_prover]
    pub fn get_packets_to_send(&mut self) -> (r: Vec<Vec<u8>>)
        requires
            old(self).wf(),
            old(self).can_make_packets(),
        ensures
            final(self).wf(),
            old(self).disconnect_reason_view() is Some ==> r@.len() == 0 && *final(self) == *old(self),
            old(self).disconnect_reason_view() is None ==> packets_made(*old(self), *final(self), buffers_view(r@)),
    {
        if self.is_disconnected() {
            return Vec::new();
        }
        let ghost b = *self;
        let ghost planned = b.planned_packets();
        let mut packets = self.pack_channels();
        let ghost rel_p = self.send_reliable_channels@;
        if self.pending_acks.len() > 0 {
            let ranges = self.copy_pending_acks();
            let ack = Packet::Ack { sequence: self.packet_sequence, ack_ranges: ranges };
            let ghost before = packets@;
            let ghost av = ack@;
            packets.push(ack);
            proof {
                assert(packets_view(packets@) =~= packets_view(before).push(av));
            }
            self.packet_sequence = self.packet_sequence + 1;
        }
        proof {
            assert(packets_view(packets@) == planned);
            assert forall|t: int| 0 <= t < packets@.len() implies #[trigger] packet_info_ok(packets@[t]@, rel_p) by {
                if t == packets@.len() - 1 && b.pending_acks_view().len() > 0 {
                    assert(packets_view(packets@)[t] == packets@[t]@);
                    let r = b.pending_acks_view();
                    assert(r[r.len() - 1].0 < r[r.len() - 1].1);
                }
            }
            assert forall|i: int| 0 <= i < packets@.len() implies spec_writable(#[trigger] packets@[i]@) by {
                assert(packets_view(packets@)[i] == packets@[i]@);
            }
        }
        let ghost s_packed = *self;
        self.record_sent_packets(&packets);
        let ghost s_recorded = *self;
        proof {
            assert(s_packed.sent_records() == b.sent_records());
            assert(s_recorded.sent_records() == record_sent(b.sent_records(), planned, b.current_time_view()));
            assert(self.stats_view() == b.stats_view());
            assert(encoded_all(planned).len() == planned.len());
        }
        match Self::write_packets(&packets) {
            Err(e) => {
                self.disconnect_reason = Some(DisconnectReason::PacketSerialization(e));
                let none: Vec<Vec<u8>> = Vec::new();
                proof {
                    assert(!all_fit(planned));
                    assert(buffers_view(none@) =~= Seq::<Seq<u8>>::empty());
                }
                none
            },
            Ok((buffers, bytes_sent)) => {
                proof {
                    assert(all_fit(planned));
                    assert(buffers_view(buffers@).len() == buffers@.len());
                    assert(buffers@.len() == planned.len());
                }
                self.stats.sent_packets(buffers.len() as u64, bytes_sent);
                buffers
            },
        }
    }

    /// A copy of the pending acks.
    fn copy_pending_acks(&self) -> (r: Vec<Range<u64>>)
        ensures
            ranges_view(r@) == self.pending_acks_view(),
    {
        let mut ranges: Vec<Range<u64>> = Vec::new();
        let mut j: usize = 0;
        while j < self.pending_acks.len()
            invariant
                j <= self.pending_acks@.len(),
                ranges_view(ranges@) == ranges_view(self.pending_acks@).take(j as int),
            decreases self.pending_acks@.len() - j,
        {
            let start = self.pending_acks[j].start;
            let end = self.pending_acks[j].end;
            let ghost before = ranges@;
            proof {
                assert(ranges_view(before).len() == before.len());
                assert(ranges_view(self.pending_acks@).len() == self.pending_acks@.len());
            }
            ranges.push(Range { start, end });
            proof {
                assert(ranges@.len() == j + 1);
                assert forall|i: int| 0 <= i < j + 1 implies #[trigger] ranges_view(ranges@)[i] == ranges_view(self.pending_acks@)[i] by {
                    if i < j {
                        assert(ranges@[i] == before[i]);
                        assert(ranges_view(before)[i] == ranges_view(self.pending_acks@).take(j as int)[i]);
                    }
                }
                assert(ranges_view(ranges@) =~= ranges_view(self.pending_acks@).take(j + 1));
            }
            j = j + 1;
        }
        proof {
            assert(ranges_view(ranges@) =~= ranges_view(self.pending_acks@));
        }
        ranges
    }

    /// Closes the connection for `reason`, unless it is already closed.
    pub fn disconnect_with_reason(&mut self, reason: DisconnectReason)
        requires
            old(self).wf(),
        ensures
            final(self).wf(),
            final(self).same_but_reason(&*old(self)),
            old(self).disconnect_reason_view() is Some ==> final(self).disconnect_reason_view()
                == old(self).disconnect_reason_view(),
            old(self).disconnect_reason_view() is None ==> final(self).disconnect_reason_view() == Some(reason),
    {
        if self.disconnect_reason.is_some() {
            return;
        }
        self.disconnect_reason = Some(reason);
    }

    /// Bytes send channel `channel_id` may still take.
    pub fn channel_available_memory(&self, channel_id: u8) -> (r: usize)
        requires
            self.wf(),
            self.send_reliable_ids().contains(channel_id as u64) || self.send_unreliable_ids().contains(channel_id as u64),
        ensures
            self.send_reliable_ids().contains(channel_id as u64) ==> r == self.send_reliable_view()[channel_id as u64].max_memory_view()
                - self.send_reliable_view()[channel_id as u64].memory_usage_view(),
            !self.send_reliable_ids().contains(channel_id as u64) ==> r == self.send_unreliable_view()[channel_id as u64].max_memory_view()
                - self.send_unreliable_view()[channel_id as u64].memory_usage(),
    {
        let k = channel_id as u64;
        match self.send_reliable_channels.get(k) {
            Some(channel) => channel.available_memory(),
            None => self.send_unreliable_channels.get(k).unwrap().available_memory(),
        }
    }

    /// Whether a message of `size_bytes` bytes fits send channel
    /// `channel_id` now.
    pub fn can_send_message(&self, channel_id: u8, size_bytes: usize) -> (r: bool)
        requires
            self.wf(),
            self.send_reliable_ids().contains(channel_id as u64) || self.send_unreliable_ids().contains(channel_id as u64),
        ensures
            self.send_reliable_ids().contains(channel_id as u64) ==> r == (size_bytes <= self.send_reliable_view()[channel_id as u64].max_memory_view()
                - self.send_reliable_view()[channel_id as u64].memory_usage_view()),
            !self.send_reliable_ids().contains(channel_id as u64) ==> r == (size_bytes <= self.send_unreliable_view()[channel_id as u64].max_memory_view()
                - self.send_unreliable_view()[channel_id as u64].memory_usage()),
    {
        size_bytes <= self.channel_available_memory(channel_id)
    }

}

} // verus!
