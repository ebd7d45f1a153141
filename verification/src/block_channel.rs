//! The receiving half of the block channel: big reliable messages, sent one
//! at a time in slices and put back together here.
use vstd::prelude::*;

use crate::channel_error::ChannelError;
use crate::send_block_channel::{bincode_slice_message_decoded, decode_slice_messages, slice_message_view};
use crate::slice_constructor::{
    assembly_wf, concat_slices, count_true, receive_slice, slice_len_ok,
};
use std::collections::VecDeque;

verus! {

/// One slice of a block.
#[derive(Debug, Clone, PartialEq, Eq)]
pub struct SliceMessage {
    pub chunk_id: u16,
    pub slice_id: u32,
    pub num_slices: u32,
    pub data: Vec<u8>,
}

/// Configuration for a block channel, used for sending big and reliable
/// messages that are not so frequent, one at a time.
#[derive(Debug, Clone)]
pub struct BlockChannelConfig {
    /// Channel identifier, unique between all channels.
    pub channel_id: u8,
    /// Data is sliced up into fragments of this size (bytes).
    pub slice_size: usize,
    /// Delay to wait before resending messages, in nanoseconds.
    pub resend_time: u64,
    /// Number of packet entries in the sent packet sequence buffer.
    pub sent_packet_buffer_size: usize,
    /// Maximum number of bytes that this channel is allowed to write per packet.
    pub packet_budget: u64,
    /// Maximum size that a message can have in this channel; it can be above
    /// the packet budget.
    pub max_message_size: u64,
    /// Queue size for the block channel.
    pub message_send_queue_size: usize,
}

impl Default for BlockChannelConfig {
    fn default() -> (r: Self)
        ensures
            r.channel_id == 2,
            r.slice_size == 400,
            r.resend_time == 300_000_000,
            r.sent_packet_buffer_size == 256,
            r.packet_budget == 8 * 1024,
            r.max_message_size == 256 * 1024,
            r.message_send_queue_size == 8,
    {
        Self {
            channel_id: 2,
            slice_size: 400,
            resend_time: 300_000_000,
            sent_packet_buffer_size: 256,
            packet_budget: 8 * 1024,
            max_message_size: 256 * 1024,
            message_send_queue_size: 8,
        }
    }
}

enum Receiving {
    Yes {
        chunk_id: u16,
        num_slices: usize,
        num_received_slices: usize,
        received: Vec<bool>,
        chunk_data: Vec<u8>,
        slices: Ghost<Seq<Seq<u8>>>,
    },
    No,
}

/// The block being received: its id, its number of slices, which slices
/// arrived and what they held.
pub ghost struct BlockView {
    pub chunk_id: u16,
    pub num_slices: nat,
    pub received: Seq<bool>,
    pub slices: Seq<Seq<u8>>,
}

/// Receives the blocks of one channel.
pub struct ReceiveBlockChannel {
    channel_id: u8,
    receiving: Receiving,
    messages_received: VecDeque<Vec<u8>>,
    slice_size: usize,
    max_message_size: u64,
    error: Option<ChannelError>,
}

/// The error, if any, with which a first slice cannot start a block: no
/// slices at all, or more bytes than the channel allows.
pub open spec fn start_error(slice_size: nat, max_message_size: nat, m: SliceMessage) -> Option<
    ChannelError,
> {
    if m.num_slices == 0 {
        Some(ChannelError::InvalidSliceMessage)
    } else if m.num_slices * slice_size > max_message_size {
        Some(ChannelError::ReceivedMessageAboveMaxSize)
    } else {
        None
    }
}

/// The block that `m` is checked against: the one being received, or a new
/// empty one that `m` starts.
pub open spec fn block_for(current: Option<BlockView>, m: SliceMessage) -> BlockView {
    match current {
        Some(b) => b,
        None => BlockView {
            chunk_id: m.chunk_id,
            num_slices: m.num_slices as nat,
            received: Seq::new(m.num_slices as nat, |i: int| false),
            slices: Seq::new(m.num_slices as nat, |i: int| Seq::<u8>::empty()),
        },
    }
}

/// Whether `m` belongs to block `b` and has the size of its place in it.
pub open spec fn slice_fits(slice_size: nat, b: BlockView, m: SliceMessage) -> bool {
    &&& m.chunk_id == b.chunk_id
    &&& m.num_slices == b.num_slices
    &&& slice_len_ok(b.num_slices, slice_size, m.slice_id as int, m.data@.len())
}

/// The slices that no block can take, refused before anything else: a
/// block size that overflows, or a slice past the end of its block that
/// passes the size check.
pub open spec fn slice_message_panics(
    slice_size: nat,
    max_message_size: nat,
    current: Option<BlockView>,
    m: SliceMessage,
) -> bool {
    ||| current is None && m.num_slices != 0 && m.num_slices * slice_size > u64::MAX
    ||| current is None && m.num_slices != 0 && m.num_slices * slice_size <= max_message_size
        && m.num_slices * slice_size > usize::MAX
    ||| (current is Some || start_error(slice_size, max_message_size, m) is None) && slice_fits(
        slice_size,
        block_for(current, m),
        m,
    ) && m.slice_id >= m.num_slices
}

/// What taking slice `m` does: the block afterwards and the result.
pub open spec fn slice_taken(size: nat, max: nat, current: Option<BlockView>, m: SliceMessage) -> (
    Option<BlockView>,
    Result<Option<Seq<u8>>, ChannelError>,
) {
    let start = if current is None {
        start_error(size, max, m)
    } else {
        None
    };
    let b = block_for(current, m);
    let i = m.slice_id as int;
    let received = b.received.update(i, true);
    let slices = if b.received[i] {
        b.slices
    } else {
        b.slices.update(i, m.data@)
    };
    let complete = forall|j: int| 0 <= j < b.num_slices ==> #[trigger] received[j];
    if slice_message_panics(size, max, current, m) {
        (current, Err(ChannelError::InvalidSliceMessage))
    } else if start is Some {
        (current, Err(start->Some_0))
    } else if m.chunk_id != b.chunk_id {
        (Some(b), Ok(None))
    } else if !slice_fits(size, b, m) {
        (Some(b), Err(ChannelError::InvalidSliceMessage))
    } else if complete {
        (None, Ok(Some(concat_slices(slices))))
    } else {
        (Some(BlockView { received, slices, ..b }), Ok(None))
    }
}

/// What taking the entries of a packet in order does to the block being
/// received, the blocks queued and the error: an entry that was not decoded,
/// or a slice refused, stops the channel with an error; a channel with an
/// error takes nothing more.
pub open spec fn slices_taken(
    size: nat,
    max: nat,
    block: Option<BlockView>,
    queue: Seq<Seq<u8>>,
    error: Option<ChannelError>,
    messages: Seq<Option<SliceMessage>>,
) -> (Option<BlockView>, Seq<Seq<u8>>, Option<ChannelError>)
    decreases messages.len(),
{
    if error is Some || messages.len() == 0 {
        (block, queue, error)
    } else {
        match messages[0] {
            None => (block, queue, Some(ChannelError::FailedToSerialize)),
            Some(m) => {
                let (next, r) = slice_taken(size, max, block, m);
                match r {
                    Err(e) => (next, queue, Some(e)),
                    Ok(Some(p)) => slices_taken(size, max, next, queue.push(p), None, messages.drop_first()),
                    Ok(None) => slices_taken(size, max, next, queue, None, messages.drop_first()),
                }
            },
        }
    }
}

impl ReceiveBlockChannel {
    pub closed spec fn wf(&self) -> bool {
        match self.receiving {
            Receiving::Yes { num_slices, num_received_slices, received, chunk_data, slices, .. } => {
                &&& assembly_wf(
                    num_slices as nat,
                    self.slice_size as nat,
                    received@,
                    num_received_slices as nat,
                    chunk_data@,
                    slices@,
                )
                &&& num_received_slices < num_slices
            },
            Receiving::No => true,
        }
    }

    /// The block being received, if any.
    pub closed spec fn block(&self) -> Option<BlockView> {
        match self.receiving {
            Receiving::Yes { chunk_id, num_slices, received, slices, .. } => Some(
                BlockView { chunk_id, num_slices: num_slices as nat, received: received@, slices: slices@ },
            ),
            Receiving::No => None,
        }
    }

    pub closed spec fn slice_size_view(&self) -> nat {
        self.slice_size as nat
    }

    pub closed spec fn max_message_size_view(&self) -> nat {
        self.max_message_size as nat
    }

    pub closed spec fn channel_id_view(&self) -> u8 {
        self.channel_id
    }

    /// Blocks received and not yet taken, oldest first.
    pub closed spec fn received_messages(&self) -> Seq<Seq<u8>> {
        self.messages_received@.map_values(|m: Vec<u8>| m@)
    }

    pub closed spec fn error_view(&self) -> Option<ChannelError> {
        self.error
    }

    /// A channel that receives nothing yet. The slice size must fit the
    /// packet budget.
    pub fn new(config: BlockChannelConfig) -> (r: Self)
        requires
            config.slice_size <= config.packet_budget,
        ensures
            r.wf(),
            r.block() is None,
            r.slice_size_view() == config.slice_size,
            r.max_message_size_view() == config.max_message_size,
            r.channel_id_view() == config.channel_id,
            r.received_messages() == Seq::<Seq<u8>>::empty(),
            r.error_view() is None,
    {
        let r = Self {
            slice_size: config.slice_size,
            max_message_size: config.max_message_size,
            channel_id: config.channel_id,
            receiving: Receiving::No,
            messages_received: VecDeque::new(),
            error: None,
        };
        proof {
            assert(r.received_messages() =~= Seq::<Seq<u8>>::empty());
        }
        r
    }

    /// Whether a block is being received.
    pub fn is_receiving(&self) -> (r: bool)
        ensures
            r == self.block() is Some,
    {
        match self.receiving {
            Receiving::Yes { .. } => true,
            Receiving::No => false,
        }
    }

    /// Whether `slice_message_panics` holds of `message` against the block
    /// being received.
    fn slice_message_refused(&self, message: &SliceMessage) -> (r: bool)
        requires
            self.wf(),
        ensures
            r == slice_message_panics(self.slice_size_view(), self.max_message_size_view(), self.block(), *message),
    {
        let n = message.num_slices as u128;
        let size = self.slice_size as u128;
        proof {
            assert(n * size <= 0xffff_ffffu128 * 0xffff_ffff_ffff_ffffu128) by (nonlinear_arith)
                requires
                    n <= 0xffff_ffffu128,
                    size <= 0xffff_ffff_ffff_ffffu128,
            ;
        }
        let total = n * size;
        let past_end = message.slice_id >= message.num_slices && message.data.len() == self.slice_size;
        match &self.receiving {
            Receiving::No => {
                if message.num_slices == 0 {
                    return false;
                }
                if total > u64::MAX as u128 {
                    return true;
                }
                if total > self.max_message_size as u128 {
                    return false;
                }
                total > usize::MAX as u128 || past_end
            },
            Receiving::Yes { chunk_id, num_slices, .. } => {
                message.chunk_id == *chunk_id && message.num_slices as usize == *num_slices && past_end
            },
        }
    }

    /// Takes one slice. A first slice starts its block, unless it has no
    /// slices or the block would be too big. A slice of another block is
    /// ignored; a slice with another number of slices, or of the wrong
    /// size, is refused. Once every slice of the block has arrived, the
    /// block is returned, its slices end to end, and the channel waits for
    /// the next one.
    pub fn process_slice_message(&mut self, message: &SliceMessage) -> (r: Result<
        Option<Vec<u8>>,
        ChannelError,
    >)
        requires
            old(self).wf(),
        ensures
            final(self).wf(),
            final(self).slice_size_view() == old(self).slice_size_view(),
            final(self).max_message_size_view() == old(self).max_message_size_view(),
            final(self).channel_id_view() == old(self).channel_id_view(),
            final(self).received_messages() == old(self).received_messages(),
            final(self).error_view() == old(self).error_view(),
            ({
                let (next, res) = slice_taken(
                    old(self).slice_size_view(),
                    old(self).max_message_size_view(),
                    old(self).block(),
                    *message,
                );
                &&& final(self).block() == next
                &&& match res {
                    Ok(Some(p)) => r matches Ok(Some(v)) && v@ == p,
                    Ok(None) => r == Ok::<Option<Vec<u8>>, ChannelError>(None),
                    Err(e) => r == Err::<Option<Vec<u8>>, ChannelError>(e),
                }
            }),
    {
        if self.slice_message_refused(message) {
            return Err(ChannelError::InvalidSliceMessage);
        }
        if let Receiving::No = self.receiving {
            if message.num_slices == 0 {
                return Err(ChannelError::InvalidSliceMessage);
            }
            let total_size = (message.num_slices as u64) * (self.slice_size as u64);
            if total_size > self.max_message_size {
                return Err(ChannelError::ReceivedMessageAboveMaxSize);
            }
            let num_slices = message.num_slices as usize;
            let received = vec![false; num_slices];
            let chunk_data = vec![0u8; num_slices * self.slice_size];
            proof {
                assert(received@ =~= Seq::new(num_slices as nat, |i: int| false));
                lemma_no_true(received@);
            }
            self.receiving = Receiving::Yes {
                num_slices,
                chunk_id: message.chunk_id,
                num_received_slices: 0,
                received,
                chunk_data,
                slices: Ghost(Seq::new(num_slices as nat, |i: int| Seq::<u8>::empty())),
            };
        }
        let slice_size = self.slice_size;
        let ghost b = self.block()->Some_0;
        let result = match &mut self.receiving {
            Receiving::No => {
                proof {
                    assert(false);
                }
                None
            },
            Receiving::Yes {
                chunk_id,
                num_slices,
                chunk_data,
                received,
                num_received_slices,
                slices,
            } => {
                if message.chunk_id != *chunk_id {
                    return Ok(None);
                }
                if message.num_slices as usize != *num_slices {
                    return Err(ChannelError::InvalidSliceMessage);
                }
                let slice_id = message.slice_id as usize;
                let is_last_slice = slice_id == *num_slices - 1;
                if is_last_slice {
                    if message.data.len() > slice_size {
                        return Err(ChannelError::InvalidSliceMessage);
                    }
                } else if message.data.len() != slice_size {
                    return Err(ChannelError::InvalidSliceMessage);
                }
                let ghost old_received = received@;
                let r = receive_slice(
                    received,
                    num_received_slices,
                    chunk_data,
                    slices,
                    *num_slices,
                    slice_size,
                    slice_id,
                    message.data.as_slice(),
                );
                proof {
                    lemma_complete_iff(received@, *num_received_slices as nat);
                    lemma_count_le(received@);
                }
                r
            },
        };
        match result {
            Some(block) => {
                self.receiving = Receiving::No;
                Ok(Some(block))
            },
            None => Ok(None),
        }
    }

    /// Takes the messages of one packet, each read as a slice message (see
    /// `bincode_slice_message_decoded`), as `process_messages` takes them.
    pub fn process_payloads(&mut self, messages: Vec<Vec<u8>>)
        requires
            old(self).wf(),
        ensures
            final(self).wf(),
            final(self).slice_size_view() == old(self).slice_size_view(),
            final(self).max_message_size_view() == old(self).max_message_size_view(),
            final(self).channel_id_view() == old(self).channel_id_view(),
            exists|decoded: Seq<Option<SliceMessage>>|
                #![trigger slices_taken(
                    old(self).slice_size_view(),
                    old(self).max_message_size_view(),
                    old(self).block(),
                    old(self).received_messages(),
                    old(self).error_view(),
                    decoded,
                )]
                {
                    &&& decoded.len() == messages@.len()
                    &&& forall|i: int|
                        0 <= i < decoded.len() ==> match bincode_slice_message_decoded(messages@[i]@) {
                            Some(f) => #[trigger] decoded[i] matches Some(m) && slice_message_view(m) == f,
                            None => decoded[i] is None,
                        }
                    &&& (final(self).block(), final(self).received_messages(), final(self).error_view())
                        == slices_taken(
                        old(self).slice_size_view(),
                        old(self).max_message_size_view(),
                        old(self).block(),
                        old(self).received_messages(),
                        old(self).error_view(),
                        decoded,
                    )
                },
    {
        let decoded = decode_slice_messages(&messages);
        let ghost d = decoded@;
        self.process_messages(decoded);
        proof {
            assert(slices_taken(
                old(self).slice_size_view(),
                old(self).max_message_size_view(),
                old(self).block(),
                old(self).received_messages(),
                old(self).error_view(),
                d,
            ) == (self.block(), self.received_messages(), self.error_view()));
        }
    }

    /// Takes the slices of one packet, in order, and queues the blocks they
    /// complete. An entry that could not be decoded (`None`) or a slice
    /// refused by `process_slice_message` stops the channel with an error;
    /// a channel with an error takes nothing more.
    pub fn process_messages(&mut self, messages: Vec<Option<SliceMessage>>)
        requires
            old(self).wf(),
        ensures
            final(self).wf(),
            final(self).slice_size_view() == old(self).slice_size_view(),
            final(self).max_message_size_view() == old(self).max_message_size_view(),
            final(self).channel_id_view() == old(self).channel_id_view(),
            (final(self).block(), final(self).received_messages(), final(self).error_view()) == slices_taken(
                old(self).slice_size_view(),
                old(self).max_message_size_view(),
                old(self).block(),
                old(self).received_messages(),
                old(self).error_view(),
                messages@,
            ),
    {
        if self.error.is_some() {
            return;
        }
        let mut k: usize = 0;
        let ghost size = self.slice_size_view();
        let ghost max = self.max_message_size_view();
        let ghost channel_id = self.channel_id_view();
        let ghost target = slices_taken(size, max, self.block(), self.received_messages(), self.error_view(), messages@);
        proof {
            assert(messages@.subrange(0, messages@.len() as int) =~= messages@);
        }
        while k < messages.len()
            invariant
                self.wf(),
                k <= messages@.len(),
                self.slice_size_view() == size,
                self.max_message_size_view() == max,
                self.channel_id_view() == channel_id,
                size == old(self).slice_size_view(),
                max == old(self).max_message_size_view(),
                channel_id == old(self).channel_id_view(),
                target == slices_taken(
                    old(self).slice_size_view(),
                    old(self).max_message_size_view(),
                    old(self).block(),
                    old(self).received_messages(),
                    old(self).error_view(),
                    messages@,
                ),
                self.error_view() is None,
                target == slices_taken(
                    size,
                    max,
                    self.block(),
                    self.received_messages(),
                    self.error_view(),
                    messages@.subrange(k as int, messages@.len() as int),
                ),
            decreases messages@.len() - k,
        {
            let ghost rest = messages@.subrange(k as int, messages@.len() as int);
            proof {
                assert(rest[0] == messages@[k as int]);
                assert(rest.drop_first() =~= messages@.subrange(k + 1, messages@.len() as int));
            }
            match &messages[k] {
                None => {
                    self.error = Some(ChannelError::FailedToSerialize);
                    return;
                },
                Some(slice_message) => {
                    let ghost queued = self.received_messages();
                    match self.process_slice_message(slice_message) {
                        Ok(Some(message)) => {
                            let ghost mv = message@;
                            self.messages_received.push_back(message);
                            proof {
                                assert(self.received_messages() =~= queued.push(mv));
                            }
                        },
                        Ok(None) => {},
                        Err(e) => {
                            self.error = Some(e);
                            return;
                        },
                    }
                },
            }
            k = k + 1;
        }
        proof {
            assert(messages@.subrange(k as int, messages@.len() as int) =~= Seq::<Option<SliceMessage>>::empty());
        }
    }

    /// The oldest block received and not yet taken.
    pub fn receive_message(&mut self) -> (r: Option<Vec<u8>>)
        requires
            old(self).wf(),
        ensures
            final(self).wf(),
            old(self).received_messages().len() == 0 ==> r is None && final(self).received_messages()
                == old(self).received_messages(),
            old(self).received_messages().len() > 0 ==> (r matches Some(m) && m@ == old(
                self,
            ).received_messages()[0]) && final(self).received_messages() == old(
                self,
            ).received_messages().drop_first(),
            final(self).block() == old(self).block(),
            final(self).error_view() == old(self).error_view(),
    {
        let r = self.messages_received.pop_front();
        proof {
            if old(self).received_messages().len() > 0 {
                assert(self.received_messages() =~= old(self).received_messages().drop_first());
            }
        }
        r
    }

    /// The error that stopped the channel, if any.
    pub fn error(&self) -> (r: Option<ChannelError>)
        ensures
            r == self.error_view(),
    {
        self.error
    }
}

proof fn lemma_no_true(s: Seq<bool>)
    requires
        forall|i: int| 0 <= i < s.len() ==> !s[i],
    ensures
        count_true(s) == 0,
    decreases s.len(),
{
    if s.len() > 0 {
        lemma_no_true(s.drop_last());
    }
}

proof fn lemma_complete_iff(s: Seq<bool>, c: nat)
    requires
        c == count_true(s),
    ensures
        c == s.len() <==> forall|j: int| 0 <= j < s.len() ==> #[trigger] s[j],
    decreases s.len(),
{
    if s.len() > 0 {
        lemma_complete_iff(s.drop_last(), count_true(s.drop_last()));
        if forall|j: int| 0 <= j < s.len() ==> #[trigger] s[j] {
            assert forall|j: int| 0 <= j < s.drop_last().len() implies #[trigger] s.drop_last()[j] by {
                assert(s[j]);
            }
        }
        if c == s.len() {
            assert(count_true(s.drop_last()) <= s.drop_last().len()) by {
                lemma_count_le(s.drop_last());
            }
            assert forall|j: int| 0 <= j < s.len() implies #[trigger] s[j] by {
                if j < s.len() - 1 {
                    assert(s.drop_last()[j]);
                }
            }
        }
    }
}

proof fn lemma_count_le(s: Seq<bool>)
    ensures
        count_true(s) <= s.len(),
    decreases s.len(),
{
    if s.len() > 0 {
        lemma_count_le(s.drop_last());
    }
}

} // verus!
