//! Configuration of the channels of a connection.
use vstd::prelude::*;

verus! {

/// Nanoseconds in a millisecond.
pub const MILLIS: u64 = 1_000_000;

/// Delivery guarantee of a channel. Resend times are in nanoseconds.
#[derive(Debug, Clone, Copy, PartialEq, Eq)]
pub enum SendType {
    /// Messages can be lost or received out of order.
    Unreliable,
    /// Messages are guaranteed to be received and in the same order they were sent.
    ReliableOrdered { resend_time: u64 },
    /// Messages are guaranteed to be received but may be in an different order that they were sent.
    ReliableUnordered { resend_time: u64 },
}

/// Configuration of a channel for a server or client. Channels are
/// unilateral and message based.
#[derive(Debug, Clone, Copy, PartialEq, Eq)]
pub struct ChannelConfig {
    /// Channel identifier, unique within its own list, but it can be
    /// repeated between the server and client lists.
    pub channel_id: u8,
    /// Maximum number of bytes that the channel may hold without
    /// acknowledgement of messages before becoming full. Unreliable channels
    /// drop new messages when this value is reached; reliable channels cause
    /// a disconnect.
    pub max_memory_usage_bytes: usize,
    /// Delivery guarantee of the channel.
    pub send_type: SendType,
}

/// The channels of the default configuration: unreliable, reliable ordered
/// and reliable unordered.
#[derive(Debug, Clone, Copy, PartialEq, Eq)]
pub enum DefaultChannel {
    Unreliable,
    ReliableOrdered,
    ReliableUnordered,
}

/// The channel id of each default channel.
pub open spec fn spec_default_channel_id(channel: DefaultChannel) -> u8 {
    match channel {
        DefaultChannel::Unreliable => 0,
        DefaultChannel::ReliableUnordered => 1,
        DefaultChannel::ReliableOrdered => 2,
    }
}

/// The three default channels, each with 5 MiB of memory and a resend
/// time of 300 ms for the reliable ones.
pub open spec fn spec_default_config() -> Seq<ChannelConfig> {
    seq![
        ChannelConfig {
            channel_id: 0,
            max_memory_usage_bytes: 5_242_880usize,
            send_type: SendType::Unreliable,
        },
        ChannelConfig {
            channel_id: 1,
            max_memory_usage_bytes: 5_242_880usize,
            send_type: SendType::ReliableUnordered { resend_time: 300_000_000u64 },
        },
        ChannelConfig {
            channel_id: 2,
            max_memory_usage_bytes: 5_242_880usize,
            send_type: SendType::ReliableOrdered { resend_time: 300_000_000u64 },
        },
    ]
}

impl DefaultChannel {
    pub fn config() -> (r: Vec<ChannelConfig>)
        ensures
            r@ == spec_default_config(),
    {
        let r = vec![
            ChannelConfig {
                channel_id: 0,
                max_memory_usage_bytes: 5 * 1024 * 1024,
                send_type: SendType::Unreliable,
            },
            ChannelConfig {
                channel_id: 1,
                max_memory_usage_bytes: 5 * 1024 * 1024,
                send_type: SendType::ReliableUnordered { resend_time: 300 * MILLIS },
            },
            ChannelConfig {
                channel_id: 2,
                max_memory_usage_bytes: 5 * 1024 * 1024,
                send_type: SendType::ReliableOrdered { resend_time: 300 * MILLIS },
            },
        ];
        proof {
            assert(r@ =~= spec_default_config());
        }
        r
    }

    /// The channel id of this default channel.
    pub fn id(&self) -> (r: u8)
        ensures
            r == spec_default_channel_id(*self),
    {
        match self {
            DefaultChannel::Unreliable => 0,
            DefaultChannel::ReliableUnordered => 1,
            DefaultChannel::ReliableOrdered => 2,
        }
    }
}

impl From<DefaultChannel> for u8 {
    fn from(channel: DefaultChannel) -> (r: u8) {
        channel.id()
    }
}

impl vstd::std_specs::convert::FromSpecImpl<DefaultChannel> for u8 {
    open spec fn obeys_from_spec() -> bool {
        true
    }

    open spec fn from_spec(channel: DefaultChannel) -> u8 {
        spec_default_channel_id(channel)
    }
}

} // verus!
