//! Channel lists of a connection.
use vstd::prelude::*;

use crate::channel_config::{ChannelConfig, SendType, MILLIS};

verus! {

/// The channels a connection sends on and those it receives on.
#[derive(Debug, Clone)]
pub struct ConnectionConfig {
    pub send_channels_config: Vec<ChannelConfig>,
    pub receive_channels_config: Vec<ChannelConfig>,
}

/// Configuration for a renet connection and its channels.
#[derive(Debug, Clone)]
pub struct RenetConnectionConfig {
    pub send_channels_config: Vec<ChannelConfig>,
    pub receive_channels_config: Vec<ChannelConfig>,
}

/// Unreliable, reliable unordered and reliable ordered channels with ids 0,
/// 1 and 2, each with 20 KiB of memory and a resend time of 300 ms for the
/// reliable ones.
pub open spec fn spec_renet_default_channels() -> Seq<ChannelConfig> {
    seq![
        ChannelConfig { channel_id: 0, max_memory_usage_bytes: 20_480usize, send_type: SendType::Unreliable },
        ChannelConfig {
            channel_id: 1,
            max_memory_usage_bytes: 20_480usize,
            send_type: SendType::ReliableUnordered { resend_time: 300_000_000u64 },
        },
        ChannelConfig {
            channel_id: 2,
            max_memory_usage_bytes: 20_480usize,
            send_type: SendType::ReliableOrdered { resend_time: 300_000_000u64 },
        },
    ]
}

fn copy_channels(channels: &Vec<ChannelConfig>) -> (r: Vec<ChannelConfig>)
    ensures
        r@ == channels@,
{
    let mut r: Vec<ChannelConfig> = Vec::new();
    let mut i: usize = 0;
    while i < channels.len()
        invariant
            i <= channels@.len(),
            r@ == channels@.subrange(0, i as int),
        decreases channels@.len() - i,
    {
        r.push(channels[i]);
        i = i + 1;
        proof {
            assert(r@ =~= channels@.subrange(0, i as int));
        }
    }
    proof {
        assert(channels@.subrange(0, channels@.len() as int) =~= channels@);
    }
    r
}

impl Default for RenetConnectionConfig {
    fn default() -> (r: Self)
        ensures
            r.send_channels_config@ == spec_renet_default_channels(),
            r.receive_channels_config@ == spec_renet_default_channels(),
    {
        let channels_config = vec![
            ChannelConfig { channel_id: 0, max_memory_usage_bytes: 1024 * 20, send_type: SendType::Unreliable },
            ChannelConfig {
                channel_id: 1,
                max_memory_usage_bytes: 1024 * 20,
                send_type: SendType::ReliableUnordered { resend_time: 300 * MILLIS },
            },
            ChannelConfig {
                channel_id: 2,
                max_memory_usage_bytes: 1024 * 20,
                send_type: SendType::ReliableOrdered { resend_time: 300 * MILLIS },
            },
        ];
        proof {
            assert(channels_config@ =~= spec_renet_default_channels());
        }
        Self { send_channels_config: copy_channels(&channels_config), receive_channels_config: channels_config }
    }
}

impl RenetConnectionConfig {
    /// The channel lists of a connection made with this configuration.
    pub fn to_connection_config(&self) -> (r: ConnectionConfig)
        ensures
            r.send_channels_config@ == self.send_channels_config@,
            r.receive_channels_config@ == self.receive_channels_config@,
    {
        ConnectionConfig {
            send_channels_config: copy_channels(&self.send_channels_config),
            receive_channels_config: copy_channels(&self.receive_channels_config),
        }
    }
}

} // verus!
