//! Errors of the block channel and of the connection it runs in.
use vstd::prelude::*;

verus! {

/// Why a remote connection was closed.
#[derive(Clone, Copy, Debug, PartialEq, Eq)]
pub enum DisconnectionReason {
    DisconnectedByServer,
    DisconnectedByClient,
    InvalidChannelId(u8),
    SendChannelError { channel_id: u8, error: ChannelError },
    ReceiveChannelError { channel_id: u8, error: ChannelError },
}

/// What went wrong in a channel.
#[derive(Clone, Copy, Debug, PartialEq, Eq)]
pub enum ChannelError {
    ReliableChannelOutOfSync,
    SendQueueFull,
    FailedToSerialize,
    SentMessageAboveMaxSize,
    SentEmptyMessage,
    ReceivedMessageAboveMaxSize,
    InvalidSliceMessage,
}

} // verus!
