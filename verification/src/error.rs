//! Errors of connections and channels.
use vstd::prelude::*;

use crate::packet::SerializationError;

verus! {

/// Why a connection ended.
#[derive(Clone, Copy, Debug, PartialEq, Eq)]
pub enum DisconnectReason {
    Transport,
    DisconnectedByClient,
    DisconnectedByServer,
    PacketSerialization(SerializationError),
    PacketDeserialization(SerializationError),
    ReceivedInvalidChannelId(u8),
    SendChannelError { channel_id: u8, error: ChannelError },
    ReceiveChannelError { channel_id: u8, error: ChannelError },
}

/// What went wrong in a channel.
#[derive(Clone, Copy, Debug, PartialEq, Eq)]
pub enum ChannelError {
    ReliableChannelMaxMemoryReached,
    InvalidSliceMessage,
}

/// A client id that no connection has.
#[derive(Debug)]
pub struct ClientNotFound;

} // verus!
