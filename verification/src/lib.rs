//! Message-based networking for client/server games: reliable and unreliable
//! channels, packet framing, acknowledgement tracking and the connection
//! handshake packets, with their behaviour stated and proved by Verus.
pub mod sequence_buffer;
pub mod wrapping_sequence_buffer;
pub mod replay_protection;
pub mod timer;
pub mod serialize;
pub mod crypto;
pub mod netcode_packet;
pub mod token;
pub mod netcode_client;
pub mod varint;
pub mod packet;
pub mod bbr;
pub mod connection_stats;
pub mod error;
pub mod channel_error;
pub mod slice_constructor;
pub mod block_channel;
pub mod send_block_channel;
pub mod ordered_reliable_channel;
pub mod pending_acks;
pub mod sorted_map;
pub mod unreliable_channel;
pub mod reliable_channel;
pub mod channel_config;
pub mod config;
pub mod remote_connection;
pub mod server;
pub mod reassembly_fragment;
pub mod lossy_channel;
pub mod delivery;
pub mod packet_numbering;
