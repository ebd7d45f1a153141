//! The server: one connection per client, and the events of clients
//! connecting and disconnecting.
use vstd::prelude::*;

use crate::channel_config::ChannelConfig;
use crate::error::{ClientNotFound, DisconnectReason};
use crate::packet::copy_range;
use crate::remote_connection::{
    buffers_view, ids_unique, message_queued, message_taken, packet_taken, packets_made, time_advanced,
    ConnectionConfig, RenetClient,
};
use crate::sorted_map::{has_key, keys_increasing};
use crate::reliable_channel::opt_bytes_view;
use crate::sorted_map::SortedMap;
use std::collections::VecDeque;

verus! {

/// Connection and disconnection events in the server.
#[derive(Debug, Clone, Copy, PartialEq, Eq)]
pub enum ServerEvent {
    ClientConnected { client_id: u64 },
    ClientDisconnected { client_id: u64, reason: DisconnectReason },
}

/// A connection just opened with `available` bytes per tick: open, at
/// time zero, nothing sent or received yet.
pub open spec fn opened(c: RenetClient, available: u64) -> bool {
    &&& c.wf()
    &&& c.disconnect_reason_view() is None
    &&& c.current_time_view() == 0
    &&& c.packet_sequence_view() == 0
    &&& c.pending_acks_view() == Seq::<(u64, u64)>::empty()
    &&& c.sent_view() == Map::<u64, crate::remote_connection::PacketSent>::empty()
    &&& c.available_bytes_view() == available
}

/// A copy of a list of channel configurations.
fn copy_channels(c: &Vec<ChannelConfig>) -> (r: Vec<ChannelConfig>)
    ensures
        r@ == c@,
{
    let mut r: Vec<ChannelConfig> = Vec::new();
    let mut i: usize = 0;
    while i < c.len()
        invariant
            i <= c@.len(),
            r@ == c@.take(i as int),
        decreases c@.len() - i,
    {
        r.push(c[i]);
        proof {
            assert(r@ =~= c@.take(i + 1));
        }
        i = i + 1;
    }
    proof {
        assert(r@ =~= c@);
    }
    r
}

/// A copy of a connection configuration.
fn copy_config(c: &ConnectionConfig) -> (r: ConnectionConfig)
    ensures
        r.available_bytes_per_tick == c.available_bytes_per_tick,
        r.server_channels_config@ == c.server_channels_config@,
        r.client_channels_config@ == c.client_channels_config@,
{
    ConnectionConfig {
        available_bytes_per_tick: c.available_bytes_per_tick,
        server_channels_config: copy_channels(&c.server_channels_config),
        client_channels_config: copy_channels(&c.client_channels_config),
    }
}


/// The ids among `ids` whose connection in `m` is open (`open`) or
/// closed (`!open`), in the same order.
pub open spec fn ids_with_state(ids: Seq<u64>, m: Map<u64, RenetClient>, open: bool) -> Seq<u64>
    decreases ids.len(),
{
    if ids.len() == 0 {
        Seq::empty()
    } else {
        let rest = ids_with_state(ids.drop_last(), m, open);
        if (m[ids.last()].disconnect_reason_view() is None) == open {
            rest.push(ids.last())
        } else {
            rest
        }
    }
}

/// `after` is `before` with each connection changed by `rel`, except the
/// connection of `except`, if any, which is unchanged.
pub open spec fn each_connection(
    before: Map<u64, RenetClient>,
    after: Map<u64, RenetClient>,
    except: Option<u64>,
    rel: spec_fn(RenetClient, RenetClient) -> bool,
) -> bool {
    &&& after.dom() == before.dom()
    &&& forall|k: u64| #[trigger] after.dom().contains(k) ==> if except == Some(k) {
        after[k] == before[k]
    } else {
        rel(before[k], after[k])
    }
}

pub struct RenetServer {
    connections: SortedMap<RenetClient>,
    connection_config: ConnectionConfig,
    events: VecDeque<ServerEvent>,
}

impl RenetServer {
    pub closed spec fn wf(&self) -> bool {
        &&& self.connections.wf()
        &&& forall|k: u64| #[trigger] self.connections@.dom().contains(k) ==> self.connections@[k].wf()
        &&& ids_unique(self.connection_config.client_channels_config@)
        &&& ids_unique(self.connection_config.server_channels_config@)
    }

    /// The connection of each client, by client id.
    pub closed spec fn connections_view(&self) -> Map<u64, RenetClient> {
        self.connections@
    }

    /// The client ids, in increasing order.
    pub closed spec fn client_ids_view(&self) -> Seq<u64> {
        self.connections.entries_view().map_values(|e: (u64, RenetClient)| e.0)
    }

    /// The events not taken yet, oldest first.
    pub closed spec fn events_view(&self) -> Seq<ServerEvent> {
        self.events@
    }

    pub closed spec fn available_bytes_view(&self) -> u64 {
        self.connection_config.available_bytes_per_tick
    }

    pub fn new(connection_config: ConnectionConfig) -> (r: Self)
        requires
            ids_unique(connection_config.client_channels_config@),
            ids_unique(connection_config.server_channels_config@),
        ensures
            r.wf(),
            r.connections_view() == Map::<u64, RenetClient>::empty(),
            r.events_view() == Seq::<ServerEvent>::empty(),
            r.available_bytes_view() == connection_config.available_bytes_per_tick,
    {
        let r = Self { connections: SortedMap::new(), connection_config, events: VecDeque::new() };
        r
    }

    /// Adds a connection for `client_id`, counted as connected, and emits
    /// its connect event. A client that has a connection keeps it.
    pub fn add_connection(&mut self, client_id: u64)
        requires
            old(self).wf(),
        ensures
            final(self).wf(),
            final(self).available_bytes_view() == old(self).available_bytes_view(),
            old(self).connections_view().dom().contains(client_id) ==> *final(self) == *old(self),
            !old(self).connections_view().dom().contains(client_id) ==> {
                &&& final(self).connections_view().dom() == old(self).connections_view().dom().insert(client_id)
                &&& final(self).connections_view().remove(client_id) == old(self).connections_view()
                &&& opened(final(self).connections_view()[client_id], old(self).available_bytes_view())
                &&& final(self).events_view() == old(self).events_view().push(
                    ServerEvent::ClientConnected { client_id },
                )
            },
    {
        if self.connections.contains_key(client_id) {
            return;
        }
        let connection = RenetClient::new_from_server(copy_config(&self.connection_config));
        let ghost before = self.connections@;
        self.connections.insert(client_id, connection);
        self.events.push_back(ServerEvent::ClientConnected { client_id });
        proof {
            assert(self.connections@.dom() =~= before.dom().insert(client_id));
            assert(self.connections@.remove(client_id) =~= before);
        }
    }

    /// The oldest event not taken yet.
    pub fn get_event(&mut self) -> (r: Option<ServerEvent>)
        requires
            old(self).wf(),
        ensures
            final(self).wf(),
            final(self).connections_view() == old(self).connections_view(),
            final(self).available_bytes_view() == old(self).available_bytes_view(),
            old(self).events_view().len() == 0 ==> r is None && final(self).events_view() == old(self).events_view(),
            old(self).events_view().len() > 0 ==> r == Some(old(self).events_view()[0])
                && final(self).events_view() == old(self).events_view().drop_first(),
    {
        self.events.pop_front()
    }

    /// Whether some client has a connection.
    pub fn has_connections(&self) -> (r: bool)
        requires
            self.wf(),
        ensures
            r == (self.connections_view().dom().len() > 0),
    {
        !self.connections.is_empty()
    }

    /// Why the connection of `client_id` closed, if it has one and it did.
    pub fn disconnect_reason(&self, client_id: u64) -> (r: Option<DisconnectReason>)
        requires
            self.wf(),
        ensures
            r == (if self.connections_view().dom().contains(client_id) {
                self.connections_view()[client_id].disconnect_reason_view()
            } else {
                None
            }),
    {
        match self.connections.get(client_id) {
            Some(connection) => connection.disconnect_reason(),
            None => None,
        }
    }

    /// Drops the connection of `client_id`, emitting its disconnect event
    /// with the reason it closed for, or `Transport` when it was open.
    pub fn remove_connection(&mut self, client_id: u64)
        requires
            old(self).wf(),
        ensures
            final(self).wf(),
            final(self).available_bytes_view() == old(self).available_bytes_view(),
            final(self).connections_view() == old(self).connections_view().remove(client_id),
            !old(self).connections_view().dom().contains(client_id) ==> final(self).events_view()
                == old(self).events_view(),
            old(self).connections_view().dom().contains(client_id) ==> final(self).events_view()
                == old(self).events_view().push(
                ServerEvent::ClientDisconnected {
                    client_id,
                    reason: match old(self).connections_view()[client_id].disconnect_reason_view() {
                        Some(reason) => reason,
                        None => DisconnectReason::Transport,
                    },
                },
            ),
    {
        if let Some(connection) = self.connections.remove(client_id) {
            let reason = match connection.disconnect_reason() {
                Some(reason) => reason,
                None => DisconnectReason::Transport,
            };
            self.events.push_back(ServerEvent::ClientDisconnected { client_id, reason });
        }
    }

    /// Closes the connection of `client_id`, if it has one, as done by the
    /// server.
    pub fn disconnect(&mut self, client_id: u64)
        requires
            old(self).wf(),
        ensures
            final(self).wf(),
            final(self).available_bytes_view() == old(self).available_bytes_view(),
            final(self).events_view() == old(self).events_view(),
            final(self).connections_view().dom() == old(self).connections_view().dom(),
            final(self).connections_view().remove(client_id) == old(self).connections_view().remove(client_id),
            old(self).connections_view().dom().contains(client_id) ==> closed_by_server(
                old(self).connections_view()[client_id],
                final(self).connections_view()[client_id],
            ),
    {
        if self.connections.contains_key(client_id) {
            let ghost before = self.connections@;
            let mut connection = self.connections.remove(client_id).unwrap();
            connection.disconnect_with_reason(DisconnectReason::DisconnectedByServer);
            self.connections.insert(client_id, connection);
            proof {
                assert(self.connections@.dom() =~= before.dom());
                assert(self.connections@.remove(client_id) =~= before.remove(client_id));
            }
        }
    }

    /// What the ids of the clients are: the keys of the connections, each
    /// once, in increasing order.
    proof fn lemma_ids(&self)
        requires
            self.wf(),
        ensures
            forall|i: int, j: int| 0 <= i < j < self.client_ids_view().len() ==> #[trigger] self.client_ids_view()[i]
                < #[trigger] self.client_ids_view()[j],
            forall|i: int| 0 <= i < self.client_ids_view().len() ==> self.connections_view().dom().contains(
                #[trigger] self.client_ids_view()[i],
            ),
            forall|k: u64| #[trigger] self.connections_view().dom().contains(k) ==> exists|i: int|
                0 <= i < self.client_ids_view().len() && #[trigger] self.client_ids_view()[i] == k,
    {
        self.connections.lemma_wf();
        let e = self.connections.entries_view();
        let ids = self.client_ids_view();
        assert forall|i: int, j: int| 0 <= i < j < ids.len() implies #[trigger] ids[i] < #[trigger] ids[j] by {
            assert(e[i].0 < e[j].0);
        }
        assert forall|i: int| 0 <= i < ids.len() implies self.connections_view().dom().contains(#[trigger] ids[i]) by {
            assert(ids[i] == e[i].0);
            assert(has_key(e, ids[i]));
        }
        assert forall|k: u64| #[trigger] self.connections_view().dom().contains(k) implies exists|i: int|
            0 <= i < ids.len() && #[trigger] ids[i] == k by {
            assert(has_key(e, k));
            let i = choose|i: int| 0 <= i < e.len() && e[i].0 == k;
            assert(ids[i] == k);
        }
    }

    /// Closes every connection, as done by the server.
    pub fn disconnect_all(&mut self)
        requires
            old(self).wf(),
        ensures
            final(self).wf(),
            final(self).available_bytes_view() == old(self).available_bytes_view(),
            final(self).events_view() == old(self).events_view(),
            each_connection(
                old(self).connections_view(),
                final(self).connections_view(),
                None,
                |b: RenetClient, a: RenetClient| closed_by_server(b, a),
            ),
    {
        let ids = self.client_ids();
        let ghost c0 = self.connections_view();
        proof {
            self.lemma_ids();
            assert forall|k: u64| #[trigger] c0.dom().contains(k) implies exists|a: int|
                0 <= a < ids@.len() && #[trigger] ids@[a] == k by {
                assert(self.connections_view().dom().contains(k));
            }
        }
        let mut i: usize = 0;
        while i < ids.len()
            invariant
                self.wf(),
                i <= ids@.len(),
                self.connection_config == old(self).connection_config,
                self.events == old(self).events,
                c0 == old(self).connections_view(),
                self.connections@.dom() == c0.dom(),
                forall|a: int, b: int| 0 <= a < b < ids@.len() ==> #[trigger] ids@[a] < #[trigger] ids@[b],
                forall|a: int| 0 <= a < ids@.len() ==> c0.dom().contains(#[trigger] ids@[a]),
                forall|k: u64| #[trigger] c0.dom().contains(k) ==> exists|a: int| 0 <= a < ids@.len() && #[trigger] ids@[a] == k,
                forall|a: int| 0 <= a < i ==> closed_by_server(c0[#[trigger] ids@[a]], self.connections@[ids@[a]]),
                forall|k: u64| #[trigger] c0.dom().contains(k) && (forall|a: int| 0 <= a < i ==> ids@[a] != k)
                    ==> self.connections@[k] == c0[k],
            decreases ids@.len() - i,
        {
            let k = ids[i];
            let ghost before = self.connections@;
            proof {
                assert(forall|a: int| 0 <= a < i ==> ids@[a] != k);
                assert(c0.dom().contains(ids@[i as int]));
                assert(self.connections@[k] == c0[k]);
            }
            let mut connection = self.connections.remove(k).unwrap();
            connection.disconnect_with_reason(DisconnectReason::DisconnectedByServer);
            self.connections.insert(k, connection);
            proof {
                assert(self.connections@ =~= before.insert(k, connection));
                assert forall|k2: u64| #[trigger] c0.dom().contains(k2) && (forall|a: int| 0 <= a < i + 1 ==> ids@[a] != k2)
                    implies self.connections@[k2] == c0[k2] by {
                    assert(ids@[i as int] != k2);
                    assert(forall|a: int| 0 <= a < i ==> ids@[a] != k2);
                }
                assert forall|a: int| 0 <= a < i + 1 implies closed_by_server(c0[#[trigger] ids@[a]], self.connections@[ids@[a]]) by {
                    if a < i {
                        assert(ids@[a] < ids@[i as int]);
                    }
                }
            }
            i = i + 1;
        }
        proof {
            assert forall|k: u64| #[trigger] self.connections@.dom().contains(k) implies closed_by_server(c0[k], self.connections@[k]) by {
                let a = choose|a: int| 0 <= a < ids@.len() && #[trigger] ids@[a] == k;
                assert(closed_by_server(c0[ids@[a]], self.connections@[ids@[a]]));
            }
        }
    }

    /// Sends `message` over channel `channel_id` to every client but
    /// `except`, if given.
    fn broadcast(&mut self, except: Option<u64>, channel_id: u8, message: Vec<u8>)
        requires
            old(self).wf(),
            forall|k: u64| #[trigger] old(self).connections_view().dom().contains(k) ==> old(self).connections_view()[k].can_send(channel_id, message@.len()),
        ensures
            final(self).wf(),
            final(self).available_bytes_view() == old(self).available_bytes_view(),
            final(self).events_view() == old(self).events_view(),
            each_connection(
                old(self).connections_view(),
                final(self).connections_view(),
                except,
                |b: RenetClient, a: RenetClient| a.wf() && message_queued(b, a, channel_id, message@),
            ),
    {
        let ids = self.client_ids();
        let ghost c0 = self.connections_view();
        proof {
            self.lemma_ids();
            assert forall|k: u64| #[trigger] c0.dom().contains(k) implies exists|a: int|
                0 <= a < ids@.len() && #[trigger] ids@[a] == k by {
                assert(self.connections_view().dom().contains(k));
            }
        }
        let mut i: usize = 0;
        while i < ids.len()
            invariant
                self.wf(),
                i <= ids@.len(),
                self.connection_config == old(self).connection_config,
                self.events == old(self).events,
                c0 == old(self).connections_view(),
                forall|k: u64| #[trigger] c0.dom().contains(k) ==> c0[k].can_send(channel_id, message@.len()),
                self.connections@.dom() == c0.dom(),
                forall|a: int, b: int| 0 <= a < b < ids@.len() ==> #[trigger] ids@[a] < #[trigger] ids@[b],
                forall|a: int| 0 <= a < ids@.len() ==> c0.dom().contains(#[trigger] ids@[a]),
                forall|k: u64| #[trigger] c0.dom().contains(k) ==> exists|a: int| 0 <= a < ids@.len() && #[trigger] ids@[a] == k,
                forall|a: int| 0 <= a < i ==> if except == Some(#[trigger] ids@[a]) { self.connections@[ids@[a]] == c0[ids@[a]] } else { self.connections@[ids@[a]].wf() && message_queued(c0[ids@[a]], self.connections@[ids@[a]], channel_id, message@) },
                forall|k: u64| #[trigger] c0.dom().contains(k) && (forall|a: int| 0 <= a < i ==> ids@[a] != k)
                    ==> self.connections@[k] == c0[k],
            decreases ids@.len() - i,
        {
            let k = ids[i];
            let ghost before = self.connections@;
            proof {
                assert(forall|a: int| 0 <= a < i ==> ids@[a] != k);
                assert(c0.dom().contains(ids@[i as int]));
                assert(self.connections@[k] == c0[k]);
            }
            if Some(k) == except {
                proof {
                    assert(self.connections@ =~= before);
                }
            } else {
                let mut connection = self.connections.remove(k).unwrap();
                let copy = copy_range(&message, 0, message.len());
                proof {
                    assert(copy@ =~= message@);
                }
                connection.send_message(channel_id, copy);
                self.connections.insert(k, connection);
                proof {
                    assert(self.connections@ =~= before.insert(k, connection));
                }
            }
            proof {
                assert forall|k2: u64| #[trigger] c0.dom().contains(k2) && (forall|a: int| 0 <= a < i + 1 ==> ids@[a] != k2)
                    implies self.connections@[k2] == c0[k2] by {
                    assert(ids@[i as int] != k2);
                    assert(forall|a: int| 0 <= a < i ==> ids@[a] != k2);
                }
                assert forall|a: int| 0 <= a < i + 1 implies if except == Some(#[trigger] ids@[a]) { self.connections@[ids@[a]] == c0[ids@[a]] } else { self.connections@[ids@[a]].wf() && message_queued(c0[ids@[a]], self.connections@[ids@[a]], channel_id, message@) } by {
                    if a < i {
                        assert(ids@[a] < ids@[i as int]);
                    }
                }
            }
            i = i + 1;
        }
        proof {
            assert forall|k: u64| #[trigger] self.connections@.dom().contains(k) implies if except == Some(k) { self.connections@[k] == c0[k] } else { self.connections@[k].wf() && message_queued(c0[k], self.connections@[k], channel_id, message@) } by {
                let a = choose|a: int| 0 <= a < ids@.len() && #[trigger] ids@[a] == k;
                assert(ids@[a] == k);
            }
        }
    }
    /// Sends `message` over channel `channel_id` to every client.
    pub fn broadcast_message(&mut self, channel_id: u8, message: Vec<u8>)
        requires
            old(self).wf(),
            forall|k: u64| #[trigger] old(self).connections_view().dom().contains(k) ==> old(self).connections_view()[k].can_send(channel_id, message@.len()),
        ensures
            final(self).wf(),
            final(self).available_bytes_view() == old(self).available_bytes_view(),
            final(self).events_view() == old(self).events_view(),
            each_connection(
                old(self).connections_view(),
                final(self).connections_view(),
                None,
                |b: RenetClient, a: RenetClient| a.wf() && message_queued(b, a, channel_id, message@),
            ),
    {
        self.broadcast(None, channel_id, message);
    }

    /// Sends `message` over channel `channel_id` to every client but
    /// `except_id`.
    pub fn broadcast_message_except(&mut self, except_id: u64, channel_id: u8, message: Vec<u8>)
        requires
            old(self).wf(),
            forall|k: u64| #[trigger] old(self).connections_view().dom().contains(k) ==> old(self).connections_view()[k].can_send(channel_id, message@.len()),
        ensures
            final(self).wf(),
            final(self).available_bytes_view() == old(self).available_bytes_view(),
            final(self).events_view() == old(self).events_view(),
            each_connection(
                old(self).connections_view(),
                final(self).connections_view(),
                Some(except_id),
                |b: RenetClient, a: RenetClient| a.wf() && message_queued(b, a, channel_id, message@),
            ),
    {
        self.broadcast(Some(except_id), channel_id, message);
    }

    /// Moves the clock of every connection `duration` nanoseconds on.
    pub fn update(&mut self, duration: u64)
        requires
            old(self).wf(),
            forall|k: u64| #[trigger] old(self).connections_view().dom().contains(k) ==> old(self).connections_view()[k].current_time_view() + duration <= u64::MAX,
        ensures
            final(self).wf(),
            final(self).available_bytes_view() == old(self).available_bytes_view(),
            final(self).events_view() == old(self).events_view(),
            each_connection(
                old(self).connections_view(),
                final(self).connections_view(),
                None::<u64>,
                |b: RenetClient, a: RenetClient| a.wf() && time_advanced(b, a, duration),
            ),
    {
        let ids = self.client_ids();
        let ghost c0 = self.connections_view();
        proof {
            self.lemma_ids();
            assert forall|k: u64| #[trigger] c0.dom().contains(k) implies exists|a: int|
                0 <= a < ids@.len() && #[trigger] ids@[a] == k by {
                assert(self.connections_view().dom().contains(k));
            }
        }
        let mut i: usize = 0;
        while i < ids.len()
            invariant
                self.wf(),
                i <= ids@.len(),
                self.connection_config == old(self).connection_config,
                self.events == old(self).events,
                c0 == old(self).connections_view(),
                forall|k: u64| #[trigger] c0.dom().contains(k) ==> c0[k].current_time_view() + duration <= u64::MAX,
                self.connections@.dom() == c0.dom(),
                forall|a: int, b: int| 0 <= a < b < ids@.len() ==> #[trigger] ids@[a] < #[trigger] ids@[b],
                forall|a: int| 0 <= a < ids@.len() ==> c0.dom().contains(#[trigger] ids@[a]),
                forall|k: u64| #[trigger] c0.dom().contains(k) ==> exists|a: int| 0 <= a < ids@.len() && #[trigger] ids@[a] == k,
                forall|a: int| 0 <= a < i ==> if None::<u64> == Some(#[trigger] ids@[a]) { self.connections@[ids@[a]] == c0[ids@[a]] } else { self.connections@[ids@[a]].wf() && time_advanced(c0[ids@[a]], self.connections@[ids@[a]], duration) },
                forall|k: u64| #[trigger] c0.dom().contains(k) && (forall|a: int| 0 <= a < i ==> ids@[a] != k)
                    ==> self.connections@[k] == c0[k],
            decreases ids@.len() - i,
        {
            let k = ids[i];
            let ghost before = self.connections@;
            proof {
                assert(forall|a: int| 0 <= a < i ==> ids@[a] != k);
                assert(c0.dom().contains(ids@[i as int]));
                assert(self.connections@[k] == c0[k]);
            }
            let mut connection = self.connections.remove(k).unwrap();
            connection.advance_time(duration);
            self.connections.insert(k, connection);
            proof {
                assert(self.connections@ =~= before.insert(k, connection));
            }
            proof {
                assert forall|k2: u64| #[trigger] c0.dom().contains(k2) && (forall|a: int| 0 <= a < i + 1 ==> ids@[a] != k2)
                    implies self.connections@[k2] == c0[k2] by {
                    assert(ids@[i as int] != k2);
                    assert(forall|a: int| 0 <= a < i ==> ids@[a] != k2);
                }
                assert forall|a: int| 0 <= a < i + 1 implies if None::<u64> == Some(#[trigger] ids@[a]) { self.connections@[ids@[a]] == c0[ids@[a]] } else { self.connections@[ids@[a]].wf() && time_advanced(c0[ids@[a]], self.connections@[ids@[a]], duration) } by {
                    if a < i {
                        assert(ids@[a] < ids@[i as int]);
                    }
                }
            }
            i = i + 1;
        }
        proof {
            assert forall|k: u64| #[trigger] self.connections@.dom().contains(k) implies if None::<u64> == Some(k) { self.connections@[k] == c0[k] } else { self.connections@[k].wf() && time_advanced(c0[k], self.connections@[k], duration) } by {
                let a = choose|a: int| 0 <= a < ids@.len() && #[trigger] ids@[a] == k;
                assert(ids@[a] == k);
            }
        }
    }

    /// Sends `message` over channel `channel_id` to `client_id`; a client
    /// without a connection gets nothing.
    pub fn send_message(&mut self, client_id: u64, channel_id: u8, message: Vec<u8>)
        requires
            old(self).wf(),
            old(self).connections_view().dom().contains(client_id) ==> old(self).connections_view()[client_id].can_send(
                channel_id,
                message@.len(),
            ),
        ensures
            final(self).wf(),
            final(self).available_bytes_view() == old(self).available_bytes_view(),
            final(self).events_view() == old(self).events_view(),
            final(self).connections_view().dom() == old(self).connections_view().dom(),
            final(self).connections_view().remove(client_id) == old(self).connections_view().remove(client_id),
            old(self).connections_view().dom().contains(client_id) ==> message_queued(
                old(self).connections_view()[client_id],
                final(self).connections_view()[client_id],
                channel_id,
                message@,
            ),
    {
        if self.connections.contains_key(client_id) {
            let ghost before = self.connections@;
            let mut connection = self.connections.remove(client_id).unwrap();
            connection.send_message(channel_id, message);
            self.connections.insert(client_id, connection);
            proof {
                assert(self.connections@ =~= before.insert(client_id, connection));
                assert(self.connections@.remove(client_id) =~= before.remove(client_id));
            }
        }
    }

    /// Takes the next message of channel `channel_id` from `client_id`; a
    /// client without a connection gives nothing.
    pub fn receive_message(&mut self, client_id: u64, channel_id: u8) -> (r: Option<Vec<u8>>)
        requires
            old(self).wf(),
            old(self).connections_view().dom().contains(client_id) ==> old(self).connections_view()[client_id].can_receive(
                channel_id,
            ),
        ensures
            final(self).wf(),
            final(self).available_bytes_view() == old(self).available_bytes_view(),
            final(self).events_view() == old(self).events_view(),
            final(self).connections_view().dom() == old(self).connections_view().dom(),
            final(self).connections_view().remove(client_id) == old(self).connections_view().remove(client_id),
            !old(self).connections_view().dom().contains(client_id) ==> r is None,
            old(self).connections_view().dom().contains(client_id) ==> message_taken(
                old(self).connections_view()[client_id],
                final(self).connections_view()[client_id],
                channel_id,
                opt_bytes_view(r),
            ),
    {
        if !self.connections.contains_key(client_id) {
            return None;
        }
        let ghost before = self.connections@;
        let mut connection = self.connections.remove(client_id).unwrap();
        let r = connection.receive_message(channel_id);
        self.connections.insert(client_id, connection);
        proof {
            assert(self.connections@ =~= before.insert(client_id, connection));
            assert(self.connections@.remove(client_id) =~= before.remove(client_id));
        }
        r
    }

    /// The packets to send to `client_id`; `ClientNotFound` when it has no
    /// connection.
    pub fn get_packets_to_send(&mut self, client_id: u64) -> (r: Result<Vec<Vec<u8>>, ClientNotFound>)
        requires
            old(self).wf(),
            old(self).connections_view().dom().contains(client_id) ==> old(self).connections_view()[client_id].can_make_packets(),
        ensures
            final(self).wf(),
            final(self).available_bytes_view() == old(self).available_bytes_view(),
            final(self).events_view() == old(self).events_view(),
            final(self).connections_view().dom() == old(self).connections_view().dom(),
            final(self).connections_view().remove(client_id) == old(self).connections_view().remove(client_id),
            r is Err <==> !old(self).connections_view().dom().contains(client_id),
            r matches Ok(bufs) ==> {
                let b = old(self).connections_view()[client_id];
                let a = final(self).connections_view()[client_id];
                &&& b.disconnect_reason_view() is Some ==> bufs@.len() == 0 && a == b
                &&& b.disconnect_reason_view() is None ==> packets_made(b, a, buffers_view(bufs@))
            },
    {
        if !self.connections.contains_key(client_id) {
            return Err(ClientNotFound);
        }
        let ghost before = self.connections@;
        let mut connection = self.connections.remove(client_id).unwrap();
        let packets = connection.get_packets_to_send();
        self.connections.insert(client_id, connection);
        proof {
            assert(self.connections@ =~= before.insert(client_id, connection));
            assert(self.connections@.remove(client_id) =~= before.remove(client_id));
        }
        Ok(packets)
    }

    /// Whether `process_packet_from` can take `payload` from `client_id`
    /// now: the client's counters have room for it, or it has no connection.
    pub fn can_take_packet_from(&self, payload: &[u8], client_id: u64) -> (r: bool)
        requires
            self.wf(),
        ensures
            r == (self.connections_view().dom().contains(client_id) ==> self.connections_view()[client_id].can_take_packet(
                payload@,
            )),
    {
        match self.connections.get(client_id) {
            Some(connection) => connection.can_take_packet_now(payload),
            None => true,
        }
    }

    /// Takes a packet from `client_id`, giving the round trip times it
    /// measured; `ClientNotFound` when it has no connection.
    pub fn process_packet_from(&mut self, payload: &[u8], client_id: u64) -> (r: Result<Vec<u64>, ClientNotFound>)
        requires
            old(self).wf(),
            old(self).connections_view().dom().contains(client_id) ==> old(self).connections_view()[client_id].can_take_packet(
                payload@,
            ),
        ensures
            final(self).wf(),
            final(self).available_bytes_view() == old(self).available_bytes_view(),
            final(self).events_view() == old(self).events_view(),
            final(self).connections_view().dom() == old(self).connections_view().dom(),
            final(self).connections_view().remove(client_id) == old(self).connections_view().remove(client_id),
            r is Err <==> !old(self).connections_view().dom().contains(client_id),
            r matches Ok(rtts) ==> {
                let b = old(self).connections_view()[client_id];
                let a = final(self).connections_view()[client_id];
                &&& b.disconnect_reason_view() is Some ==> rtts@.len() == 0 && a == b
                &&& b.disconnect_reason_view() is None ==> packet_taken(b, a, payload@, rtts@)
            },
    {
        if !self.connections.contains_key(client_id) {
            return Err(ClientNotFound);
        }
        let ghost before = self.connections@;
        let mut connection = self.connections.remove(client_id).unwrap();
        let rtts = connection.process_packet(payload);
        self.connections.insert(client_id, connection);
        proof {
            assert(self.connections@ =~= before.insert(client_id, connection));
            assert(self.connections@.remove(client_id) =~= before.remove(client_id));
        }
        Ok(rtts)
    }

    /// Whether `client_id` has an open connection.
    pub fn is_connected(&self, client_id: u64) -> (r: bool)
        requires
            self.wf(),
        ensures
            r == (self.connections_view().dom().contains(client_id)
                && self.connections_view()[client_id].disconnect_reason_view() is None),
    {
        match self.connections.get(client_id) {
            Some(connection) => connection.is_connected(),
            None => false,
        }
    }

    /// The ids of the clients whose connection is open (`open`) or closed,
    /// in increasing order.
    fn ids_in_state(&self, open: bool) -> (r: Vec<u64>)
        requires
            self.wf(),
        ensures
            r@ == ids_with_state(self.client_ids_view(), self.connections_view(), open),
    {
        let ids = self.client_ids();
        proof {
            self.lemma_ids();
        }
        let mut r: Vec<u64> = Vec::new();
        let mut i: usize = 0;
        proof {
            assert(ids@.take(0) =~= Seq::<u64>::empty());
        }
        while i < ids.len()
            invariant
                self.wf(),
                i <= ids@.len(),
                ids@ == self.client_ids_view(),
                forall|a: int| 0 <= a < ids@.len() ==> self.connections_view().dom().contains(#[trigger] ids@[a]),
                r@ == ids_with_state(ids@.take(i as int), self.connections_view(), open),
            decreases ids@.len() - i,
        {
            let k = ids[i];
            proof {
                assert(self.connections_view().dom().contains(ids@[i as int]));
                assert(ids@.take(i + 1).drop_last() =~= ids@.take(i as int));
                assert(ids@.take(i + 1).last() == k);
            }
            let connection = self.connections.get(k).unwrap();
            if connection.is_connected() == open {
                r.push(k);
            }
            i = i + 1;
        }
        proof {
            assert(ids@.take(ids@.len() as int) =~= ids@);
        }
        r
    }

    /// The ids of the clients whose connection is open, in increasing
    /// order.
    pub fn clients_id(&self) -> (r: Vec<u64>)
        requires
            self.wf(),
        ensures
            r@ == ids_with_state(self.client_ids_view(), self.connections_view(), true),
    {
        self.ids_in_state(true)
    }

    /// The ids of the clients whose connection is closed, in increasing
    /// order.
    pub fn disconnections_id(&self) -> (r: Vec<u64>)
        requires
            self.wf(),
        ensures
            r@ == ids_with_state(self.client_ids_view(), self.connections_view(), false),
    {
        self.ids_in_state(false)
    }

    /// How many clients have an open connection.
    pub fn connected_clients(&self) -> (r: usize)
        requires
            self.wf(),
        ensures
            r == ids_with_state(self.client_ids_view(), self.connections_view(), true).len(),
    {
        self.ids_in_state(true).len()
    }

    /// Bytes send channel `channel_id` of `client_id` may still take; 0
    /// without a connection.
    pub fn channel_available_memory(&self, client_id: u64, channel_id: u8) -> (r: usize)
        requires
            self.wf(),
            self.connections_view().dom().contains(client_id) ==> self.connections_view()[client_id].send_reliable_ids().contains(
                channel_id as u64,
            ) || self.connections_view()[client_id].send_unreliable_ids().contains(channel_id as u64),
        ensures
            !self.connections_view().dom().contains(client_id) ==> r == 0,
            self.connections_view().dom().contains(client_id) ==> ({
                let c = self.connections_view()[client_id];
                let k = channel_id as u64;
                &&& c.send_reliable_ids().contains(k) ==> r == c.send_reliable_view()[k].max_memory_view()
                    - c.send_reliable_view()[k].memory_usage_view()
                &&& !c.send_reliable_ids().contains(k) ==> r == c.send_unreliable_view()[k].max_memory_view()
                    - c.send_unreliable_view()[k].memory_usage()
            }),
    {
        match self.connections.get(client_id) {
            Some(connection) => connection.channel_available_memory(channel_id),
            None => 0,
        }
    }

    /// Whether a message of `size_bytes` bytes fits send channel
    /// `channel_id` of `client_id` now; false without a connection.
    pub fn can_send_message(&self, client_id: u64, channel_id: u8, size_bytes: usize) -> (r: bool)
        requires
            self.wf(),
            self.connections_view().dom().contains(client_id) ==> self.connections_view()[client_id].send_reliable_ids().contains(
                channel_id as u64,
            ) || self.connections_view()[client_id].send_unreliable_ids().contains(channel_id as u64),
        ensures
            !self.connections_view().dom().contains(client_id) ==> !r,
            self.connections_view().dom().contains(client_id) ==> ({
                let c = self.connections_view()[client_id];
                let k = channel_id as u64;
                &&& c.send_reliable_ids().contains(k) ==> r == (size_bytes <= c.send_reliable_view()[k].max_memory_view()
                    - c.send_reliable_view()[k].memory_usage_view())
                &&& !c.send_reliable_ids().contains(k) ==> r == (size_bytes <= c.send_unreliable_view()[k].max_memory_view()
                    - c.send_unreliable_view()[k].memory_usage())
            }),
    {
        match self.connections.get(client_id) {
            Some(connection) => connection.can_send_message(channel_id, size_bytes),
            None => false,
        }
    }

    /// A connection for a client in the same process, and its counterpart
    /// added to the server as `client_id`, with its connect event.
    pub fn new_local_client(&mut self, client_id: u64) -> (r: RenetClient)
        requires
            old(self).wf(),
        ensures
            final(self).wf(),
            opened(r, old(self).available_bytes_view()),
            final(self).available_bytes_view() == old(self).available_bytes_view(),
            old(self).connections_view().dom().contains(client_id) ==> *final(self) == *old(self),
            !old(self).connections_view().dom().contains(client_id) ==> {
                &&& final(self).connections_view().dom() == old(self).connections_view().dom().insert(client_id)
                &&& final(self).connections_view().remove(client_id) == old(self).connections_view()
                &&& opened(final(self).connections_view()[client_id], old(self).available_bytes_view())
                &&& final(self).events_view() == old(self).events_view().push(
                    ServerEvent::ClientConnected { client_id },
                )
            },
    {
        let client = RenetClient::new_from_server(copy_config(&self.connection_config));
        self.add_connection(client_id);
        client
    }

    /// Closes the local `client` and drops its counterpart `client_id`,
    /// with its disconnect event; a closed client changes nothing.
    pub fn disconnect_local_client(&mut self, client_id: u64, client: &mut RenetClient)
        requires
            old(self).wf(),
            old(client).wf(),
        ensures
            final(self).wf(),
            final(client).wf(),
            final(self).available_bytes_view() == old(self).available_bytes_view(),
            old(client).disconnect_reason_view() is Some ==> *final(self) == *old(self) && *final(client) == *old(client),
            old(client).disconnect_reason_view() is None ==> {
                &&& final(client).disconnect_reason_view() == Some(DisconnectReason::DisconnectedByClient)
                &&& final(client).same_but_reason(&*old(client))
                &&& final(self).connections_view() == old(self).connections_view().remove(client_id)
                &&& old(self).connections_view().dom().contains(client_id) ==> final(self).events_view()
                    == old(self).events_view().push(
                    ServerEvent::ClientDisconnected { client_id, reason: DisconnectReason::DisconnectedByClient },
                )
                &&& !old(self).connections_view().dom().contains(client_id) ==> final(self).events_view()
                    == old(self).events_view()
            },
    {
        if client.is_disconnected() {
            return;
        }
        client.disconnect();
        if self.connections.remove(client_id).is_some() {
            self.events.push_back(
                ServerEvent::ClientDisconnected { client_id, reason: DisconnectReason::DisconnectedByClient },
            );
        }
    }

    /// The ids of the clients, in increasing order.
    fn client_ids(&self) -> (r: Vec<u64>)
        requires
            self.wf(),
        ensures
            r@ == self.client_ids_view(),
    {
        self.connections.keys()
    }
}

/// A connection closed by the server: its first reason kept.
pub open spec fn closed_by_server(b: RenetClient, a: RenetClient) -> bool {
    &&& a.wf()
    &&& a.same_but_reason(&b)
    &&& b.disconnect_reason_view() is Some ==> a.disconnect_reason_view() == b.disconnect_reason_view()
    &&& b.disconnect_reason_view() is None ==> a.disconnect_reason_view() == Some(DisconnectReason::DisconnectedByServer)
}

} // verus!
