use vstd::prelude::*;

use crate::netcode_packet::{
    lemma_encode_decode_roundtrip, lemma_encrypted_challenge_token_wire_form_determines,
    lemma_keep_alive_wire_form_determines, spec_same_packet, spec_decoded, spec_encoded, spec_sequence_length_overflows, ConnectToken, ConnectionKeepAlive,
    ConnectionRequest, EncryptedChallengeToken, NetcodeError, Packet, NETCODE_CHALLENGE_TOKEN_BYTES,
};
use crate::token::{ServerAddress, NETCODE_MAX_SERVERS};

verus! {

/// Least time between two packets the client sends, in nanoseconds.
pub const NETCODE_SEND_RATE: u64 = 100_000_000;

/// Nanoseconds in a second.
pub const NANOS_PER_SECOND: u64 = 1_000_000_000;

/// Why a client stopped trying to connect.
#[derive(Debug, Clone, Copy, PartialEq, Eq, Structural)]
pub enum ErrorReason {
    ConnectTokenExpired,
    InvalidConnectToken,
    ConnectionTimedOut,
    ConnectionResponseTimedOut,
    ConnectionRequestTimedOut,
    ConnectionDenied,
}

/// Where a client is in the connection handshake.
#[derive(Debug, Clone, Copy, PartialEq, Eq, Structural)]
pub enum State {
    Error(ErrorReason),
    Disconnected,
    SendingConnectionRequest,
    SendingConnectionResponse,
    Connected,
}

/// The client side of the netcode handshake. Times are in nanoseconds.
#[derive(Debug)]
pub struct Client {
    state: State,
    connect_start_time: u64,
    last_packet_send_time: Option<u64>,
    last_packet_received_time: u64,
    current_time: u64,
    sequence: u64,
    server_address: ServerAddress,
    server_address_index: usize,
    connect_token: ConnectToken,
    challenge_token_sequence: u64,
    challenge_token_data: [u8; NETCODE_CHALLENGE_TOKEN_BYTES],
    max_clients: u32,
    client_index: u32,
    send_rate: u64,
}

/// A client by value.
pub struct ClientView {
    pub state: State,
    pub connect_start_time: u64,
    pub last_packet_send_time: Option<u64>,
    pub last_packet_received_time: u64,
    pub current_time: u64,
    pub sequence: u64,
    pub server_address: ServerAddress,
    pub server_address_index: usize,
    pub connect_token: ConnectToken,
    pub challenge_token_sequence: u64,
    pub challenge_token_data: [u8; NETCODE_CHALLENGE_TOKEN_BYTES],
    pub max_clients: u32,
    pub client_index: u32,
    pub send_rate: u64,
}

impl View for Client {
    type V = ClientView;

    closed spec fn view(&self) -> ClientView {
        ClientView {
            state: self.state,
            connect_start_time: self.connect_start_time,
            last_packet_send_time: self.last_packet_send_time,
            last_packet_received_time: self.last_packet_received_time,
            current_time: self.current_time,
            sequence: self.sequence,
            server_address: self.server_address,
            server_address_index: self.server_address_index,
            connect_token: self.connect_token,
            challenge_token_sequence: self.challenge_token_sequence,
            challenge_token_data: self.challenge_token_data,
            max_clients: self.max_clients,
            client_index: self.client_index,
            send_rate: self.send_rate,
        }
    }
}

/// No recorded time lies after the current time, and the index of the
/// server tried is within the token's slots or just past them.
pub open spec fn client_wf(c: ClientView) -> bool {
    &&& c.last_packet_send_time matches Some(t) ==> t <= c.current_time
    &&& c.last_packet_received_time <= c.current_time
    &&& c.connect_start_time <= c.current_time
    &&& c.server_address_index <= NETCODE_MAX_SERVERS
    &&& (c.state is SendingConnectionRequest || c.state is SendingConnectionResponse || c.state is Connected)
        ==> c.server_address_index < NETCODE_MAX_SERVERS
}

/// `b` with the time of the last received packet set to now.
pub open spec fn received_now(b: ClientView) -> ClientView {
    ClientView { last_packet_received_time: b.current_time, ..b }
}

/// What a decoded packet does to the client, and what it hands on.
pub open spec fn packet_processed(b: ClientView, a: ClientView, p: Packet, r: Option<Vec<u8>>) -> bool {
    let unchanged = a == b && r is None;
    match p {
        Packet::ConnectionDenied => match b.state {
            State::SendingConnectionRequest | State::SendingConnectionResponse => a == ClientView {
                state: State::Error(ErrorReason::ConnectionDenied),
                ..received_now(b)
            } && r is None,
            _ => unchanged,
        },
        Packet::Challenge(challenge) => match b.state {
            State::SendingConnectionRequest => a == ClientView {
                challenge_token_sequence: challenge.token_sequence,
                last_packet_send_time: None,
                challenge_token_data: challenge.token_data,
                state: State::SendingConnectionResponse,
                ..received_now(b)
            } && r is None,
            _ => unchanged,
        },
        Packet::KeepAlive(keep_alive) => match b.state {
            State::Connected => a == received_now(b) && r is None,
            State::SendingConnectionResponse => a == ClientView {
                max_clients: keep_alive.max_clients,
                client_index: keep_alive.client_index,
                state: State::Connected,
                ..received_now(b)
            } && r is None,
            _ => unchanged,
        },
        Packet::Payload(payload) => match b.state {
            State::Connected => a == received_now(b) && (r matches Some(v) && v@ == payload@),
            _ => unchanged,
        },
        Packet::Disconnect => match b.state {
            State::Connected => a == ClientView { state: State::Disconnected, ..received_now(b) } && r is None,
            _ => unchanged,
        },
        _ => unchanged,
    }
}

/// What the result of decoding a packet does to the client: a packet that
/// did not decode is dropped.
pub open spec fn decoded_processed(
    b: ClientView,
    a: ClientView,
    decoded: Result<(u64, Packet), NetcodeError>,
    r: Option<Vec<u8>>,
) -> bool {
    match decoded {
        Ok((_sequence, p)) => packet_processed(b, a, p, r),
        Err(_) => a == b && r is None,
    }
}

/// Sending waits until the send rate has passed since the last packet sent.
pub open spec fn send_throttled(c: ClientView) -> bool {
    c.last_packet_send_time matches Some(t) && c.current_time - t < c.send_rate
}

/// The packet the client sends in its state, if any.
pub open spec fn packet_for_state(c: ClientView) -> Option<Packet> {
    match c.state {
        State::SendingConnectionRequest => Some(
            Packet::ConnectionRequest(
                ConnectionRequest {
                    xnonce: c.connect_token.xnonce,
                    version_info: crate::netcode_packet::NETCODE_VERSION_INFO,
                    protocol_id: c.connect_token.protocol_id,
                    expire_timestamp: c.connect_token.expire_timestamp,
                    data: c.connect_token.private_data,
                },
            ),
        ),
        State::SendingConnectionResponse => Some(
            Packet::Response(
                EncryptedChallengeToken {
                    token_sequence: c.challenge_token_sequence,
                    token_data: c.challenge_token_data,
                },
            ),
        ),
        State::Connected => Some(Packet::KeepAlive(ConnectionKeepAlive { client_index: 0, max_clients: 0 })),
        _ => None,
    }
}

/// What `generate_packet` does: `old_buf` and `new_buf` are the buffer
/// before and after.
pub open spec fn packet_generated(
    b: ClientView,
    a: ClientView,
    old_buf: Seq<u8>,
    new_buf: Seq<u8>,
    r: Option<usize>,
) -> bool {
    if send_throttled(b) {
        a == b && new_buf == old_buf && r is None
    } else {
        match packet_for_state(b) {
            None => a == b && new_buf == old_buf && r is None,
            Some(p) => exists|encoded: Result<usize, NetcodeError>|
                #[trigger] spec_encoded(
                    p,
                    old_buf,
                    new_buf,
                    b.connect_token.protocol_id,
                    Some((b.sequence, b.connect_token.client_to_server_key@)),
                    encoded,
                ) && match encoded {
                    Ok(n) => r == Some(n) && a == ClientView {
                        last_packet_send_time: Some(b.current_time),
                        sequence: (b.sequence + 1) as u64,
                        ..b
                    },
                    Err(_) => r is None && a == ClientView { last_packet_send_time: Some(b.current_time), ..b },
                },
        }
    }
}

/// No packet was heard from the server for longer than the token's
/// timeout, when it has one.
pub open spec fn timed_out(c: ClientView) -> bool {
    c.connect_token.timeout_seconds > 0 && c.last_packet_received_time + c.connect_token.timeout_seconds
        * NANOS_PER_SECOND < c.current_time
}

/// What trying the next server of the token does.
pub open spec fn next_server_tried(b: ClientView, a: ClientView, r: Result<(), NetcodeError>) -> bool {
    let index = b.server_address_index + 1;
    if index >= NETCODE_MAX_SERVERS {
        r == Err::<(), NetcodeError>(NetcodeError::NoMoreServers) && a == ClientView {
            server_address_index: index as usize,
            ..b
        }
    } else {
        match b.connect_token.server_addresses[index] {
            None => r == Err::<(), NetcodeError>(NetcodeError::NoMoreServers) && a == ClientView {
                server_address_index: index as usize,
                ..b
            },
            Some(address) => r == Ok::<(), NetcodeError>(()) && a == ClientView {
                server_address_index: index as usize,
                state: State::SendingConnectionRequest,
                server_address: address,
                connect_start_time: b.current_time,
                last_packet_send_time: None,
                last_packet_received_time: b.current_time,
                challenge_token_sequence: 0,
                ..b
            },
        }
    }
}

/// What `update` does.
pub open spec fn client_updated(b: ClientView, a: ClientView, r: Result<(), NetcodeError>) -> bool {
    match b.state {
        State::SendingConnectionRequest | State::SendingConnectionResponse => {
            let expire_seconds = b.connect_token.expire_timestamp - b.connect_token.create_timestamp;
            if (b.current_time - b.connect_start_time) / (NANOS_PER_SECOND as int) >= expire_seconds {
                r == Err::<(), NetcodeError>(NetcodeError::Expired) && a == ClientView {
                    state: State::Error(ErrorReason::ConnectTokenExpired),
                    ..b
                }
            } else if timed_out(b) {
                let reason = if b.state == State::SendingConnectionResponse {
                    ErrorReason::ConnectionResponseTimedOut
                } else {
                    ErrorReason::ConnectionRequestTimedOut
                };
                next_server_tried(ClientView { state: State::Error(reason), ..b }, a, r)
            } else {
                r == Ok::<(), NetcodeError>(()) && a == b
            }
        },
        State::Connected => if timed_out(b) {
            r == Err::<(), NetcodeError>(NetcodeError::TimedOut) && a == ClientView {
                state: State::Error(ErrorReason::ConnectionTimedOut),
                ..b
            }
        } else {
            r == Ok::<(), NetcodeError>(()) && a == b
        },
        State::Disconnected | State::Error(_) => r == Err::<(), NetcodeError>(NetcodeError::Disconnected) && a == b,
    }
}

/// A packet that was encoded with the protocol id and the server-to-client
/// key of the client's token, and is not shorter than the smallest packet
/// that decoding accepts, is acted on as that very packet.
pub proof fn lemma_encoded_packet_processed(
    b: ClientView,
    a: ClientView,
    p: Packet,
    old_buf: Seq<u8>,
    new_buf: Seq<u8>,
    sequence: u64,
    n: usize,
    decoded: Result<(u64, Packet), NetcodeError>,
    r: Option<Vec<u8>>,
)
    requires
        !(p is ConnectionRequest),
        spec_encoded(
            p,
            old_buf,
            new_buf,
            b.connect_token.protocol_id,
            Some((sequence, b.connect_token.server_to_client_key@)),
            Ok(n),
        ),
        n >= 18,
        spec_decoded(
            new_buf.subrange(0, n as int),
            b.connect_token.protocol_id,
            Some(b.connect_token.server_to_client_key@),
            decoded,
        ),
        decoded_processed(b, a, decoded, r),
    ensures
        packet_processed(b, a, p, r),
{
    lemma_encode_decode_roundtrip(
        p,
        old_buf,
        new_buf,
        b.connect_token.protocol_id,
        sequence,
        b.connect_token.server_to_client_key@,
        n,
        decoded,
    );
    let q = decoded->Ok_0.1;
    assert(spec_same_packet(q, p));
    match (q, p) {
        (Packet::Challenge(x), Packet::Challenge(y)) => {
            lemma_encrypted_challenge_token_wire_form_determines(x, y);
        },
        (Packet::Response(x), Packet::Response(y)) => {
            lemma_encrypted_challenge_token_wire_form_determines(x, y);
        },
        (Packet::KeepAlive(x), Packet::KeepAlive(y)) => {
            lemma_keep_alive_wire_form_determines(x, y);
        },
        _ => {},
    }
}

impl Client {
    /// A client at `current_time` that starts by sending connection requests
    /// to the first server of the token.
    pub fn new(current_time: u64, connect_token: ConnectToken) -> (r: Self)
        requires
            connect_token.server_addresses[0] is Some,
        ensures
            client_wf(r@),
            r@ == (ClientView {
                state: State::SendingConnectionRequest,
                connect_start_time: 0,
                last_packet_send_time: None,
                last_packet_received_time: 0,
                current_time,
                sequence: 0,
                server_address: connect_token.server_addresses[0]->Some_0,
                server_address_index: 0,
                connect_token,
                challenge_token_sequence: 0,
                challenge_token_data: r@.challenge_token_data,
                max_clients: 0,
                client_index: 0,
                send_rate: NETCODE_SEND_RATE,
            }),
            r@.challenge_token_data@ == Seq::new(300, |_i: int| 0u8),
    {
        let server_address = connect_token.server_addresses[0].unwrap();
        let r = Self {
            sequence: 0,
            server_address,
            server_address_index: 0,
            challenge_token_sequence: 0,
            state: State::SendingConnectionRequest,
            current_time,
            connect_start_time: 0,
            last_packet_send_time: None,
            last_packet_received_time: 0,
            max_clients: 0,
            client_index: 0,
            send_rate: NETCODE_SEND_RATE,
            challenge_token_data: [0u8; NETCODE_CHALLENGE_TOKEN_BYTES],
            connect_token,
        };
        proof {
            assert(r.challenge_token_data@ =~= Seq::new(300, |_i: int| 0u8));
        }
        r
    }

    pub fn connected(&self) -> (r: bool)
        ensures
            r == (self@.state == State::Connected),
    {
        self.state == State::Connected
    }

    pub fn state(&self) -> (r: State)
        ensures
            r == self@.state,
    {
        self.state
    }

    /// Acts on a packet that was decoded with the server's key: moves the
    /// handshake on, or hands on a payload once connected.
    pub fn process_decoded_packet(&mut self, decoded: Result<(u64, Packet), NetcodeError>) -> (r: Option<Vec<u8>>)
        requires
            client_wf(old(self)@),
        ensures
            client_wf(final(self)@),
            decoded_processed(old(self)@, final(self)@, decoded, r),
    {
        let packet = match decoded {
            Ok((_, packet)) => packet,
            Err(_) => {
                return None;
            },
        };
        match packet {
            Packet::ConnectionDenied => {
                if self.state == State::SendingConnectionRequest || self.state == State::SendingConnectionResponse {
                    self.state = State::Error(ErrorReason::ConnectionDenied);
                    self.last_packet_received_time = self.current_time;
                }
                None
            },
            Packet::Challenge(challenge) => {
                if self.state == State::SendingConnectionRequest {
                    self.challenge_token_sequence = challenge.token_sequence;
                    self.last_packet_received_time = self.current_time;
                    self.last_packet_send_time = None;
                    self.challenge_token_data = challenge.token_data;
                    self.state = State::SendingConnectionResponse;
                }
                None
            },
            Packet::KeepAlive(keep_alive) => {
                if self.state == State::Connected {
                    self.last_packet_received_time = self.current_time;
                } else if self.state == State::SendingConnectionResponse {
                    self.last_packet_received_time = self.current_time;
                    self.max_clients = keep_alive.max_clients;
                    self.client_index = keep_alive.client_index;
                    self.state = State::Connected;
                }
                None
            },
            Packet::Payload(payload) => {
                if self.state == State::Connected {
                    self.last_packet_received_time = self.current_time;
                    return Some(payload);
                }
                None
            },
            Packet::Disconnect => {
                if self.state == State::Connected {
                    self.state = State::Disconnected;
                    self.last_packet_received_time = self.current_time;
                }
                None
            },
            _ => None,
        }
    }

    /// Decodes a packet from the server and acts on it.
    pub fn process_packet(&mut self, buffer: &[u8]) -> (r: Option<Vec<u8>>)
        requires
            client_wf(old(self)@),
        ensures
            client_wf(final(self)@),
            exists|decoded: Result<(u64, Packet), NetcodeError>|
                #[trigger] spec_decoded(
                    buffer@,
                    old(self)@.connect_token.protocol_id,
                    Some(old(self)@.connect_token.server_to_client_key@),
                    decoded,
                ) && decoded_processed(old(self)@, final(self)@, decoded, r),
    {
        let decoded = Packet::decode(
            buffer,
            self.connect_token.protocol_id,
            Some(&self.connect_token.server_to_client_key),
        );
        let ghost d = decoded;
        let r = self.process_decoded_packet(decoded);
        proof {
            assert(spec_decoded(
                buffer@,
                old(self)@.connect_token.protocol_id,
                Some(old(self)@.connect_token.server_to_client_key@),
                d,
            ));
        }
        r
    }

    fn connect_to_next_server(&mut self) -> (r: Result<(), NetcodeError>)
        requires
            client_wf(old(self)@),
            old(self)@.server_address_index < NETCODE_MAX_SERVERS,
            old(self)@.state is Error,
        ensures
            client_wf(final(self)@),
            next_server_tried(old(self)@, final(self)@, r),
    {
        self.server_address_index = self.server_address_index + 1;
        if self.server_address_index >= NETCODE_MAX_SERVERS {
            return Err(NetcodeError::NoMoreServers);
        }
        match self.connect_token.server_addresses[self.server_address_index] {
            None => Err(NetcodeError::NoMoreServers),
            Some(server_address) => {
                self.state = State::SendingConnectionRequest;
                self.server_address = server_address;
                self.connect_start_time = self.current_time;
                self.last_packet_send_time = None;
                self.last_packet_received_time = self.current_time;
                self.challenge_token_sequence = 0;
                Ok(())
            },
        }
    }

    /// Writes the packet that the client's state calls for into `buffer`,
    /// unless one was sent less than the send rate ago.
    pub fn generate_packet(&mut self, buffer: &mut [u8]) -> (r: Option<usize>)
        requires
            client_wf(old(self)@),
            old(self)@.sequence < u64::MAX,
        ensures
            client_wf(final(self)@),
            final(buffer)@.len() == old(buffer)@.len(),
            packet_generated(old(self)@, final(self)@, old(buffer)@, final(buffer)@, r),
    {
        if let Some(last_packet_send_time) = self.last_packet_send_time {
            if self.current_time - last_packet_send_time < self.send_rate {
                return None;
            }
        }
        let packet = match self.state {
            State::SendingConnectionRequest => Packet::ConnectionRequest(ConnectionRequest::from_token(&self.connect_token)),
            State::SendingConnectionResponse => Packet::Response(
                EncryptedChallengeToken {
                    token_sequence: self.challenge_token_sequence,
                    token_data: self.challenge_token_data,
                },
            ),
            State::Connected => Packet::KeepAlive(ConnectionKeepAlive { client_index: 0, max_clients: 0 }),
            _ => {
                return None;
            },
        };
        self.last_packet_send_time = Some(self.current_time);
        let result = packet.encode(
            buffer,
            self.connect_token.protocol_id,
            Some((self.sequence, &self.connect_token.client_to_server_key)),
        );
        let ghost encoded = result;
        proof {
            assert(spec_encoded(
                packet,
                old(buffer)@,
                buffer@,
                old(self)@.connect_token.protocol_id,
                Some((old(self)@.sequence, old(self)@.connect_token.client_to_server_key@)),
                encoded,
            ));
        }
        match result {
            Err(_) => None,
            Ok(len) => {
                self.sequence = self.sequence + 1;
                Some(len)
            },
        }
    }

    /// Checks the connection's clocks: gives up on an expired token, tries
    /// the next server when the current one timed out during the handshake,
    /// and drops a connection that timed out.
    pub fn update(&mut self) -> (r: Result<(), NetcodeError>)
        requires
            client_wf(old(self)@),
            old(self)@.state == State::SendingConnectionRequest || old(self)@.state
                == State::SendingConnectionResponse ==> old(self)@.connect_token.create_timestamp
                <= old(self)@.connect_token.expire_timestamp,
        ensures
            client_wf(final(self)@),
            client_updated(old(self)@, final(self)@, r),
    {
        let connection_timed_out = self.connect_token.timeout_seconds > 0 && self.current_time
            - self.last_packet_received_time > (self.connect_token.timeout_seconds as u64) * NANOS_PER_SECOND;
        match self.state {
            State::SendingConnectionRequest | State::SendingConnectionResponse => {
                let expire_seconds = self.connect_token.expire_timestamp - self.connect_token.create_timestamp;
                let connection_expired = (self.current_time - self.connect_start_time) / NANOS_PER_SECOND >= expire_seconds;
                if connection_expired {
                    self.state = State::Error(ErrorReason::ConnectTokenExpired);
                    return Err(NetcodeError::Expired);
                }
                if connection_timed_out {
                    let reason = if self.state == State::SendingConnectionResponse {
                        ErrorReason::ConnectionResponseTimedOut
                    } else {
                        ErrorReason::ConnectionRequestTimedOut
                    };
                    self.state = State::Error(reason);
                    return self.connect_to_next_server();
                }
                Ok(())
            },
            State::Connected => {
                if connection_timed_out {
                    self.state = State::Error(ErrorReason::ConnectionTimedOut);
                    return Err(NetcodeError::TimedOut);
                }
                Ok(())
            },
            State::Disconnected | State::Error(_) => Err(NetcodeError::Disconnected),
        }
    }
}

} // verus!
