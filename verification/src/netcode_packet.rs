use vstd::prelude::*;

use crate::crypto::{
    chacha20poly1305_open, chacha20poly1305_seal, dencrypted_in_place, encrypt_in_place,
    exceeds_block_limit, spec_nonce,
};
use crate::token::{ServerAddress, NETCODE_MAX_SERVERS};
use crate::serialize::{
    le_bytes, le_value, lemma_le_bytes_len, lemma_le_roundtrip, lemma_le_value_bound,
    lemma_pow256_values, pow256, read_bytes, read_u32, read_u64, read_uint_n, write_uint_n,
    write_all, write_u32, write_u64, UnexpectedEof,
};

verus! {

/// "NETCODE 1.02" in ASCII with a null terminator.
pub const NETCODE_VERSION_INFO: [u8; 13] = [78u8, 69, 84, 67, 79, 68, 69, 32, 49, 46, 48, 50, 0];

pub const NETCODE_CONNECT_TOKEN_PRIVATE_BYTES: usize = 1024;

pub const NETCODE_CONNECT_TOKEN_XNONCE_BYTES: usize = 24;

pub const NETCODE_KEY_BYTES: usize = 32;

pub const NETCODE_MAC_BYTES: usize = 16;

pub const NETCODE_USER_DATA_BYTES: usize = 256;

pub const NETCODE_CHALLENGE_TOKEN_BYTES: usize = 300;

pub const NETCODE_MAX_PACKET_SIZE: usize = 1200;

/// The most bytes a packet header takes: the prefix byte and eight sequence bytes.
pub const NETCODE_MAX_HEADER_BYTES: usize = 9;

/// Room for an encrypted packet that carries the largest payload: header,
/// payload and tag.
pub const NETCODE_BUFFER_SIZE: usize = NETCODE_MAX_HEADER_BYTES + NETCODE_MAX_PACKET_SIZE + NETCODE_MAC_BYTES;

/// The kind of a netcode packet, carried in the low four bits of its prefix byte.
#[derive(Debug, Clone, Copy, PartialEq, Eq)]
pub enum PacketType {
    ConnectionRequest,
    ConnectionDenied,
    Challenge,
    Response,
    KeepAlive,
    Payload,
    Disconnect,
}

/// The wire number of each packet type.
pub open spec fn spec_packet_type_id(t: PacketType) -> u8 {
    match t {
        PacketType::ConnectionRequest => 0,
        PacketType::ConnectionDenied => 1,
        PacketType::Challenge => 2,
        PacketType::Response => 3,
        PacketType::KeepAlive => 4,
        PacketType::Payload => 5,
        PacketType::Disconnect => 6,
    }
}

/// Errors of the netcode protocol.
#[derive(Debug, Clone, Copy, PartialEq, Eq)]
pub enum NetcodeError {
    InvalidPrivateKey,
    InvalidPacketType,
    InvalidProtocolID,
    InvalidVersion,
    PacketTooSmall,
    NoMoreServers,
    Expired,
    TimedOut,
    Disconnected,
    CryptoError,
    NotInHostList,
    BufferTooSmall,
    ClientNotFound,
    IoError(IoError),
    TokenGenerationError(TokenGenerationError),
}

/// What went wrong while reading or writing bytes.
#[derive(Debug, Clone, Copy, PartialEq, Eq)]
pub enum IoError {
    /// The input ended before what was being read.
    UnexpectedEof,
    /// The output buffer was full.
    WriteZero,
    /// The input held a value that has no meaning here.
    InvalidData,
}

/// Errors while making a connect token.
#[derive(Debug, Clone, Copy, PartialEq, Eq)]
pub enum TokenGenerationError {
    MaxHostCount,
}

impl PacketType {
    pub fn from_u8(value: u8) -> (r: Result<Self, NetcodeError>)
        ensures
            value <= 6 ==> r is Ok && spec_packet_type_id(r->Ok_0) == value,
            value > 6 ==> r == Err::<Self, NetcodeError>(NetcodeError::InvalidPacketType),
    {
        let packet_type = match value {
            0 => PacketType::ConnectionRequest,
            1 => PacketType::ConnectionDenied,
            2 => PacketType::Challenge,
            3 => PacketType::Response,
            4 => PacketType::KeepAlive,
            5 => PacketType::Payload,
            6 => PacketType::Disconnect,
            _ => return Err(NetcodeError::InvalidPacketType),
        };
        Ok(packet_type)
    }

    pub fn id(&self) -> (r: u8)
        ensures
            r == spec_packet_type_id(*self),
    {
        match self {
            PacketType::ConnectionRequest => 0,
            PacketType::ConnectionDenied => 1,
            PacketType::Challenge => 2,
            PacketType::Response => 3,
            PacketType::KeepAlive => 4,
            PacketType::Payload => 5,
            PacketType::Disconnect => 6,
        }
    }
}

/// The public part of a connect token that a client needs to start a connection.
#[derive(Debug, Clone)]
pub struct ConnectToken {
    pub protocol_id: u64,
    pub create_timestamp: u64,
    pub expire_timestamp: u64,
    pub xnonce: [u8; NETCODE_CONNECT_TOKEN_XNONCE_BYTES],
    pub timeout_seconds: i32,
    pub client_to_server_key: [u8; NETCODE_KEY_BYTES],
    pub server_to_client_key: [u8; NETCODE_KEY_BYTES],
    pub private_data: [u8; NETCODE_CONNECT_TOKEN_PRIVATE_BYTES],
    /// The servers to try, in order; the first empty slot ends the list.
    pub server_addresses: [Option<ServerAddress>; NETCODE_MAX_SERVERS],
}

/// The first packet a client sends: the encrypted private connect token and
/// what the server needs to decrypt it.
#[derive(Debug, PartialEq, Eq)]
pub struct ConnectionRequest {
    pub version_info: [u8; 13],
    pub protocol_id: u64,
    pub expire_timestamp: u64,
    pub xnonce: [u8; NETCODE_CONNECT_TOKEN_XNONCE_BYTES],
    pub data: [u8; NETCODE_CONNECT_TOKEN_PRIVATE_BYTES],
}

/// A challenge token as sent over the wire, still encrypted.
#[derive(Debug, PartialEq, Eq)]
pub struct EncryptedChallengeToken {
    pub token_sequence: u64,
    pub token_data: [u8; NETCODE_CHALLENGE_TOKEN_BYTES],
}

/// The plain content of a challenge token.
#[derive(Debug, PartialEq, Eq)]
pub struct ChallengeToken {
    pub client_id: u64,
    pub user_data: [u8; NETCODE_USER_DATA_BYTES],
}

#[derive(Debug, PartialEq, Eq)]
pub struct ConnectionKeepAlive {
    pub client_index: u32,
    pub max_clients: u32,
}

/// The wire form of a connection request (without its prefix byte).
pub open spec fn spec_connection_request_bytes(r: ConnectionRequest) -> Seq<u8> {
    r.version_info@ + le_bytes(r.protocol_id as nat, 8) + le_bytes(r.expire_timestamp as nat, 8)
        + r.xnonce@ + r.data@
}

pub open spec fn spec_challenge_token_bytes(t: ChallengeToken) -> Seq<u8> {
    le_bytes(t.client_id as nat, 8) + t.user_data@
}

pub open spec fn spec_encrypted_challenge_token_bytes(t: EncryptedChallengeToken) -> Seq<u8> {
    le_bytes(t.token_sequence as nat, 8) + t.token_data@
}

pub open spec fn spec_keep_alive_bytes(k: ConnectionKeepAlive) -> Seq<u8> {
    le_bytes(k.client_index as nat, 4) + le_bytes(k.max_clients as nat, 4)
}

proof fn lemma_read_after(s: Seq<u8>, a: Seq<u8>, rest: Seq<u8>, start: int)
    requires
        0 <= start,
        start + a.len() <= s.len(),
        s.subrange(start, s.len() as int) == a + rest,
    ensures
        s.subrange(start, start + a.len()) == a,
        s.subrange(start + a.len(), s.len() as int) == rest,
{
    assert(s.subrange(start, start + a.len()) =~= (a + rest).subrange(0, a.len() as int));
    assert(s.subrange(start + a.len(), s.len() as int) =~= (a + rest).subrange(
        a.len() as int,
        (a + rest).len() as int,
    ));
}

impl ConnectionRequest {
    pub fn from_token(connect_token: &ConnectToken) -> (r: Self)
        ensures
            r.xnonce == connect_token.xnonce,
            r.version_info == NETCODE_VERSION_INFO,
            r.protocol_id == connect_token.protocol_id,
            r.expire_timestamp == connect_token.expire_timestamp,
            r.data == connect_token.private_data,
    {
        Self {
            xnonce: connect_token.xnonce,
            version_info: NETCODE_VERSION_INFO,
            protocol_id: connect_token.protocol_id,
            expire_timestamp: connect_token.expire_timestamp,
            data: connect_token.private_data,
        }
    }

    pub fn read(src: &[u8], pos: &mut usize) -> (r: Result<Self, UnexpectedEof>)
        requires
            *old(pos) <= src@.len(),
        ensures
            *old(pos) + 1077 <= src@.len() ==> r is Ok && spec_connection_request_bytes(r->Ok_0)
                == src@.subrange(*old(pos) as int, *old(pos) + 1077) && *final(pos) == *old(pos) + 1077,
            *old(pos) + 1077 > src@.len() ==> r is Err,
    {
        let start = *pos;
        let version_info = read_bytes::<13>(src, pos)?;
        let protocol_id = read_u64(src, pos)?;
        let expire_timestamp = read_u64(src, pos)?;
        let xnonce = read_bytes::<24>(src, pos)?;
        let data = read_bytes::<1024>(src, pos)?;
        let r = Self { version_info, protocol_id, expire_timestamp, xnonce, data };
        proof {
            let s = src@;
            lemma_le_value_bound(s.subrange(start + 13, start + 21));
            lemma_le_value_bound(s.subrange(start + 21, start + 29));
            lemma_pow256_values();
            lemma_le_bytes_identity(s.subrange(start + 13, start + 21));
            lemma_le_bytes_identity(s.subrange(start + 21, start + 29));
            assert(spec_connection_request_bytes(r) =~= s.subrange(start as int, start + 1077));
        }
        Ok(r)
    }

    pub fn write(&self, out: &mut Vec<u8>)
        ensures
            final(out)@ == old(out)@ + spec_connection_request_bytes(*self),
    {
        write_all(out, self.version_info.as_slice());
        write_u64(out, self.protocol_id);
        write_u64(out, self.expire_timestamp);
        write_all(out, self.xnonce.as_slice());
        write_all(out, self.data.as_slice());
        proof {
            assert(out@ =~= old(out)@ + spec_connection_request_bytes(*self));
        }
    }
}

impl ChallengeToken {
    pub fn new(client_id: u64, user_data: &[u8; NETCODE_USER_DATA_BYTES]) -> (r: Self)
        ensures
            r.client_id == client_id,
            r.user_data == *user_data,
    {
        Self { client_id, user_data: *user_data }
    }

    pub fn read(src: &[u8], pos: &mut usize) -> (r: Result<Self, UnexpectedEof>)
        requires
            *old(pos) <= src@.len(),
        ensures
            *old(pos) + 264 <= src@.len() ==> r is Ok && spec_challenge_token_bytes(r->Ok_0)
                == src@.subrange(*old(pos) as int, *old(pos) + 264) && *final(pos) == *old(pos) + 264,
            *old(pos) + 264 > src@.len() ==> r is Err,
    {
        let start = *pos;
        let client_id = read_u64(src, pos)?;
        let user_data = read_bytes::<256>(src, pos)?;
        let r = Self { client_id, user_data };
        proof {
            let s = src@;
            lemma_le_value_bound(s.subrange(start as int, start + 8));
            lemma_pow256_values();
            lemma_le_bytes_identity(s.subrange(start as int, start + 8));
            assert(spec_challenge_token_bytes(r) =~= s.subrange(start as int, start + 264));
        }
        Ok(r)
    }

    pub fn write(&self, out: &mut Vec<u8>)
        ensures
            final(out)@ == old(out)@ + spec_challenge_token_bytes(*self),
    {
        write_u64(out, self.client_id);
        write_all(out, self.user_data.as_slice());
        proof {
            assert(out@ =~= old(out)@ + spec_challenge_token_bytes(*self));
        }
    }
}

/// What a challenge token is encrypted from: its bytes, zero padded so that
/// with the tag they fill the token's 300 bytes.
pub open spec fn spec_challenge_plaintext(t: ChallengeToken) -> Seq<u8> {
    spec_challenge_token_bytes(t) + Seq::new(20, |_i: int| 0u8)
}

/// What `EncryptedChallengeToken::generate` makes of `token`.
pub open spec fn spec_challenge_sealed(token: ChallengeToken, sequence: u64, key: Seq<u8>, e: EncryptedChallengeToken) -> bool {
    &&& e.token_sequence == sequence
    &&& e.token_data@ == chacha20poly1305_seal(key, spec_nonce(sequence), Seq::empty(), spec_challenge_plaintext(token))
}

/// What `EncryptedChallengeToken::decode` gives for `e` under `key`.
pub open spec fn spec_challenge_opened(e: EncryptedChallengeToken, key: Seq<u8>, r: Result<ChallengeToken, NetcodeError>) -> bool {
    let nonce = spec_nonce(e.token_sequence);
    let opened = chacha20poly1305_open(key, nonce, Seq::empty(), e.token_data@.subrange(0, 284), e.token_data@.subrange(284, 300));
    &&& forall|q: Seq<u8>|
        !exceeds_block_limit(q.len()) && #[trigger] chacha20poly1305_seal(key, nonce, Seq::empty(), q) == e.token_data@
            ==> opened == Some(q)
    &&& match opened {
        None => r == Err::<ChallengeToken, NetcodeError>(NetcodeError::CryptoError),
        Some(plain) => plain.len() == 284 && (r matches Ok(t) && spec_challenge_token_bytes(t) == plain.subrange(0, 264)),
    }
}

impl EncryptedChallengeToken {
    /// Encrypts the challenge token of `client_id` and `user_data` with the
    /// challenge key, under the nonce of `challenge_sequence`.
    pub fn generate(
        client_id: u64,
        user_data: &[u8; NETCODE_USER_DATA_BYTES],
        challenge_sequence: u64,
        challenge_key: &[u8; NETCODE_KEY_BYTES],
    ) -> (r: Result<Self, NetcodeError>)
        ensures
            r is Ok,
            spec_challenge_sealed(ChallengeToken { client_id, user_data: *user_data }, challenge_sequence, challenge_key@, r->Ok_0),
    {
        let token = ChallengeToken::new(client_id, user_data);
        let mut buffer: Vec<u8> = Vec::new();
        token.write(&mut buffer);
        let mut i: usize = 0;
        while i < 20
            invariant
                i <= 20,
                buffer@ == spec_challenge_token_bytes(token) + Seq::new(i as nat, |_j: int| 0u8),
            decreases 20 - i,
        {
            buffer.push(0u8);
            i = i + 1;
            proof {
                assert(buffer@ =~= spec_challenge_token_bytes(token) + Seq::new(i as nat, |_j: int| 0u8));
            }
        }
        proof {
            lemma_le_bytes_len(client_id as nat, 8);
        }
        let empty: Vec<u8> = Vec::new();
        let tag = match encrypt_in_place(buffer.as_mut_slice(), challenge_sequence, challenge_key, empty.as_slice()) {
            Ok(tag) => tag,
            Err(_) => {
                return Err(NetcodeError::CryptoError);
            },
        };
        write_all(&mut buffer, tag.as_slice());
        let mut token_data = [0u8; NETCODE_CHALLENGE_TOKEN_BYTES];
        let mut j: usize = 0;
        while j < 300
            invariant
                j <= 300,
                buffer@.len() == 300,
                forall|k: int| 0 <= k < j ==> token_data@[k] == buffer@[k],
            decreases 300 - j,
        {
            token_data[j] = buffer[j];
            j = j + 1;
        }
        proof {
            assert(token_data@ =~= buffer@);
            assert(empty@ =~= Seq::<u8>::empty());
        }
        Ok(Self { token_sequence: challenge_sequence, token_data })
    }

    /// Decrypts the token with the challenge key.
    pub fn decode(&self, challenge_key: &[u8; NETCODE_KEY_BYTES]) -> (r: Result<ChallengeToken, NetcodeError>)
        ensures
            spec_challenge_opened(*self, challenge_key@, r),
    {
        let data = self.token_data.as_slice();
        let mut decoded = copy_range(data, 0, 284);
        let tag = tag_at(data, 284);
        let empty: Vec<u8> = Vec::new();
        proof {
            assert(empty@ =~= Seq::<u8>::empty());
            assert(self.token_data@.subrange(0, 284) + self.token_data@.subrange(284, 300) =~= self.token_data@);
        }
        match dencrypted_in_place(decoded.as_mut_slice(), self.token_sequence, challenge_key, empty.as_slice(), &tag) {
            Ok(()) => {},
            Err(_) => {
                return Err(NetcodeError::CryptoError);
            },
        }
        let mut pos: usize = 0;
        match ChallengeToken::read(decoded.as_slice(), &mut pos) {
            Ok(token) => Ok(token),
            Err(_) => Err(NetcodeError::IoError(IoError::UnexpectedEof)),
        }
    }

    pub fn read(src: &[u8], pos: &mut usize) -> (r: Result<Self, UnexpectedEof>)
        requires
            *old(pos) <= src@.len(),
        ensures
            *old(pos) + 308 <= src@.len() ==> r is Ok && spec_encrypted_challenge_token_bytes(r->Ok_0)
                == src@.subrange(*old(pos) as int, *old(pos) + 308) && *final(pos) == *old(pos) + 308,
            *old(pos) + 308 > src@.len() ==> r is Err,
    {
        let start = *pos;
        let token_sequence = read_u64(src, pos)?;
        let token_data = read_bytes::<300>(src, pos)?;
        let r = Self { token_sequence, token_data };
        proof {
            let s = src@;
            lemma_le_value_bound(s.subrange(start as int, start + 8));
            lemma_pow256_values();
            lemma_le_bytes_identity(s.subrange(start as int, start + 8));
            assert(spec_encrypted_challenge_token_bytes(r) =~= s.subrange(start as int, start + 308));
        }
        Ok(r)
    }

    pub fn write(&self, out: &mut Vec<u8>)
        ensures
            final(out)@ == old(out)@ + spec_encrypted_challenge_token_bytes(*self),
    {
        write_u64(out, self.token_sequence);
        write_all(out, self.token_data.as_slice());
        proof {
            assert(out@ =~= old(out)@ + spec_encrypted_challenge_token_bytes(*self));
        }
    }
}

impl ConnectionKeepAlive {
    pub fn read(src: &[u8], pos: &mut usize) -> (r: Result<Self, UnexpectedEof>)
        requires
            *old(pos) <= src@.len(),
        ensures
            *old(pos) + 8 <= src@.len() ==> r is Ok && spec_keep_alive_bytes(r->Ok_0)
                == src@.subrange(*old(pos) as int, *old(pos) + 8) && *final(pos) == *old(pos) + 8,
            *old(pos) + 8 > src@.len() ==> r is Err,
    {
        let start = *pos;
        let client_index = read_u32(src, pos)?;
        let max_clients = read_u32(src, pos)?;
        let r = Self { client_index, max_clients };
        proof {
            let s = src@;
            lemma_le_value_bound(s.subrange(start as int, start + 4));
            lemma_le_value_bound(s.subrange(start + 4, start + 8));
            lemma_pow256_values();
            lemma_le_bytes_identity(s.subrange(start as int, start + 4));
            lemma_le_bytes_identity(s.subrange(start + 4, start + 8));
            assert(spec_keep_alive_bytes(r) =~= s.subrange(start as int, start + 8));
        }
        Ok(r)
    }

    pub fn write(&self, out: &mut Vec<u8>)
        ensures
            final(out)@ == old(out)@ + spec_keep_alive_bytes(*self),
    {
        write_u32(out, self.client_index);
        write_u32(out, self.max_clients);
        proof {
            assert(out@ =~= old(out)@ + spec_keep_alive_bytes(*self));
        }
    }
}

proof fn lemma_le_bytes_injective(a: nat, b: nat, n: nat)
    requires
        a < pow256(n),
        b < pow256(n),
        le_bytes(a, n) == le_bytes(b, n),
    ensures
        a == b,
{
    lemma_le_roundtrip(a, n);
    lemma_le_roundtrip(b, n);
}

proof fn lemma_concat_split<A>(a1: Seq<A>, b1: Seq<A>, a2: Seq<A>, b2: Seq<A>)
    requires
        a1.len() == a2.len(),
        a1 + b1 == a2 + b2,
    ensures
        a1 == a2,
        b1 == b2,
{
    assert(a1 =~= (a1 + b1).subrange(0, a1.len() as int));
    assert(a2 =~= (a2 + b2).subrange(0, a2.len() as int));
    assert(b1 =~= (a1 + b1).subrange(a1.len() as int, (a1 + b1).len() as int));
    assert(b2 =~= (a2 + b2).subrange(a2.len() as int, (a2 + b2).len() as int));
}

/// The wire form of a keep-alive determines it: what `write` produces,
/// `read` gives back.
pub proof fn lemma_keep_alive_wire_form_determines(a: ConnectionKeepAlive, b: ConnectionKeepAlive)
    requires
        spec_keep_alive_bytes(a) == spec_keep_alive_bytes(b),
    ensures
        a == b,
{
    lemma_pow256_values();
    lemma_le_bytes_len(a.client_index as nat, 4);
    lemma_le_bytes_len(b.client_index as nat, 4);
    lemma_concat_split(
        le_bytes(a.client_index as nat, 4),
        le_bytes(a.max_clients as nat, 4),
        le_bytes(b.client_index as nat, 4),
        le_bytes(b.max_clients as nat, 4),
    );
    lemma_le_bytes_injective(a.client_index as nat, b.client_index as nat, 4);
    lemma_le_bytes_injective(a.max_clients as nat, b.max_clients as nat, 4);
}

/// The wire form of an encrypted challenge token determines it.
pub proof fn lemma_encrypted_challenge_token_wire_form_determines(
    a: EncryptedChallengeToken,
    b: EncryptedChallengeToken,
)
    requires
        spec_encrypted_challenge_token_bytes(a) == spec_encrypted_challenge_token_bytes(b),
    ensures
        a == b,
{
    lemma_pow256_values();
    lemma_le_bytes_len(a.token_sequence as nat, 8);
    lemma_le_bytes_len(b.token_sequence as nat, 8);
    lemma_concat_split(
        le_bytes(a.token_sequence as nat, 8),
        a.token_data@,
        le_bytes(b.token_sequence as nat, 8),
        b.token_data@,
    );
    lemma_le_bytes_injective(a.token_sequence as nat, b.token_sequence as nat, 8);
    assert(a.token_data =~= b.token_data);
}

/// The wire form of a challenge token determines it.
pub proof fn lemma_challenge_token_wire_form_determines(a: ChallengeToken, b: ChallengeToken)
    requires
        spec_challenge_token_bytes(a) == spec_challenge_token_bytes(b),
    ensures
        a == b,
{
    lemma_pow256_values();
    lemma_le_bytes_len(a.client_id as nat, 8);
    lemma_le_bytes_len(b.client_id as nat, 8);
    lemma_concat_split(le_bytes(a.client_id as nat, 8), a.user_data@, le_bytes(b.client_id as nat, 8), b.user_data@);
    lemma_le_bytes_injective(a.client_id as nat, b.client_id as nat, 8);
    assert(a.user_data =~= b.user_data);
}

/// The wire form of a connection request determines it.
pub proof fn lemma_connection_request_wire_form_determines(a: ConnectionRequest, b: ConnectionRequest)
    requires
        spec_connection_request_bytes(a) == spec_connection_request_bytes(b),
    ensures
        a == b,
{
    lemma_pow256_values();
    lemma_le_bytes_len(a.protocol_id as nat, 8);
    lemma_le_bytes_len(b.protocol_id as nat, 8);
    lemma_le_bytes_len(a.expire_timestamp as nat, 8);
    lemma_le_bytes_len(b.expire_timestamp as nat, 8);
    let a1 = a.version_info@ + le_bytes(a.protocol_id as nat, 8) + le_bytes(a.expire_timestamp as nat, 8) + a.xnonce@;
    let b1 = b.version_info@ + le_bytes(b.protocol_id as nat, 8) + le_bytes(b.expire_timestamp as nat, 8) + b.xnonce@;
    lemma_concat_split(a1, a.data@, b1, b.data@);
    let a2 = a.version_info@ + le_bytes(a.protocol_id as nat, 8) + le_bytes(a.expire_timestamp as nat, 8);
    let b2 = b.version_info@ + le_bytes(b.protocol_id as nat, 8) + le_bytes(b.expire_timestamp as nat, 8);
    lemma_concat_split(a2, a.xnonce@, b2, b.xnonce@);
    let a3 = a.version_info@ + le_bytes(a.protocol_id as nat, 8);
    let b3 = b.version_info@ + le_bytes(b.protocol_id as nat, 8);
    lemma_concat_split(a3, le_bytes(a.expire_timestamp as nat, 8), b3, le_bytes(b.expire_timestamp as nat, 8));
    lemma_concat_split(a.version_info@, le_bytes(a.protocol_id as nat, 8), b.version_info@, le_bytes(b.protocol_id as nat, 8));
    lemma_le_bytes_injective(a.protocol_id as nat, b.protocol_id as nat, 8);
    lemma_le_bytes_injective(a.expire_timestamp as nat, b.expire_timestamp as nat, 8);
    assert(a.version_info =~= b.version_info);
    assert(a.xnonce =~= b.xnonce);
    assert(a.data =~= b.data);
}

/// Number of bytes needed to hold `sequence`: zero for zero.
pub open spec fn spec_sequence_bytes_required(sequence: nat) -> nat
    decreases sequence,
{
    if sequence == 0 {
        0
    } else {
        1 + spec_sequence_bytes_required(sequence / 256)
    }
}

proof fn lemma_bytes_required_bound(sequence: nat)
    ensures
        sequence < pow256(spec_sequence_bytes_required(sequence)),
        sequence < 0x1_0000_0000_0000_0000 ==> spec_sequence_bytes_required(sequence) <= 8,
    decreases sequence,
{
    if sequence > 0 {
        lemma_bytes_required_bound(sequence / 256);
        lemma_pow256_values();
        if sequence < 0x1_0000_0000_0000_0000 {
            assert(sequence / 256 < 0x1_0000_0000_0000_00);
            lemma_bytes_required_small(sequence / 256);
        }
    }
}

proof fn lemma_bytes_required_small(x: nat)
    requires
        x < 0x1_0000_0000_0000_00,
    ensures
        spec_sequence_bytes_required(x) <= 7,
{
    reveal_with_fuel(spec_sequence_bytes_required, 8);
    assert(x / 256 / 256 / 256 / 256 / 256 / 256 / 256 == 0);
}

/// Number of bytes needed to hold `sequence`.
pub fn sequence_bytes_required(sequence: u64) -> (r: usize)
    ensures
        r == spec_sequence_bytes_required(sequence as nat),
        r <= 8,
        (sequence as nat) < pow256(r as nat),
{
    let mut x: u64 = sequence;
    let mut n: usize = 0;
    proof {
        lemma_bytes_required_bound(sequence as nat);
    }
    while x != 0
        invariant
            n + spec_sequence_bytes_required(x as nat) == spec_sequence_bytes_required(sequence as nat),
            spec_sequence_bytes_required(sequence as nat) <= 8,
        decreases x,
    {
        x = x / 256;
        n = n + 1;
    }
    n
}

/// The prefix byte: packet type in the low four bits, length of the sequence in the high four.
pub open spec fn spec_encode_prefix(value: u8, sequence: u64) -> u8 {
    (value | ((spec_sequence_bytes_required(sequence as nat) as u8) << 4u8)) as u8
}

pub fn decode_prefix(value: u8) -> (r: (u8, usize))
    ensures
        r.0 == value % 16,
        r.1 == value / 16,
{
    let t = value & 0xF;
    let l = value >> 4;
    assert(value & 0xF == value % 16) by (bit_vector);
    assert(value >> 4 == value / 16) by (bit_vector);
    (t, l as usize)
}

pub fn encode_prefix(value: u8, sequence: u64) -> (r: u8)
    ensures
        r == spec_encode_prefix(value, sequence),
        value < 16 ==> r == value + 16 * spec_sequence_bytes_required(sequence as nat),
        value < 16 ==> r % 16 == value,
        value < 16 ==> r / 16 == spec_sequence_bytes_required(sequence as nat),
{
    let n = sequence_bytes_required(sequence) as u8;
    assert(value < 16 && n <= 8 ==> (value | (n << 4u8)) == value + 16 * n) by (bit_vector);
    value | (n << 4)
}

/// Appends the bytes of `seq` that `sequence_bytes_required` counts.
pub fn write_sequence(out: &mut Vec<u8>, seq: u64) -> (r: usize)
    ensures
        r == spec_sequence_bytes_required(seq as nat),
        final(out)@ == old(out)@ + le_bytes(seq as nat, r as nat),
{
    let len = sequence_bytes_required(seq);
    write_uint_n(out, seq, len);
    len
}

/// Reads a sequence of `len` bytes.
pub fn read_sequence(src: &[u8], pos: &mut usize, len: usize) -> (r: Result<u64, UnexpectedEof>)
    requires
        *old(pos) <= src@.len(),
        len <= 8,
    ensures
        *old(pos) + len <= src@.len() ==> r == Ok::<u64, UnexpectedEof>(
            le_value(src@.subrange(*old(pos) as int, *old(pos) + len)) as u64,
        ) && *final(pos) == *old(pos) + len,
        *old(pos) + len > src@.len() ==> r is Err && *final(pos) == *old(pos),
{
    if len == 0 {
        proof {
            assert(src@.subrange(*pos as int, *pos as int) =~= Seq::<u8>::empty());
        }
        return Ok(0);
    }
    read_uint_n(src, pos, len)
}

/// A sequence written with `write_sequence` and read back with the length
/// carried by its prefix is the same sequence.
pub proof fn lemma_sequence_roundtrip(seq: u64)
    ensures
        le_bytes(seq as nat, spec_sequence_bytes_required(seq as nat)).len()
            == spec_sequence_bytes_required(seq as nat),
        le_value(le_bytes(seq as nat, spec_sequence_bytes_required(seq as nat))) == seq,
        spec_sequence_bytes_required(seq as nat) <= 8,
{
    lemma_bytes_required_bound(seq as nat);
    lemma_le_roundtrip(seq as nat, spec_sequence_bytes_required(seq as nat));
}

/// The additional authenticated data of an encrypted packet: version info,
/// protocol id and prefix byte.
pub fn get_additional_data(prefix: u8, protocol_id: u64) -> (r: [u8; 22])
    ensures
        r@ == NETCODE_VERSION_INFO@ + le_bytes(protocol_id as nat, 8) + seq![prefix],
{
    let mut v: Vec<u8> = Vec::with_capacity(22);
    write_all(&mut v, NETCODE_VERSION_INFO.as_slice());
    write_u64(&mut v, protocol_id);
    v.push(prefix);
    let mut buffer = [0u8; 22];
    let mut i: usize = 0;
    proof {
        lemma_le_bytes_len(protocol_id as nat, 8);
    }
    while i < 22
        invariant
            i <= 22,
            v@.len() == 22,
            forall|j: int| 0 <= j < i ==> buffer@[j] == v@[j],
        decreases 22 - i,
    {
        buffer[i] = v[i];
        i = i + 1;
    }
    proof {
        assert(buffer@ =~= v@);
    }
    buffer
}

/// Re-encoding bytes that were read as a little-endian number gives the same bytes.
pub proof fn lemma_le_bytes_identity(s: Seq<u8>)
    ensures
        le_bytes(le_value(s), s.len()) == s,
    decreases s.len(),
{
    if s.len() > 0 {
        lemma_le_bytes_identity(s.drop_first());
        let v = le_value(s);
        assert(v % 256 == s[0]);
        assert(v / 256 == le_value(s.drop_first()));
        assert(le_bytes(v, s.len()) =~= s);
    }
}

/// A netcode packet.
#[derive(Debug, PartialEq, Eq)]
pub enum Packet {
    ConnectionRequest(ConnectionRequest),
    ConnectionDenied,
    Challenge(EncryptedChallengeToken),
    Response(EncryptedChallengeToken),
    KeepAlive(ConnectionKeepAlive),
    Payload(Vec<u8>),
    Disconnect,
}

pub open spec fn spec_packet_kind(p: Packet) -> PacketType {
    match p {
        Packet::ConnectionRequest(_) => PacketType::ConnectionRequest,
        Packet::ConnectionDenied => PacketType::ConnectionDenied,
        Packet::Challenge(_) => PacketType::Challenge,
        Packet::Response(_) => PacketType::Response,
        Packet::KeepAlive(_) => PacketType::KeepAlive,
        Packet::Payload(_) => PacketType::Payload,
        Packet::Disconnect => PacketType::Disconnect,
    }
}

/// The packet type with wire number `n`, for `n` up to 6.
pub open spec fn spec_packet_type_of(n: u8) -> PacketType {
    if n == 0 {
        PacketType::ConnectionRequest
    } else if n == 1 {
        PacketType::ConnectionDenied
    } else if n == 2 {
        PacketType::Challenge
    } else if n == 3 {
        PacketType::Response
    } else if n == 4 {
        PacketType::KeepAlive
    } else if n == 5 {
        PacketType::Payload
    } else {
        PacketType::Disconnect
    }
}

/// The bytes a packet carries after its header, before encryption.
pub open spec fn spec_packet_body(p: Packet) -> Seq<u8> {
    match p {
        Packet::ConnectionRequest(r) => spec_connection_request_bytes(r),
        Packet::Challenge(c) => spec_encrypted_challenge_token_bytes(c),
        Packet::Response(c) => spec_encrypted_challenge_token_bytes(c),
        Packet::KeepAlive(k) => spec_keep_alive_bytes(k),
        Packet::Payload(v) => v@,
        Packet::ConnectionDenied => Seq::empty(),
        Packet::Disconnect => Seq::empty(),
    }
}

/// Two packets of the same type that carry the same bytes.
pub open spec fn spec_same_packet(a: Packet, b: Packet) -> bool {
    spec_packet_kind(a) == spec_packet_kind(b) && spec_packet_body(a) == spec_packet_body(b)
}

/// The associated data that an encrypted packet's tag covers.
pub open spec fn spec_additional_data(prefix: u8, protocol_id: u64) -> Seq<u8> {
    NETCODE_VERSION_INFO@ + le_bytes(protocol_id as nat, 8) + seq![prefix]
}

/// Prefix byte and sequence bytes of an encrypted packet.
pub open spec fn spec_packet_header(p: Packet, sequence: u64) -> Seq<u8> {
    seq![spec_encode_prefix(spec_packet_type_id(spec_packet_kind(p)), sequence)] + le_bytes(
        sequence as nat,
        spec_sequence_bytes_required(sequence as nat),
    )
}

/// Header, then the sealed body (ciphertext and tag).
pub open spec fn spec_sealed_packet(p: Packet, protocol_id: u64, sequence: u64, key: Seq<u8>) -> Seq<u8> {
    let prefix = spec_encode_prefix(spec_packet_type_id(spec_packet_kind(p)), sequence);
    spec_packet_header(p, sequence) + chacha20poly1305_seal(
        key,
        spec_nonce(sequence),
        spec_additional_data(prefix, protocol_id),
        spec_packet_body(p),
    )
}

/// A buffer after `data` was written from its start, as far as it fits.
pub open spec fn spec_written(buffer: Seq<u8>, data: Seq<u8>) -> Seq<u8> {
    if data.len() <= buffer.len() {
        data + buffer.subrange(data.len() as int, buffer.len() as int)
    } else {
        data.subrange(0, buffer.len() as int)
    }
}

/// The sequence and key of `crypto_info`, by value.
pub open spec fn spec_crypto_view(crypto_info: Option<(u64, &[u8; 32])>) -> Option<(u64, Seq<u8>)> {
    match crypto_info {
        Some((sequence, key)) => Some((sequence, key@)),
        None => None,
    }
}

/// What `Packet::encode` does: `old_buf` and `new_buf` are the buffer before
/// and after, `crypto` the sequence and key when given.
pub open spec fn spec_encoded(
    p: Packet,
    old_buf: Seq<u8>,
    new_buf: Seq<u8>,
    protocol_id: u64,
    crypto: Option<(u64, Seq<u8>)>,
    r: Result<usize, NetcodeError>,
) -> bool {
    match p {
        Packet::ConnectionRequest(req) => {
            let data = seq![0u8] + spec_connection_request_bytes(req);
            &&& new_buf == spec_written(old_buf, data)
            &&& if old_buf.len() < data.len() {
                r == Err::<usize, NetcodeError>(NetcodeError::IoError(IoError::WriteZero))
            } else {
                r matches Ok(m) && m == data.len()
            }
        },
        _ => match crypto {
            None => r == Err::<usize, NetcodeError>(NetcodeError::InvalidPrivateKey) && new_buf == old_buf,
            Some((sequence, key)) => {
                let plain = spec_packet_header(p, sequence) + spec_packet_body(p);
                if old_buf.len() < plain.len() + NETCODE_MAC_BYTES {
                    r == Err::<usize, NetcodeError>(NetcodeError::IoError(IoError::WriteZero))
                        && new_buf == spec_written(old_buf, plain)
                } else if exceeds_block_limit(spec_packet_body(p).len()) {
                    r == Err::<usize, NetcodeError>(NetcodeError::CryptoError) && new_buf == spec_written(old_buf, plain)
                } else {
                    let sealed = spec_sealed_packet(p, protocol_id, sequence, key);
                    &&& sealed.len() == plain.len() + NETCODE_MAC_BYTES
                    &&& r matches Ok(m) && m == sealed.len()
                    &&& new_buf == spec_written(old_buf, sealed)
                }
            },
        },
    }
}

/// What reading the body of a packet of type `t` from `plain` gives.
pub open spec fn spec_body_read(t: PacketType, plain: Seq<u8>, r: Result<Packet, NetcodeError>) -> bool {
    let eof = Err::<Packet, NetcodeError>(NetcodeError::IoError(IoError::UnexpectedEof));
    match t {
        PacketType::Payload => r matches Ok(Packet::Payload(v)) && v@ == plain,
        PacketType::ConnectionDenied => r matches Ok(Packet::ConnectionDenied),
        PacketType::Disconnect => r matches Ok(Packet::Disconnect),
        PacketType::Challenge => if plain.len() < 308 {
            r == eof
        } else {
            r matches Ok(Packet::Challenge(c)) && spec_encrypted_challenge_token_bytes(c) == plain.subrange(0, 308)
        },
        PacketType::Response => if plain.len() < 308 {
            r == eof
        } else {
            r matches Ok(Packet::Response(c)) && spec_encrypted_challenge_token_bytes(c) == plain.subrange(0, 308)
        },
        PacketType::KeepAlive => if plain.len() < 8 {
            r == eof
        } else {
            r matches Ok(Packet::KeepAlive(k)) && spec_keep_alive_bytes(k) == plain.subrange(0, 8)
        },
        PacketType::ConnectionRequest => if plain.len() < 1077 {
            r == eof
        } else {
            r matches Ok(Packet::ConnectionRequest(q)) && spec_connection_request_bytes(q) == plain.subrange(0, 1077)
        },
    }
}

/// Decoding reads past the eight bytes a sequence can have: the length in the
/// prefix of an encrypted packet is over eight.
pub open spec fn spec_sequence_length_overflows(buf: Seq<u8>, has_key: bool) -> bool {
    buf.len() >= 2 + NETCODE_MAC_BYTES && buf[0] % 16 != 0 && has_key && buf[0] / 16 > 8
}

/// The key of `private_key`, by value.
pub open spec fn spec_key_view(private_key: Option<&[u8; 32]>) -> Option<Seq<u8>> {
    match private_key {
        Some(key) => Some(key@),
        None => None,
    }
}

/// What `Packet::decode` gives for `buf`.
pub open spec fn spec_decoded(
    buf: Seq<u8>,
    protocol_id: u64,
    key: Option<Seq<u8>>,
    r: Result<(u64, Packet), NetcodeError>,
) -> bool {
    if buf.len() < 2 + NETCODE_MAC_BYTES {
        r == Err::<(u64, Packet), NetcodeError>(NetcodeError::PacketTooSmall)
    } else if buf[0] % 16 == 0 {
        if buf.len() < 1078 {
            r == Err::<(u64, Packet), NetcodeError>(NetcodeError::IoError(IoError::UnexpectedEof))
        } else {
            r matches Ok((s, Packet::ConnectionRequest(q))) && s == 0 && spec_connection_request_bytes(q)
                == buf.subrange(1, 1078)
        }
    } else {
        match key {
            None => r == Err::<(u64, Packet), NetcodeError>(NetcodeError::InvalidPrivateKey),
            Some(k) => if buf[0] / 16 > 8 {
                r == Err::<(u64, Packet), NetcodeError>(NetcodeError::IoError(IoError::InvalidData))
            } else {
                let read_pos = 1 + buf[0] / 16;
                let sequence = le_value(buf.subrange(1, read_pos)) as u64;
                if buf.len() < read_pos + NETCODE_MAC_BYTES {
                    r == Err::<(u64, Packet), NetcodeError>(NetcodeError::CryptoError)
                } else {
                    let ciphertext = buf.subrange(read_pos, buf.len() - 16);
                    let tag = buf.subrange(buf.len() - 16, buf.len() as int);
                    let nonce = spec_nonce(sequence);
                    let aad = spec_additional_data(buf[0], protocol_id);
                    let opened = chacha20poly1305_open(k, nonce, aad, ciphertext, tag);
                    &&& forall|q: Seq<u8>|
                        !exceeds_block_limit(q.len()) && #[trigger] chacha20poly1305_seal(k, nonce, aad, q)
                            == ciphertext + tag ==> opened == Some(q)
                    &&& match opened {
                        None => r == Err::<(u64, Packet), NetcodeError>(NetcodeError::CryptoError),
                        Some(plain) => if buf[0] % 16 > 6 {
                            r == Err::<(u64, Packet), NetcodeError>(NetcodeError::InvalidPacketType)
                        } else {
                            match r {
                                Ok((s, p)) => s == sequence && spec_body_read(
                                    spec_packet_type_of(buf[0] % 16),
                                    plain,
                                    Ok(p),
                                ),
                                Err(e) => spec_body_read(spec_packet_type_of(buf[0] % 16), plain, Err(e)),
                            }
                        },
                    }
                }
            },
        }
    }
}

proof fn lemma_prefix_parts(value: u8, sequence: u64)
    requires
        value < 16,
    ensures
        spec_encode_prefix(value, sequence) % 16 == value,
        spec_encode_prefix(value, sequence) / 16 == spec_sequence_bytes_required(sequence as nat),
{
    lemma_sequence_roundtrip(sequence);
    let n = spec_sequence_bytes_required(sequence as nat) as u8;
    assert(value < 16 && n <= 8 ==> (value | (n << 4u8)) == value + 16 * n) by (bit_vector);
}

proof fn lemma_body_lengths(p: Packet)
    ensures
        p is ConnectionRequest ==> spec_packet_body(p).len() == 1077,
        p is Challenge || p is Response ==> spec_packet_body(p).len() == 308,
        p is KeepAlive ==> spec_packet_body(p).len() == 8,
{
    match p {
        Packet::ConnectionRequest(q) => {
            lemma_le_bytes_len(q.protocol_id as nat, 8);
            lemma_le_bytes_len(q.expire_timestamp as nat, 8);
        },
        Packet::Challenge(c) => {
            lemma_le_bytes_len(c.token_sequence as nat, 8);
        },
        Packet::Response(c) => {
            lemma_le_bytes_len(c.token_sequence as nat, 8);
        },
        Packet::KeepAlive(k) => {
            lemma_le_bytes_len(k.client_index as nat, 4);
            lemma_le_bytes_len(k.max_clients as nat, 4);
        },
        _ => {},
    }
}

/// Reading the body of a packet back from its own bytes gives a packet of
/// the same type with the same content.
pub proof fn lemma_body_read_gives_back(p: Packet, r: Result<Packet, NetcodeError>)
    requires
        spec_body_read(spec_packet_kind(p), spec_packet_body(p), r),
    ensures
        r is Ok,
        spec_same_packet(r->Ok_0, p),
{
    lemma_body_lengths(p);
    let b = spec_packet_body(p);
    assert(b.subrange(0, b.len() as int) =~= b);
}

/// A challenge token that `generate` encrypted, `decode` with the same key
/// gives back.
pub proof fn lemma_challenge_token_roundtrip(
    token: ChallengeToken,
    sequence: u64,
    key: Seq<u8>,
    e: EncryptedChallengeToken,
    r: Result<ChallengeToken, NetcodeError>,
)
    requires
        spec_challenge_sealed(token, sequence, key, e),
        spec_challenge_opened(e, key, r),
    ensures
        r == Ok::<ChallengeToken, NetcodeError>(token),
{
    lemma_le_bytes_len(token.client_id as nat, 8);
    let plain = spec_challenge_plaintext(token);
    assert(plain.len() == 284);
    let opened = chacha20poly1305_open(key, spec_nonce(sequence), Seq::empty(), e.token_data@.subrange(0, 284), e.token_data@.subrange(284, 300));
    assert(opened == Some(plain));
    assert(plain.subrange(0, 264) =~= spec_challenge_token_bytes(token));
    let t = r->Ok_0;
    lemma_challenge_token_wire_form_determines(t, token);
}

/// A packet that `encode` wrote decodes to a packet of the same type with
/// the same content, under the same protocol id and key, and with the
/// sequence it was sealed with (zero for a connection request) — as long as
/// what was written is not shorter than the smallest packet that decoding
/// accepts. Such bytes never carry a sequence length that decoding refuses.
pub proof fn lemma_encode_decode_roundtrip(
    p: Packet,
    old_buf: Seq<u8>,
    new_buf: Seq<u8>,
    protocol_id: u64,
    sequence: u64,
    key: Seq<u8>,
    n: usize,
    r: Result<(u64, Packet), NetcodeError>,
)
    requires
        spec_encoded(p, old_buf, new_buf, protocol_id, Some((sequence, key)), Ok(n)),
        n >= 2 + NETCODE_MAC_BYTES,
        spec_decoded(new_buf.subrange(0, n as int), protocol_id, Some(key), r),
    ensures
        !spec_sequence_length_overflows(new_buf.subrange(0, n as int), true),
        r is Ok,
        r->Ok_0.0 == (if p is ConnectionRequest {
            0
        } else {
            sequence
        }),
        spec_same_packet(r->Ok_0.1, p),
{
    lemma_body_lengths(p);
    let buf = new_buf.subrange(0, n as int);
    if let Packet::ConnectionRequest(req) = p {
        let data = seq![0u8] + spec_connection_request_bytes(req);
        assert(buf =~= data);
        assert(buf.subrange(1, 1078) =~= spec_connection_request_bytes(req));
    } else {
        let id = spec_packet_type_id(spec_packet_kind(p));
        let prefix = spec_encode_prefix(id, sequence);
        let k = spec_sequence_bytes_required(sequence as nat);
        lemma_prefix_parts(id, sequence);
        lemma_sequence_roundtrip(sequence);
        let header = spec_packet_header(p, sequence);
        let body = spec_packet_body(p);
        let aad = spec_additional_data(prefix, protocol_id);
        let sealed = spec_sealed_packet(p, protocol_id, sequence, key);
        let ct = chacha20poly1305_seal(key, spec_nonce(sequence), aad, body);
        let plain = header + body;
        assert(!(old_buf.len() < plain.len() + NETCODE_MAC_BYTES));
        assert(!exceeds_block_limit(body.len()));
        assert(sealed.len() == plain.len() + NETCODE_MAC_BYTES);
        assert(new_buf == spec_written(old_buf, sealed));
        assert(n == sealed.len());
        assert(buf =~= sealed);
        assert(sealed =~= header + ct);
        assert(buf[0] == prefix);
        assert(buf.subrange(1, 1 + k as int) =~= le_bytes(sequence as nat, k));
        let read_pos: int = 1 + k as int;
        assert(buf.subrange(read_pos, buf.len() - 16) + buf.subrange(buf.len() - 16, buf.len() as int)
            =~= ct);
        let opened = chacha20poly1305_open(
            key,
            spec_nonce(sequence),
            aad,
            buf.subrange(read_pos, buf.len() - 16),
            buf.subrange(buf.len() - 16, buf.len() as int),
        );
        assert(opened == Some(body));
        assert(spec_packet_type_of(id) == spec_packet_kind(p));
        match r {
            Ok((s, q)) => {
                lemma_body_read_gives_back(p, Ok(q));
            },
            Err(e) => {
                lemma_body_read_gives_back(p, Err(e));
            },
        }
    }
}

/// Writes `data` from the start of `buffer`, as far as it fits.
fn copy_into(buffer: &mut [u8], data: &Vec<u8>)
    ensures
        final(buffer)@ == spec_written(old(buffer)@, data@),
{
    let ghost orig = buffer@;
    let n: usize = if data.len() < buffer.len() {
        data.len()
    } else {
        buffer.len()
    };
    let mut i: usize = 0;
    while i < n
        invariant
            i <= n,
            n <= data@.len(),
            n <= orig.len(),
            n == data@.len() || n == orig.len(),
            buffer@.len() == orig.len(),
            forall|j: int| 0 <= j < i ==> buffer@[j] == data@[j],
            forall|j: int| i <= j < orig.len() ==> buffer@[j] == orig[j],
        decreases n - i,
    {
        buffer[i] = data[i];
        i = i + 1;
    }
    proof {
        assert(buffer@ =~= spec_written(orig, data@));
    }
}

fn copy_range(src: &[u8], start: usize, end: usize) -> (r: Vec<u8>)
    requires
        start <= end <= src@.len(),
    ensures
        r@ == src@.subrange(start as int, end as int),
{
    let mut v: Vec<u8> = Vec::new();
    let mut i: usize = start;
    while i < end
        invariant
            start <= i <= end,
            end <= src@.len(),
            v@ == src@.subrange(start as int, i as int),
        decreases end - i,
    {
        v.push(src[i]);
        i = i + 1;
        proof {
            assert(v@ =~= src@.subrange(start as int, i as int));
        }
    }
    v
}

fn tag_at(src: &[u8], start: usize) -> (r: [u8; 16])
    requires
        start + 16 <= src@.len(),
    ensures
        r@ == src@.subrange(start as int, start + 16),
{
    let mut tag = [0u8; 16];
    let mut i: usize = 0;
    let len = src.len();
    while i < 16
        invariant
            i <= 16,
            start + 16 <= len,
            len == src@.len(),
            forall|j: int| 0 <= j < i ==> tag@[j] == src@[start + j],
        decreases 16 - i,
    {
        tag[i] = src[start + i];
        i = i + 1;
    }
    proof {
        assert(tag@ =~= src@.subrange(start as int, start + 16));
    }
    tag
}

impl Packet {
    pub fn packet_type(&self) -> (r: PacketType)
        ensures
            r == spec_packet_kind(*self),
    {
        match self {
            Packet::ConnectionRequest(_) => PacketType::ConnectionRequest,
            Packet::ConnectionDenied => PacketType::ConnectionDenied,
            Packet::Challenge(_) => PacketType::Challenge,
            Packet::Response(_) => PacketType::Response,
            Packet::KeepAlive(_) => PacketType::KeepAlive,
            Packet::Payload(_) => PacketType::Payload,
            Packet::Disconnect => PacketType::Disconnect,
        }
    }

    pub fn id(&self) -> (r: u8)
        ensures
            r == spec_packet_type_id(spec_packet_kind(*self)),
    {
        self.packet_type().id()
    }

    /// Appends the body of the packet.
    pub fn write(&self, out: &mut Vec<u8>)
        ensures
            final(out)@ == old(out)@ + spec_packet_body(*self),
    {
        match self {
            Packet::ConnectionRequest(r) => r.write(out),
            Packet::Challenge(c) => c.write(out),
            Packet::Response(r) => r.write(out),
            Packet::KeepAlive(k) => k.write(out),
            Packet::Payload(p) => write_all(out, p.as_slice()),
            Packet::ConnectionDenied | Packet::Disconnect => {
                proof {
                    assert(out@ =~= old(out)@ + spec_packet_body(*self));
                }
            },
        }
    }

    /// Writes the packet from the start of `buffer` and gives the number of
    /// bytes written. A connection request goes in the clear; any other
    /// packet is sealed with the sequence and key of `crypto_info`.
    pub fn encode(&self, buffer: &mut [u8], protocol_id: u64, crypto_info: Option<(u64, &[u8; 32])>) -> (r: Result<
        usize,
        NetcodeError,
    >)
        ensures
            final(buffer)@.len() == old(buffer)@.len(),
            spec_encoded(*self, old(buffer)@, final(buffer)@, protocol_id, spec_crypto_view(crypto_info), r),
    {
        if let Packet::ConnectionRequest(request) = self {
            let mut data: Vec<u8> = Vec::new();
            data.push(0u8);
            request.write(&mut data);
            copy_into(buffer, &data);
            if buffer.len() < data.len() {
                return Err(NetcodeError::IoError(IoError::WriteZero));
            }
            return Ok(data.len());
        }
        match crypto_info {
            None => Err(NetcodeError::InvalidPrivateKey),
            Some((sequence, private_key)) => {
                let prefix_byte = encode_prefix(self.id(), sequence);
                let mut header: Vec<u8> = Vec::new();
                header.push(prefix_byte);
                write_sequence(&mut header, sequence);
                let mut body: Vec<u8> = Vec::new();
                self.write(&mut body);
                let mut plain = copy_range(header.as_slice(), 0, header.len());
                write_all(&mut plain, body.as_slice());
                proof {
                    assert(header@.subrange(0, header@.len() as int) =~= header@);
                    assert(header@ =~= spec_packet_header(*self, sequence));
                }
                if buffer.len() < NETCODE_MAC_BYTES || buffer.len() - NETCODE_MAC_BYTES < plain.len() {
                    copy_into(buffer, &plain);
                    return Err(NetcodeError::IoError(IoError::WriteZero));
                }
                let aad = get_additional_data(prefix_byte, protocol_id);
                let ghost plain_body = body@;
                match encrypt_in_place(body.as_mut_slice(), sequence, private_key, aad.as_slice()) {
                    Err(_) => {
                        copy_into(buffer, &plain);
                        Err(NetcodeError::CryptoError)
                    },
                    Ok(tag) => {
                        let mut out = copy_range(header.as_slice(), 0, header.len());
                        write_all(&mut out, body.as_slice());
                        write_all(&mut out, tag.as_slice());
                        proof {
                            assert(plain_body == spec_packet_body(*self));
                            assert(out@ =~= spec_sealed_packet(*self, protocol_id, sequence, private_key@));
                        }
                        copy_into(buffer, &out);
                        Ok(out.len())
                    },
                }
            },
        }
    }

    /// Reads a packet: a connection request in the clear, any other packet
    /// by checking and decrypting it with `private_key`. Gives the packet's
    /// sequence with it (zero for a connection request).
    pub fn decode(buffer: &[u8], protocol_id: u64, private_key: Option<&[u8; 32]>) -> (r: Result<
        (u64, Packet),
        NetcodeError,
    >)
        ensures
            spec_decoded(buffer@, protocol_id, spec_key_view(private_key), r),
    {
        if buffer.len() < 2 + NETCODE_MAC_BYTES {
            return Err(NetcodeError::PacketTooSmall);
        }
        let prefix_byte = buffer[0];
        let (packet_type, sequence_len) = decode_prefix(prefix_byte);
        if packet_type == 0 {
            let mut pos: usize = 1;
            return match ConnectionRequest::read(buffer, &mut pos) {
                Ok(request) => Ok((0, Packet::ConnectionRequest(request))),
                Err(_) => Err(NetcodeError::IoError(IoError::UnexpectedEof)),
            };
        }
        match private_key {
            None => Err(NetcodeError::InvalidPrivateKey),
            Some(private_key) => {
                if sequence_len > 8 {
                    return Err(NetcodeError::IoError(IoError::InvalidData));
                }
                let mut pos: usize = 1;
                let sequence = match read_sequence(buffer, &mut pos, sequence_len) {
                    Ok(s) => s,
                    Err(_) => {
                        return Err(NetcodeError::IoError(IoError::UnexpectedEof));
                    },
                };
                let read_pos = pos;
                if buffer.len() - read_pos < NETCODE_MAC_BYTES {
                    return Err(NetcodeError::CryptoError);
                }
                let tag_start = buffer.len() - NETCODE_MAC_BYTES;
                let aad = get_additional_data(prefix_byte, protocol_id);
                let tag = tag_at(buffer, tag_start);
                let mut plain = copy_range(buffer, read_pos, tag_start);
                let opened = dencrypted_in_place(plain.as_mut_slice(), sequence, private_key, aad.as_slice(), &tag);
                if opened.is_err() {
                    return Err(NetcodeError::CryptoError);
                }
                let packet_type = match PacketType::from_u8(packet_type) {
                    Ok(t) => t,
                    Err(e) => {
                        return Err(e);
                    },
                };
                match Packet::read_body(packet_type, plain.as_slice()) {
                    Ok(packet) => Ok((sequence, packet)),
                    Err(e) => Err(e),
                }
            },
        }
    }

    /// Reads the body of a packet of type `packet_type` from its decrypted bytes.
    pub fn read_body(packet_type: PacketType, plaintext: &[u8]) -> (r: Result<Packet, NetcodeError>)
        ensures
            spec_body_read(packet_type, plaintext@, r),
    {
        let mut pos: usize = 0;
        let eof = NetcodeError::IoError(IoError::UnexpectedEof);
        proof {
            assert(plaintext@.subrange(0, plaintext@.len() as int) =~= plaintext@);
        }
        match packet_type {
            PacketType::Payload => {
                let mut v: Vec<u8> = Vec::new();
                write_all(&mut v, plaintext);
                proof {
                    assert(v@ =~= plaintext@);
                }
                Ok(Packet::Payload(v))
            },
            PacketType::ConnectionDenied => Ok(Packet::ConnectionDenied),
            PacketType::Disconnect => Ok(Packet::Disconnect),
            PacketType::Challenge => match EncryptedChallengeToken::read(plaintext, &mut pos) {
                Ok(c) => Ok(Packet::Challenge(c)),
                Err(_) => Err(eof),
            },
            PacketType::Response => match EncryptedChallengeToken::read(plaintext, &mut pos) {
                Ok(c) => Ok(Packet::Response(c)),
                Err(_) => Err(eof),
            },
            PacketType::KeepAlive => match ConnectionKeepAlive::read(plaintext, &mut pos) {
                Ok(k) => Ok(Packet::KeepAlive(k)),
                Err(_) => Err(eof),
            },
            PacketType::ConnectionRequest => match ConnectionRequest::read(plaintext, &mut pos) {
                Ok(q) => Ok(Packet::ConnectionRequest(q)),
                Err(_) => Err(eof),
            },
        }
    }
}


} // verus!
