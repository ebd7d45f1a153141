use vstd::prelude::*;

use crate::crypto::generate_random_bytes;
use crate::netcode_packet::{IoError, TokenGenerationError};
use crate::serialize::{
    i32_from_bits, i32_to_bits, le_bytes, le_value, lemma_i32_roundtrip, lemma_le_bytes_len,
    lemma_le_roundtrip, lemma_pow256_values, read_bytes, read_i32, read_u16, read_u32, read_u64,
    read_u8, write_all, write_i32, write_u16, write_u32, write_u64,
};

verus! {

pub const NETCODE_ADDRESS_NONE: u8 = 0;

pub const NETCODE_ADDRESS_IPV4: u8 = 1;

pub const NETCODE_ADDRESS_IPV6: u8 = 2;

/// Most server addresses a connect token holds.
pub const NETCODE_MAX_SERVERS: usize = 32;

/// The address of a server: its IPv4 or IPv6 octets and its port.
#[derive(Debug, Clone, Copy, PartialEq, Eq)]
pub enum ServerAddress {
    V4 { ip: [u8; 4], port: u16 },
    V6 { ip: [u8; 16], port: u16 },
}

/// The private part of a connect token: who the client is, which servers it
/// may connect to, and the keys of the connection.
#[derive(Debug, PartialEq, Eq)]
pub struct PrivateConnectToken {
    pub client_id: u64,
    /// Timeout in seconds; a negative value disables it.
    pub timeout_seconds: i32,
    pub server_addresses: [Option<ServerAddress>; NETCODE_MAX_SERVERS],
    pub client_to_server_key: [u8; 32],
    pub server_to_client_key: [u8; 32],
    pub user_data: [u8; 256],
}

/// An address by value: its type byte, its octets and its port.
pub open spec fn spec_address_view(a: ServerAddress) -> (u8, Seq<u8>, u16) {
    match a {
        ServerAddress::V4 { ip, port } => (NETCODE_ADDRESS_IPV4, ip@, port),
        ServerAddress::V6 { ip, port } => (NETCODE_ADDRESS_IPV6, ip@, port),
    }
}

pub open spec fn spec_slot_view(slot: Option<ServerAddress>) -> Option<(u8, Seq<u8>, u16)> {
    match slot {
        Some(a) => Some(spec_address_view(a)),
        None => None,
    }
}

/// The wire form of an address entry: type byte, octets, port.
pub open spec fn spec_address_bytes(a: ServerAddress) -> Seq<u8> {
    let v = spec_address_view(a);
    seq![v.0] + v.1 + le_bytes(v.2 as nat, 2)
}

/// Number of filled slots from slot `i` up to the first empty one.
pub open spec fn spec_filled_from(slots: Seq<Option<ServerAddress>>, i: nat) -> nat
    decreases slots.len() - i,
{
    if i >= slots.len() || slots[i as int] is None {
        0
    } else {
        1 + spec_filled_from(slots, i + 1)
    }
}

/// The entries of the first `n` slots.
pub open spec fn spec_addresses_bytes(slots: Seq<Option<ServerAddress>>, n: nat) -> Seq<u8>
    decreases n,
{
    if n == 0 {
        Seq::empty()
    } else {
        spec_addresses_bytes(slots, (n - 1) as nat) + spec_address_bytes(slots[n - 1]->Some_0)
    }
}

/// The wire form of a private connect token: the addresses before the first
/// empty slot are written, with their number.
pub open spec fn spec_private_token_bytes(t: PrivateConnectToken) -> Seq<u8> {
    let n = spec_filled_from(t.server_addresses@, 0);
    le_bytes(t.client_id as nat, 8) + le_bytes(i32_to_bits(t.timeout_seconds), 4) + le_bytes(n, 4)
        + spec_addresses_bytes(t.server_addresses@, n) + t.client_to_server_key@ + t.server_to_client_key@
        + t.user_data@
}

/// One address entry at `pos`: the slot it fills (none for a skipped entry)
/// and the number of bytes it takes.
pub open spec fn spec_parse_entry(s: Seq<u8>, pos: int) -> Result<(Option<(u8, Seq<u8>, u16)>, int), IoError> {
    if pos >= s.len() {
        Err(IoError::UnexpectedEof)
    } else if s[pos] == NETCODE_ADDRESS_IPV4 {
        if pos + 7 > s.len() {
            Err(IoError::UnexpectedEof)
        } else {
            Ok(
                (
                    Some((NETCODE_ADDRESS_IPV4, s.subrange(pos + 1, pos + 5), le_value(s.subrange(pos + 5, pos + 7)) as u16)),
                    7,
                ),
            )
        }
    } else if s[pos] == NETCODE_ADDRESS_IPV6 {
        if pos + 19 > s.len() {
            Err(IoError::UnexpectedEof)
        } else {
            Ok(
                (
                    Some((NETCODE_ADDRESS_IPV6, s.subrange(pos + 1, pos + 17), le_value(s.subrange(pos + 17, pos + 19)) as u16)),
                    19,
                ),
            )
        }
    } else if s[pos] == NETCODE_ADDRESS_NONE {
        Ok((None, 1))
    } else {
        Err(IoError::InvalidData)
    }
}

/// The first `count` address entries from `pos`, and where they end.
pub open spec fn spec_parse_entries(s: Seq<u8>, pos: int, count: nat) -> Result<(Seq<Option<(u8, Seq<u8>, u16)>>, int), IoError>
    decreases count,
{
    if count == 0 {
        Ok((Seq::empty(), pos))
    } else {
        match spec_parse_entries(s, pos, (count - 1) as nat) {
            Err(e) => Err(e),
            Ok((entries, end)) => match spec_parse_entry(s, end) {
                Err(e) => Err(e),
                Ok((slot, used)) => Ok((entries.push(slot), end + used)),
            },
        }
    }
}

/// Reading `s` would fill a slot past the last one: a well-formed address
/// entry beyond the 32nd, after well-formed entries.
pub open spec fn spec_private_token_read_overflows(s: Seq<u8>) -> bool {
    s.len() >= 16 && exists|k: nat|
        33 <= k <= le_value(s.subrange(12, 16)) && (#[trigger] spec_parse_entries(s, 16, k) matches Ok((entries, _end))
            && entries[k - 1] is Some)
}

/// What `PrivateConnectToken::read` gives for `s`.
pub open spec fn spec_private_token_read(s: Seq<u8>, r: Result<PrivateConnectToken, IoError>) -> bool {
    if s.len() < 16 {
        r == Err::<PrivateConnectToken, IoError>(IoError::UnexpectedEof)
    } else {
        let count = le_value(s.subrange(12, 16));
        match spec_parse_entries(s, 16, count) {
            Err(e) => r == Err::<PrivateConnectToken, IoError>(e),
            Ok((entries, end)) => if end + 320 > s.len() {
                r == Err::<PrivateConnectToken, IoError>(IoError::UnexpectedEof)
            } else {
                r matches Ok(t) && (t.client_id == le_value(s.subrange(0, 8)) && t.timeout_seconds == i32_from_bits(
                    le_value(s.subrange(8, 12)),
                ) && (forall|i: int|
                    0 <= i < 32 ==> spec_slot_view(#[trigger] t.server_addresses@[i]) == if i < count {
                        entries[i]
                    } else {
                        None
                    }) && t.client_to_server_key@ == s.subrange(end, end + 32) && t.server_to_client_key@
                    == s.subrange(end + 32, end + 64) && t.user_data@ == s.subrange(end + 64, end + 320))
            },
        }
    }
}

proof fn lemma_filled_prefix(slots: Seq<Option<ServerAddress>>, i: nat, j: int)
    requires
        i <= j < i + spec_filled_from(slots, i),
    ensures
        j < slots.len(),
        slots[j] is Some,
    decreases slots.len() - i,
{
    if j > i {
        lemma_filled_prefix(slots, i + 1, j);
    }
}

proof fn lemma_parse_error_stays(s: Seq<u8>, pos: int, k: nat, m: nat)
    requires
        spec_parse_entries(s, pos, k) is Err,
        k <= m,
    ensures
        spec_parse_entries(s, pos, m) == spec_parse_entries(s, pos, k),
    decreases m - k,
{
    if k < m {
        lemma_parse_error_stays(s, pos, k, (m - 1) as nat);
    }
}

proof fn lemma_overflow_witness(s: Seq<u8>, k: nat)
    requires
        s.len() >= 16,
        33 <= k <= le_value(s.subrange(12, 16)),
        spec_parse_entries(s, 16, k) matches Ok((entries, _end)) && entries[k - 1] is Some,
    ensures
        spec_private_token_read_overflows(s),
{
}

proof fn lemma_filled_bound(slots: Seq<Option<ServerAddress>>, i: nat)
    requires
        i <= slots.len(),
    ensures
        i + spec_filled_from(slots, i) <= slots.len(),
    decreases slots.len() - i,
{
    if i < slots.len() {
        if slots[i as int] is Some {
            lemma_filled_bound(slots, i + 1);
        }
    }
}

proof fn lemma_filled_split(slots: Seq<Option<ServerAddress>>, k: nat)
    requires
        k <= spec_filled_from(slots, 0),
    ensures
        spec_filled_from(slots, 0) == k + spec_filled_from(slots, k),
    decreases k,
{
    if k > 0 {
        lemma_filled_split(slots, (k - 1) as nat);
        lemma_filled_prefix(slots, 0, k - 1);
    }
}

proof fn lemma_address_bytes_len(a: ServerAddress)
    ensures
        spec_address_bytes(a).len() == (match a {
            ServerAddress::V4 { .. } => 7int,
            ServerAddress::V6 { .. } => 19int,
        }),
{
    let v = spec_address_view(a);
    lemma_le_bytes_len(v.2 as nat, 2);
}

proof fn lemma_parse_written_entries(slots: Seq<Option<ServerAddress>>, n: nat, s: Seq<u8>, pos: int)
    requires
        n <= spec_filled_from(slots, 0),
        0 <= pos,
        pos + spec_addresses_bytes(slots, n).len() <= s.len(),
        s.subrange(pos, pos + spec_addresses_bytes(slots, n).len()) == spec_addresses_bytes(slots, n),
    ensures
        spec_parse_entries(s, pos, n) == Ok::<(Seq<Option<(u8, Seq<u8>, u16)>>, int), IoError>(
            (Seq::new(n, |i: int| spec_slot_view(slots[i])), pos + spec_addresses_bytes(slots, n).len()),
        ),
    decreases n,
{
    if n > 0 {
        let prev = spec_addresses_bytes(slots, (n - 1) as nat);
        lemma_filled_prefix(slots, 0, n - 1);
        let a = slots[n - 1]->Some_0;
        let e = spec_address_bytes(a);
        lemma_address_bytes_len(a);
        let whole = spec_addresses_bytes(slots, n);
        assert(whole == prev + e);
        let sub = s.subrange(pos, pos + whole.len());
        assert(sub == whole);
        assert(s.subrange(pos, pos + prev.len()) =~= sub.subrange(0, prev.len() as int));
        assert(whole.subrange(0, prev.len() as int) =~= prev);
        lemma_parse_written_entries(slots, (n - 1) as nat, s, pos);
        let at = pos + prev.len();
        let v = spec_address_view(a);
        lemma_pow256_values();
        lemma_le_roundtrip(v.2 as nat, 2);
        assert(whole.subrange(prev.len() as int, whole.len() as int) =~= e);
        assert(sub[prev.len() as int] == e[0]);
        assert(s[at] == v.0);
        assert(s.subrange(at + 1, at + 1 + v.1.len()) =~= e.subrange(1, 1 + v.1.len() as int));
        assert(e.subrange(1, 1 + v.1.len() as int) =~= v.1);
        assert(s.subrange(at + 1 + v.1.len(), at + e.len()) =~= e.subrange(1 + v.1.len() as int, e.len() as int));
        assert(e.subrange(1 + v.1.len() as int, e.len() as int) =~= le_bytes(v.2 as nat, 2));
        assert(le_value(s.subrange(at + 1 + v.1.len(), at + e.len())) as u16 == v.2);
        assert(spec_parse_entry(s, at) == Ok::<(Option<(u8, Seq<u8>, u16)>, int), IoError>(
            (Some(v), e.len() as int),
        ));
        assert(Seq::new((n - 1) as nat, |i: int| spec_slot_view(slots[i])).push(spec_slot_view(slots[n - 1]))
            =~= Seq::new(n, |i: int| spec_slot_view(slots[i])));
    } else {
        assert(Seq::new(0, |i: int| spec_slot_view(slots[i])) =~= Seq::<Option<(u8, Seq<u8>, u16)>>::empty());
    }
}

/// Slots filled from the front: no address after an empty slot.
pub open spec fn spec_slots_packed(slots: Seq<Option<ServerAddress>>) -> bool {
    forall|i: int, j: int| 0 <= i < j < slots.len() && #[trigger] slots[i] is None ==> #[trigger] slots[j] is None
}

/// A token whose addresses fill its slots from the front survives `write`
/// and `read`, whatever follows its bytes: reading never runs past the
/// slots, and gives back a token equal to it.
pub proof fn lemma_private_token_roundtrip(t: PrivateConnectToken, rest: Seq<u8>, r: Result<PrivateConnectToken, IoError>)
    requires
        spec_slots_packed(t.server_addresses@),
        spec_private_token_read(spec_private_token_bytes(t) + rest, r),
    ensures
        !spec_private_token_read_overflows(spec_private_token_bytes(t) + rest),
        r == Ok::<PrivateConnectToken, IoError>(t),
{
    let slots = t.server_addresses@;
    let n = spec_filled_from(slots, 0);
    lemma_filled_bound(slots, 0);
    lemma_pow256_values();
    lemma_le_bytes_len(t.client_id as nat, 8);
    lemma_i32_roundtrip(t.timeout_seconds);
    lemma_le_bytes_len(i32_to_bits(t.timeout_seconds), 4);
    lemma_le_roundtrip(t.client_id as nat, 8);
    lemma_le_roundtrip(i32_to_bits(t.timeout_seconds), 4);
    lemma_le_roundtrip(n, 4);
    let d = spec_addresses_bytes(slots, n);
    let s = spec_private_token_bytes(t) + rest;
    assert(s.subrange(0, 8) =~= le_bytes(t.client_id as nat, 8));
    assert(s.subrange(8, 12) =~= le_bytes(i32_to_bits(t.timeout_seconds), 4));
    assert(s.subrange(12, 16) =~= le_bytes(n, 4));
    assert(s.subrange(16, 16 + d.len() as int) =~= d);
    lemma_parse_written_entries(slots, n, s, 16);
    let end: int = 16 + d.len() as int;
    assert(s.subrange(end, end + 32) =~= t.client_to_server_key@);
    assert(s.subrange(end + 32, end + 64) =~= t.server_to_client_key@);
    assert(s.subrange(end + 64, end + 320) =~= t.user_data@);
    let u = r->Ok_0;
    lemma_filled_split(slots, n);
    if n < 32 {
        assert(slots[n as int] is None);
    }
    assert forall|i: int| 0 <= i < 32 implies u.server_addresses@[i] == slots[i] by {
        if i > n {
            assert(slots[n as int] is None);
        }
        match (u.server_addresses@[i], slots[i]) {
            (Some(ServerAddress::V4 { ip: a, port: _ }), Some(ServerAddress::V4 { ip: b, port: _ })) => {
                assert(a =~= b);
            },
            (Some(ServerAddress::V6 { ip: a, port: _ }), Some(ServerAddress::V6 { ip: b, port: _ })) => {
                assert(a =~= b);
            },
            _ => {},
        }
    }
    assert(u.server_addresses =~= t.server_addresses);
    assert(u.client_to_server_key =~= t.client_to_server_key);
    assert(u.server_to_client_key =~= t.server_to_client_key);
    assert(u.user_data =~= t.user_data);
}

impl PrivateConnectToken {
    /// Makes a token for `client_id` with fresh random keys, and random user
    /// data unless it is given.
    pub fn generate(
        client_id: u64,
        timeout_seconds: i32,
        server_addresses: Vec<ServerAddress>,
        user_data: Option<&[u8; 256]>,
    ) -> (r: Result<Self, TokenGenerationError>)
        ensures
            server_addresses@.len() > NETCODE_MAX_SERVERS ==> r == Err::<Self, TokenGenerationError>(
                TokenGenerationError::MaxHostCount,
            ),
            server_addresses@.len() <= NETCODE_MAX_SERVERS ==> (r matches Ok(t) && (t.client_id == client_id
                && t.timeout_seconds == timeout_seconds && (forall|i: int|
                0 <= i < 32 ==> #[trigger] t.server_addresses@[i] == if i < server_addresses@.len() {
                    Some(server_addresses@[i])
                } else {
                    None
                }) && (user_data matches Some(d) ==> t.user_data == *d))),
    {
        if server_addresses.len() > NETCODE_MAX_SERVERS {
            return Err(TokenGenerationError::MaxHostCount);
        }
        let mut server_addresses_arr: [Option<ServerAddress>; NETCODE_MAX_SERVERS] = [None; 32];
        let mut i: usize = 0;
        while i < server_addresses.len()
            invariant
                i <= server_addresses@.len() <= 32,
                forall|j: int|
                    0 <= j < 32 ==> #[trigger] server_addresses_arr@[j] == if j < i {
                        Some(server_addresses@[j])
                    } else {
                        None
                    },
            decreases server_addresses@.len() - i,
        {
            server_addresses_arr[i] = Some(server_addresses[i]);
            i = i + 1;
        }
        let client_to_server_key = generate_random_bytes();
        let server_to_client_key = generate_random_bytes();
        let user_data = match user_data {
            Some(data) => *data,
            None => generate_random_bytes(),
        };
        Ok(Self {
            client_id,
            timeout_seconds,
            server_addresses: server_addresses_arr,
            client_to_server_key,
            server_to_client_key,
            user_data,
        })
    }

    /// Appends the wire form of the token.
    pub fn write(&self, out: &mut Vec<u8>)
        ensures
            final(out)@ == old(out)@ + spec_private_token_bytes(*self),
    {
        let ghost slots = self.server_addresses@;
        write_u64(out, self.client_id);
        write_i32(out, self.timeout_seconds);
        let mut num_server_addresses: u32 = 0;
        let mut k: usize = 0;
        while k < NETCODE_MAX_SERVERS && self.server_addresses[k].is_some()
            invariant
                k <= 32,
                slots == self.server_addresses@,
                num_server_addresses == k,
                spec_filled_from(slots, 0) == k + spec_filled_from(slots, k as nat),
            decreases 32 - k,
        {
            num_server_addresses = num_server_addresses + 1;
            k = k + 1;
        }
        let n = k;
        assert(spec_filled_from(slots, n as nat) == 0);
        write_u32(out, num_server_addresses);
        let ghost start = out@;
        let mut i: usize = 0;
        while i < n
            invariant
                i <= n <= 32,
                slots == self.server_addresses@,
                n == spec_filled_from(slots, 0),
                out@ == start + spec_addresses_bytes(slots, i as nat),
            decreases n - i,
        {
            proof {
                lemma_filled_prefix(slots, 0, i as int);
            }
            let host = self.server_addresses[i].unwrap();
            match host {
                ServerAddress::V4 { ip, port } => {
                    out.push(NETCODE_ADDRESS_IPV4);
                    write_all(out, ip.as_slice());
                    write_u16(out, port);
                },
                ServerAddress::V6 { ip, port } => {
                    out.push(NETCODE_ADDRESS_IPV6);
                    write_all(out, ip.as_slice());
                    write_u16(out, port);
                },
            }
            i = i + 1;
            proof {
                assert(out@ =~= start + spec_addresses_bytes(slots, i as nat));
            }
        }
        write_all(out, self.client_to_server_key.as_slice());
        write_all(out, self.server_to_client_key.as_slice());
        write_all(out, self.user_data.as_slice());
        proof {
            assert(out@ =~= old(out)@ + spec_private_token_bytes(*self));
        }
    }

    /// Reads a token from the start of `src`.
    pub fn read(src: &[u8]) -> (r: Result<Self, IoError>)
        requires
            !spec_private_token_read_overflows(src@),
        ensures
            spec_private_token_read(src@, r),
    {
        let eof = IoError::UnexpectedEof;
        let mut pos: usize = 0;
        let client_id = match read_u64(src, &mut pos) {
            Ok(v) => v,
            Err(_) => {
                return Err(eof);
            },
        };
        let timeout_seconds = match read_i32(src, &mut pos) {
            Ok(v) => v,
            Err(_) => {
                return Err(eof);
            },
        };
        let num_server_addresses = match read_u32(src, &mut pos) {
            Ok(v) => v,
            Err(_) => {
                return Err(eof);
            },
        };
        proof {
            lemma_pow256_values();
            crate::serialize::lemma_le_value_bound(src@.subrange(12, 16));
        }
        let ghost count = le_value(src@.subrange(12, 16));
        let mut server_addresses: [Option<ServerAddress>; NETCODE_MAX_SERVERS] = [None; 32];
        let ghost mut entries: Seq<Option<(u8, Seq<u8>, u16)>> = Seq::empty();
        let mut i: u32 = 0;
        while i < num_server_addresses
            invariant
                16 <= pos <= src@.len(),
                src@.len() >= 16,
                num_server_addresses == count,
                count == le_value(src@.subrange(12, 16)),
                i <= num_server_addresses,
                entries.len() == i,
                spec_parse_entries(src@, 16, i as nat) == Ok::<(Seq<Option<(u8, Seq<u8>, u16)>>, int), IoError>(
                    (entries, pos as int),
                ),
                forall|j: int|
                    0 <= j < 32 ==> spec_slot_view(#[trigger] server_addresses@[j]) == if j < i {
                        entries[j]
                    } else {
                        None
                    },
                !spec_private_token_read_overflows(src@),
            decreases num_server_addresses - i,
        {
            let ghost at = pos as int;
            let host_type = match read_u8(src, &mut pos) {
                Ok(t) => t,
                Err(_) => {
                    proof {
                        assert(spec_parse_entries(src@, 16, (i + 1) as nat) == Err::<
                            (Seq<Option<(u8, Seq<u8>, u16)>>, int),
                            IoError,
                        >(IoError::UnexpectedEof));
                        lemma_parse_error_stays(src@, 16, (i + 1) as nat, count);
                    }
                    return Err(IoError::UnexpectedEof);
                },
            };
            let ghost slot: Option<(u8, Seq<u8>, u16)>;
            if host_type == NETCODE_ADDRESS_IPV4 {
                let ip = match read_bytes::<4>(src, &mut pos) {
                    Ok(ip) => ip,
                    Err(_) => {
                        proof {
                            assert(spec_parse_entries(src@, 16, (i + 1) as nat) == Err::<
                                (Seq<Option<(u8, Seq<u8>, u16)>>, int),
                                IoError,
                            >(IoError::UnexpectedEof));
                            lemma_parse_error_stays(src@, 16, (i + 1) as nat, count);
                        }
                        return Err(IoError::UnexpectedEof);
                    },
                };
                let port = match read_u16(src, &mut pos) {
                    Ok(port) => port,
                    Err(_) => {
                        proof {
                            assert(spec_parse_entries(src@, 16, (i + 1) as nat) == Err::<
                                (Seq<Option<(u8, Seq<u8>, u16)>>, int),
                                IoError,
                            >(IoError::UnexpectedEof));
                            lemma_parse_error_stays(src@, 16, (i + 1) as nat, count);
                        }
                        return Err(IoError::UnexpectedEof);
                    },
                };
                proof {
                    slot = Some((NETCODE_ADDRESS_IPV4, ip@, port));
                    if i >= 32 {
                        assert(spec_parse_entries(src@, 16, (i + 1) as nat) == Ok::<
                            (Seq<Option<(u8, Seq<u8>, u16)>>, int),
                            IoError,
                        >((entries.push(slot), pos as int)));
                        lemma_overflow_witness(src@, (i + 1) as nat);
                    }
                }
                server_addresses[i as usize] = Some(ServerAddress::V4 { ip, port });
            } else if host_type == NETCODE_ADDRESS_IPV6 {
                let ip = match read_bytes::<16>(src, &mut pos) {
                    Ok(ip) => ip,
                    Err(_) => {
                        proof {
                            assert(spec_parse_entries(src@, 16, (i + 1) as nat) == Err::<
                                (Seq<Option<(u8, Seq<u8>, u16)>>, int),
                                IoError,
                            >(IoError::UnexpectedEof));
                            lemma_parse_error_stays(src@, 16, (i + 1) as nat, count);
                        }
                        return Err(IoError::UnexpectedEof);
                    },
                };
                let port = match read_u16(src, &mut pos) {
                    Ok(port) => port,
                    Err(_) => {
                        proof {
                            assert(spec_parse_entries(src@, 16, (i + 1) as nat) == Err::<
                                (Seq<Option<(u8, Seq<u8>, u16)>>, int),
                                IoError,
                            >(IoError::UnexpectedEof));
                            lemma_parse_error_stays(src@, 16, (i + 1) as nat, count);
                        }
                        return Err(IoError::UnexpectedEof);
                    },
                };
                proof {
                    slot = Some((NETCODE_ADDRESS_IPV6, ip@, port));
                    if i >= 32 {
                        assert(spec_parse_entries(src@, 16, (i + 1) as nat) == Ok::<
                            (Seq<Option<(u8, Seq<u8>, u16)>>, int),
                            IoError,
                        >((entries.push(slot), pos as int)));
                        lemma_overflow_witness(src@, (i + 1) as nat);
                    }
                }
                server_addresses[i as usize] = Some(ServerAddress::V6 { ip, port });
            } else if host_type == NETCODE_ADDRESS_NONE {
                proof {
                    slot = None;
                }
            } else {
                proof {
                    assert(spec_parse_entries(src@, 16, (i + 1) as nat) == Err::<
                        (Seq<Option<(u8, Seq<u8>, u16)>>, int),
                        IoError,
                    >(IoError::InvalidData));
                    lemma_parse_error_stays(src@, 16, (i + 1) as nat, count);
                }
                return Err(IoError::InvalidData);
            }
            proof {
                assert(spec_parse_entry(src@, at) == Ok::<(Option<(u8, Seq<u8>, u16)>, int), IoError>(
                    (slot, pos - at),
                ));
                entries = entries.push(slot);
            }
            i = i + 1;
        }
        let client_to_server_key = match read_bytes::<32>(src, &mut pos) {
            Ok(v) => v,
            Err(_) => {
                return Err(eof);
            },
        };
        let server_to_client_key = match read_bytes::<32>(src, &mut pos) {
            Ok(v) => v,
            Err(_) => {
                return Err(eof);
            },
        };
        let user_data = match read_bytes::<256>(src, &mut pos) {
            Ok(v) => v,
            Err(_) => {
                return Err(eof);
            },
        };
        proof {
            lemma_pow256_values();
            crate::serialize::lemma_le_value_bound(src@.subrange(0, 8));
            crate::serialize::lemma_le_value_bound(src@.subrange(8, 12));
        }
        Ok(Self { client_id, timeout_seconds, server_addresses, client_to_server_key, server_to_client_key, user_data })
    }
}

} // verus!
