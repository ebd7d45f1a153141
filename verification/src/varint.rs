use vstd::prelude::*;

use crate::serialize::{lemma_pow256_values, pow256};

verus! {

/// Largest value a variable-length integer can hold (2^62 - 1).
pub const MAX_VAR_INT: u64 = 4_611_686_018_427_387_903;

/// The `n` low bytes of `v`, most significant first (network byte order).
pub open spec fn be_bytes(v: nat, n: nat) -> Seq<u8>
    decreases n,
{
    if n == 0 {
        Seq::empty()
    } else {
        be_bytes(v / 256, (n - 1) as nat).push((v % 256) as u8)
    }
}

/// The number that bytes `s` encode in network byte order.
pub open spec fn be_value(s: Seq<u8>) -> nat
    decreases s.len(),
{
    if s.len() == 0 {
        0
    } else {
        (be_value(s.drop_last()) * 256 + s.last()) as nat
    }
}

/// How many bytes the variable-length encoding of `v` takes.
pub open spec fn spec_varint_len(v: u64) -> nat {
    if v <= 63 {
        1
    } else if v <= 16383 {
        2
    } else if v <= 1_073_741_823 {
        4
    } else {
        8
    }
}

/// The two high bits of the first byte that give the encoding length.
pub open spec fn spec_varint_tag(n: nat) -> nat {
    if n == 1 {
        0
    } else if n == 2 {
        0x40
    } else if n == 4 {
        0x80
    } else {
        0xc0
    }
}

/// The variable-length encoding of `v`: its bytes in network order, with the
/// length tag added to the two (otherwise zero) high bits of the first byte.
#[verifier::opaque]
pub open spec fn spec_varint_bytes(v: u64) -> Seq<u8> {
    let n = spec_varint_len(v);
    let b = be_bytes(v as nat, n);
    b.update(0, (b[0] + spec_varint_tag(n)) as u8)
}

/// Length of an encoding, given its first byte.
pub open spec fn spec_varint_parse_len(first: u8) -> nat {
    let code = first / 64;
    if code == 0 {
        1
    } else if code == 1 {
        2
    } else if code == 2 {
        4
    } else {
        8
    }
}

/// Decodes a variable-length integer from the front of `s`, giving the value
/// and the bytes after it.
pub open spec fn spec_varint_decode(s: Seq<u8>) -> Option<(u64, Seq<u8>)> {
    if s.len() == 0 {
        None
    } else {
        let n = spec_varint_parse_len(s[0]);
        if n > s.len() {
            None
        } else {
            Some(
                (
                    be_value(seq![s[0] % 64] + s.subrange(1, n as int)) as u64,
                    s.subrange(n as int, s.len() as int),
                ),
            )
        }
    }
}

/// Returns how many bytes it would take to encode `v` (`octets::varint_len`).
/// Claims: the length is the one `spec_varint_len` gives; values above
/// `MAX_VAR_INT` make the outside function panic and are excluded.
#[verifier::external_body]
pub(crate) fn varint_len(v: u64) -> (r: usize)
    requires
        v <= MAX_VAR_INT,
    ensures
        r == spec_varint_len(v),
{
    octets::varint_len(v)
}

/// Appends the variable-length encoding of `v` (`octets::OctetsMut::put_varint`
/// on a scratch buffer of 8 bytes, which always has room).
/// Claims: the bytes appended are `spec_varint_bytes(v)`.
#[verifier::external_body]
pub(crate) fn put_varint(out: &mut Vec<u8>, v: u64)
    requires
        v <= MAX_VAR_INT,
    ensures
        final(out)@ == old(out)@ + spec_varint_bytes(v),
{
    let mut buf = [0u8; 8];
    let written = match octets::OctetsMut::with_slice(&mut buf).put_varint(v) {
        Ok(bytes) => bytes.len(),
        Err(_) => 0,
    };
    out.extend_from_slice(&buf[..written]);
}

/// Reads a variable-length integer at `pos` (`octets::Octets::get_varint`).
/// Claims: the value and the position after it are those `spec_varint_decode`
/// gives for the bytes from `pos` on; `None` when the input is too short.
#[verifier::external_body]
pub(crate) fn get_varint(src: &[u8], pos: usize) -> (r: Option<(u64, usize)>)
    requires
        pos <= src@.len(),
    ensures
        r matches Some((v, p)) ==> spec_varint_decode(src@.subrange(pos as int, src@.len() as int))
            == Some((v, src@.subrange(p as int, src@.len() as int))) && pos < p <= src@.len(),
        r is None ==> spec_varint_decode(src@.subrange(pos as int, src@.len() as int)) is None,
{
    let mut b = octets::Octets::with_slice(&src[pos..]);
    match b.get_varint() {
        Ok(v) => Some((v, pos + b.off())),
        Err(_) => None,
    }
}

/// Appends `v` as two bytes in network order (`octets::OctetsMut::put_u16` on a
/// scratch buffer of 2 bytes). Claims: the bytes appended are `be_bytes(v, 2)`.
#[verifier::external_body]
pub(crate) fn put_u16(out: &mut Vec<u8>, v: u16)
    ensures
        final(out)@ == old(out)@ + be_bytes(v as nat, 2),
{
    let mut buf = [0u8; 2];
    let written = match octets::OctetsMut::with_slice(&mut buf).put_u16(v) {
        Ok(bytes) => bytes.len(),
        Err(_) => 0,
    };
    out.extend_from_slice(&buf[..written]);
}

/// Reads two bytes in network order at `pos` (`octets::Octets::get_u16`).
/// Claims: the value is `be_value` of the two bytes, `None` when fewer remain.
#[verifier::external_body]
pub(crate) fn get_u16(src: &[u8], pos: usize) -> (r: Option<u16>)
    requires
        pos <= src@.len(),
    ensures
        pos + 2 <= src@.len() ==> r == Some(be_value(src@.subrange(pos as int, pos + 2)) as u16),
        pos + 2 > src@.len() ==> r is None,
{
    match octets::Octets::with_slice(&src[pos..]).get_u16() {
        Ok(v) => Some(v),
        Err(_) => None,
    }
}

pub proof fn lemma_be_bytes_len(v: nat, n: nat)
    ensures
        be_bytes(v, n).len() == n,
    decreases n,
{
    if n > 0 {
        lemma_be_bytes_len(v / 256, (n - 1) as nat);
    }
}

proof fn lemma_pow_step(n: nat)
    requires
        n >= 1,
    ensures
        pow256(n) == 256 * pow256((n - 1) as nat),
{
}

proof fn lemma_pow_pos(n: nat)
    ensures
        pow256(n) >= 1,
    decreases n,
{
    if n > 0 {
        lemma_pow_pos((n - 1) as nat);
    }
}

/// Bytes in network order encode a number below 256 to the power of their count.
pub proof fn lemma_be_value_bound(s: Seq<u8>)
    ensures
        be_value(s) < pow256(s.len()),
    decreases s.len(),
{
    if s.len() > 0 {
        lemma_be_value_bound(s.drop_last());
        lemma_pow_step(s.len());
        let a = be_value(s.drop_last());
        let p = pow256(s.drop_last().len());
        assert(a * 256 + s.last() < 256 * p) by (nonlinear_arith)
            requires
                a < p,
                s.last() < 256,
        ;
    }
}

/// A byte put in front counts 256 to the power of the number of bytes after it.
pub proof fn lemma_be_value_prepend(x: u8, t: Seq<u8>)
    ensures
        be_value(seq![x] + t) == x * pow256(t.len()) + be_value(t),
    decreases t.len(),
{
    let s = seq![x] + t;
    if t.len() == 0 {
        assert(s.drop_last() =~= Seq::<u8>::empty());
        assert(s.last() == x);
        assert(pow256(0) == 1);
        assert(be_value(s) == be_value(s.drop_last()) * 256 + x);
    } else {
        lemma_be_value_prepend(x, t.drop_last());
        assert(s.last() == t.last());
        assert(be_value(s) == be_value(s.drop_last()) * 256 + s.last());
        assert(be_value(t) == be_value(t.drop_last()) * 256 + t.last());
        assert(s.drop_last() =~= seq![x] + t.drop_last());
        lemma_pow_step(t.len());
        let p = pow256(t.drop_last().len());
        let b = be_value(t.drop_last());
        assert((x * p + b) * 256 + t.last() == x * (256 * p) + (b * 256 + t.last())) by (nonlinear_arith);
    }
}

/// A decoded variable-length integer never exceeds `MAX_VAR_INT`.
pub proof fn lemma_varint_decode_bound(s: Seq<u8>)
    requires
        spec_varint_decode(s) is Some,
    ensures
        spec_varint_decode(s).unwrap().0 <= MAX_VAR_INT,
{
    let n = spec_varint_parse_len(s[0]);
    let t = s.subrange(1, n as int);
    let x = (s[0] % 64) as u8;
    lemma_be_value_prepend(x, t);
    lemma_be_value_bound(t);
    lemma_pow256_values();
    let p = pow256(t.len());
    assert(p <= 0x100_0000_0000_0000) by {
        assert(pow256(0) == 1);
        assert(pow256(3) == 0x100_0000);
        assert(pow256(7) == 0x100_0000_0000_0000) by {
            reveal_with_fuel(pow256, 8);
        }
    }
    assert(x * p + be_value(t) <= 63 * 0x100_0000_0000_0000 + 0x100_0000_0000_0000 - 1) by (nonlinear_arith)
        requires
            x < 64,
            be_value(t) < p,
            p <= 0x100_0000_0000_0000,
    ;
    assert(seq![s[0] % 64] + t == seq![x] + t);
}

/// Bytes in network order decode back to the value they were made from.
pub proof fn lemma_be_roundtrip(v: nat, n: nat)
    requires
        v < pow256(n),
    ensures
        be_value(be_bytes(v, n)) == v,
        be_bytes(v, n).len() == n,
    decreases n,
{
    lemma_be_bytes_len(v, n);
    if n > 0 {
        lemma_pow_step(n);
        assert(v / 256 < pow256((n - 1) as nat)) by (nonlinear_arith)
            requires
                v < 256 * pow256((n - 1) as nat),
        ;
        lemma_be_roundtrip(v / 256, (n - 1) as nat);
        let b = be_bytes(v, n);
        assert(b.drop_last() =~= be_bytes(v / 256, (n - 1) as nat));
    }
}

/// The first byte of the network-order bytes of `v` is its top byte.
pub proof fn lemma_be_first(v: nat, n: nat)
    requires
        n >= 1,
        v < pow256(n),
    ensures
        be_bytes(v, n)[0] == v / pow256((n - 1) as nat),
    decreases n,
{
    lemma_be_bytes_len(v, n);
    lemma_pow_step(n);
    if n == 1 {
        assert(pow256(0) == 1);
        assert(v % 256 == v);
    } else {
        assert(v / 256 < pow256((n - 1) as nat)) by (nonlinear_arith)
            requires
                v < 256 * pow256((n - 1) as nat),
        ;
        lemma_be_first(v / 256, (n - 1) as nat);
        lemma_be_bytes_len(v / 256, (n - 1) as nat);
        lemma_pow_pos((n - 2) as nat);
        lemma_pow_step((n - 1) as nat);
        vstd::arithmetic::div_mod::lemma_div_denominator(v as int, 256, pow256((n - 2) as nat) as int);
    }
}

/// Network-order decoding only depends on the value of each byte, so a first
/// byte can be replaced by an equal one.
proof fn lemma_be_value_replace_first(s: Seq<u8>, b: u8)
    requires
        s.len() >= 1,
    ensures
        be_value(seq![b] + s.subrange(1, s.len() as int)) == be_value(s) + (b - s[0]) * pow256(
            (s.len() - 1) as nat,
        ),
    decreases s.len(),
{
    let t = seq![b] + s.subrange(1, s.len() as int);
    if s.len() == 1 {
        assert(t =~= seq![b]);
        assert(t.drop_last() =~= Seq::<u8>::empty());
        assert(s.drop_last() =~= Seq::<u8>::empty());
        assert(pow256(0) == 1);
    } else {
        lemma_be_value_replace_first(s.drop_last(), b);
        assert(t.drop_last() =~= seq![b] + s.drop_last().subrange(1, s.drop_last().len() as int));
        lemma_pow_step((s.len() - 1) as nat);
        assert(be_value(t) == be_value(t.drop_last()) * 256 + s.last());
        assert((be_value(s.drop_last()) + (b - s[0]) * pow256((s.len() - 2) as nat)) * 256
            == be_value(s.drop_last()) * 256 + (b - s[0]) * pow256((s.len() - 1) as nat)) by (nonlinear_arith)
            requires
                pow256((s.len() - 1) as nat) == 256 * pow256((s.len() - 2) as nat),
        ;
    }
}

/// Decoding a variable-length integer from the front of its encoding followed
/// by anything gives back the value and the bytes that follow.
pub proof fn lemma_varint_roundtrip(v: u64, rest: Seq<u8>)
    requires
        v <= MAX_VAR_INT,
    ensures
        spec_varint_decode(spec_varint_bytes(v) + rest) == Some((v, rest)),
        spec_varint_bytes(v).len() == spec_varint_len(v),
{
    let n = spec_varint_len(v);
    let b = be_bytes(v as nat, n);
    lemma_pow256_values();
    lemma_be_bytes_len(v as nat, n);
    assert(v < pow256(n));
    lemma_be_roundtrip(v as nat, n);
    lemma_be_first(v as nat, n);
    let top = v as nat / pow256((n - 1) as nat);
    assert(top < 64) by {
        assert(pow256(0) == 1);
        assert(pow256(3) == 0x100_0000);
        assert(pow256(7) == 0x100_0000_0000_0000) by {
            reveal_with_fuel(pow256, 8);
        }
        let x = v as nat;
        if n == 1 {
            assert(top == x);
        } else if n == 2 {
            assert(x / 256 < 64) by (nonlinear_arith)
                requires
                    x <= 16383,
            ;
        } else if n == 4 {
            assert(x / 0x100_0000 < 64) by (nonlinear_arith)
                requires
                    x <= 1_073_741_823,
            ;
        } else {
            assert(x / 0x100_0000_0000_0000 < 64) by (nonlinear_arith)
                requires
                    x <= 4_611_686_018_427_387_903,
            ;
        }
    }
    reveal(spec_varint_bytes);
    let e = spec_varint_bytes(v);
    let s = e + rest;
    let first = (top + spec_varint_tag(n)) as u8;
    assert(s[0] == first);
    assert(first / 64 == spec_varint_tag(n) / 64);
    assert(first % 64 == top);
    assert(spec_varint_parse_len(first) == n);
    assert(s.subrange(n as int, s.len() as int) =~= rest);
    assert(seq![first % 64] + s.subrange(1, n as int) =~= seq![b[0]] + b.subrange(1, n as int));
    assert(seq![b[0]] + b.subrange(1, n as int) =~= b);
}

/// Decoding two bytes in network order gives back the value they were made from.
pub proof fn lemma_u16_roundtrip(v: u16)
    ensures
        be_value(be_bytes(v as nat, 2)) == v,
        be_bytes(v as nat, 2).len() == 2,
{
    lemma_pow256_values();
    lemma_be_roundtrip(v as nat, 2);
}

} // verus!
