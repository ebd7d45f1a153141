use vstd::prelude::*;

verus! {

/// Reading ran past the end of the input.
#[derive(Debug, Clone, Copy, PartialEq, Eq)]
pub struct UnexpectedEof;

/// The number that bytes `s` encode in little-endian order.
pub open spec fn le_value(s: Seq<u8>) -> nat
    decreases s.len(),
{
    if s.len() == 0 {
        0
    } else {
        (s[0] + 256 * le_value(s.drop_first())) as nat
    }
}

/// The `n` low bytes of `v`, least significant first.
pub open spec fn le_bytes(v: nat, n: nat) -> Seq<u8>
    decreases n,
{
    if n == 0 {
        Seq::empty()
    } else {
        seq![(v % 256) as u8] + le_bytes(v / 256, (n - 1) as nat)
    }
}

pub open spec fn pow256(n: nat) -> nat
    decreases n,
{
    if n == 0 {
        1
    } else {
        256 * pow256((n - 1) as nat)
    }
}

pub proof fn lemma_pow256_values()
    ensures
        pow256(1) == 0x100,
        pow256(2) == 0x1_0000,
        pow256(4) == 0x1_0000_0000,
        pow256(8) == 0x1_0000_0000_0000_0000,
{
    reveal_with_fuel(pow256, 9);
}

pub proof fn lemma_le_value_bound(s: Seq<u8>)
    ensures
        le_value(s) < pow256(s.len()),
    decreases s.len(),
{
    if s.len() > 0 {
        lemma_le_value_bound(s.drop_first());
    }
}

pub proof fn lemma_le_bytes_len(v: nat, n: nat)
    ensures
        le_bytes(v, n).len() == n,
    decreases n,
{
    if n > 0 {
        lemma_le_bytes_len(v / 256, (n - 1) as nat);
    }
}

/// Decoding the little-endian bytes of `v` gives back `v` when it fits.
pub proof fn lemma_le_roundtrip(v: nat, n: nat)
    requires
        v < pow256(n),
    ensures
        le_value(le_bytes(v, n)) == v,
        le_bytes(v, n).len() == n,
    decreases n,
{
    lemma_le_bytes_len(v, n);
    if n > 0 {
        let rest = le_bytes(v / 256, (n - 1) as nat);
        assert(v / 256 < pow256((n - 1) as nat)) by (nonlinear_arith)
            requires
                v < 256 * pow256((n - 1) as nat),
        ;
        lemma_le_roundtrip(v / 256, (n - 1) as nat);
        assert(le_bytes(v, n).drop_first() =~= rest);
    }
}

/// Reading a little-endian value from the front of a longer input only
/// looks at its own bytes.
pub proof fn lemma_le_value_prefix(a: Seq<u8>, b: Seq<u8>)
    ensures
        (a + b).subrange(0, a.len() as int) == a,
{
    assert((a + b).subrange(0, a.len() as int) =~= a);
}

/// Reads `n` bytes at `*pos` as a little-endian number.
pub fn read_uint_n(src: &[u8], pos: &mut usize, n: usize) -> (r: Result<u64, UnexpectedEof>)
    requires
        1 <= n <= 8,
        *old(pos) <= src@.len(),
    ensures
        *old(pos) + n <= src@.len() ==> r == Ok::<u64, UnexpectedEof>(
            le_value(src@.subrange(*old(pos) as int, *old(pos) + n)) as u64,
        ) && *final(pos) == *old(pos) + n,
        *old(pos) + n > src@.len() ==> r is Err && *final(pos) == *old(pos),
        r matches Ok(v) ==> v < pow256(n as nat),
{
    if src.len() - *pos < n {
        return Err(UnexpectedEof);
    }
    let start = *pos;
    let mut v: u64 = 0;
    let mut i: usize = n;
    proof {
        lemma_pow256_values();
        assert(src@.subrange(start + n, start + n) =~= Seq::<u8>::empty());
    }
    while i > 0
        invariant
            1 <= n <= 8,
            i <= n,
            start + n <= src@.len(),
            v == le_value(src@.subrange(start + i, start + n)),
            v < pow256((n - i) as nat),
            pow256(8) == 0x1_0000_0000_0000_0000,
            src@.len() <= usize::MAX,
        decreases i,
    {
        let b = src[start + i - 1];
        proof {
            let s = src@.subrange(start + i - 1, start + n);
            assert(s.drop_first() =~= src@.subrange(start + i, start + n));
            assert(s[0] == b);
            lemma_pow_mono((n - i + 1) as nat, 8);
            assert(v * 256 + b < pow256((n - i + 1) as nat)) by (nonlinear_arith)
                requires
                    v < pow256((n - i) as nat),
                    pow256((n - i + 1) as nat) == 256 * pow256((n - i) as nat),
                    b < 256,
            ;
        }
        v = v * 256 + b as u64;
        i = i - 1;
    }
    *pos = start + n;
    Ok(v)
}

proof fn lemma_pow_mono(a: nat, b: nat)
    requires
        a <= b,
    ensures
        pow256(a) <= pow256(b),
    decreases b,
{
    if a < b {
        lemma_pow_mono(a, (b - 1) as nat);
    }
}

pub fn read_u64(src: &[u8], pos: &mut usize) -> (r: Result<u64, UnexpectedEof>)
    requires
        *old(pos) <= src@.len(),
    ensures
        *old(pos) + 8 <= src@.len() ==> r == Ok::<u64, UnexpectedEof>(
            le_value(src@.subrange(*old(pos) as int, *old(pos) + 8)) as u64,
        ) && *final(pos) == *old(pos) + 8,
        *old(pos) + 8 > src@.len() ==> r is Err && *final(pos) == *old(pos),
{
    read_uint_n(src, pos, 8)
}

pub fn read_u32(src: &[u8], pos: &mut usize) -> (r: Result<u32, UnexpectedEof>)
    requires
        *old(pos) <= src@.len(),
    ensures
        *old(pos) + 4 <= src@.len() ==> r == Ok::<u32, UnexpectedEof>(
            le_value(src@.subrange(*old(pos) as int, *old(pos) + 4)) as u32,
        ) && *final(pos) == *old(pos) + 4,
        *old(pos) + 4 > src@.len() ==> r is Err && *final(pos) == *old(pos),
{
    proof {
        lemma_pow256_values();
        if *pos + 4 <= src@.len() {
            lemma_le_value_bound(src@.subrange(*pos as int, *pos + 4));
        }
    }
    match read_uint_n(src, pos, 4) {
        Ok(v) => Ok(v as u32),
        Err(e) => Err(e),
    }
}

pub fn read_u16(src: &[u8], pos: &mut usize) -> (r: Result<u16, UnexpectedEof>)
    requires
        *old(pos) <= src@.len(),
    ensures
        *old(pos) + 2 <= src@.len() ==> r == Ok::<u16, UnexpectedEof>(
            le_value(src@.subrange(*old(pos) as int, *old(pos) + 2)) as u16,
        ) && *final(pos) == *old(pos) + 2,
        *old(pos) + 2 > src@.len() ==> r is Err && *final(pos) == *old(pos),
{
    proof {
        lemma_pow256_values();
        if *pos + 2 <= src@.len() {
            lemma_le_value_bound(src@.subrange(*pos as int, *pos + 2));
        }
    }
    match read_uint_n(src, pos, 2) {
        Ok(v) => Ok(v as u16),
        Err(e) => Err(e),
    }
}

pub fn read_u8(src: &[u8], pos: &mut usize) -> (r: Result<u8, UnexpectedEof>)
    requires
        *old(pos) <= src@.len(),
    ensures
        *old(pos) + 1 <= src@.len() ==> r == Ok::<u8, UnexpectedEof>(src@[*old(pos) as int])
            && *final(pos) == *old(pos) + 1,
        *old(pos) + 1 > src@.len() ==> r is Err && *final(pos) == *old(pos),
{
    if *pos >= src.len() {
        return Err(UnexpectedEof);
    }
    let b = src[*pos];
    *pos = *pos + 1;
    Ok(b)
}

/// The two's complement reading of a 32-bit pattern.
pub open spec fn i32_from_bits(v: nat) -> int {
    if v < 0x8000_0000 {
        v as int
    } else {
        v - 0x1_0000_0000
    }
}

pub fn read_i32(src: &[u8], pos: &mut usize) -> (r: Result<i32, UnexpectedEof>)
    requires
        *old(pos) <= src@.len(),
    ensures
        *old(pos) + 4 <= src@.len() ==> r == Ok::<i32, UnexpectedEof>(
            i32_from_bits(le_value(src@.subrange(*old(pos) as int, *old(pos) + 4))) as i32,
        ) && *final(pos) == *old(pos) + 4,
        *old(pos) + 4 > src@.len() ==> r is Err && *final(pos) == *old(pos),
{
    proof {
        lemma_pow256_values();
        if *pos + 4 <= src@.len() {
            lemma_le_value_bound(src@.subrange(*pos as int, *pos + 4));
        }
    }
    match read_uint_n(src, pos, 4) {
        Ok(v) => {
            if v < 0x8000_0000 {
                Ok(v as i32)
            } else {
                let w: i64 = v as i64 - 0x1_0000_0000i64;
                Ok(w as i32)
            }
        },
        Err(e) => Err(e),
    }
}

/// Reads `N` raw bytes at `*pos`.
pub fn read_bytes<const N: usize>(src: &[u8], pos: &mut usize) -> (r: Result<[u8; N], UnexpectedEof>)
    requires
        *old(pos) <= src@.len(),
    ensures
        *old(pos) + N <= src@.len() ==> r is Ok && r->Ok_0@ == src@.subrange(
            *old(pos) as int,
            *old(pos) + N,
        ) && *final(pos) == *old(pos) + N,
        *old(pos) + N > src@.len() ==> r is Err && *final(pos) == *old(pos),
{
    if src.len() - *pos < N {
        return Err(UnexpectedEof);
    }
    let start = *pos;
    let mut data = [0u8; N];
    let mut i: usize = 0;
    while i < N
        invariant
            i <= N,
            start + N <= src@.len(),
            data@.len() == N,
            src@.len() <= usize::MAX,
            forall|j: int| 0 <= j < i ==> data@[j] == src@[start + j],
        decreases N - i,
    {
        data[i] = src[start + i];
        i = i + 1;
    }
    proof {
        assert(data@ =~= src@.subrange(start as int, start + N));
    }
    *pos = start + N;
    Ok(data)
}

proof fn lemma_le_bytes_snoc(v: nat, i: nat)
    ensures
        le_bytes(v, i + 1) == le_bytes(v, i).push(((v / pow256(i)) % 256) as u8),
    decreases i,
{
    if i == 0 {
        assert(pow256(0) == 1);
        assert(le_bytes(v / 256, 0) == Seq::<u8>::empty());
        assert(le_bytes(v, 1) =~= le_bytes(v, 0).push(((v / pow256(0)) % 256) as u8));
    } else {
        lemma_le_bytes_snoc(v / 256, (i - 1) as nat);
        lemma_pow_positive((i - 1) as nat);
        vstd::arithmetic::div_mod::lemma_div_denominator(v as int, 256, pow256((i - 1) as nat) as int);
        assert(le_bytes(v, i + 1) =~= le_bytes(v, i).push(((v / pow256(i)) % 256) as u8));
    }
}

proof fn lemma_pow_positive(n: nat)
    ensures
        pow256(n) > 0,
    decreases n,
{
    if n > 0 {
        lemma_pow_positive((n - 1) as nat);
    }
}

/// Appends the `n` low bytes of `v`, least significant first.
pub fn write_uint_n(out: &mut Vec<u8>, v: u64, n: usize)
    requires
        n <= 8,
    ensures
        final(out)@ == old(out)@ + le_bytes(v as nat, n as nat),
{
    let mut x: u64 = v;
    let mut i: usize = 0;
    proof {
        assert(pow256(0) == 1);
        assert(old(out)@ + le_bytes(v as nat, 0) =~= old(out)@);
    }
    while i < n
        invariant
            i <= n,
            x as nat == (v as nat) / pow256(i as nat),
            out@ == old(out)@ + le_bytes(v as nat, i as nat),
        decreases n - i,
    {
        proof {
            lemma_le_bytes_snoc(v as nat, i as nat);
            lemma_pow_positive(i as nat);
            vstd::arithmetic::div_mod::lemma_div_denominator(v as int, pow256(i as nat) as int, 256);
            assert(pow256(i as nat) * 256 == pow256((i + 1) as nat));
        }
        out.push((x % 256) as u8);
        x = x / 256;
        i = i + 1;
        proof {
            assert(out@ =~= old(out)@ + le_bytes(v as nat, i as nat));
        }
    }
}

pub fn write_u64(out: &mut Vec<u8>, v: u64)
    ensures
        final(out)@ == old(out)@ + le_bytes(v as nat, 8),
{
    write_uint_n(out, v, 8)
}

pub fn write_u32(out: &mut Vec<u8>, v: u32)
    ensures
        final(out)@ == old(out)@ + le_bytes(v as nat, 4),
{
    write_uint_n(out, v as u64, 4)
}

pub fn write_u16(out: &mut Vec<u8>, v: u16)
    ensures
        final(out)@ == old(out)@ + le_bytes(v as nat, 2),
{
    write_uint_n(out, v as u64, 2)
}

/// The 32-bit pattern of a two's complement value.
pub open spec fn i32_to_bits(v: i32) -> nat {
    if v >= 0 {
        v as nat
    } else {
        (v + 0x1_0000_0000) as nat
    }
}

pub fn write_i32(out: &mut Vec<u8>, v: i32)
    ensures
        final(out)@ == old(out)@ + le_bytes(i32_to_bits(v), 4),
{
    let bits: u64 = if v >= 0 {
        v as u64
    } else {
        (v as i64 + 0x1_0000_0000i64) as u64
    };
    write_uint_n(out, bits, 4)
}

/// Appends raw bytes.
pub fn write_all(out: &mut Vec<u8>, bytes: &[u8])
    ensures
        final(out)@ == old(out)@ + bytes@,
{
    let mut i: usize = 0;
    while i < bytes.len()
        invariant
            i <= bytes@.len(),
            out@ == old(out)@ + bytes@.subrange(0, i as int),
        decreases bytes@.len() - i,
    {
        out.push(bytes[i]);
        i = i + 1;
        proof {
            assert(out@ =~= old(out)@ + bytes@.subrange(0, i as int));
        }
    }
    proof {
        assert(bytes@.subrange(0, bytes@.len() as int) =~= bytes@);
    }
}

/// A two's complement value survives a write and a read.
pub proof fn lemma_i32_roundtrip(v: i32)
    ensures
        i32_to_bits(v) < pow256(4),
        i32_from_bits(i32_to_bits(v)) == v,
{
    lemma_pow256_values();
}

} // verus!
