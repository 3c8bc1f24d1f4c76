//! Big-endian encodings of fixed-width integers.
use vstd::prelude::*;

verus! {

/// The two big-endian bytes of a `u16`.
pub open spec fn be16_bytes(x: u16) -> Seq<u8> {
    seq![(x / 256) as u8, (x % 256) as u8]
}

/// The four big-endian bytes of a `u32`.
pub open spec fn be32_bytes(x: u32) -> Seq<u8> {
    seq![(x / 16777216) as u8, ((x / 65536) % 256) as u8, ((x / 256) % 256) as u8, (x % 256) as u8]
}

/// The eight big-endian bytes of a `u64`.
pub open spec fn be64_bytes(x: u64) -> Seq<u8> {
    be32_bytes((x / 0x1_0000_0000) as u32) + be32_bytes((x % 0x1_0000_0000) as u32)
}

/// The `u64` stored big-endian at `off`.
pub open spec fn be64_at(b: Seq<u8>, off: int) -> u64 {
    (be32_at(b, off) as int * 0x1_0000_0000 + be32_at(b, off + 4) as int) as u64
}

/// The `u16` stored big-endian at `off`.
pub open spec fn be16_at(b: Seq<u8>, off: int) -> u16 {
    (b[off] as int * 256 + b[off + 1] as int) as u16
}

/// The `u32` stored big-endian at `off`.
pub open spec fn be32_at(b: Seq<u8>, off: int) -> u32 {
    (b[off] as int * 16777216 + b[off + 1] as int * 65536 + b[off + 2] as int * 256
        + b[off + 3] as int) as u32
}

/// Reading back the bytes of a `u16` gives the `u16`.
pub proof fn lemma_be16_roundtrip(x: u16, b: Seq<u8>, off: int)
    requires
        0 <= off,
        off + 2 <= b.len(),
        b[off] == be16_bytes(x)[0],
        b[off + 1] == be16_bytes(x)[1],
    ensures
        be16_at(b, off) == x,
{
}

/// Reading back the bytes of a `u32` gives the `u32`.
pub proof fn lemma_be32_roundtrip(x: u32, b: Seq<u8>, off: int)
    requires
        0 <= off,
        off + 4 <= b.len(),
        b[off] == be32_bytes(x)[0],
        b[off + 1] == be32_bytes(x)[1],
        b[off + 2] == be32_bytes(x)[2],
        b[off + 3] == be32_bytes(x)[3],
    ensures
        be32_at(b, off) == x,
{
}

/// Appends the big-endian bytes of a `u16`.
pub fn push_be16(v: &mut Vec<u8>, x: u16)
    ensures
        final(v)@ == old(v)@ + be16_bytes(x),
{
    v.push((x / 256) as u8);
    v.push((x % 256) as u8);
    assert(final(v)@ =~= old(v)@ + be16_bytes(x));
}

/// Appends the big-endian bytes of a `u32`.
pub fn push_be32(v: &mut Vec<u8>, x: u32)
    ensures
        final(v)@ == old(v)@ + be32_bytes(x),
{
    v.push((x / 16777216) as u8);
    v.push(((x / 65536) % 256) as u8);
    v.push(((x / 256) % 256) as u8);
    v.push((x % 256) as u8);
    assert(final(v)@ =~= old(v)@ + be32_bytes(x));
}

/// Reads a big-endian `u16` at `off`.
pub fn read_be16(b: &[u8], off: usize) -> (r: u16)
    requires
        off + 2 <= b@.len(),
    ensures
        r == be16_at(b@, off as int),
{
    (b[off] as u16) * 256 + b[off + 1] as u16
}

/// Reads a big-endian `u32` at `off`.
pub fn read_be32(b: &[u8], off: usize) -> (r: u32)
    requires
        off + 4 <= b@.len(),
    ensures
        r == be32_at(b@, off as int),
{
    (b[off] as u32) * 16777216 + (b[off + 1] as u32) * 65536 + (b[off + 2] as u32) * 256
        + b[off + 3] as u32
}

/// Appends the big-endian bytes of a `u64`.
pub fn push_be64(v: &mut Vec<u8>, x: u64)
    ensures
        final(v)@ == old(v)@ + be64_bytes(x),
{
    push_be32(v, (x / 0x1_0000_0000) as u32);
    push_be32(v, (x % 0x1_0000_0000) as u32);
    assert(final(v)@ =~= old(v)@ + be64_bytes(x));
}

/// Reads a big-endian `u64` at `off`.
pub fn read_be64(b: &[u8], off: usize) -> (r: u64)
    requires
        off + 8 <= b@.len(),
    ensures
        r == be64_at(b@, off as int),
{
    let n = b.len();
    assert(off + 4 <= n);
    let hi = read_be32(b, off);
    let lo = read_be32(b, off + 4);
    (hi as u64) * 0x1_0000_0000 + lo as u64
}

/// Reading back the bytes of a `u64` gives the `u64`.
pub proof fn lemma_be64_roundtrip(x: u64, b: Seq<u8>, off: int)
    requires
        0 <= off,
        off + 8 <= b.len(),
        forall|i: int| 0 <= i < 8 ==> b[off + i] == #[trigger] be64_bytes(x)[i],
    ensures
        be64_at(b, off) == x,
{
    let e = be64_bytes(x);
    let hi = be32_bytes((x / 0x1_0000_0000) as u32);
    let lo = be32_bytes((x % 0x1_0000_0000) as u32);
    assert(e[0] == hi[0] && e[1] == hi[1] && e[2] == hi[2] && e[3] == hi[3]);
    assert(e[4] == lo[0] && e[5] == lo[1] && e[6] == lo[2] && e[7] == lo[3]);
    assert(b[off] == e[0] && b[off + 1] == e[1] && b[off + 2] == e[2] && b[off + 3] == e[3]);
    assert(b[off + 4] == e[4] && b[off + 5] == e[5] && b[off + 6] == e[6] && b[off + 7] == e[7]);
    lemma_be32_roundtrip((x / 0x1_0000_0000) as u32, b, off);
    lemma_be32_roundtrip((x % 0x1_0000_0000) as u32, b, off + 4);
}

/// Appends all bytes of a slice (`Vec::extend_from_slice` on bytes).
pub fn push_all(v: &mut Vec<u8>, s: &[u8])
    ensures
        final(v)@ == old(v)@ + s@,
{
    let mut i: usize = 0;
    while i < s.len()
        invariant
            i <= s@.len(),
            v@ == old(v)@ + s@.subrange(0, i as int),
        decreases s@.len() - i,
    {
        v.push(s[i]);
        i = i + 1;
        assert(v@ =~= old(v)@ + s@.subrange(0, i as int));
    }
    assert(s@.subrange(0, i as int) =~= s@);
}

} // verus!
