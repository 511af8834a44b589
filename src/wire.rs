//! Reading and writing 32-bit words in either byte order.
use vstd::prelude::*;

verus! {

/// The bytes of `v`, most significant first.
pub open spec fn be_bytes(v: u32) -> Seq<u8> {
    seq![(v >> 24u32) as u8, (v >> 16u32) as u8, (v >> 8u32) as u8, v as u8]
}

/// The bytes of `v`, least significant first.
pub open spec fn le_bytes(v: u32) -> Seq<u8> {
    seq![v as u8, (v >> 8u32) as u8, (v >> 16u32) as u8, (v >> 24u32) as u8]
}

/// The big-endian word of `b` that starts at `pos`.
pub open spec fn be_at(b: Seq<u8>, pos: int) -> u32 {
    ((b[pos] as u32) << 24u32) | ((b[pos + 1] as u32) << 16u32) | ((b[pos + 2] as u32) << 8u32)
        | (b[pos + 3] as u32)
}

/// The little-endian word of `b` that starts at `pos`.
pub open spec fn le_at(b: Seq<u8>, pos: int) -> u32 {
    (b[pos] as u32) | ((b[pos + 1] as u32) << 8u32) | ((b[pos + 2] as u32) << 16u32) | ((
    b[pos + 3] as u32) << 24u32)
}

/// A signed word as it stands on the wire.
pub open spec fn i32_bits(x: i32) -> u32 {
    x as u32
}

/// A wire word read as a signed integer.
pub open spec fn i32_of(u: u32) -> i32 {
    u as i32
}

pub proof fn lemma_i32_round_trip(x: i32)
    ensures
        i32_of(i32_bits(x)) == x,
{
    assert((x as u32) as i32 == x) by (bit_vector);
}

/// A non-negative `int` below 2^31 survives the trip through a signed word.
pub proof fn lemma_small_i32(n: int)
    requires
        0 <= n <= i32::MAX,
    ensures
        i32_of(n as u32) as int == n,
{
    let u = n as u32;
    assert(u as int == n);
    assert(u <= 0x7fff_ffffu32 ==> (u as i32) as u32 == u) by (bit_vector);
    assert(u <= 0x7fff_ffffu32 ==> (u as i32) >= 0) by (bit_vector);
}

/// Reading back the bytes of a word written in big-endian order gives the word.
pub proof fn lemma_be_read_written(b: Seq<u8>, pos: int, v: u32)
    requires
        0 <= pos,
        pos + 4 <= b.len(),
        b.subrange(pos, pos + 4) == be_bytes(v),
    ensures
        be_at(b, pos) == v,
{
    assert(b[pos] == b.subrange(pos, pos + 4)[0]);
    assert(b[pos + 1] == b.subrange(pos, pos + 4)[1]);
    assert(b[pos + 2] == b.subrange(pos, pos + 4)[2]);
    assert(b[pos + 3] == b.subrange(pos, pos + 4)[3]);
    assert(((((v >> 24u32) as u8) as u32) << 24u32) | ((((v >> 16u32) as u8) as u32) << 16u32) | ((
    ((v >> 8u32) as u8) as u32) << 8u32) | ((v as u8) as u32) == v) by (bit_vector);
}

/// Reading back the bytes of a word written in little-endian order gives the word.
pub proof fn lemma_le_read_written(b: Seq<u8>, pos: int, v: u32)
    requires
        0 <= pos,
        pos + 4 <= b.len(),
        b.subrange(pos, pos + 4) == le_bytes(v),
    ensures
        le_at(b, pos) == v,
{
    assert(b[pos] == b.subrange(pos, pos + 4)[0]);
    assert(b[pos + 1] == b.subrange(pos, pos + 4)[1]);
    assert(b[pos + 2] == b.subrange(pos, pos + 4)[2]);
    assert(b[pos + 3] == b.subrange(pos, pos + 4)[3]);
    assert(((v as u8) as u32) | ((((v >> 8u32) as u8) as u32) << 8u32) | ((((v >> 16u32) as u8) as u32)
        << 16u32) | ((((v >> 24u32) as u8) as u32) << 24u32) == v) by (bit_vector);
}

/// The big-endian word at `pos`.
pub fn read_be(b: &[u8], pos: usize) -> (r: u32)
    requires
        pos + 4 <= b@.len(),
    ensures
        r == be_at(b@, pos as int),
{
    ((b[pos] as u32) << 24u32) | ((b[pos + 1] as u32) << 16u32) | ((b[pos + 2] as u32) << 8u32) | (b[pos
        + 3] as u32)
}

/// The little-endian word at `pos`.
pub fn read_le(b: &[u8], pos: usize) -> (r: u32)
    requires
        pos + 4 <= b@.len(),
    ensures
        r == le_at(b@, pos as int),
{
    (b[pos] as u32) | ((b[pos + 1] as u32) << 8u32) | ((b[pos + 2] as u32) << 16u32) | ((b[pos
        + 3] as u32) << 24u32)
}

/// Appends `v`, most significant byte first.
pub fn push_be(out: &mut Vec<u8>, v: u32)
    ensures
        final(out)@ == old(out)@ + be_bytes(v),
{
    out.push((v >> 24u32) as u8);
    out.push((v >> 16u32) as u8);
    out.push((v >> 8u32) as u8);
    out.push(v as u8);
    assert(final(out)@ =~= old(out)@ + be_bytes(v));
}

/// Appends `v`, least significant byte first.
pub fn push_le(out: &mut Vec<u8>, v: u32)
    ensures
        final(out)@ == old(out)@ + le_bytes(v),
{
    out.push(v as u8);
    out.push((v >> 8u32) as u8);
    out.push((v >> 16u32) as u8);
    out.push((v >> 24u32) as u8);
    assert(final(out)@ =~= old(out)@ + le_bytes(v));
}

} // verus!
