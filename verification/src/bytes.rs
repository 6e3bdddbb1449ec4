//! Little-endian byte encoding of the fixed-width integers that appear in
//! snapshots and network packets, with both directions of the round trip
//! proved: a value survives encoding, and four bytes survive decoding.

use vstd::prelude::*;

verus! {

/// The four little-endian bytes of a 32-bit word.
pub open spec fn u32_le_bytes(x: u32) -> Seq<u8> {
    seq![
        (x & 0xff) as u8,
        ((x >> 8) & 0xff) as u8,
        ((x >> 16) & 0xff) as u8,
        ((x >> 24) & 0xff) as u8,
    ]
}

/// The 32-bit word spelled by four little-endian bytes.
pub open spec fn u32_from_le(b0: u8, b1: u8, b2: u8, b3: u8) -> u32 {
    (b0 as u32) | ((b1 as u32) << 8) | ((b2 as u32) << 16) | ((b3 as u32) << 24)
}

/// The four little-endian bytes of a signed 32-bit word (two's complement).
pub open spec fn i32_le_bytes(x: i32) -> Seq<u8> {
    u32_le_bytes(x as u32)
}

/// The signed 32-bit word spelled by four little-endian bytes.
pub open spec fn i32_from_le(b0: u8, b1: u8, b2: u8, b3: u8) -> i32 {
    u32_from_le(b0, b1, b2, b3) as i32
}

/// Decoding the bytes of a word gives the word back.
pub proof fn lemma_u32_round_trip(x: u32)
    ensures
        u32_from_le(
            (x & 0xff) as u8,
            ((x >> 8) & 0xff) as u8,
            ((x >> 16) & 0xff) as u8,
            ((x >> 24) & 0xff) as u8,
        ) == x,
{
    assert((((x & 0xff) as u8) as u32) | (((((x >> 8) & 0xff) as u8) as u32) << 8) | (((((x
        >> 16) & 0xff) as u8) as u32) << 16) | (((((x >> 24) & 0xff) as u8) as u32) << 24)
        == x) by (bit_vector);
}

/// Encoding the word spelled by four bytes gives the bytes back.
pub proof fn lemma_u32_inverse(b0: u8, b1: u8, b2: u8, b3: u8)
    ensures
        u32_le_bytes(u32_from_le(b0, b1, b2, b3)) == seq![b0, b1, b2, b3],
{
    let x = u32_from_le(b0, b1, b2, b3);
    assert(((b0 as u32) | ((b1 as u32) << 8) | ((b2 as u32) << 16) | ((b3 as u32) << 24)) & 0xff
        == b0) by (bit_vector);
    assert((((b0 as u32) | ((b1 as u32) << 8) | ((b2 as u32) << 16) | ((b3 as u32) << 24)) >> 8)
        & 0xff == b1) by (bit_vector);
    assert((((b0 as u32) | ((b1 as u32) << 8) | ((b2 as u32) << 16) | ((b3 as u32) << 24)) >> 16)
        & 0xff == b2) by (bit_vector);
    assert((((b0 as u32) | ((b1 as u32) << 8) | ((b2 as u32) << 16) | ((b3 as u32) << 24)) >> 24)
        & 0xff == b3) by (bit_vector);
    assert((x & 0xff) as u8 == b0);
    assert(((x >> 8) & 0xff) as u8 == b1);
    assert(((x >> 16) & 0xff) as u8 == b2);
    assert(((x >> 24) & 0xff) as u8 == b3);
    assert(u32_le_bytes(x) =~= seq![b0, b1, b2, b3]);
}

/// A signed word survives the detour through its unsigned bit pattern.
pub proof fn lemma_i32_cast_round_trip(x: i32)
    ensures
        (x as u32) as i32 == x,
{
    assert((x as u32) as i32 == x) by (bit_vector);
}

/// Encoding the signed word spelled by four bytes gives the bytes back.
pub proof fn lemma_i32_inverse(b0: u8, b1: u8, b2: u8, b3: u8)
    ensures
        i32_le_bytes(i32_from_le(b0, b1, b2, b3)) == seq![b0, b1, b2, b3],
{
    let u = u32_from_le(b0, b1, b2, b3);
    assert((u as i32) as u32 == u) by (bit_vector);
    lemma_u32_inverse(b0, b1, b2, b3);
}

/// Appends the four little-endian bytes of `x`.
pub fn push_u32(out: &mut Vec<u8>, x: u32)
    ensures
        final(out)@ == old(out)@ + u32_le_bytes(x),
{
    out.push((x & 0xff) as u8);
    out.push(((x >> 8) & 0xff) as u8);
    out.push(((x >> 16) & 0xff) as u8);
    out.push(((x >> 24) & 0xff) as u8);
    proof {
        assert(x & 0xff < 256 && (x >> 8) & 0xff < 256 && (x >> 16) & 0xff < 256 && (x >> 24)
            & 0xff < 256) by (bit_vector);
        assert(out@ =~= old(out)@ + u32_le_bytes(x));
    }
}

/// Appends the four little-endian bytes of `x` (two's complement).
pub fn push_i32(out: &mut Vec<u8>, x: i32)
    ensures
        final(out)@ == old(out)@ + i32_le_bytes(x),
{
    push_u32(out, x as u32);
}

/// Reads the word stored at `pos`.
pub fn read_u32(buf: &Vec<u8>, pos: usize) -> (r: u32)
    requires
        pos + 4 <= buf@.len(),
    ensures
        r == u32_from_le(buf@[pos as int], buf@[pos + 1], buf@[pos + 2], buf@[pos + 3]),
{
    let n: usize = buf.len();
    proof {
        assert(pos + 4 <= n);
    }
    let b0 = buf[pos] as u32;
    let b1 = buf[pos + 1] as u32;
    let b2 = buf[pos + 2] as u32;
    let b3 = buf[pos + 3] as u32;
    b0 | (b1 << 8) | (b2 << 16) | (b3 << 24)
}

/// Reads the signed word stored at `pos`.
pub fn read_i32(buf: &Vec<u8>, pos: usize) -> (r: i32)
    requires
        pos + 4 <= buf@.len(),
    ensures
        r == i32_from_le(buf@[pos as int], buf@[pos + 1], buf@[pos + 2], buf@[pos + 3]),
{
    read_u32(buf, pos) as i32
}

/// Four bytes of a buffer that sit where a word was encoded spell that word.
pub proof fn lemma_word_at(buf: Seq<u8>, pos: int, x: u32)
    requires
        0 <= pos,
        pos + 4 <= buf.len(),
        buf.subrange(pos, pos + 4) == u32_le_bytes(x),
    ensures
        u32_from_le(buf[pos], buf[pos + 1], buf[pos + 2], buf[pos + 3]) == x,
{
    assert(buf[pos] == u32_le_bytes(x)[0]);
    assert(buf[pos + 1] == u32_le_bytes(x)[1]);
    assert(buf[pos + 2] == u32_le_bytes(x)[2]);
    assert(buf[pos + 3] == u32_le_bytes(x)[3]);
    lemma_u32_round_trip(x);
}

/// Four bytes of a buffer that sit where a signed word was encoded spell it.
pub proof fn lemma_signed_word_at(buf: Seq<u8>, pos: int, x: i32)
    requires
        0 <= pos,
        pos + 4 <= buf.len(),
        buf.subrange(pos, pos + 4) == i32_le_bytes(x),
    ensures
        i32_from_le(buf[pos], buf[pos + 1], buf[pos + 2], buf[pos + 3]) == x,
{
    lemma_word_at(buf, pos, x as u32);
    lemma_i32_cast_round_trip(x);
}

} // verus!
