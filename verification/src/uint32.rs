//! The packed-integer codec: two unsigned 32-bit integers, little-endian, in
//! eight bytes. Every header entry, hash-table slot and record prefix of the
//! file goes through it.

use vstd::prelude::*;

verus! {

/// Byte `i` (0 is the least significant) of `a`.
pub open spec fn le_byte(a: u32, i: u32) -> u8 {
    ((a >> (8 * i) as u32) & 0xff) as u8
}

/// The integer whose little-endian bytes are `b0`, `b1`, `b2`, `b3`.
pub open spec fn le_value(b0: u8, b1: u8, b2: u8, b3: u8) -> u32 {
    (b0 as u32) | ((b1 as u32) << 8) | ((b2 as u32) << 16) | ((b3 as u32) << 24)
}

/// The eight bytes that hold `a` and then `b`.
pub open spec fn spec_pack2(a: u32, b: u32) -> Seq<u8> {
    seq![
        le_byte(a, 0),
        le_byte(a, 1),
        le_byte(a, 2),
        le_byte(a, 3),
        le_byte(b, 0),
        le_byte(b, 1),
        le_byte(b, 2),
        le_byte(b, 3),
    ]
}

/// The two integers held in the first eight bytes of `s`.
pub open spec fn spec_unpack2(s: Seq<u8>) -> (u32, u32) {
    (le_value(s[0], s[1], s[2], s[3]), le_value(s[4], s[5], s[6], s[7]))
}

/// Four bytes taken from an integer give that integer back.
pub proof fn lemma_le_round_trip(a: u32)
    ensures
        le_value(le_byte(a, 0), le_byte(a, 1), le_byte(a, 2), le_byte(a, 3)) == a,
{
    assert(((((a >> 0u32) & 0xff) as u8) as u32) | (((((a >> 8u32) & 0xff) as u8) as u32) << 8) | (((((a
        >> 16u32) & 0xff) as u8) as u32) << 16) | (((((a >> 24u32) & 0xff) as u8) as u32) << 24)
        == a) by (bit_vector);
}

/// Decoding what was encoded gives the two integers back, for every pair.
pub proof fn lemma_pack2_round_trip(a: u32, b: u32)
    ensures
        spec_pack2(a, b).len() == 8,
        spec_unpack2(spec_pack2(a, b)) == (a, b),
{
    lemma_le_round_trip(a);
    lemma_le_round_trip(b);
}

/// Eight bytes are the encoding of the pair that they decode to.
pub proof fn lemma_unpack2_inverse(s: Seq<u8>)
    requires
        s.len() == 8,
    ensures
        spec_pack2(spec_unpack2(s).0, spec_unpack2(s).1) == s,
{
    lemma_le_bytes_of_value(s[0], s[1], s[2], s[3]);
    lemma_le_bytes_of_value(s[4], s[5], s[6], s[7]);
    assert(spec_pack2(spec_unpack2(s).0, spec_unpack2(s).1) =~= s);
}

proof fn lemma_le_bytes_of_value(b0: u8, b1: u8, b2: u8, b3: u8)
    ensures
        le_byte(le_value(b0, b1, b2, b3), 0) == b0,
        le_byte(le_value(b0, b1, b2, b3), 1) == b1,
        le_byte(le_value(b0, b1, b2, b3), 2) == b2,
        le_byte(le_value(b0, b1, b2, b3), 3) == b3,
{
    let v = le_value(b0, b1, b2, b3);
    assert(v == (b0 as u32) | ((b1 as u32) << 8) | ((b2 as u32) << 16) | ((b3 as u32) << 24));
    assert(((v >> 0u32) & 0xff) as u8 == b0 && ((v >> 8u32) & 0xff) as u8 == b1 && ((v >> 16u32)
        & 0xff) as u8 == b2 && ((v >> 24u32) & 0xff) as u8 == b3) by (bit_vector)
        requires
            v == (b0 as u32) | ((b1 as u32) << 8) | ((b2 as u32) << 16) | ((b3 as u32) << 24),
    ;
}

/// Writes `a` and then `b` into the eight-byte buffer, each as a
/// little-endian unsigned 32-bit integer.
pub fn uint32_pack2(buf: &mut [u8], a: u32, b: u32)
    requires
        old(buf)@.len() == 8,
    ensures
        final(buf)@ == spec_pack2(a, b),
{
    assert((a >> 0u32) & 0xff < 256 && (a >> 8u32) & 0xff < 256 && (a >> 16u32) & 0xff < 256 && (a
        >> 24u32) & 0xff < 256) by (bit_vector);
    assert((b >> 0u32) & 0xff < 256 && (b >> 8u32) & 0xff < 256 && (b >> 16u32) & 0xff < 256 && (b
        >> 24u32) & 0xff < 256) by (bit_vector);
    assert(a >> 0u32 == a && b >> 0u32 == b) by (bit_vector);
    buf[0] = (a & 0xff) as u8;
    buf[1] = ((a >> 8) & 0xff) as u8;
    buf[2] = ((a >> 16) & 0xff) as u8;
    buf[3] = ((a >> 24) & 0xff) as u8;
    buf[4] = (b & 0xff) as u8;
    buf[5] = ((b >> 8) & 0xff) as u8;
    buf[6] = ((b >> 16) & 0xff) as u8;
    buf[7] = ((b >> 24) & 0xff) as u8;
    assert(buf@ =~= spec_pack2(a, b));
}

/// Reads back the two integers that `uint32_pack2` wrote into the
/// eight-byte buffer.
pub fn uint32_unpack2(buf: &[u8]) -> (r: (u32, u32))
    requires
        buf@.len() == 8,
    ensures
        r == spec_unpack2(buf@),
{
    let a: u32 = (buf[0] as u32) | ((buf[1] as u32) << 8) | ((buf[2] as u32) << 16) | ((buf[3] as u32)
        << 24);
    let b: u32 = (buf[4] as u32) | ((buf[5] as u32) << 8) | ((buf[6] as u32) << 16) | ((buf[7] as u32)
        << 24);
    (a, b)
}

} // verus!
