//! Byte encodings of fixed-width integers, little and big endian.

use vstd::prelude::*;

verus! {

/// Little-endian bytes of a `u16`.
pub open spec fn le_bytes_u16(v: u16) -> Seq<u8> {
    seq![v as u8, (v >> 8u16) as u8]
}

/// Little-endian bytes of the low 24 bits of a `u32`.
pub open spec fn le_bytes_u24(v: u32) -> Seq<u8> {
    seq![v as u8, (v >> 8u32) as u8, (v >> 16u32) as u8]
}

/// Little-endian bytes of a `u32`.
pub open spec fn le_bytes_u32(v: u32) -> Seq<u8> {
    seq![v as u8, (v >> 8u32) as u8, (v >> 16u32) as u8, (v >> 24u32) as u8]
}

/// Big-endian bytes of a `u32`.
pub open spec fn be_bytes_u32(v: u32) -> Seq<u8> {
    seq![(v >> 24u32) as u8, (v >> 16u32) as u8, (v >> 8u32) as u8, v as u8]
}

/// Little-endian bytes of a `u64`.
pub open spec fn le_bytes_u64(v: u64) -> Seq<u8> {
    seq![
        v as u8,
        (v >> 8u64) as u8,
        (v >> 16u64) as u8,
        (v >> 24u64) as u8,
        (v >> 32u64) as u8,
        (v >> 40u64) as u8,
        (v >> 48u64) as u8,
        (v >> 56u64) as u8,
    ]
}

/// The `u16` whose little-endian bytes are `b0, b1`.
pub open spec fn u16_from_le(b0: u8, b1: u8) -> u16 {
    (b0 as u16) | ((b1 as u16) << 8u16)
}

/// The `u32` whose little-endian bytes are `b0..b3`.
pub open spec fn u32_from_le(b0: u8, b1: u8, b2: u8, b3: u8) -> u32 {
    (b0 as u32) | ((b1 as u32) << 8u32) | ((b2 as u32) << 16u32) | ((b3 as u32) << 24u32)
}

/// The `u32` whose big-endian bytes are `b0..b3`.
pub open spec fn u32_from_be(b0: u8, b1: u8, b2: u8, b3: u8) -> u32 {
    u32_from_le(b3, b2, b1, b0)
}

/// Decoding the little-endian bytes of a `u16` gives it back.
pub proof fn lemma_u16_roundtrip(v: u16)
    ensures
        u16_from_le(v as u8, (v >> 8u16) as u8) == v,
{
    assert(((v as u8) as u16) | ((((v >> 8u16) as u8) as u16) << 8u16) == v) by (bit_vector);
}

/// Decoding the little-endian bytes of a `u32` gives it back.
pub proof fn lemma_u32_roundtrip(v: u32)
    ensures
        u32_from_le(v as u8, (v >> 8u32) as u8, (v >> 16u32) as u8, (v >> 24u32) as u8) == v,
{
    assert(((v as u8) as u32) | ((((v >> 8u32) as u8) as u32) << 8u32) | ((((v >> 16u32) as u8) as u32)
        << 16u32) | ((((v >> 24u32) as u8) as u32) << 24u32) == v) by (bit_vector);
}

/// Encoding a decoded `u32` gives its bytes back.
pub proof fn lemma_u32_bytes_roundtrip(b0: u8, b1: u8, b2: u8, b3: u8)
    ensures
        le_bytes_u32(u32_from_le(b0, b1, b2, b3)) == seq![b0, b1, b2, b3],
{
    let v = u32_from_le(b0, b1, b2, b3);
    assert(v as u8 == b0 && (v >> 8u32) as u8 == b1 && (v >> 16u32) as u8 == b2 && (v >> 24u32) as u8
        == b3) by (bit_vector)
        requires
            v == (b0 as u32) | ((b1 as u32) << 8u32) | ((b2 as u32) << 16u32) | ((b3 as u32) << 24u32),
    ;
}

/// Little endian: the first byte is the least significant. Decoding weighs
/// the bytes by 1, 256, 65536 and 16777216; encoding gives the value's
/// remainders by 256 from the lowest up.
pub proof fn law_little_endian(b0: u8, b1: u8, b2: u8, b3: u8, v: u32, w: u16)
    ensures
        u32_from_le(b0, b1, b2, b3) == b0 + 256 * b1 + 65536 * b2 + 16777216 * b3,
        u16_from_le(b0, b1) == b0 + 256 * b1,
        le_bytes_u32(v) == seq![(v % 256) as u8, ((v / 256) % 256) as u8, ((v / 65536) % 256) as u8, (v / 16777216) as u8],
        le_bytes_u16(w) == seq![(w % 256) as u8, (w / 256) as u8],
{
    assert((b0 as u32) | ((b1 as u32) << 8u32) | ((b2 as u32) << 16u32) | ((b3 as u32) << 24u32) == b0 + 256
        * b1 + 65536 * b2 + 16777216 * b3) by (bit_vector);
    assert((b0 as u16) | ((b1 as u16) << 8u16) == b0 + 256 * b1) by (bit_vector);
    assert(v as u8 == (v % 256) as u8 && (v >> 8u32) as u8 == ((v / 256) % 256) as u8 && (v >> 16u32) as u8
        == ((v / 65536) % 256) as u8 && (v >> 24u32) as u8 == (v / 16777216) as u8) by (bit_vector);
    assert(w as u8 == (w % 256) as u8 && (w >> 8u16) as u8 == (w / 256) as u8) by (bit_vector);
}

} // verus!
