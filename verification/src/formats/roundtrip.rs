//! What a reader gives back of what a writer wrote, and the converse.

use vstd::prelude::*;

use crate::formats::binary_reader::{u16_at, u32_at, u32_be_at};
use crate::formats::binary_writer::write_at;
use crate::formats::encoding::{
    be_bytes_u32, le_bytes_u16, le_bytes_u32, lemma_u16_roundtrip, lemma_u32_bytes_roundtrip,
    lemma_u32_roundtrip,
};

verus! {

/// A `u16` written little endian at `pos` reads back as itself there.
pub proof fn law_u16_write_read(buf: Seq<u8>, pos: int, v: u16)
    requires
        0 <= pos,
    ensures
        write_at(buf, pos, le_bytes_u16(v)).len() >= pos + 2,
        u16_at(write_at(buf, pos, le_bytes_u16(v)), pos) == v,
{
    lemma_u16_roundtrip(v);
}

/// An `i16` written little endian at `pos` reads back as itself there.
pub proof fn law_i16_write_read(buf: Seq<u8>, pos: int, v: i16)
    requires
        0 <= pos,
    ensures
        u16_at(write_at(buf, pos, le_bytes_u16(v as u16)), pos) as i16 == v,
{
    lemma_u16_roundtrip(v as u16);
    assert((v as u16) as i16 == v) by (bit_vector);
}

/// A `u32` written little endian at `pos` reads back as itself there.
pub proof fn law_u32_write_read(buf: Seq<u8>, pos: int, v: u32)
    requires
        0 <= pos,
    ensures
        write_at(buf, pos, le_bytes_u32(v)).len() >= pos + 4,
        u32_at(write_at(buf, pos, le_bytes_u32(v)), pos) == v,
{
    lemma_u32_roundtrip(v);
}

/// An `i32` written little endian at `pos` reads back as itself there.
pub proof fn law_i32_write_read(buf: Seq<u8>, pos: int, v: i32)
    requires
        0 <= pos,
    ensures
        u32_at(write_at(buf, pos, le_bytes_u32(v as u32)), pos) as i32 == v,
{
    lemma_u32_roundtrip(v as u32);
    assert((v as u32) as i32 == v) by (bit_vector);
}

/// A `u32` written big endian at `pos` reads back as itself there.
pub proof fn law_u32_big_write_read(buf: Seq<u8>, pos: int, v: u32)
    requires
        0 <= pos,
    ensures
        u32_be_at(write_at(buf, pos, be_bytes_u32(v)), pos) == v,
{
    lemma_u32_roundtrip(v);
}

/// Writing back the `u32` read at `pos` leaves the buffer as it was.
pub proof fn law_u32_read_write(buf: Seq<u8>, pos: int)
    requires
        0 <= pos,
        pos + 4 <= buf.len(),
    ensures
        write_at(buf, pos, le_bytes_u32(u32_at(buf, pos))) == buf,
{
    lemma_u32_bytes_roundtrip(buf[pos], buf[pos + 1], buf[pos + 2], buf[pos + 3]);
    assert(write_at(buf, pos, le_bytes_u32(u32_at(buf, pos))) =~= buf);
}

/// Bytes written at `pos` stand there afterwards, and the buffer before
/// `pos` is untouched.
pub proof fn law_write_then_contents(buf: Seq<u8>, pos: int, bytes: Seq<u8>)
    requires
        0 <= pos <= buf.len(),
        bytes.len() > 0,
    ensures
        write_at(buf, pos, bytes).subrange(pos, pos + bytes.len()) == bytes,
        write_at(buf, pos, bytes).subrange(0, pos) == buf.subrange(0, pos),
{
    assert(write_at(buf, pos, bytes).subrange(pos, pos + bytes.len()) =~= bytes);
    assert(write_at(buf, pos, bytes).subrange(0, pos) =~= buf.subrange(0, pos));
}

} // verus!
