//! Growable little-endian byte writer with a cursor, the serialization side of
//! the map file formats.

use vstd::prelude::*;

use crate::formats::encoding::{be_bytes_u32, le_bytes_u16, le_bytes_u24, le_bytes_u32, le_bytes_u64};
use crate::formats::{decimal_text, text_with_number, WriteError};
use vstd::string::StringSliceAdditionalSpecFns;

verus! {

/// Room reserved by [`BinaryWriter::new`].
pub const DEFAULT_CAPACITY: usize = 1024;

/// `buf` after writing `bytes` at `pos`: the bytes overwrite what stands
/// there, the buffer grows as needed, and a gap between its old end and
/// `pos` is filled with zeros. Writing no byte changes nothing.
pub open spec fn write_at(buf: Seq<u8>, pos: int, bytes: Seq<u8>) -> Seq<u8> {
    if bytes.len() == 0 {
        buf
    } else {
        write_nonempty_at(buf, pos, bytes)
    }
}

/// `buf` after writing the non-empty `bytes` at `pos` (see [`write_at`]).
pub open spec fn write_nonempty_at(buf: Seq<u8>, pos: int, bytes: Seq<u8>) -> Seq<u8> {
    let end = pos + bytes.len();
    let len = if end > buf.len() {
        end
    } else {
        buf.len() as int
    };
    Seq::new(
        len as nat,
        |i: int|
            if pos <= i < end {
                bytes[i - pos]
            } else if i < buf.len() {
                buf[i]
            } else {
                0u8
            },
    )
}

/// Writing two byte runs one after the other is writing their concatenation.
pub proof fn lemma_write_at_concat(buf: Seq<u8>, pos: int, a: Seq<u8>, b: Seq<u8>)
    requires
        0 <= pos,
    ensures
        write_at(write_at(buf, pos, a), pos + a.len(), b) == write_at(buf, pos, a + b),
{
    if a.len() == 0 {
        assert(a + b =~= b);
    } else if b.len() == 0 {
        assert(a + b =~= a);
    } else {
        assert(write_at(write_at(buf, pos, a), pos + a.len(), b) =~= write_at(buf, pos, a + b));
    }
}

/// The little-endian bytes of each `i32` of `vs`, in order.
pub open spec fn le_bytes_i32_seq(vs: Seq<i32>) -> Seq<u8>
    decreases vs.len(),
{
    if vs.len() == 0 {
        Seq::empty()
    } else {
        le_bytes_i32_seq(vs.drop_last()) + le_bytes_u32(vs.last() as u32)
    }
}

/// The little-endian bytes of each `u32` of `vs`, in order.
pub open spec fn le_bytes_u32_seq(vs: Seq<u32>) -> Seq<u8>
    decreases vs.len(),
{
    if vs.len() == 0 {
        Seq::empty()
    } else {
        le_bytes_u32_seq(vs.drop_last()) + le_bytes_u32(vs.last())
    }
}

/// The big-endian bytes of each `u32` of `vs`, in order.
pub open spec fn be_bytes_u32_seq(vs: Seq<u32>) -> Seq<u8>
    decreases vs.len(),
{
    if vs.len() == 0 {
        Seq::empty()
    } else {
        be_bytes_u32_seq(vs.drop_last()) + be_bytes_u32(vs.last())
    }
}

/// The low byte of each char of `cs`, in order.
pub open spec fn char_bytes(cs: Seq<char>) -> Seq<u8> {
    cs.map_values(|c: char| (c as u32) as u8)
}


/// Calls `std::io::Error::new` for the error that a cursor returns on a seek to
/// a negative or overflowing position.
#[verifier::external_body]
fn invalid_seek_error() -> std::io::Error {
    std::io::Error::new(
        std::io::ErrorKind::InvalidInput,
        "invalid seek to a negative or overflowing position",
    )
}

/// Little-endian binary writer over a growable buffer, with a cursor.
pub struct BinaryWriter {
    buffer: Vec<u8>,
    pos: u64,
}

impl BinaryWriter {
    /// The bytes written so far.
    pub closed spec fn contents(&self) -> Seq<u8> {
        self.buffer@
    }

    /// The cursor position.
    pub closed spec fn position(&self) -> nat {
        self.pos as nat
    }

    /// Whether `n` more bytes can be written at the cursor within the
    /// address space.
    pub open spec fn has_room(&self, n: int) -> bool {
        self.position() + n <= usize::MAX
    }

    /// Empty writer with the default capacity.
    pub fn new() -> (res: BinaryWriter)
        ensures
            res.contents() == Seq::<u8>::empty(),
            res.position() == 0,
    {
        BinaryWriter { buffer: Vec::with_capacity(DEFAULT_CAPACITY), pos: 0 }
    }

    /// Empty writer with room for `capacity` bytes.
    pub fn with_capacity(capacity: usize) -> (res: BinaryWriter)
        ensures
            res.contents() == Seq::<u8>::empty(),
            res.position() == 0,
    {
        BinaryWriter { buffer: Vec::with_capacity(capacity), pos: 0 }
    }

    /// Writes `bytes` at the cursor and moves it past them.
    pub fn write_bytes(&mut self, bytes: &[u8]) -> (res: Result<(), WriteError>)
        requires
            old(self).has_room(bytes@.len() as int),
        ensures
            res is Ok,
            final(self).contents() == write_at(old(self).contents(), old(self).position() as int, bytes@),
            final(self).position() == old(self).position() + bytes@.len(),
    {
        if bytes.len() == 0 {
            return Ok(());
        }
        let pos = self.pos as usize;
        let ghost old_buf = self.buffer@;
        while self.buffer.len() < pos
            invariant
                pos == self.pos,
                pos + bytes@.len() <= usize::MAX,
                self.buffer@.len() <= pos || self.buffer@ == old_buf,
                forall|i: int| 0 <= i < self.buffer@.len() ==> #[trigger] self.buffer@[i] == (if i
                    < old_buf.len() {
                    old_buf[i]
                } else {
                    0u8
                }),
                self.buffer@.len() >= old_buf.len(),
            decreases pos - self.buffer@.len(),
        {
            self.buffer.push(0u8);
        }
        let ghost padded = self.buffer@;
        let mut k: usize = 0;
        while k < bytes.len()
            invariant
                pos == self.pos,
                pos + bytes@.len() <= usize::MAX,
                k <= bytes@.len(),
                padded.len() >= pos,
                padded.len() >= old_buf.len(),
                forall|i: int| 0 <= i < padded.len() ==> #[trigger] padded[i] == (if i < old_buf.len() {
                    old_buf[i]
                } else {
                    0u8
                }),
                bytes@.len() > 0,
                k == 0 ==> self.buffer@ == padded,
                k > 0 ==> self.buffer@ =~= write_nonempty_at(padded, pos as int, bytes@.take(k as int)),
            decreases bytes@.len() - k,
        {
            let p = pos + k;
            if p < self.buffer.len() {
                self.buffer.set(p, bytes[k]);
            } else {
                self.buffer.push(bytes[k]);
            }
            k = k + 1;
            assert(self.buffer@ =~= write_nonempty_at(padded, pos as int, bytes@.take(k as int)));
        }
        proof {
            assert(bytes@.take(bytes@.len() as int) =~= bytes@);
            assert(self.buffer@ =~= write_at(old_buf, pos as int, bytes@));
        }
        self.pos = (pos + bytes.len()) as u64;
        Ok(())
    }

    /// Writes one byte.
    pub fn write_u8(&mut self, value: u8) -> (res: Result<(), WriteError>)
        requires
            old(self).has_room(1),
        ensures
            res is Ok,
            final(self).contents() == write_at(old(self).contents(), old(self).position() as int, seq![value]),
            final(self).position() == old(self).position() + 1,
    {
        let bytes = [value];
        assert(bytes@ =~= seq![value]);
        self.write_bytes(&bytes)
    }

    /// Writes the low byte of the code of `value`.
    pub fn write_char(&mut self, value: char) -> (res: Result<(), WriteError>)
        requires
            old(self).has_room(1),
        ensures
            res is Ok,
            final(self).contents() == write_at(
                old(self).contents(),
                old(self).position() as int,
                seq![(value as u32) as u8],
            ),
            final(self).position() == old(self).position() + 1,
    {
        self.write_u8((value as u32) as u8)
    }

    /// Writes a `u16`, little endian.
    pub fn write_u16(&mut self, value: u16) -> (res: Result<(), WriteError>)
        requires
            old(self).has_room(2),
        ensures
            res is Ok,
            final(self).contents() == write_at(old(self).contents(), old(self).position() as int, le_bytes_u16(value)),
            final(self).position() == old(self).position() + 2,
    {
        let bytes = [value as u8, (value >> 8u16) as u8];
        assert(bytes@ =~= le_bytes_u16(value));
        self.write_bytes(&bytes)
    }

    /// Writes an `i16`, little endian two's complement.
    pub fn write_i16(&mut self, value: i16) -> (res: Result<(), WriteError>)
        requires
            old(self).has_room(2),
        ensures
            res is Ok,
            final(self).contents() == write_at(
                old(self).contents(),
                old(self).position() as int,
                le_bytes_u16(value as u16),
            ),
            final(self).position() == old(self).position() + 2,
    {
        self.write_u16(value as u16)
    }

    /// Writes the low 24 bits of a `u32`, little endian; the value must fit in 24 bits.
    pub fn write_u24(&mut self, value: u32) -> (res: Result<(), WriteError>)
        requires
            old(self).has_room(3),
            value < 0x100_0000,
        ensures
            res is Ok,
            final(self).contents() == write_at(old(self).contents(), old(self).position() as int, le_bytes_u24(value)),
            final(self).position() == old(self).position() + 3,
    {
        let bytes = [value as u8, (value >> 8u32) as u8, (value >> 16u32) as u8];
        assert(bytes@ =~= le_bytes_u24(value));
        self.write_bytes(&bytes)
    }

    /// Writes the low 24 bits of an `i32`, little endian two's complement.
    pub fn write_i24(&mut self, value: i32) -> (res: Result<(), WriteError>)
        requires
            old(self).has_room(3),
        ensures
            res is Ok,
            final(self).contents() == write_at(
                old(self).contents(),
                old(self).position() as int,
                le_bytes_u24(value as u32),
            ),
            final(self).position() == old(self).position() + 3,
    {
        let v = value as u32;
        let bytes = [v as u8, (v >> 8u32) as u8, (v >> 16u32) as u8];
        assert(bytes@ =~= le_bytes_u24(v));
        self.write_bytes(&bytes)
    }

    /// Writes a `u32`, little endian.
    pub fn write_u32(&mut self, value: u32) -> (res: Result<(), WriteError>)
        requires
            old(self).has_room(4),
        ensures
            res is Ok,
            final(self).contents() == write_at(old(self).contents(), old(self).position() as int, le_bytes_u32(value)),
            final(self).position() == old(self).position() + 4,
    {
        let bytes = [value as u8, (value >> 8u32) as u8, (value >> 16u32) as u8, (value >> 24u32) as u8];
        assert(bytes@ =~= le_bytes_u32(value));
        self.write_bytes(&bytes)
    }

    /// Writes a `u32`, big endian.
    pub fn write_u32_big(&mut self, value: u32) -> (res: Result<(), WriteError>)
        requires
            old(self).has_room(4),
        ensures
            res is Ok,
            final(self).contents() == write_at(old(self).contents(), old(self).position() as int, be_bytes_u32(value)),
            final(self).position() == old(self).position() + 4,
    {
        let bytes = [(value >> 24u32) as u8, (value >> 16u32) as u8, (value >> 8u32) as u8, value as u8];
        assert(bytes@ =~= be_bytes_u32(value));
        self.write_bytes(&bytes)
    }

    /// Writes an `i32`, little endian two's complement.
    pub fn write_i32(&mut self, value: i32) -> (res: Result<(), WriteError>)
        requires
            old(self).has_room(4),
        ensures
            res is Ok,
            final(self).contents() == write_at(
                old(self).contents(),
                old(self).position() as int,
                le_bytes_u32(value as u32),
            ),
            final(self).position() == old(self).position() + 4,
    {
        self.write_u32(value as u32)
    }

    /// Writes an `i32`, big endian two's complement.
    pub fn write_i32_big(&mut self, value: i32) -> (res: Result<(), WriteError>)
        requires
            old(self).has_room(4),
        ensures
            res is Ok,
            final(self).contents() == write_at(
                old(self).contents(),
                old(self).position() as int,
                be_bytes_u32(value as u32),
            ),
            final(self).position() == old(self).position() + 4,
    {
        self.write_u32_big(value as u32)
    }

    /// Writes a `u64`, little endian.
    pub fn write_u64(&mut self, value: u64) -> (res: Result<(), WriteError>)
        requires
            old(self).has_room(8),
        ensures
            res is Ok,
            final(self).contents() == write_at(old(self).contents(), old(self).position() as int, le_bytes_u64(value)),
            final(self).position() == old(self).position() + 8,
    {
        let bytes = [
            value as u8,
            (value >> 8u64) as u8,
            (value >> 16u64) as u8,
            (value >> 24u64) as u8,
            (value >> 32u64) as u8,
            (value >> 40u64) as u8,
            (value >> 48u64) as u8,
            (value >> 56u64) as u8,
        ];
        assert(bytes@ =~= le_bytes_u64(value));
        self.write_bytes(&bytes)
    }

    /// Writes the UTF-8 bytes of `value`.
    pub fn write_string_utf8(&mut self, value: &str) -> (res: Result<(), WriteError>)
        requires
            old(self).has_room(value.spec_bytes().len() as int),
        ensures
            res is Ok,
            final(self).contents() == write_at(
                old(self).contents(),
                old(self).position() as int,
                value.spec_bytes(),
            ),
            final(self).position() == old(self).position() + value.spec_bytes().len(),
    {
        self.write_bytes(value.as_bytes())
    }

    /// Writes the UTF-8 bytes of `value` and a terminating NUL; fails, writing
    /// nothing, when `value` holds a NUL byte.
    pub fn write_c_string_converted(&mut self, value: &str) -> (res: Result<(), WriteError>)
        requires
            old(self).has_room(value.spec_bytes().len() + 1int),
        ensures
            value.spec_bytes().contains(0u8) ==> {
                &&& res matches Err(WriteError::Reason(m))
                &&& m@ == "Failed to create C string at position "@ + decimal_text(old(self).position())
                &&& final(self).contents() == old(self).contents()
                &&& final(self).position() == old(self).position()
            },
            !value.spec_bytes().contains(0u8) ==> {
                &&& res is Ok
                &&& final(self).contents() == write_at(
                    old(self).contents(),
                    old(self).position() as int,
                    value.spec_bytes().push(0u8),
                )
                &&& final(self).position() == old(self).position() + value.spec_bytes().len() + 1
            },
    {
        let bytes = value.as_bytes();
        let mut k: usize = 0;
        while k < bytes.len()
            invariant
                k <= bytes@.len(),
                bytes@ == value.spec_bytes(),
                forall|j: int| 0 <= j < k ==> bytes@[j] != 0u8,
            decreases bytes@.len() - k,
        {
            if bytes[k] == 0u8 {
                assert(bytes@.contains(0u8)) by {
                    assert(bytes@[k as int] == 0u8);
                }
                return Err(WriteError::Reason(text_with_number("Failed to create C string at position ", self.pos)));
            }
            k = k + 1;
        }
        let ghost before = self.contents();
        let ghost start = self.position() as int;
        self.write_bytes(bytes);
        let nul = [0u8];
        assert(nul@ =~= seq![0u8]);
        proof {
            lemma_write_at_concat(before, start, bytes@, seq![0u8]);
            assert(bytes@ + seq![0u8] =~= bytes@.push(0u8));
        }
        self.write_bytes(&nul)
    }

    /// Writes the low byte of the code of each char of `chars`.
    pub fn write_chars(&mut self, chars: &[char]) -> (res: Result<(), WriteError>)
        requires
            old(self).has_room(chars@.len() as int),
        ensures
            res is Ok,
            final(self).contents() == write_at(
                old(self).contents(),
                old(self).position() as int,
                char_bytes(chars@),
            ),
            final(self).position() == old(self).position() + chars@.len(),
    {
        let ghost before = self.contents();
        let ghost start = self.position() as int;
        let mut k: usize = 0;
        proof {
            assert(write_at(before, start, char_bytes(chars@.take(0))) =~= before);
        }
        while k < chars.len()
            invariant
                k <= chars@.len(),
                0 <= start,
                start + chars@.len() <= usize::MAX,
                self.position() == start + k,
                self.contents() == write_at(before, start, char_bytes(chars@.take(k as int))),
            decreases chars@.len() - k,
        {
            self.write_char(chars[k]);
            proof {
                lemma_write_at_concat(
                    before,
                    start,
                    char_bytes(chars@.take(k as int)),
                    seq![(chars@[k as int] as u32) as u8],
                );
                assert(char_bytes(chars@.take(k + 1)) =~= char_bytes(chars@.take(k as int)) + seq![
                    (chars@[k as int] as u32) as u8,
                ]);
            }
            k = k + 1;
        }
        assert(chars@.take(chars@.len() as int) =~= chars@);
        Ok(())
    }

    /// Writes each `i32` of `vec`, little endian.
    pub fn write_vec_i32(&mut self, vec: &[i32]) -> (res: Result<(), WriteError>)
        requires
            old(self).has_room(4int * vec@.len()),
        ensures
            res is Ok,
            final(self).contents() == write_at(
                old(self).contents(),
                old(self).position() as int,
                le_bytes_i32_seq(vec@),
            ),
            final(self).position() == old(self).position() + 4 * vec@.len(),
    {
        let ghost before = self.contents();
        let ghost start = self.position() as int;
        let mut k: usize = 0;
        proof {
            assert(write_at(before, start, Seq::<u8>::empty()) =~= before);
            assert(vec@.take(0) =~= Seq::<i32>::empty());
        }
        while k < vec.len()
            invariant
                k <= vec@.len(),
                0 <= start,
                start + 4 * vec@.len() <= usize::MAX,
                self.position() == start + 4 * k,
                le_bytes_i32_seq(vec@.take(k as int)).len() == 4 * k,
                self.contents() == write_at(before, start, le_bytes_i32_seq(vec@.take(k as int))),
            decreases vec@.len() - k,
        {
            self.write_i32(vec[k]);
            proof {
                lemma_write_at_concat(
                    before,
                    start,
                    le_bytes_i32_seq(vec@.take(k as int)),
                    le_bytes_u32(vec@[k as int] as u32),
                );
                assert(vec@.take(k + 1).drop_last() =~= vec@.take(k as int));
            }
            k = k + 1;
        }
        assert(vec@.take(vec@.len() as int) =~= vec@);
        Ok(())
    }

    /// Writes each `u32` of `vec`, little endian.
    pub fn write_vec_u32(&mut self, vec: &[u32]) -> (res: Result<(), WriteError>)
        requires
            old(self).has_room(4int * vec@.len()),
        ensures
            res is Ok,
            final(self).contents() == write_at(
                old(self).contents(),
                old(self).position() as int,
                le_bytes_u32_seq(vec@),
            ),
            final(self).position() == old(self).position() + 4 * vec@.len(),
    {
        let ghost before = self.contents();
        let ghost start = self.position() as int;
        let mut k: usize = 0;
        proof {
            assert(write_at(before, start, Seq::<u8>::empty()) =~= before);
            assert(vec@.take(0) =~= Seq::<u32>::empty());
        }
        while k < vec.len()
            invariant
                k <= vec@.len(),
                0 <= start,
                start + 4 * vec@.len() <= usize::MAX,
                self.position() == start + 4 * k,
                le_bytes_u32_seq(vec@.take(k as int)).len() == 4 * k,
                self.contents() == write_at(before, start, le_bytes_u32_seq(vec@.take(k as int))),
            decreases vec@.len() - k,
        {
            self.write_u32(vec[k]);
            proof {
                lemma_write_at_concat(
                    before,
                    start,
                    le_bytes_u32_seq(vec@.take(k as int)),
                    le_bytes_u32(vec@[k as int]),
                );
                assert(vec@.take(k + 1).drop_last() =~= vec@.take(k as int));
            }
            k = k + 1;
        }
        assert(vec@.take(vec@.len() as int) =~= vec@);
        Ok(())
    }

    /// Writes each `u32` of `vec`, big endian.
    pub fn write_vec_u32_be(&mut self, vec: &[u32]) -> (res: Result<(), WriteError>)
        requires
            old(self).has_room(4int * vec@.len()),
        ensures
            res is Ok,
            final(self).contents() == write_at(
                old(self).contents(),
                old(self).position() as int,
                be_bytes_u32_seq(vec@),
            ),
            final(self).position() == old(self).position() + 4 * vec@.len(),
    {
        let ghost before = self.contents();
        let ghost start = self.position() as int;
        let mut k: usize = 0;
        proof {
            assert(write_at(before, start, Seq::<u8>::empty()) =~= before);
            assert(vec@.take(0) =~= Seq::<u32>::empty());
        }
        while k < vec.len()
            invariant
                k <= vec@.len(),
                0 <= start,
                start + 4 * vec@.len() <= usize::MAX,
                self.position() == start + 4 * k,
                be_bytes_u32_seq(vec@.take(k as int)).len() == 4 * k,
                self.contents() == write_at(before, start, be_bytes_u32_seq(vec@.take(k as int))),
            decreases vec@.len() - k,
        {
            self.write_u32_big(vec[k]);
            proof {
                lemma_write_at_concat(
                    before,
                    start,
                    be_bytes_u32_seq(vec@.take(k as int)),
                    be_bytes_u32(vec@[k as int]),
                );
                assert(vec@.take(k + 1).drop_last() =~= vec@.take(k as int));
            }
            k = k + 1;
        }
        assert(vec@.take(vec@.len() as int) =~= vec@);
        Ok(())
    }

    /// Moves the cursor by `offset` bytes; fails, leaving it in place, when
    /// the new position would be negative or overflow.
    pub fn seek(&mut self, offset: i64) -> (res: Result<(), WriteError>)
        ensures
            final(self).contents() == old(self).contents(),
            0 <= old(self).position() + offset <= u64::MAX ==> res is Ok && final(self).position()
                == old(self).position() + offset,
            !(0 <= old(self).position() + offset <= u64::MAX) ==> (res matches Err(
                WriteError::IoError(_),
            ) && final(self).position() == old(self).position()),
    {
        if offset >= 0 {
            let forward = offset as u64;
            if self.pos <= u64::MAX - forward {
                self.pos = self.pos + forward;
                Ok(())
            } else {
                Err(WriteError::IoError(invalid_seek_error()))
            }
        } else {
            let back: u64 = if offset == i64::MIN {
                0x8000_0000_0000_0000u64
            } else {
                (-offset) as u64
            };
            if back <= self.pos {
                self.pos = self.pos - back;
                Ok(())
            } else {
                Err(WriteError::IoError(invalid_seek_error()))
            }
        }
    }

    /// Moves the cursor back to the start.
    pub fn seek_begin(&mut self) -> (res: Result<(), WriteError>)
        ensures
            res is Ok,
            final(self).contents() == old(self).contents(),
            final(self).position() == 0,
    {
        self.pos = 0;
        Ok(())
    }

    /// The cursor position.
    pub fn pos(&self) -> (res: u64)
        ensures
            res == self.position(),
    {
        self.pos
    }

    /// Number of bytes in the buffer.
    pub fn size(&self) -> (res: usize)
        ensures
            res == self.contents().len(),
    {
        self.buffer.len()
    }

    /// The bytes written so far.
    pub fn get_buffer(&self) -> (res: &[u8])
        ensures
            res@ == self.contents(),
    {
        self.buffer.as_slice()
    }

    /// Hands over the bytes written.
    pub fn into_buffer(self) -> (res: Vec<u8>)
        ensures
            res@ == self.contents(),
    {
        self.buffer
    }

    /// Empties the buffer and moves the cursor back to the start.
    pub fn clear(&mut self)
        ensures
            final(self).contents() == Seq::<u8>::empty(),
            final(self).position() == 0,
    {
        self.buffer.clear();
        self.pos = 0;
    }
}

impl Default for BinaryWriter {
    fn default() -> (res: Self)
        ensures
            res.contents() == Seq::<u8>::empty(),
            res.position() == 0,
    {
        BinaryWriter::new()
    }
}

} // verus!
