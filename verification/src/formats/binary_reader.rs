//! Little-endian byte reader with a cursor, the deserialization side of the
//! map file formats.

use vstd::prelude::*;
use vstd::utf8::{decode_utf8, valid_utf8};

use crate::formats::encoding::{u16_from_le, u32_from_be, u32_from_le};
use crate::formats::{MpqFileBuffer, ReadError};

verus! {

/// Calls `String::from_utf8`: the text of `bytes` when they are well-formed
/// UTF-8, the error (which hands the bytes back) otherwise.
#[verifier::external_body]
pub(crate) fn string_from_utf8(bytes: Vec<u8>) -> (res: Result<String, std::string::FromUtf8Error>)
    ensures
        res is Ok <==> valid_utf8(bytes@),
        res matches Ok(s) ==> s@ == decode_utf8(bytes@),
{
    String::from_utf8(bytes)
}

/// The `u16` stored little endian at `pos` in `buf`.
pub open spec fn u16_at(buf: Seq<u8>, pos: int) -> u16 {
    u16_from_le(buf[pos], buf[pos + 1])
}

/// The `u32` stored little endian at `pos` in `buf`.
pub open spec fn u32_at(buf: Seq<u8>, pos: int) -> u32 {
    u32_from_le(buf[pos], buf[pos + 1], buf[pos + 2], buf[pos + 3])
}

/// The `u32` stored big endian at `pos` in `buf`.
pub open spec fn u32_be_at(buf: Seq<u8>, pos: int) -> u32 {
    u32_from_be(buf[pos], buf[pos + 1], buf[pos + 2], buf[pos + 3])
}

/// Index of the first NUL byte of `buf` at or after `pos`, or the length of
/// `buf` when there is none.
pub open spec fn nul_index(buf: Seq<u8>, pos: int) -> int
    decreases buf.len() - pos,
{
    if pos < 0 || pos >= buf.len() {
        buf.len() as int
    } else if buf[pos] == 0 {
        pos
    } else {
        nul_index(buf, pos + 1)
    }
}

/// The bytes that store `text` as a C string: its UTF-8 encoding and a NUL.
pub open spec fn c_string_bytes(text: Seq<char>) -> Seq<u8> {
    vstd::utf8::encode_utf8(text).push(0u8)
}

/// Little-endian binary reader over a byte buffer, with a cursor.
pub struct BinaryReader {
    buffer: Vec<u8>,
    pos: usize,
}

impl BinaryReader {
    /// The bytes being read.
    pub closed spec fn contents(&self) -> Seq<u8> {
        self.buffer@
    }

    /// The cursor position.
    pub closed spec fn position(&self) -> nat {
        self.pos as nat
    }

    /// Whether `n` bytes are left after the cursor.
    pub open spec fn has(&self, n: int) -> bool {
        self.position() + n <= self.contents().len()
    }

    /// Internal consistency: the cursor stays within the buffer.
    pub open spec fn wf(&self) -> bool {
        self.position() <= self.contents().len()
    }

    /// Reader at the start of `buffer`.
    pub fn new(buffer: Vec<u8>) -> (res: Self)
        ensures
            res.wf(),
            res.contents() == buffer@,
            res.position() == 0,
    {
        BinaryReader { buffer, pos: 0 }
    }

    /// Reader at the start of the bytes of an archive file.
    pub fn from_buffer(buffer: MpqFileBuffer) -> (res: Self)
        ensures
            res.wf(),
            res.contents() == buffer.0@,
            res.position() == 0,
    {
        BinaryReader { buffer: buffer.inner(), pos: 0 }
    }

    /// Number of bytes in the buffer.
    pub fn size(&self) -> (res: usize)
        ensures
            res == self.contents().len(),
    {
        self.buffer.len()
    }

    /// The cursor position.
    pub fn pos(&self) -> (res: u64)
        ensures
            res == self.position(),
    {
        self.pos as u64
    }

    /// Moves the cursor back to the start.
    pub fn seek_begin(&mut self)
        ensures
            final(self).wf(),
            final(self).contents() == old(self).contents(),
            final(self).position() == 0,
    {
        self.pos = 0;
    }

    /// Moves the cursor by `offset` bytes, staying within the buffer: a move
    /// past either end stops there.
    pub fn skip(&mut self, offset: i64)
        requires
            old(self).wf(),
        ensures
            final(self).wf(),
            final(self).contents() == old(self).contents(),
            final(self).position() == if old(self).position() + offset < 0 {
                0
            } else if old(self).position() + offset > old(self).contents().len() {
                old(self).contents().len() as int
            } else {
                old(self).position() + offset
            },
    {
        let len = self.buffer.len();
        if offset >= 0 {
            let room = (len - self.pos) as u64;
            if (offset as u64) >= room {
                self.pos = len;
            } else {
                self.pos = self.pos + (offset as u64) as usize;
            }
        } else {
            let back: u64 = if offset == i64::MIN {
                0x8000_0000_0000_0000u64
            } else {
                (-offset) as u64
            };
            if back >= self.pos as u64 {
                self.pos = 0;
            } else {
                self.pos = self.pos - back as usize;
            }
        }
    }

    /// Reads `n` bytes; fails with [`ReadError::EOF`], leaving the cursor in
    /// place, when fewer are left.
    pub fn read_bytes(&mut self, n: usize) -> (res: Result<Vec<u8>, ReadError>)
        requires
            old(self).wf(),
        ensures
            final(self).wf(),
            final(self).contents() == old(self).contents(),
            old(self).has(n as int) ==> (res matches Ok(v) && v@ == old(self).contents().subrange(
                old(self).position() as int,
                old(self).position() + n,
            ) && final(self).position() == old(self).position() + n),
            !old(self).has(n as int) ==> (res matches Err(ReadError::EOF) && final(self).position()
                == old(self).position()),
    {
        if n > self.buffer.len() - self.pos {
            return Err(ReadError::EOF);
        }
        let mut out: Vec<u8> = Vec::with_capacity(n);
        let start = self.pos;
        let len = self.buffer.len();
        let mut k: usize = 0;
        while k < n
            invariant
                k <= n,
                len == self.buffer@.len(),
                start + n <= len,
                out@ == self.buffer@.subrange(start as int, start + k),
            decreases n - k,
        {
            out.push(self.buffer[start + k]);
            k = k + 1;
            assert(out@ =~= self.buffer@.subrange(start as int, start + k));
        }
        self.pos = start + n;
        Ok(out)
    }

    /// Reads one byte.
    pub fn read_u8(&mut self) -> (res: Result<u8, ReadError>)
        requires
            old(self).wf(),
        ensures
            final(self).wf(),
            final(self).contents() == old(self).contents(),
            old(self).has(1) ==> res == Ok::<u8, ReadError>(old(self).contents()[old(self).position() as int])
                && final(self).position() == old(self).position() + 1,
            !old(self).has(1) ==> (res matches Err(ReadError::EOF) && final(self).position()
                == old(self).position()),
    {
        if self.pos >= self.buffer.len() {
            return Err(ReadError::EOF);
        }
        let b = self.buffer[self.pos];
        self.pos = self.pos + 1;
        Ok(b)
    }

    /// Reads one byte as the character of that code.
    pub fn read_char(&mut self) -> (res: Result<char, ReadError>)
        requires
            old(self).wf(),
        ensures
            final(self).wf(),
            final(self).contents() == old(self).contents(),
            old(self).has(1) ==> res == Ok::<char, ReadError>(
                (old(self).contents()[old(self).position() as int]) as char,
            ) && final(self).position() == old(self).position() + 1,
            !old(self).has(1) ==> (res matches Err(ReadError::EOF) && final(self).position()
                == old(self).position()),
    {
        match self.read_u8() {
            Ok(b) => Ok(b as char),
            Err(e) => Err(e),
        }
    }

    /// Reads a `u16`, little endian.
    pub fn read_u16(&mut self) -> (res: Result<u16, ReadError>)
        requires
            old(self).wf(),
        ensures
            final(self).wf(),
            final(self).contents() == old(self).contents(),
            old(self).has(2) ==> res == Ok::<u16, ReadError>(u16_at(old(self).contents(), old(self).position() as int))
                && final(self).position() == old(self).position() + 2,
            !old(self).has(2) ==> (res matches Err(ReadError::EOF) && final(self).position()
                == old(self).position()),
    {
        if 2 > self.buffer.len() - self.pos {
            return Err(ReadError::EOF);
        }
        let p = self.pos;
        let v = (self.buffer[p] as u16) | ((self.buffer[p + 1] as u16) << 8u16);
        self.pos = p + 2;
        Ok(v)
    }

    /// Reads an `i16`, little endian two's complement.
    pub fn read_i16(&mut self) -> (res: Result<i16, ReadError>)
        requires
            old(self).wf(),
        ensures
            final(self).wf(),
            final(self).contents() == old(self).contents(),
            old(self).has(2) ==> res == Ok::<i16, ReadError>(u16_at(old(self).contents(), old(self).position() as int) as i16)
                && final(self).position() == old(self).position() + 2,
            !old(self).has(2) ==> (res matches Err(ReadError::EOF) && final(self).position()
                == old(self).position()),
    {
        match self.read_u16() {
            Ok(v) => Ok(v as i16),
            Err(e) => Err(e),
        }
    }

    /// Reads a `u32`, little endian.
    pub fn read_u32(&mut self) -> (res: Result<u32, ReadError>)
        requires
            old(self).wf(),
        ensures
            final(self).wf(),
            final(self).contents() == old(self).contents(),
            old(self).has(4) ==> res == Ok::<u32, ReadError>(u32_at(old(self).contents(), old(self).position() as int))
                && final(self).position() == old(self).position() + 4,
            !old(self).has(4) ==> (res matches Err(ReadError::EOF) && final(self).position()
                == old(self).position()),
    {
        if 4 > self.buffer.len() - self.pos {
            return Err(ReadError::EOF);
        }
        let p = self.pos;
        let v = (self.buffer[p] as u32) | ((self.buffer[p + 1] as u32) << 8u32) | ((self.buffer[p
            + 2] as u32) << 16u32) | ((self.buffer[p + 3] as u32) << 24u32);
        self.pos = p + 4;
        Ok(v)
    }

    /// Reads a `u32`, big endian.
    pub fn read_u32_big(&mut self) -> (res: Result<u32, ReadError>)
        requires
            old(self).wf(),
        ensures
            final(self).wf(),
            final(self).contents() == old(self).contents(),
            old(self).has(4) ==> res == Ok::<u32, ReadError>(u32_be_at(old(self).contents(), old(self).position() as int))
                && final(self).position() == old(self).position() + 4,
            !old(self).has(4) ==> (res matches Err(ReadError::EOF) && final(self).position()
                == old(self).position()),
    {
        if 4 > self.buffer.len() - self.pos {
            return Err(ReadError::EOF);
        }
        let p = self.pos;
        let v = (self.buffer[p + 3] as u32) | ((self.buffer[p + 2] as u32) << 8u32) | ((self.buffer[p
            + 1] as u32) << 16u32) | ((self.buffer[p] as u32) << 24u32);
        self.pos = p + 4;
        Ok(v)
    }

    /// Reads an `i32`, little endian two's complement.
    pub fn read_i32(&mut self) -> (res: Result<i32, ReadError>)
        requires
            old(self).wf(),
        ensures
            final(self).wf(),
            final(self).contents() == old(self).contents(),
            old(self).has(4) ==> res == Ok::<i32, ReadError>(u32_at(old(self).contents(), old(self).position() as int) as i32)
                && final(self).position() == old(self).position() + 4,
            !old(self).has(4) ==> (res matches Err(ReadError::EOF) && final(self).position()
                == old(self).position()),
    {
        match self.read_u32() {
            Ok(v) => Ok(v as i32),
            Err(e) => Err(e),
        }
    }

    /// Reads `n` `u32` values, little endian.
    pub fn read_vec_u32(&mut self, n: usize) -> (res: Result<Vec<u32>, ReadError>)
        requires
            old(self).wf(),
        ensures
            final(self).wf(),
            final(self).contents() == old(self).contents(),
            old(self).has(4 * n) ==> (res matches Ok(v) && v@.len() == n && (forall|k: int|
                0 <= k < n ==> #[trigger] v@[k] == u32_at(old(self).contents(), old(self).position() + 4 * k))
                && final(self).position() == old(self).position() + 4 * n),
            !old(self).has(4 * n) ==> res matches Err(ReadError::EOF),
    {
        let mut out: Vec<u32> = Vec::new();
        let ghost start = self.position() as int;
        let mut k: usize = 0;
        while k < n
            invariant
                self.wf(),
                self.contents() == old(self).contents(),
                start == old(self).position(),
                k <= n,
                out@.len() == k,
                self.position() == start + 4 * k,
                forall|j: int| 0 <= j < k ==> #[trigger] out@[j] == u32_at(self.contents(), start + 4 * j),
            decreases n - k,
        {
            match self.read_u32() {
                Ok(v) => out.push(v),
                Err(e) => {
                    return Err(e);
                },
            }
            k = k + 1;
        }
        Ok(out)
    }

    /// Reads `n` bytes as UTF-8 text; fails with [`ReadError::Utf8Error`]
    /// when they are not UTF-8.
    pub fn read_string_utf8(&mut self, n: usize) -> (res: Result<String, ReadError>)
        requires
            old(self).wf(),
        ensures
            final(self).wf(),
            final(self).contents() == old(self).contents(),
            ({
                let bytes = old(self).contents().subrange(
                    old(self).position() as int,
                    old(self).position() + n,
                );
                &&& old(self).has(n as int) && valid_utf8(bytes) ==> (res matches Ok(s) && s@
                    == decode_utf8(bytes))
                &&& old(self).has(n as int) && !valid_utf8(bytes) ==> (res matches Err(
                    ReadError::Utf8Error { position, length, .. },
                ) && position == old(self).position() && length == n)
                &&& !old(self).has(n as int) ==> (res matches Err(ReadError::EOF))
                &&& old(self).has(n as int) ==> final(self).position() == old(self).position() + n
                &&& !old(self).has(n as int) ==> final(self).position() == old(self).position()
            }),
    {
        let position = self.pos as u64;
        let bytes = match self.read_bytes(n) {
            Ok(b) => b,
            Err(e) => {
                return Err(e);
            },
        };
        match string_from_utf8(bytes) {
            Ok(s) => Ok(s),
            Err(source) => Err(ReadError::Utf8Error { position, length: n, source }),
        }
    }

    /// Reads the bytes of a NUL-terminated string, without the NUL, and moves
    /// past its NUL. Without a NUL before the end it fails with
    /// [`ReadError::NullCString`] and the cursor stays where it was.
    pub fn read_c_string(&mut self) -> (res: Result<Vec<u8>, ReadError>)
        requires
            old(self).wf(),
        ensures
            final(self).wf(),
            final(self).contents() == old(self).contents(),
            ({
                let buf = old(self).contents();
                let p = old(self).position() as int;
                let n = nul_index(buf, p);
                &&& p <= n <= buf.len()
                &&& res is Ok <==> n < buf.len()
                &&& res matches Ok(v) ==> v@ == buf.subrange(p, n) && final(self).position() == n + 1
                &&& res is Err ==> (res matches Err(ReadError::NullCString { position, length })
                    && position == p && length == buf.len() - p && final(self).position() == p)
            }),
    {
        let start = self.pos;
        let mut k = start;
        while k < self.buffer.len() && self.buffer[k] != 0
            invariant
                start <= k <= self.buffer@.len(),
                start == self.pos,
                self.pos <= self.buffer@.len(),
                nul_index(self.buffer@, k as int) == nul_index(self.buffer@, start as int),
            decreases self.buffer@.len() - k,
        {
            k = k + 1;
        }
        if k == self.buffer.len() {
            return Err(ReadError::NullCString { position: start as u64, length: k - start });
        }
        let mut bytes: Vec<u8> = Vec::new();
        let mut j = start;
        while j < k
            invariant
                start <= j <= k < self.buffer@.len(),
                bytes@ == self.buffer@.subrange(start as int, j as int),
            decreases k - j,
        {
            bytes.push(self.buffer[j]);
            assert(self.buffer@.subrange(start as int, j + 1) == self.buffer@.subrange(
                start as int,
                j as int,
            ).push(self.buffer@[j as int]));
            j = j + 1;
        }
        self.pos = k + 1;
        Ok(bytes)
    }

    /// Reads a NUL-terminated UTF-8 string and moves past its NUL. Without a
    /// NUL before the end it fails with [`ReadError::NullCString`], on bytes
    /// that are not UTF-8 with [`ReadError::Utf8Error`]; on failure the cursor
    /// stays where it was.
    pub fn read_c_string_converted(&mut self) -> (res: Result<String, ReadError>)
        requires
            old(self).wf(),
        ensures
            final(self).wf(),
            final(self).contents() == old(self).contents(),
            ({
                let buf = old(self).contents();
                let p = old(self).position() as int;
                let n = nul_index(buf, p);
                let bytes = buf.subrange(p, n);
                &&& p <= n <= buf.len()
                &&& n == buf.len() ==> (res matches Err(ReadError::NullCString { position, length })
                    && position == p && length == buf.len() - p)
                &&& n < buf.len() && valid_utf8(bytes) ==> res is Ok
                &&& res matches Ok(s) ==> (n < buf.len() && valid_utf8(bytes) && s@ == decode_utf8(
                    bytes,
                ) && final(self).position() == n + 1)
                &&& n < buf.len() && !valid_utf8(bytes) ==> (res matches Err(
                    ReadError::Utf8Error { position, length, .. },
                ) && position == p && length == n - p)
                &&& res is Err ==> final(self).position() == p
            }),
    {
        let start = self.pos;
        let mut k = start;
        while k < self.buffer.len() && self.buffer[k] != 0
            invariant
                start <= k <= self.buffer@.len(),
                start == self.pos,
                self.pos <= self.buffer@.len(),
                nul_index(self.buffer@, k as int) == nul_index(self.buffer@, start as int),
            decreases self.buffer@.len() - k,
        {
            k = k + 1;
        }
        if k == self.buffer.len() {
            return Err(ReadError::NullCString { position: start as u64, length: k - start });
        }
        let mut bytes: Vec<u8> = Vec::new();
        let mut j = start;
        while j < k
            invariant
                start <= j <= k < self.buffer@.len(),
                bytes@ == self.buffer@.subrange(start as int, j as int),
            decreases k - j,
        {
            bytes.push(self.buffer[j]);
            assert(self.buffer@.subrange(start as int, j + 1) == self.buffer@.subrange(
                start as int,
                j as int,
            ).push(self.buffer@[j as int]));
            j = j + 1;
        }
        match string_from_utf8(bytes) {
            Ok(s) => {
                self.pos = k + 1;
                Ok(s)
            },
            Err(source) => Err(
                ReadError::Utf8Error { position: start as u64, length: k - start, source },
            ),
        }
    }
}

} // verus!
