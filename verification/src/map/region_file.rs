//! Regions of the map (`war3map.w3r`).

use vstd::prelude::*;
use vstd::utf8::encode_utf8;

use crate::formats::binary_reader::{c_string_bytes, u32_at, BinaryReader};
use crate::formats::binary_writer::{lemma_write_at_concat, write_at, BinaryWriter};
use crate::formats::encoding::le_bytes_u32;
use crate::formats::{MpqError, ReadError, WriteError};
use crate::map::error::MapError;
use crate::map::field_roundtrip::{field_reads, kinds, lemma_fields_in, lemma_seq_in, value_ok, values_bytes, FieldValue};
use crate::map::trigger_jass_file::lemma_u32_in;
use crate::map::custom_datas::skip_end;
use crate::map::triggers::trigger_data::{c_text_ok, has_bytes};
use crate::map::unit_map::{lemma_seq_bytes_prefix, lemma_seq_end_none, seq_bytes, seq_end, seq_read};
use crate::map::triggers::trigger_data::c_string_at;
use crate::map::unit_map::code_text;
use crate::map::w3i_file::{
    byte_field, code_field, counted_end, counted_read, fields_end, lemma_field_step, lemma_word_run, read_byte,
    read_code, read_text, read_word, text_field, word_field, FieldKind,
};

verus! {

/// Errors of the regions file.
#[derive(Debug)]
pub enum RegionError {
    MpqError(MpqError),
    InitReader(ReadError),
    Parsing(ReadError),
}

/// A region of the map. Its bounds are held as the bits of their IEEE 754
/// single precision encoding, which is how the file stores them.
#[derive(Debug, PartialEq)]
pub struct Region {
    pub left: u32,
    pub right: u32,
    pub bottom: u32,
    pub top: u32,
    pub name: String,
    pub index: u32,
    pub weather_effect: String,
    pub weather_enabled: bool,
    pub ambient_sound: String,
    pub color: Vec<u8>,
}

/// How a region is stored: left, bottom, right and top, name, index,
/// weather code, ambient sound, three color bytes; one more byte follows.
pub open spec fn region_layout() -> Seq<FieldKind> {
    seq![FieldKind::Word, FieldKind::Word, FieldKind::Word, FieldKind::Word, FieldKind::Text, FieldKind::Word, FieldKind::Code, FieldKind::Text, FieldKind::Byte, FieldKind::Byte, FieldKind::Byte]
}

/// Where the region stored at `q` ends, when it can be read: the byte after
/// its color is skipped, as far as the bytes go.
pub open spec fn region_end(d: Seq<u8>, q: int) -> Option<int> {
    match fields_end(d, q, region_layout()) {
        Some(e) => Some(skip_end(d, e, 1)),
        None => None,
    }
}

/// Whether `x` is the region stored at `q`; the weather flag reads as off.
pub open spec fn region_at(d: Seq<u8>, q: int, x: Region) -> bool {
    let l = region_layout();
    &&& fields_end(d, q, l) is Some
    &&& x.left == word_field(d, q, l, 0)
    &&& x.bottom == word_field(d, q, l, 1)
    &&& x.right == word_field(d, q, l, 2)
    &&& x.top == word_field(d, q, l, 3)
    &&& x.name@ == text_field(d, q, l, 4)
    &&& x.index == word_field(d, q, l, 5)
    &&& x.weather_effect@ == code_field(d, q, l, 6)
    &&& !x.weather_enabled
    &&& x.ambient_sound@ == text_field(d, q, l, 7)
    &&& x.color@ == seq![byte_field(d, q, l, 8), byte_field(d, q, l, 9), byte_field(d, q, l, 10)]
}

/// The layout of a region in the regions file: its left, bottom, right and
/// top bounds as little-endian words at bytes 0, 4, 8 and 12; its name as a
/// NUL-terminated UTF-8 text from byte 16; right after the name's NUL, its
/// index as a word, its weather code in the next four bytes, its ambient
/// sound as a NUL-terminated text, and after that NUL its three color bytes.
pub proof fn law_region_layout(d: Seq<u8>, q: int, x: Region)
    requires
        region_at(d, q, x),
    ensures
        x.left == u32_at(d, q),
        x.bottom == u32_at(d, q + 4),
        x.right == u32_at(d, q + 8),
        x.top == u32_at(d, q + 12),
        c_string_at(d, q + 16) matches Some((name, e)) && {
            &&& x.name@ == name
            &&& x.index == u32_at(d, e)
            &&& x.weather_effect@ == code_text(d, e + 4)
            &&& c_string_at(d, e + 8) matches Some((sound, f)) && {
                &&& x.ambient_sound@ == sound
                &&& x.color@ == seq![d[f], d[f + 1], d[f + 2]]
            }
        },
{
    let l = region_layout();
    assert(l.take(0) =~= Seq::<FieldKind>::empty());
    lemma_word_run(d, q, l, 0, 4);
    assert(fields_end(d, q, l.take(4)) == Some(q + 16));
    lemma_field_step(d, q, l, 5);
    lemma_field_step(d, q, l, 6);
    lemma_field_step(d, q, l, 7);
    lemma_field_step(d, q, l, 8);
    lemma_field_step(d, q, l, 9);
    lemma_field_step(d, q, l, 10);
    lemma_field_step(d, q, l, 11);
}

/// The four bytes that store weather code `s`: its UTF-8 bytes, cut or
/// padded with zeros to four.
pub open spec fn weather_bytes(s: Seq<char>) -> Seq<u8> {
    Seq::new(
        4,
        |i: int|
            if i < encode_utf8(s).len() {
                encode_utf8(s)[i]
            } else {
                0u8
            },
    )
}

/// The bytes that store region `x`.
pub open spec fn region_bytes(x: Region) -> Seq<u8> {
    le_bytes_u32(x.left) + le_bytes_u32(x.bottom) + le_bytes_u32(x.right) + le_bytes_u32(x.top)
        + c_string_bytes(x.name@) + le_bytes_u32(x.index) + weather_bytes(x.weather_effect@)
        + c_string_bytes(x.ambient_sound@) + x.color@ + seq![0u8]
}

/// Whether region `x` can be written: its texts hold no NUL.
pub open spec fn region_writable(x: Region) -> bool {
    c_text_ok(x.name@) && c_text_ok(x.ambient_sound@)
}

/// [`region_bytes`] as a function.
pub open spec fn region_bytes_of() -> spec_fn(Region) -> Seq<u8> {
    |x: Region| region_bytes(x)
}

/// Where the regions stored from a position end.
pub open spec fn region_ends(d: Seq<u8>) -> spec_fn(int) -> Option<int> {
    |q: int| region_end(d, q)
}

/// Where reading region `x` from a position ends.
pub open spec fn region_reads(d: Seq<u8>) -> spec_fn(int, Region) -> Option<int> {
    |q: int, x: Region| if region_at(d, q, x) {
        region_end(d, q)
    } else {
        None
    }
}

impl Region {
    /// Reads a region.
    pub fn read(reader: &mut BinaryReader) -> (res: Result<Self, ReadError>)
        requires
            old(reader).wf(),
        ensures
            final(reader).wf(),
            final(reader).contents() == old(reader).contents(),
            res is Ok <==> region_end(old(reader).contents(), old(reader).position() as int) is Some,
            res is Ok ==> region_end(old(reader).contents(), old(reader).position() as int) == Some(
                final(reader).position() as int,
            ),
            res matches Ok(x) ==> region_at(old(reader).contents(), old(reader).position() as int, x),
    {
        let ghost p = reader.position() as int;
        let ghost l = region_layout();
        assert(l.take(0) =~= Seq::<FieldKind>::empty());
        let left = match read_word(reader, Ghost(p), Ghost(l), Ghost(0int)) {
            Ok(v) => v,
            Err(e) => {
                return Err(e);
            },
        };
        let bottom = match read_word(reader, Ghost(p), Ghost(l), Ghost(1int)) {
            Ok(v) => v,
            Err(e) => {
                return Err(e);
            },
        };
        let right = match read_word(reader, Ghost(p), Ghost(l), Ghost(2int)) {
            Ok(v) => v,
            Err(e) => {
                return Err(e);
            },
        };
        let top = match read_word(reader, Ghost(p), Ghost(l), Ghost(3int)) {
            Ok(v) => v,
            Err(e) => {
                return Err(e);
            },
        };
        let name = match read_text(reader, Ghost(p), Ghost(l), Ghost(4int)) {
            Ok(v) => v,
            Err(e) => {
                return Err(e);
            },
        };
        let index = match read_word(reader, Ghost(p), Ghost(l), Ghost(5int)) {
            Ok(v) => v,
            Err(e) => {
                return Err(e);
            },
        };
        let weather_effect = match read_code(reader, Ghost(p), Ghost(l), Ghost(6int)) {
            Ok(v) => v,
            Err(e) => {
                return Err(e);
            },
        };
        let ambient_sound = match read_text(reader, Ghost(p), Ghost(l), Ghost(7int)) {
            Ok(v) => v,
            Err(e) => {
                return Err(e);
            },
        };
        let c0 = match read_byte(reader, Ghost(p), Ghost(l), Ghost(8int)) {
            Ok(v) => v,
            Err(e) => {
                return Err(e);
            },
        };
        let c1 = match read_byte(reader, Ghost(p), Ghost(l), Ghost(9int)) {
            Ok(v) => v,
            Err(e) => {
                return Err(e);
            },
        };
        let c2 = match read_byte(reader, Ghost(p), Ghost(l), Ghost(10int)) {
            Ok(v) => v,
            Err(e) => {
                return Err(e);
            },
        };
        assert(l.take(11) =~= l);
        let mut color: Vec<u8> = Vec::new();
        color.push(c0);
        color.push(c1);
        color.push(c2);
        assert(color@ =~= seq![c0, c1, c2]);
        reader.skip(1);
        Ok(Region {
            left,
            right,
            bottom,
            top,
            name,
            index,
            weather_effect,
            weather_enabled: false,
            ambient_sound,
            color,
        })
    }

    /// Writes the region; a name or ambient sound that holds a NUL fails.
    pub fn write(&self, writer: &mut BinaryWriter) -> (res: Result<(), WriteError>)
        requires
            old(writer).has_room(region_bytes(*self).len() as int),
        ensures
            res is Ok <==> region_writable(*self),
            res is Ok ==> final(writer).contents() == write_at(
                old(writer).contents(),
                old(writer).position() as int,
                region_bytes(*self),
            ) && final(writer).position() == old(writer).position() + region_bytes(*self).len(),
    {
        let ghost c0 = writer.contents();
        let ghost p0 = writer.position() as int;
        let ghost mut acc: Seq<u8> = Seq::empty();
        assert(write_at(c0, p0, acc) =~= c0);
        let _ = writer.write_u32(self.left);
        proof {
            lemma_write_at_concat(c0, p0, acc, le_bytes_u32(self.left));
            acc = acc + le_bytes_u32(self.left);
        }
        let _ = writer.write_u32(self.bottom);
        proof {
            lemma_write_at_concat(c0, p0, acc, le_bytes_u32(self.bottom));
            acc = acc + le_bytes_u32(self.bottom);
        }
        let _ = writer.write_u32(self.right);
        proof {
            lemma_write_at_concat(c0, p0, acc, le_bytes_u32(self.right));
            acc = acc + le_bytes_u32(self.right);
        }
        let _ = writer.write_u32(self.top);
        proof {
            lemma_write_at_concat(c0, p0, acc, le_bytes_u32(self.top));
            acc = acc + le_bytes_u32(self.top);
        }
        match writer.write_c_string_converted(self.name.as_str()) {
            Ok(()) => {},
            Err(e) => {
                return Err(e);
            },
        }
        proof {
            assert(encode_utf8(self.name@).push(0u8) =~= c_string_bytes(self.name@));
            lemma_write_at_concat(c0, p0, acc, c_string_bytes(self.name@));
            acc = acc + c_string_bytes(self.name@);
        }
        let _ = writer.write_u32(self.index);
        proof {
            lemma_write_at_concat(c0, p0, acc, le_bytes_u32(self.index));
            acc = acc + le_bytes_u32(self.index);
        }
        let src = self.weather_effect.as_str().as_bytes();
        let mut weather = [0u8; 4];
        let mut i: usize = 0;
        while i < 4
            invariant
                i <= 4,
                src@ == encode_utf8(self.weather_effect@),
                forall|j: int| 0 <= j < i ==> weather@[j] == weather_bytes(self.weather_effect@)[j],
                forall|j: int| i <= j < 4 ==> weather@[j] == 0u8,
            decreases 4 - i,
        {
            if i < src.len() {
                weather[i] = src[i];
            }
            i = i + 1;
        }
        assert(weather@ =~= weather_bytes(self.weather_effect@));
        let _ = writer.write_bytes(weather.as_slice());
        proof {
            lemma_write_at_concat(c0, p0, acc, weather_bytes(self.weather_effect@));
            acc = acc + weather_bytes(self.weather_effect@);
        }
        match writer.write_c_string_converted(self.ambient_sound.as_str()) {
            Ok(()) => {},
            Err(e) => {
                return Err(e);
            },
        }
        proof {
            assert(encode_utf8(self.ambient_sound@).push(0u8) =~= c_string_bytes(self.ambient_sound@));
            lemma_write_at_concat(c0, p0, acc, c_string_bytes(self.ambient_sound@));
            acc = acc + c_string_bytes(self.ambient_sound@);
        }
        let _ = writer.write_bytes(self.color.as_slice());
        proof {
            lemma_write_at_concat(c0, p0, acc, self.color@);
            acc = acc + self.color@;
        }
        let _ = writer.write_u8(0);
        proof {
            lemma_write_at_concat(c0, p0, acc, seq![0u8]);
            acc = acc + seq![0u8];
        }
        assert(acc =~= region_bytes(*self));
        Ok(())
    }
}

/// Reads `n` entries.
fn read_regions(reader: &mut BinaryReader, n: u32) -> (res: Result<Vec<Region>, ReadError>)
    requires
        old(reader).wf(),
    ensures
        final(reader).wf(),
        final(reader).contents() == old(reader).contents(),
        ({
            let d = old(reader).contents();
            let p = old(reader).position() as int;
            &&& res is Ok <==> seq_end(p, n as nat, region_ends(d)) is Some
            &&& res is Ok ==> seq_end(p, n as nat, region_ends(d)) == Some(final(reader).position() as int)
            &&& res matches Ok(s) ==> s@.len() == n && seq_read(p, s@, region_reads(d)) == Some(
                final(reader).position() as int,
            )
        }),
{
    let ghost d = reader.contents();
    let ghost p0 = reader.position() as int;
    let mut items: Vec<Region> = Vec::new();
    let mut k: u32 = 0;
    while k < n
        invariant
            reader.wf(),
            reader.contents() == d,
            d == old(reader).contents(),
            p0 == old(reader).position(),
            k <= n,
            items@.len() == k,
            seq_end(p0, k as nat, region_ends(d)) == Some(reader.position() as int),
            seq_read(p0, items@, region_reads(d)) == Some(reader.position() as int),
        decreases n - k,
    {
        let x = match Region::read(reader) {
            Ok(x) => x,
            Err(e) => {
                proof {
                    assert(seq_end(p0, (k + 1) as nat, region_ends(d)) is None);
                    lemma_seq_end_none(p0, (k + 1) as nat, n as nat, region_ends(d));
                }
                return Err(e);
            },
        };
        let ghost before = items@;
        items.push(x);
        assert(items@.drop_last() == before);
        k = k + 1;
    }
    Ok(items)
}

/// Writes the entries `items`, one after the other; fails on the first one
/// that cannot be written.
fn write_regions(writer: &mut BinaryWriter, items: &Vec<Region>) -> (res: Result<(), WriteError>)
    requires
        old(writer).has_room(seq_bytes(items@, region_bytes_of()).len() as int),
    ensures
        res is Ok <==> (forall|i: int| 0 <= i < items@.len() ==> #[trigger] region_writable(items@[i])),
        res is Ok ==> final(writer).contents() == write_at(
            old(writer).contents(),
            old(writer).position() as int,
            seq_bytes(items@, region_bytes_of()),
        ) && final(writer).position() == old(writer).position() + seq_bytes(items@, region_bytes_of()).len(),
{
    let ghost c0 = writer.contents();
    let ghost p0 = writer.position() as int;
    let ghost s = items@;
    let ghost f = region_bytes_of();
    let mut k: usize = 0;
    while k < items.len()
        invariant
            k <= s.len(),
            s == items@,
            f == region_bytes_of(),
            0 <= p0,
            p0 + seq_bytes(s, f).len() <= usize::MAX,
            writer.contents() == write_at(c0, p0, seq_bytes(s.take(k as int), f)),
            writer.position() == p0 + seq_bytes(s.take(k as int), f).len(),
            forall|i: int| 0 <= i < k ==> #[trigger] region_writable(s[i]),
        decreases s.len() - k,
    {
        proof {
            lemma_seq_bytes_prefix(s, f, k + 1);
            assert(s.take(k + 1).drop_last() == s.take(k as int));
            assert(s.take(k + 1).last() == s[k as int]);
        }
        match items[k].write(writer) {
            Ok(()) => {},
            Err(e) => {
                return Err(e);
            },
        }
        proof {
            lemma_write_at_concat(c0, p0, seq_bytes(s.take(k as int), f), f(s[k as int]));
        }
        k = k + 1;
    }
    assert(s.take(s.len() as int) == s);
    Ok(())
}

/// The regions file: its version and regions.
#[derive(Debug)]
pub struct RegionFile {
    pub version: u32,
    pub regions: Vec<Region>,
}

/// Where the regions file stored at `p` ends, when it can be read.
pub open spec fn region_file_end(d: Seq<u8>, p: int) -> Option<int> {
    if has_bytes(d, p, 4) {
        counted_end(d, p + 4, region_ends(d))
    } else {
        None
    }
}

/// The bytes that store regions file `x`: nothing without regions.
pub open spec fn region_file_bytes(x: RegionFile) -> Seq<u8> {
    if x.regions@.len() == 0 {
        Seq::empty()
    } else {
        le_bytes_u32(x.version) + le_bytes_u32(x.regions@.len() as u32) + seq_bytes(
            x.regions@,
            region_bytes_of(),
        )
    }
}

/// A non-empty regions file starts with its format version and the count of
/// its regions as little-endian words at bytes 0 and 4; an empty one is
/// written as no bytes at all.
pub proof fn law_regions_file_head(x: RegionFile)
    ensures
        x.regions@.len() == 0 ==> region_file_bytes(x).len() == 0,
        x.regions@.len() > 0 ==> region_file_bytes(x).subrange(0, 4) == le_bytes_u32(x.version) && region_file_bytes(x).subrange(4, 8)
            == le_bytes_u32(x.regions@.len() as u32),
{
    if x.regions@.len() > 0 {
        assert(region_file_bytes(x).subrange(0, 4) =~= le_bytes_u32(x.version));
        assert(region_file_bytes(x).subrange(4, 8) =~= le_bytes_u32(x.regions@.len() as u32));
    }
}

impl RegionFile {
    /// Name of the file in the map archive.
    pub const FILE_NAME: &'static str = "war3map.w3r";

    /// Reads the regions file at the cursor and leaves the cursor after it.
    pub fn read_fields(reader: &mut BinaryReader) -> (res: Result<Self, ReadError>)
        requires
            old(reader).wf(),
        ensures
            final(reader).wf(),
            final(reader).contents() == old(reader).contents(),
            ({
                let d = old(reader).contents();
                let p = old(reader).position() as int;
                &&& res is Ok <==> region_file_end(d, p) is Some
                &&& res is Ok ==> region_file_end(d, p) == Some(final(reader).position() as int)
                &&& res matches Ok(x) ==> x.version == u32_at(d, p) && counted_read(
                    d,
                    p + 4,
                    x.regions@,
                    region_reads(d),
                ) == region_file_end(d, p)
            }),
    {
        let version = match reader.read_u32() {
            Ok(v) => v,
            Err(e) => {
                return Err(e);
            },
        };
        let count = match reader.read_u32() {
            Ok(v) => v,
            Err(e) => {
                return Err(e);
            },
        };
        match read_regions(reader, count) {
            Ok(regions) => Ok(RegionFile { version, regions }),
            Err(e) => Err(e),
        }
    }

    /// Reads the regions file, which fills the buffer from the cursor to its
    /// end.
    pub fn read(reader: &mut BinaryReader) -> (res: Result<Self, ReadError>)
        requires
            old(reader).wf(),
            region_file_end(old(reader).contents(), old(reader).position() as int) matches Some(q) ==> q
                == old(reader).contents().len(),
        ensures
            final(reader).wf(),
            final(reader).contents() == old(reader).contents(),
            ({
                let d = old(reader).contents();
                let p = old(reader).position() as int;
                &&& res is Ok <==> region_file_end(d, p) is Some
                &&& res matches Ok(x) ==> x.version == u32_at(d, p) && counted_read(
                    d,
                    p + 4,
                    x.regions@,
                    region_reads(d),
                ) == Some(d.len() as int)
            }),
    {
        Self::read_fields(reader)
    }

    /// Reads the regions file when there are bytes; an empty buffer has none.
    pub fn read_opt(reader: &mut BinaryReader) -> (res: Result<Option<Self>, MapError>)
        requires
            old(reader).wf(),
            old(reader).contents().len() > 0 ==> (region_file_end(old(reader).contents(), old(reader).position() as int)
                matches Some(q) ==> q == old(reader).contents().len()),
        ensures
            final(reader).wf(),
            final(reader).contents() == old(reader).contents(),
            ({
                let d = old(reader).contents();
                let p = old(reader).position() as int;
                &&& d.len() == 0 ==> (res matches Ok(None))
                &&& d.len() > 0 ==> (res is Ok <==> region_file_end(d, p) is Some)
                &&& res matches Ok(Some(x)) ==> x.version == u32_at(d, p) && counted_read(
                    d,
                    p + 4,
                    x.regions@,
                    region_reads(d),
                ) == Some(d.len() as int)
                &&& res matches Err(e) ==> (e matches MapError::Region(RegionError::Parsing(_)))
            }),
    {
        if reader.size() > 0 {
            match Self::read(reader) {
                Ok(x) => Ok(Some(x)),
                Err(e) => Err(MapError::Region(RegionError::Parsing(e))),
            }
        } else {
            Ok(None)
        }
    }

    /// Writes the regions file at the cursor: nothing without regions; a
    /// region text that holds a NUL fails.
    pub fn write(&self, writer: &mut BinaryWriter) -> (res: Result<(), WriteError>)
        requires
            old(writer).has_room(region_file_bytes(*self).len() as int),
        ensures
            res is Ok <==> (forall|i: int| 0 <= i < self.regions@.len() ==> #[trigger] region_writable(self.regions@[i])),
            res is Ok ==> final(writer).contents() == write_at(
                old(writer).contents(),
                old(writer).position() as int,
                region_file_bytes(*self),
            ) && final(writer).position() == old(writer).position() + region_file_bytes(*self).len(),
    {
        let ghost c0 = writer.contents();
        let ghost p0 = writer.position() as int;
        if self.regions.len() == 0 {
            assert(write_at(c0, p0, Seq::empty()) =~= c0);
            return Ok(());
        }
        let ghost a = le_bytes_u32(self.version);
        let ghost b = le_bytes_u32(self.regions@.len() as u32);
        let _ = writer.write_u32(self.version);
        let _ = writer.write_u32(self.regions.len() as u32);
        proof {
            lemma_write_at_concat(c0, p0, a, b);
        }
        match write_regions(writer, &self.regions) {
            Ok(()) => {},
            Err(e) => {
                return Err(e);
            },
        }
        proof {
            lemma_write_at_concat(c0, p0, a + b, seq_bytes(self.regions@, region_bytes_of()));
        }
        Ok(())
    }

    /// The serialized regions file in a fresh writer.
    pub fn prepare_write(&self) -> (res: Result<BinaryWriter, WriteError>)
        requires
            region_file_bytes(*self).len() <= usize::MAX,
        ensures
            res is Ok <==> (forall|i: int| 0 <= i < self.regions@.len() ==> #[trigger] region_writable(self.regions@[i])),
            res matches Ok(w) ==> w.contents() == region_file_bytes(*self),
    {
        let mut writer = BinaryWriter::new();
        match self.write(&mut writer) {
            Ok(()) => {
                proof {
                    assert(write_at(Seq::empty(), 0, region_file_bytes(*self)) =~= region_file_bytes(
                        *self,
                    ));
                }
                Ok(writer)
            },
            Err(e) => Err(e),
        }
    }
}


/// The fields of region `x`, as stored (its weather code taken as four
/// bytes).
pub open spec fn region_values(x: Region) -> Seq<FieldValue> {
    seq![
        (FieldKind::Word, x.left, Seq::empty()),
        (FieldKind::Word, x.bottom, Seq::empty()),
        (FieldKind::Word, x.right, Seq::empty()),
        (FieldKind::Word, x.top, Seq::empty()),
        (FieldKind::Text, 0u32, x.name@),
        (FieldKind::Word, x.index, Seq::empty()),
        (FieldKind::Code, 0u32, x.weather_effect@),
        (FieldKind::Text, 0u32, x.ambient_sound@),
        (FieldKind::Byte, x.color@[0] as u32, Seq::empty()),
        (FieldKind::Byte, x.color@[1] as u32, Seq::empty()),
        (FieldKind::Byte, x.color@[2] as u32, Seq::empty()),
    ]
}

/// Whether region `x` reads back as written: texts without NUL, a weather
/// code of four bytes, three color bytes.
pub open spec fn region_round_ok(x: Region) -> bool {
    &&& region_writable(x)
    &&& encode_utf8(x.weather_effect@).len() == 4
    &&& x.color@.len() == 3
}

/// Whether region `a`, as read, holds what region `b` stores: its bounds,
/// texts, index, weather code and color, the weather flag being off.
pub open spec fn same_region(a: Region, b: Region) -> bool {
    &&& a.left == b.left && a.bottom == b.bottom && a.right == b.right && a.top == b.top
    &&& a.name@ == b.name@ && a.index == b.index && a.weather_effect@ == b.weather_effect@
    &&& a.ambient_sound@ == b.ambient_sound@ && a.color@ == b.color@ && !a.weather_enabled
}

proof fn lemma_region_in(d: Seq<u8>, q: int, x: Region)
    requires
        0 <= q,
        q + region_bytes(x).len() <= d.len(),
        d.subrange(q, q + region_bytes(x).len()) == region_bytes(x),
        region_round_ok(x),
    ensures
        region_ends(d)(q) == Some(q + region_bytes(x).len()),
        forall|y: Region| #[trigger] region_reads(d)(q, y) is Some ==> region_reads(d)(q, y) == Some(
            q + region_bytes(x).len(),
        ) && same_region(y, x),
{
    let vs = region_values(x);
    reveal_with_fuel(values_bytes, 12);
    assert(weather_bytes(x.weather_effect@) =~= encode_utf8(x.weather_effect@));
    assert(x.color@ =~= seq![x.color@[0], x.color@[1], x.color@[2]]);
    assert(region_bytes(x) =~= values_bytes(vs) + seq![0u8]);
    assert(region_layout() =~= kinds(vs));
    assert forall|i: int| 0 <= i < vs.len() implies value_ok(#[trigger] vs[i]) by {}
    let n = values_bytes(vs).len();
    assert(d.subrange(q, q + n) =~= values_bytes(vs)) by {
        assert(d.subrange(q, q + n) =~= d.subrange(q, q + region_bytes(x).len()).subrange(0, n as int));
    }
    lemma_fields_in(d, q, vs);
    assert forall|y: Region| #[trigger] region_reads(d)(q, y) is Some implies region_reads(d)(q, y) == Some(
        q + region_bytes(x).len(),
    ) && same_region(y, x) by {
        let l = region_layout();
        assert(field_reads(d, q, l, 0, vs[0]));
        assert(field_reads(d, q, l, 1, vs[1]));
        assert(field_reads(d, q, l, 2, vs[2]));
        assert(field_reads(d, q, l, 3, vs[3]));
        assert(field_reads(d, q, l, 4, vs[4]));
        assert(field_reads(d, q, l, 5, vs[5]));
        assert(field_reads(d, q, l, 6, vs[6]));
        assert(field_reads(d, q, l, 7, vs[7]));
        assert(field_reads(d, q, l, 8, vs[8]));
        assert(field_reads(d, q, l, 9, vs[9]));
        assert(field_reads(d, q, l, 10, vs[10]));
        assert(y.color@ =~= x.color@);
    }
}

/// A regions file with regions (at most `u32::MAX`, each with texts
/// without NUL, a weather code of four bytes and three color bytes) is
/// written so that reading its bytes goes to their end and gives back its
/// version and regions, their weather flags off.
pub proof fn law_region_file_write_read(x: RegionFile)
    requires
        0 < x.regions@.len() <= u32::MAX,
        forall|i: int| 0 <= i < x.regions@.len() ==> region_round_ok(#[trigger] x.regions@[i]),
    ensures
        ({
            let d = region_file_bytes(x);
            &&& region_file_end(d, 0) == Some(d.len() as int)
            &&& forall|y: RegionFile|
                y.version == u32_at(d, 0) && #[trigger] counted_read(d, 4, y.regions@, region_reads(d)) == Some(
                    d.len() as int,
                ) ==> y.version == x.version && y.regions@.len() == x.regions@.len() && forall|i: int|
                    0 <= i < x.regions@.len() ==> same_region(#[trigger] y.regions@[i], x.regions@[i])
        }),
{
    let d = region_file_bytes(x);
    let s = x.regions@;
    let a = le_bytes_u32(x.version);
    let b = le_bytes_u32(s.len() as u32);
    let c = seq_bytes(s, region_bytes_of());
    assert(d == a + b + c);
    assert(d.subrange(0, 4) =~= a);
    assert(d.subrange(4, 8) =~= b);
    assert(d.subrange(8, 8 + c.len() as int) =~= c);
    lemma_u32_in(d, 0, x.version);
    lemma_u32_in(d, 4, s.len() as u32);
    let same = |u: Region, v: Region| same_region(u, v);
    assert forall|i: int, q: int|
        0 <= i < s.len() && 0 <= q && q + region_bytes_of()(s[i]).len() <= d.len() && #[trigger] d.subrange(
            q,
            q + region_bytes_of()(#[trigger] s[i]).len(),
        ) == region_bytes_of()(s[i]) implies {
            &&& region_ends(d)(q) == Some(q + region_bytes_of()(s[i]).len())
            &&& forall|y: Region| #[trigger] region_reads(d)(q, y) is Some ==> region_reads(d)(q, y) == Some(
                q + region_bytes_of()(s[i]).len(),
            ) && same(y, s[i])
        } by {
        lemma_region_in(d, q, s[i]);
    }
    lemma_seq_in(d, 8, s, region_bytes_of(), region_ends(d), region_reads(d), same);
}

} // verus!

