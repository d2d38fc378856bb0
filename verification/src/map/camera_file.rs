//! Cameras of the map (`war3map.w3c`).

use vstd::prelude::*;
use vstd::utf8::encode_utf8;

use crate::formats::binary_reader::{c_string_bytes, u32_at, BinaryReader};
use crate::formats::binary_writer::{lemma_write_at_concat, write_at, BinaryWriter};
use crate::formats::encoding::le_bytes_u32;
use crate::formats::{text_with_number, MpqError, ReadError, WriteError};
use crate::map::error::MapError;
use crate::map::field_roundtrip::{field_reads, kinds, lemma_fields_in, lemma_seq_in, value_ok, values_bytes, FieldValue};
use crate::map::trigger_jass_file::lemma_u32_in;
use crate::map::triggers::trigger_data::{c_text_ok, has_bytes};
use crate::map::unit_map::{lemma_seq_bytes_prefix, lemma_seq_end_none, seq_bytes, seq_end, seq_read};
use crate::map::triggers::trigger_data::c_string_at;
use crate::map::w3i_file::{
    counted_end, counted_read, fields_end, lemma_field_step, lemma_word_run, read_text, read_word, text_field,
    word_field, FieldKind,
};

verus! {

/// Errors of the cameras file.
#[derive(Debug)]
pub enum CameraError {
    MpqError(MpqError),
    InitReader(ReadError),
    Parsing(ReadError),
    SaveError(WriteError),
}

/// A camera of the map. Its numbers are held as the bits of their IEEE 754
/// single precision encoding, which is how the file stores them.
#[derive(Debug, PartialEq)]
pub struct Camera {
    pub x: u32,
    pub y: u32,
    pub z: u32,
    pub rotation: u32,
    pub aoa: u32,
    pub dist: u32,
    pub roll: u32,
    pub fov: u32,
    pub far_clip: u32,
    pub unknown: u32,
    pub name: String,
}

/// How a camera is stored: ten numbers, then its name.
pub open spec fn camera_layout() -> Seq<FieldKind> {
    seq![FieldKind::Word, FieldKind::Word, FieldKind::Word, FieldKind::Word, FieldKind::Word, FieldKind::Word, FieldKind::Word, FieldKind::Word, FieldKind::Word, FieldKind::Word, FieldKind::Text]
}

/// Whether `x` is the camera stored at `q`.
pub open spec fn camera_at(d: Seq<u8>, q: int, x: Camera) -> bool {
    let l = camera_layout();
    &&& fields_end(d, q, l) is Some
    &&& x.x == word_field(d, q, l, 0)
    &&& x.y == word_field(d, q, l, 1)
    &&& x.z == word_field(d, q, l, 2)
    &&& x.rotation == word_field(d, q, l, 3)
    &&& x.aoa == word_field(d, q, l, 4)
    &&& x.dist == word_field(d, q, l, 5)
    &&& x.roll == word_field(d, q, l, 6)
    &&& x.fov == word_field(d, q, l, 7)
    &&& x.far_clip == word_field(d, q, l, 8)
    &&& x.unknown == word_field(d, q, l, 9)
    &&& x.name@ == text_field(d, q, l, 10)
}

/// The layout of a camera in the cameras file: its target x, y and z, its
/// rotation, angle of attack, distance, roll, field of view, far clipping
/// and an unknown number, as little-endian words at bytes 0, 4, ..., 36, then
/// its name as a NUL-terminated UTF-8 text from byte 40.
pub proof fn law_camera_layout(d: Seq<u8>, q: int, x: Camera)
    requires
        camera_at(d, q, x),
    ensures
        x.x == u32_at(d, q),
        x.y == u32_at(d, q + 4),
        x.z == u32_at(d, q + 8),
        x.rotation == u32_at(d, q + 12),
        x.aoa == u32_at(d, q + 16),
        x.dist == u32_at(d, q + 20),
        x.roll == u32_at(d, q + 24),
        x.fov == u32_at(d, q + 28),
        x.far_clip == u32_at(d, q + 32),
        x.unknown == u32_at(d, q + 36),
        c_string_at(d, q + 40) matches Some((name, _)) && x.name@ == name,
{
    let l = camera_layout();
    assert(l.take(0) =~= Seq::<FieldKind>::empty());
    lemma_word_run(d, q, l, 0, 10);
    lemma_field_step(d, q, l, 11);
    assert(fields_end(d, q, l.take(1)) == Some(q + 4));
    assert(fields_end(d, q, l.take(2)) == Some(q + 8));
    assert(fields_end(d, q, l.take(3)) == Some(q + 12));
    assert(fields_end(d, q, l.take(4)) == Some(q + 16));
    assert(fields_end(d, q, l.take(5)) == Some(q + 20));
    assert(fields_end(d, q, l.take(6)) == Some(q + 24));
    assert(fields_end(d, q, l.take(7)) == Some(q + 28));
    assert(fields_end(d, q, l.take(8)) == Some(q + 32));
    assert(fields_end(d, q, l.take(9)) == Some(q + 36));
    assert(fields_end(d, q, l.take(10)) == Some(q + 40));
}

/// The bytes that store camera `x`.
pub open spec fn camera_bytes(x: Camera) -> Seq<u8> {
    le_bytes_u32(x.x) + le_bytes_u32(x.y) + le_bytes_u32(x.z) + le_bytes_u32(x.rotation) + le_bytes_u32(x.aoa) + le_bytes_u32(x.dist) + le_bytes_u32(x.roll) + le_bytes_u32(x.fov) + le_bytes_u32(x.far_clip) + le_bytes_u32(x.unknown) + c_string_bytes(x.name@)
}

/// [`camera_bytes`] as a function.
pub open spec fn camera_bytes_of() -> spec_fn(Camera) -> Seq<u8> {
    |x: Camera| camera_bytes(x)
}

/// Where the cameras stored from a position end.
pub open spec fn camera_ends(d: Seq<u8>) -> spec_fn(int) -> Option<int> {
    |q: int| fields_end(d, q, camera_layout())
}

/// Where reading camera `x` from a position ends.
pub open spec fn camera_reads(d: Seq<u8>) -> spec_fn(int, Camera) -> Option<int> {
    |q: int, x: Camera| if camera_at(d, q, x) {
        fields_end(d, q, camera_layout())
    } else {
        None
    }
}

impl Camera {
    /// Reads a camera; a name that is not UTF-8 fails.
    pub fn read(reader: &mut BinaryReader) -> (res: Result<Self, ReadError>)
        requires
            old(reader).wf(),
        ensures
            final(reader).wf(),
            final(reader).contents() == old(reader).contents(),
            res is Ok <==> fields_end(old(reader).contents(), old(reader).position() as int, camera_layout()) is Some,
            res is Ok ==> fields_end(old(reader).contents(), old(reader).position() as int, camera_layout())
                == Some(final(reader).position() as int),
            res matches Ok(x) ==> camera_at(old(reader).contents(), old(reader).position() as int, x),
    {
        let ghost p = reader.position() as int;
        let ghost l = camera_layout();
        assert(l.take(0) =~= Seq::<FieldKind>::empty());
        let x = match read_word(reader, Ghost(p), Ghost(l), Ghost(0int)) {
            Ok(v) => v,
            Err(e) => {
                return Err(e);
            },
        };
        let y = match read_word(reader, Ghost(p), Ghost(l), Ghost(1int)) {
            Ok(v) => v,
            Err(e) => {
                return Err(e);
            },
        };
        let z = match read_word(reader, Ghost(p), Ghost(l), Ghost(2int)) {
            Ok(v) => v,
            Err(e) => {
                return Err(e);
            },
        };
        let rotation = match read_word(reader, Ghost(p), Ghost(l), Ghost(3int)) {
            Ok(v) => v,
            Err(e) => {
                return Err(e);
            },
        };
        let aoa = match read_word(reader, Ghost(p), Ghost(l), Ghost(4int)) {
            Ok(v) => v,
            Err(e) => {
                return Err(e);
            },
        };
        let dist = match read_word(reader, Ghost(p), Ghost(l), Ghost(5int)) {
            Ok(v) => v,
            Err(e) => {
                return Err(e);
            },
        };
        let roll = match read_word(reader, Ghost(p), Ghost(l), Ghost(6int)) {
            Ok(v) => v,
            Err(e) => {
                return Err(e);
            },
        };
        let fov = match read_word(reader, Ghost(p), Ghost(l), Ghost(7int)) {
            Ok(v) => v,
            Err(e) => {
                return Err(e);
            },
        };
        let far_clip = match read_word(reader, Ghost(p), Ghost(l), Ghost(8int)) {
            Ok(v) => v,
            Err(e) => {
                return Err(e);
            },
        };
        let unknown = match read_word(reader, Ghost(p), Ghost(l), Ghost(9int)) {
            Ok(v) => v,
            Err(e) => {
                return Err(e);
            },
        };
        let name = match read_text(reader, Ghost(p), Ghost(l), Ghost(10int)) {
            Ok(v) => v,
            Err(e) => {
                return Err(e);
            },
        };
        assert(l.take(11) =~= l);
        Ok(Camera { x, y, z, rotation, aoa, dist, roll, fov, far_clip, unknown, name })
    }

    /// Writes the camera; a name that holds a NUL fails.
    pub fn write(&self, writer: &mut BinaryWriter) -> (res: Result<(), WriteError>)
        requires
            old(writer).has_room(camera_bytes(*self).len() as int),
        ensures
            res is Ok <==> c_text_ok(self.name@),
            res is Ok ==> final(writer).contents() == write_at(
                old(writer).contents(),
                old(writer).position() as int,
                camera_bytes(*self),
            ) && final(writer).position() == old(writer).position() + camera_bytes(*self).len(),
    {
        let ghost c0 = writer.contents();
        let ghost p0 = writer.position() as int;
        let ghost mut acc: Seq<u8> = Seq::empty();
        assert(write_at(c0, p0, acc) =~= c0);
        let _ = writer.write_u32(self.x);
        proof {
            lemma_write_at_concat(c0, p0, acc, le_bytes_u32(self.x));
            acc = acc + le_bytes_u32(self.x);
        }
        let _ = writer.write_u32(self.y);
        proof {
            lemma_write_at_concat(c0, p0, acc, le_bytes_u32(self.y));
            acc = acc + le_bytes_u32(self.y);
        }
        let _ = writer.write_u32(self.z);
        proof {
            lemma_write_at_concat(c0, p0, acc, le_bytes_u32(self.z));
            acc = acc + le_bytes_u32(self.z);
        }
        let _ = writer.write_u32(self.rotation);
        proof {
            lemma_write_at_concat(c0, p0, acc, le_bytes_u32(self.rotation));
            acc = acc + le_bytes_u32(self.rotation);
        }
        let _ = writer.write_u32(self.aoa);
        proof {
            lemma_write_at_concat(c0, p0, acc, le_bytes_u32(self.aoa));
            acc = acc + le_bytes_u32(self.aoa);
        }
        let _ = writer.write_u32(self.dist);
        proof {
            lemma_write_at_concat(c0, p0, acc, le_bytes_u32(self.dist));
            acc = acc + le_bytes_u32(self.dist);
        }
        let _ = writer.write_u32(self.roll);
        proof {
            lemma_write_at_concat(c0, p0, acc, le_bytes_u32(self.roll));
            acc = acc + le_bytes_u32(self.roll);
        }
        let _ = writer.write_u32(self.fov);
        proof {
            lemma_write_at_concat(c0, p0, acc, le_bytes_u32(self.fov));
            acc = acc + le_bytes_u32(self.fov);
        }
        let _ = writer.write_u32(self.far_clip);
        proof {
            lemma_write_at_concat(c0, p0, acc, le_bytes_u32(self.far_clip));
            acc = acc + le_bytes_u32(self.far_clip);
        }
        let _ = writer.write_u32(self.unknown);
        proof {
            lemma_write_at_concat(c0, p0, acc, le_bytes_u32(self.unknown));
            acc = acc + le_bytes_u32(self.unknown);
        }
        match writer.write_c_string_converted(self.name.as_str()) {
            Ok(()) => {},
            Err(e) => {
                return Err(e);
            },
        }
        proof {
            assert(encode_utf8(self.name@).push(0u8) =~= c_string_bytes(self.name@));
            lemma_write_at_concat(c0, p0, acc, c_string_bytes(self.name@));
            acc = acc + c_string_bytes(self.name@);
        }
        assert(acc =~= camera_bytes(*self));
        Ok(())
    }
}

/// Reads `n` entries.
fn read_cameras(reader: &mut BinaryReader, n: u32) -> (res: Result<Vec<Camera>, ReadError>)
    requires
        old(reader).wf(),
    ensures
        final(reader).wf(),
        final(reader).contents() == old(reader).contents(),
        ({
            let d = old(reader).contents();
            let p = old(reader).position() as int;
            &&& res is Ok <==> seq_end(p, n as nat, camera_ends(d)) is Some
            &&& res is Ok ==> seq_end(p, n as nat, camera_ends(d)) == Some(final(reader).position() as int)
            &&& res matches Ok(s) ==> s@.len() == n && seq_read(p, s@, camera_reads(d)) == Some(
                final(reader).position() as int,
            )
        }),
{
    let ghost d = reader.contents();
    let ghost p0 = reader.position() as int;
    let mut items: Vec<Camera> = Vec::new();
    let mut k: u32 = 0;
    while k < n
        invariant
            reader.wf(),
            reader.contents() == d,
            d == old(reader).contents(),
            p0 == old(reader).position(),
            k <= n,
            items@.len() == k,
            seq_end(p0, k as nat, camera_ends(d)) == Some(reader.position() as int),
            seq_read(p0, items@, camera_reads(d)) == Some(reader.position() as int),
        decreases n - k,
    {
        let x = match Camera::read(reader) {
            Ok(x) => x,
            Err(e) => {
                proof {
                    assert(seq_end(p0, (k + 1) as nat, camera_ends(d)) is None);
                    lemma_seq_end_none(p0, (k + 1) as nat, n as nat, camera_ends(d));
                }
                return Err(e);
            },
        };
        let ghost before = items@;
        items.push(x);
        assert(items@.drop_last() == before);
        k = k + 1;
    }
    Ok(items)
}

/// Writes the entries `items`, one after the other; fails on the first one
/// that cannot be written.
fn write_cameras(writer: &mut BinaryWriter, items: &Vec<Camera>) -> (res: Result<(), WriteError>)
    requires
        old(writer).has_room(seq_bytes(items@, camera_bytes_of()).len() as int),
    ensures
        res is Ok <==> (forall|i: int| 0 <= i < items@.len() ==> #[trigger] c_text_ok(items@[i].name@)),
        res is Ok ==> final(writer).contents() == write_at(
            old(writer).contents(),
            old(writer).position() as int,
            seq_bytes(items@, camera_bytes_of()),
        ) && final(writer).position() == old(writer).position() + seq_bytes(items@, camera_bytes_of()).len(),
{
    let ghost c0 = writer.contents();
    let ghost p0 = writer.position() as int;
    let ghost s = items@;
    let ghost f = camera_bytes_of();
    let mut k: usize = 0;
    while k < items.len()
        invariant
            k <= s.len(),
            s == items@,
            f == camera_bytes_of(),
            0 <= p0,
            p0 + seq_bytes(s, f).len() <= usize::MAX,
            writer.contents() == write_at(c0, p0, seq_bytes(s.take(k as int), f)),
            writer.position() == p0 + seq_bytes(s.take(k as int), f).len(),
            forall|i: int| 0 <= i < k ==> #[trigger] c_text_ok(s[i].name@),
        decreases s.len() - k,
    {
        proof {
            lemma_seq_bytes_prefix(s, f, k + 1);
            assert(s.take(k + 1).drop_last() == s.take(k as int));
            assert(s.take(k + 1).last() == s[k as int]);
        }
        match items[k].write(writer) {
            Ok(()) => {},
            Err(e) => {
                return Err(e);
            },
        }
        proof {
            lemma_write_at_concat(c0, p0, seq_bytes(s.take(k as int), f), f(s[k as int]));
        }
        k = k + 1;
    }
    assert(s.take(s.len() as int) == s);
    Ok(())
}

/// The cameras file: its version and cameras.
#[derive(Debug)]
pub struct CameraFile {
    pub version: u32,
    pub cameras: Vec<Camera>,
}

/// The bytes that store cameras file `x`: nothing without cameras.
pub open spec fn camera_file_bytes(x: CameraFile) -> Seq<u8> {
    if x.cameras@.len() == 0 {
        Seq::empty()
    } else {
        le_bytes_u32(x.version) + le_bytes_u32(x.cameras@.len() as u32) + seq_bytes(
            x.cameras@,
            camera_bytes_of(),
        )
    }
}

/// A non-empty cameras file starts with its format version and the count of
/// its cameras as little-endian words at bytes 0 and 4; an empty one is
/// written as no bytes at all.
pub proof fn law_cameras_file_head(x: CameraFile)
    ensures
        x.cameras@.len() == 0 ==> camera_file_bytes(x).len() == 0,
        x.cameras@.len() > 0 ==> camera_file_bytes(x).subrange(0, 4) == le_bytes_u32(x.version) && camera_file_bytes(x).subrange(4, 8)
            == le_bytes_u32(x.cameras@.len() as u32),
{
    if x.cameras@.len() > 0 {
        assert(camera_file_bytes(x).subrange(0, 4) =~= le_bytes_u32(x.version));
        assert(camera_file_bytes(x).subrange(4, 8) =~= le_bytes_u32(x.cameras@.len() as u32));
    }
}

impl CameraFile {
    /// Name of the file in the map archive.
    pub const FILE_NAME: &'static str = "war3map.w3c";

    /// Reads the cameras file at the cursor, which must then be at the end of
    /// the bytes: trailing bytes fail with [`ReadError::Reason`].
    pub fn read(reader: &mut BinaryReader) -> (res: Result<Self, ReadError>)
        requires
            old(reader).wf(),
        ensures
            final(reader).wf(),
            final(reader).contents() == old(reader).contents(),
            ({
                let d = old(reader).contents();
                let p = old(reader).position() as int;
                &&& res is Ok <==> (has_bytes(d, p, 4) && counted_end(d, p + 4, camera_ends(d)) == Some(
                    d.len() as int,
                ))
                &&& res matches Ok(x) ==> x.version == u32_at(d, p) && counted_read(
                    d,
                    p + 4,
                    x.cameras@,
                    camera_reads(d),
                ) == Some(d.len() as int)
                &&& (has_bytes(d, p, 4) && (counted_end(d, p + 4, camera_ends(d)) matches Some(q)
                    && q != d.len())) ==> (res matches Err(ReadError::Reason(_)))
            }),
    {
        let version = match reader.read_u32() {
            Ok(v) => v,
            Err(e) => {
                return Err(e);
            },
        };
        let count = match reader.read_u32() {
            Ok(v) => v,
            Err(e) => {
                return Err(e);
            },
        };
        let cameras = match read_cameras(reader, count) {
            Ok(v) => v,
            Err(e) => {
                return Err(e);
            },
        };
        if reader.size() != reader.pos() as usize {
            let left = reader.size() - reader.pos() as usize;
            return Err(ReadError::Reason(text_with_number("trailing bytes after the cameras: ", left as u64)));
        }
        Ok(CameraFile { version, cameras })
    }

    /// Reads the cameras file when there are bytes; an empty buffer has none.
    pub fn read_opt(reader: &mut BinaryReader) -> (res: Result<Option<Self>, MapError>)
        requires
            old(reader).wf(),
        ensures
            final(reader).wf(),
            final(reader).contents() == old(reader).contents(),
            ({
                let d = old(reader).contents();
                let p = old(reader).position() as int;
                &&& d.len() == 0 ==> (res matches Ok(None))
                &&& d.len() > 0 ==> (res is Ok <==> (has_bytes(d, p, 4) && counted_end(
                    d,
                    p + 4,
                    camera_ends(d),
                ) == Some(d.len() as int)))
                &&& res matches Ok(Some(x)) ==> x.version == u32_at(d, p) && counted_read(
                    d,
                    p + 4,
                    x.cameras@,
                    camera_reads(d),
                ) == Some(d.len() as int)
            }),
    {
        if reader.size() > 0 {
            match Self::read(reader) {
                Ok(x) => Ok(Some(x)),
                Err(e) => Err(MapError::Camera(CameraError::Parsing(e))),
            }
        } else {
            Ok(None)
        }
    }

    /// Writes the cameras file at the cursor: nothing without cameras; a
    /// camera name that holds a NUL fails.
    pub fn write(&self, writer: &mut BinaryWriter) -> (res: Result<(), WriteError>)
        requires
            old(writer).has_room(camera_file_bytes(*self).len() as int),
        ensures
            res is Ok <==> (forall|i: int| 0 <= i < self.cameras@.len() ==> #[trigger] c_text_ok(self.cameras@[i].name@)),
            res is Ok ==> final(writer).contents() == write_at(
                old(writer).contents(),
                old(writer).position() as int,
                camera_file_bytes(*self),
            ) && final(writer).position() == old(writer).position() + camera_file_bytes(*self).len(),
    {
        let ghost c0 = writer.contents();
        let ghost p0 = writer.position() as int;
        if self.cameras.len() == 0 {
            assert(write_at(c0, p0, Seq::empty()) =~= c0);
            return Ok(());
        }
        let ghost a = le_bytes_u32(self.version);
        let ghost b = le_bytes_u32(self.cameras@.len() as u32);
        let _ = writer.write_u32(self.version);
        let _ = writer.write_u32(self.cameras.len() as u32);
        proof {
            lemma_write_at_concat(c0, p0, a, b);
        }
        match write_cameras(writer, &self.cameras) {
            Ok(()) => {},
            Err(e) => {
                return Err(e);
            },
        }
        proof {
            lemma_write_at_concat(c0, p0, a + b, seq_bytes(self.cameras@, camera_bytes_of()));
        }
        Ok(())
    }

    /// The serialized cameras file in a fresh writer; a camera name that
    /// holds a NUL fails with [`MapError::Camera`].
    pub fn prepare_write(&self) -> (res: Result<BinaryWriter, MapError>)
        requires
            camera_file_bytes(*self).len() <= usize::MAX,
        ensures
            res is Ok <==> (forall|i: int| 0 <= i < self.cameras@.len() ==> #[trigger] c_text_ok(self.cameras@[i].name@)),
            res matches Ok(w) ==> w.contents() == camera_file_bytes(*self),
    {
        let mut writer = BinaryWriter::new();
        match self.write(&mut writer) {
            Ok(()) => {
                proof {
                    assert(write_at(Seq::empty(), 0, camera_file_bytes(*self)) =~= camera_file_bytes(
                        *self,
                    ));
                }
                Ok(writer)
            },
            Err(e) => Err(MapError::Camera(CameraError::SaveError(e))),
        }
    }
}


/// The fields of camera `x`, as stored.
pub open spec fn camera_values(x: Camera) -> Seq<FieldValue> {
    seq![
        (FieldKind::Word, x.x, Seq::empty()),
        (FieldKind::Word, x.y, Seq::empty()),
        (FieldKind::Word, x.z, Seq::empty()),
        (FieldKind::Word, x.rotation, Seq::empty()),
        (FieldKind::Word, x.aoa, Seq::empty()),
        (FieldKind::Word, x.dist, Seq::empty()),
        (FieldKind::Word, x.roll, Seq::empty()),
        (FieldKind::Word, x.fov, Seq::empty()),
        (FieldKind::Word, x.far_clip, Seq::empty()),
        (FieldKind::Word, x.unknown, Seq::empty()),
        (FieldKind::Text, 0u32, x.name@),
    ]
}

/// Whether cameras `a` and `b` hold the same numbers and name.
pub open spec fn same_camera(a: Camera, b: Camera) -> bool {
    &&& a.x == b.x && a.y == b.y && a.z == b.z && a.rotation == b.rotation && a.aoa == b.aoa
    &&& a.dist == b.dist && a.roll == b.roll && a.fov == b.fov && a.far_clip == b.far_clip
    &&& a.unknown == b.unknown && a.name@ == b.name@
}

proof fn lemma_camera_in(d: Seq<u8>, q: int, x: Camera)
    requires
        0 <= q,
        q + camera_bytes(x).len() <= d.len(),
        d.subrange(q, q + camera_bytes(x).len()) == camera_bytes(x),
        c_text_ok(x.name@),
    ensures
        camera_ends(d)(q) == Some(q + camera_bytes(x).len()),
        forall|y: Camera| #[trigger] camera_reads(d)(q, y) is Some ==> camera_reads(d)(q, y) == Some(
            q + camera_bytes(x).len(),
        ) && same_camera(y, x),
{
    let vs = camera_values(x);
    reveal_with_fuel(values_bytes, 12);
    assert(camera_bytes(x) =~= values_bytes(vs));
    assert(camera_layout() =~= kinds(vs));
    assert forall|i: int| 0 <= i < vs.len() implies value_ok(#[trigger] vs[i]) by {}
    lemma_fields_in(d, q, vs);
    assert forall|y: Camera| #[trigger] camera_reads(d)(q, y) is Some implies camera_reads(d)(q, y) == Some(
        q + camera_bytes(x).len(),
    ) && same_camera(y, x) by {
        let l = camera_layout();
        assert(field_reads(d, q, l, 0, vs[0]));
        assert(field_reads(d, q, l, 1, vs[1]));
        assert(field_reads(d, q, l, 2, vs[2]));
        assert(field_reads(d, q, l, 3, vs[3]));
        assert(field_reads(d, q, l, 4, vs[4]));
        assert(field_reads(d, q, l, 5, vs[5]));
        assert(field_reads(d, q, l, 6, vs[6]));
        assert(field_reads(d, q, l, 7, vs[7]));
        assert(field_reads(d, q, l, 8, vs[8]));
        assert(field_reads(d, q, l, 9, vs[9]));
        assert(field_reads(d, q, l, 10, vs[10]));
    }
}

/// A cameras file with cameras (at most `u32::MAX`, their names without
/// NUL) is written so that reading its bytes goes to their end and gives
/// back its version and cameras.
pub proof fn law_camera_file_write_read(x: CameraFile)
    requires
        0 < x.cameras@.len() <= u32::MAX,
        forall|i: int| 0 <= i < x.cameras@.len() ==> c_text_ok(#[trigger] x.cameras@[i].name@),
    ensures
        ({
            let d = camera_file_bytes(x);
            &&& has_bytes(d, 0, 4)
            &&& counted_end(d, 4, camera_ends(d)) == Some(d.len() as int)
            &&& forall|y: CameraFile|
                y.version == u32_at(d, 0) && #[trigger] counted_read(d, 4, y.cameras@, camera_reads(d)) == Some(
                    d.len() as int,
                ) ==> y.version == x.version && y.cameras@.len() == x.cameras@.len() && forall|i: int|
                    0 <= i < x.cameras@.len() ==> same_camera(#[trigger] y.cameras@[i], x.cameras@[i])
        }),
{
    let d = camera_file_bytes(x);
    let s = x.cameras@;
    let a = le_bytes_u32(x.version);
    let b = le_bytes_u32(s.len() as u32);
    let c = seq_bytes(s, camera_bytes_of());
    assert(d == a + b + c);
    assert(d.subrange(0, 4) =~= a);
    assert(d.subrange(4, 8) =~= b);
    assert(d.subrange(8, 8 + c.len() as int) =~= c);
    lemma_u32_in(d, 0, x.version);
    lemma_u32_in(d, 4, s.len() as u32);
    let same = |u: Camera, v: Camera| same_camera(u, v);
    assert forall|i: int, q: int|
        0 <= i < s.len() && 0 <= q && q + camera_bytes_of()(s[i]).len() <= d.len() && #[trigger] d.subrange(
            q,
            q + camera_bytes_of()(#[trigger] s[i]).len(),
        ) == camera_bytes_of()(s[i]) implies {
            &&& camera_ends(d)(q) == Some(q + camera_bytes_of()(s[i]).len())
            &&& forall|y: Camera| #[trigger] camera_reads(d)(q, y) is Some ==> camera_reads(d)(q, y) == Some(
                q + camera_bytes_of()(s[i]).len(),
            ) && same(y, s[i])
        } by {
        lemma_camera_in(d, q, s[i]);
    }
    lemma_seq_in(d, 8, s, camera_bytes_of(), camera_ends(d), camera_reads(d), same);
}

} // verus!

