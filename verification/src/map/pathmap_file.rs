//! Pathing map (`war3map.wpm`): one flag byte per pathing cell.

use vstd::prelude::*;

use crate::formats::binary_reader::{u32_at, BinaryReader};
use crate::formats::binary_writer::{write_at, BinaryWriter};
use crate::formats::encoding::{le_bytes_u32, lemma_u32_roundtrip};
use crate::map::trigger_jass_file::utf8_at;
use crate::map::triggers::trigger_data::has_bytes;
use vstd::utf8::decode_utf8;
use crate::formats::{MpqError, ReadError, WriteError};
use crate::map::error::MapError;
use vstd::utf8::encode_utf8;

verus! {

/// Errors of the pathing map.
#[derive(Debug)]
pub enum PathmapError {
    MpqError(MpqError),
    InitReader(ReadError),
    Parsing(ReadError),
    SaveError(WriteError),
}

/// Pathing flags of one cell; a set bit forbids the matching use.
#[derive(Debug)]
pub struct PathCell {
    pub flags: u8,
}

impl PathCell {
    /// Ground units may walk here (bit 0x02 clear).
    pub fn walkable(&self) -> (res: bool)
        ensures
            res == (self.flags & 0x02 == 0),
    {
        self.flags & 0x02 == 0
    }

    /// Air units may fly here (bit 0x04 clear).
    pub fn flyable(&self) -> (res: bool)
        ensures
            res == (self.flags & 0x04 == 0),
    {
        self.flags & 0x04 == 0
    }

    /// Buildings may stand here (bit 0x08 clear).
    pub fn buildable(&self) -> (res: bool)
        ensures
            res == (self.flags & 0x08 == 0),
    {
        self.flags & 0x08 == 0
    }

    /// Blight bit 0x20 clear.
    pub fn blight(&self) -> (res: bool)
        ensures
            res == (self.flags & 0x20 == 0),
    {
        self.flags & 0x20 == 0
    }

    /// Water bit 0x40 clear.
    pub fn water(&self) -> (res: bool)
        ensures
            res == (self.flags & 0x40 == 0),
    {
        self.flags & 0x40 == 0
    }

    /// Bit 0x80 clear, or blight bit set.
    pub fn normal(&self) -> (res: bool)
        ensures
            res == (self.flags & 0x80 == 0 || self.flags & 0x20 != 0),
    {
        self.flags & 0x80 == 0 || !self.blight()
    }

    /// Replaces all flags.
    pub fn update_flags(&mut self, value: u8)
        ensures
            final(self).flags == value,
    {
        self.flags = value;
    }
}

/// The pathing map of a map.
#[derive(Debug)]
pub struct PathMapFile {
    pub id: String,
    pub version: u32,
    pub pathmap_width: u32,
    pub pathmap_height: u32,
    pub pathing: Vec<PathCell>,
}

/// The flag bytes of `cells`, in order.
pub open spec fn cell_bytes(cells: Seq<PathCell>) -> Seq<u8> {
    cells.map_values(|c: PathCell| c.flags)
}

/// The serialized pathing map: id, version, width, height, then one byte per cell.
pub open spec fn pathmap_bytes(p: PathMapFile) -> Seq<u8> {
    encode_id(p) + le_bytes_u32(p.version) + le_bytes_u32(p.pathmap_width) + le_bytes_u32(
        p.pathmap_height,
    ) + cell_bytes(p.pathing@)
}

/// The UTF-8 bytes of the id of `p`.
pub open spec fn encode_id(p: PathMapFile) -> Seq<u8> {
    encode_utf8(p.id@)
}

impl PathMapFile {
    /// Name of the file in the map archive.
    pub const FILE_NAME: &'static str = "war3map.wpm";

    /// Whether the serialized file fits in memory.
    pub open spec fn fits(&self) -> bool {
        pathmap_bytes(*self).len() <= usize::MAX
    }

    /// Serializes the pathing map into `writer`, at its cursor.
    pub fn write(&self, writer: &mut BinaryWriter) -> (res: Result<(), WriteError>)
        requires
            old(writer).has_room(pathmap_bytes(*self).len() as int),
        ensures
            res is Ok,
            final(writer).contents() == write_at(
                old(writer).contents(),
                old(writer).position() as int,
                pathmap_bytes(*self),
            ),
            final(writer).position() == old(writer).position() + pathmap_bytes(*self).len(),
    {
        let ghost before = writer.contents();
        let ghost start = writer.position() as int;
        let ghost id = encode_utf8(self.id@);
        writer.write_string_utf8(self.id.as_str());
        writer.write_u32(self.version);
        proof {
            crate::formats::binary_writer::lemma_write_at_concat(before, start, id, le_bytes_u32(self.version));
        }
        writer.write_u32(self.pathmap_width);
        proof {
            crate::formats::binary_writer::lemma_write_at_concat(
                before,
                start,
                id + le_bytes_u32(self.version),
                le_bytes_u32(self.pathmap_width),
            );
        }
        writer.write_u32(self.pathmap_height);
        proof {
            crate::formats::binary_writer::lemma_write_at_concat(
                before,
                start,
                id + le_bytes_u32(self.version) + le_bytes_u32(self.pathmap_width),
                le_bytes_u32(self.pathmap_height),
            );
        }
        let ghost head = id + le_bytes_u32(self.version) + le_bytes_u32(self.pathmap_width)
            + le_bytes_u32(self.pathmap_height);
        let mut k: usize = 0;
        proof {
            assert(cell_bytes(self.pathing@.take(0)) =~= Seq::<u8>::empty());
            assert(head + Seq::<u8>::empty() =~= head);
        }
        while k < self.pathing.len()
            invariant
                0 <= start,
                k <= self.pathing@.len(),
                head == id + le_bytes_u32(self.version) + le_bytes_u32(self.pathmap_width) + le_bytes_u32(self.pathmap_height),
                start + pathmap_bytes(*self).len() <= usize::MAX,
                pathmap_bytes(*self) == head + cell_bytes(self.pathing@),
                writer.position() == start + head.len() + k,
                writer.contents() == write_at(before, start, head + cell_bytes(self.pathing@.take(k as int))),
            decreases self.pathing@.len() - k,
        {
            writer.write_u8(self.pathing[k].flags);
            proof {
                crate::formats::binary_writer::lemma_write_at_concat(
                    before,
                    start,
                    head + cell_bytes(self.pathing@.take(k as int)),
                    seq![self.pathing@[k as int].flags],
                );
                assert(head + cell_bytes(self.pathing@.take(k + 1)) =~= head + cell_bytes(
                    self.pathing@.take(k as int),
                ) + seq![self.pathing@[k as int].flags]);
            }
            k = k + 1;
        }
        assert(self.pathing@.take(self.pathing@.len() as int) =~= self.pathing@);
        Ok(())
    }

    /// Serializes the pathing map into a new writer.
    pub fn prepare_write(&self) -> (res: Result<BinaryWriter, MapError>)
        requires
            self.fits(),
        ensures
            res matches Ok(w) && w.contents() == pathmap_bytes(*self),
    {
        let mut writer = BinaryWriter::new();
        proof {
            assert(write_at(Seq::<u8>::empty(), 0, pathmap_bytes(*self)) =~= pathmap_bytes(*self));
        }
        match self.write(&mut writer) {
            Ok(()) => Ok(writer),
            Err(e) => Err(MapError::PathingMap(PathmapError::SaveError(e))),
        }
    }
}


/// The content of a pathing map: id, version, width, height and cell flags.
pub type PathView = (Seq<char>, u32, u32, u32, Seq<u8>);

impl View for PathMapFile {
    type V = PathView;

    open spec fn view(&self) -> PathView {
        (self.id@, self.version, self.pathmap_width, self.pathmap_height, cell_bytes(self.pathing@))
    }
}

/// The layout of the pathing map file: a four-byte id, then the version,
/// the width and the height as little-endian words at bytes 4, 8 and 12, then
/// one flag byte per cell from byte 16. Reading takes each field from its
/// bytes and writing puts it there.
pub proof fn law_pathmap_layout(d: Seq<u8>, p: int, x: PathMapFile)
    ensures
        pathmap_decode(d, p) matches Some((v, e)) ==> {
            &&& v.1 == u32_at(d, p + 4)
            &&& v.2 == u32_at(d, p + 8)
            &&& v.3 == u32_at(d, p + 12)
            &&& v.4 == d.subrange(p + 16, e)
        },
        encode_utf8(x.id@).len() == 4 ==> {
            let b = pathmap_bytes(x);
            &&& b.subrange(4, 8) == le_bytes_u32(x.version)
            &&& b.subrange(8, 12) == le_bytes_u32(x.pathmap_width)
            &&& b.subrange(12, 16) == le_bytes_u32(x.pathmap_height)
            &&& b.subrange(16, b.len() as int) == cell_bytes(x.pathing@)
        },
{
    if encode_utf8(x.id@).len() == 4 {
        let b = pathmap_bytes(x);
        assert(b.subrange(4, 8) =~= le_bytes_u32(x.version));
        assert(b.subrange(8, 12) =~= le_bytes_u32(x.pathmap_width));
        assert(b.subrange(12, 16) =~= le_bytes_u32(x.pathmap_height));
        assert(b.subrange(16, b.len() as int) =~= cell_bytes(x.pathing@));
    }
}

/// The pathing map stored from `p` in `d`, and where it ends: a four-byte
/// UTF-8 id, version, width and height, then one flag byte per cell.
pub open spec fn pathmap_decode(d: Seq<u8>, p: int) -> Option<(PathView, int)> {
    match utf8_at(d, p, 4) {
        None => None,
        Some(id) => if has_bytes(d, p + 4, 12) {
            let n = u32_at(d, p + 8) * u32_at(d, p + 12);
            if has_bytes(d, p + 16, n) {
                Some(
                    (
                        (id, u32_at(d, p + 4), u32_at(d, p + 8), u32_at(d, p + 12), d.subrange(
                            p + 16,
                            p + 16 + n,
                        )),
                        p + 16 + n,
                    ),
                )
            } else {
                None
            }
        } else {
            None
        },
    }
}

impl PathMapFile {
    /// Reads a pathing map that fills the buffer from the cursor to its end
    /// (see [`PathMapFile::read_fields`]).
    pub fn read(reader: &mut BinaryReader) -> (res: Result<Self, ReadError>)
        requires
            old(reader).wf(),
            ({
                let d = old(reader).contents();
                let p = old(reader).position() as int;
                utf8_at(d, p, 4) is Some && has_bytes(d, p + 4, 12) ==> u32_at(d, p + 8) * u32_at(
                    d,
                    p + 12,
                ) <= u32::MAX
            }),
            pathmap_decode(old(reader).contents(), old(reader).position() as int) matches Some((_, e))
                ==> e == old(reader).contents().len(),
        ensures
            final(reader).wf(),
            final(reader).contents() == old(reader).contents(),
            match pathmap_decode(old(reader).contents(), old(reader).position() as int) {
                Some((v, e)) => res matches Ok(x) && x@ == v && e == old(reader).contents().len(),
                None => res is Err,
            },
    {
        Self::read_fields(reader)
    }

    /// Reads a pathing map: id, version, width, height and `width * height`
    /// cells.
    #[verifier::loop_isolation(false)]
    pub fn read_fields(reader: &mut BinaryReader) -> (res: Result<Self, ReadError>)
        requires
            old(reader).wf(),
            ({
                let d = old(reader).contents();
                let p = old(reader).position() as int;
                utf8_at(d, p, 4) is Some && has_bytes(d, p + 4, 12) ==> u32_at(d, p + 8) * u32_at(
                    d,
                    p + 12,
                ) <= u32::MAX
            }),
        ensures
            final(reader).wf(),
            final(reader).contents() == old(reader).contents(),
            match pathmap_decode(old(reader).contents(), old(reader).position() as int) {
                Some((v, e)) => res matches Ok(x) && x@ == v && final(reader).position() == e,
                None => res is Err,
            },
    {
        let ghost d = reader.contents();
        let ghost p0 = reader.position() as int;
        let id = match reader.read_string_utf8(4) {
            Ok(t) => t,
            Err(e) => {
                return Err(e);
            },
        };
        let version = match reader.read_u32() {
            Ok(v) => v,
            Err(e) => {
                return Err(e);
            },
        };
        let pathmap_width = match reader.read_u32() {
            Ok(v) => v,
            Err(e) => {
                return Err(e);
            },
        };
        let pathmap_height = match reader.read_u32() {
            Ok(v) => v,
            Err(e) => {
                return Err(e);
            },
        };
        let count = pathmap_width * pathmap_height;
        let ghost q = reader.position() as int;
        let mut pathing: Vec<PathCell> = Vec::new();
        let mut k: u32 = 0;
        while k < count
            invariant
                reader.wf(),
                reader.contents() == d,
                q == p0 + 16,
                k <= count,
                reader.position() == q + k,
                cell_bytes(pathing@) == d.subrange(q, q + k),
            decreases count - k,
        {
            let flags = match reader.read_u8() {
                Ok(f) => f,
                Err(e) => {
                    return Err(e);
                },
            };
            let ghost before = pathing@;
            pathing.push(PathCell { flags });
            assert(cell_bytes(pathing@) =~= d.subrange(q, q + k + 1));
            k = k + 1;
        }
        Ok(PathMapFile { id, version, pathmap_width, pathmap_height, pathing })
    }
}

/// Reading back the bytes that [`PathMapFile::write`] stores gives the
/// pathing map again, and ends at the end of the bytes; for a map whose id
/// is four UTF-8 bytes and which holds `width * height` cells.
pub proof fn law_pathmap_write_read(x: PathMapFile)
    requires
        encode_utf8(x.id@).len() == 4,
        x.pathing@.len() == x.pathmap_width * x.pathmap_height,
    ensures
        pathmap_decode(pathmap_bytes(x), 0) == Some((x@, pathmap_bytes(x).len() as int)),
{
    broadcast use vstd::utf8::encode_utf8_valid_utf8, vstd::utf8::encode_utf8_decode_utf8;

    let d = pathmap_bytes(x);
    let id = encode_id(x);
    assert(d.subrange(0, 4) =~= id);
    lemma_u32_roundtrip(x.version);
    lemma_u32_roundtrip(x.pathmap_width);
    lemma_u32_roundtrip(x.pathmap_height);
    assert(d.subrange(16, d.len() as int) =~= cell_bytes(x.pathing@));
}

} // verus!
