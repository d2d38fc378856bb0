//! Destructable flags of the doodads map (`war3map.doo`).

use vstd::prelude::*;

use vstd::utf8::encode_utf8;

use crate::formats::binary_reader::{u32_at, BinaryReader};
use crate::formats::binary_writer::{lemma_write_at_concat, write_at, BinaryWriter};
use crate::formats::encoding::le_bytes_u32;
use crate::formats::{decimal_text, text_with_number, GameVersion, MpqError, ReadError, WriteError};
use crate::map::error::MapError;
use crate::map::trigger_jass_file::unknown_version;
use crate::map::triggers::trigger_data::has_bytes;
use crate::map::unit_map::{
    code_at, code_text, drops_bytes, drops_end, drops_read, from_game_version, lemma_seq_bytes_prefix,
    lemma_seq_end_none, seq_bytes, seq_end, seq_read, to_game_version, unit_map_version,
    unit_map_version_code, Drops,
};

verus! {

/// Visibility and solidity of a destructable.
#[derive(PartialOrd, PartialEq, Eq, Structural, Clone, Copy, Debug)]
pub enum DestructableFlag {
    InvisibleNonSolid,
    VisibleNonSolid,
    VisibleSolid,
}

impl DestructableFlag {
    /// The flag whose code is `value` (0, 1 or 2).
    pub fn from(value: u8) -> (res: Result<Self, String>)
        ensures
            value == 0 ==> res == Ok::<DestructableFlag, String>(DestructableFlag::InvisibleNonSolid),
            value == 1 ==> res == Ok::<DestructableFlag, String>(DestructableFlag::VisibleNonSolid),
            value == 2 ==> res == Ok::<DestructableFlag, String>(DestructableFlag::VisibleSolid),
            value > 2 ==> (res matches Err(m) && m@ == "Unknown destructable flag "@ + decimal_text(
                value as nat,
            )),
    {
        match value {
            0 => Ok(DestructableFlag::InvisibleNonSolid),
            1 => Ok(DestructableFlag::VisibleNonSolid),
            2 => Ok(DestructableFlag::VisibleSolid),
            _ => Err(text_with_number("Unknown destructable flag ", value as u64)),
        }
    }
}


/// Errors of the doodads file.
#[derive(Debug)]
pub enum DoodadError {
    MpqError(MpqError),
    InitReader(ReadError),
    Parsing(ReadError),
    SaveError(WriteError),
}

/// A placed destructable. Real numbers are held as the bits of their IEEE
/// 754 single precision encoding, which is how the file stores them.
#[derive(Debug)]
pub struct Destructable {
    pub model_id: String,
    pub variation: u32,
    pub coord_x: u32,
    pub coord_y: u32,
    pub coord_z: u32,
    pub angle: u32,
    pub scale_x: u32,
    pub scale_y: u32,
    pub scale_z: u32,
    pub flags: u8,
    pub life: u8,
    pub drops: Drops,
    pub creation_id: u32,
}

/// Where the drops of the destructable stored at `p` end: Reign of Chaos
/// stores none.
pub open spec fn destructable_drops_end(d: Seq<u8>, p: int, v: GameVersion) -> Option<int> {
    if v == GameVersion::RoC {
        Some(p + 38)
    } else {
        drops_end(d, p + 38, v)
    }
}

/// Where the destructable stored at `p` for version `v` ends, when it can
/// be read.
pub open spec fn destructable_end(d: Seq<u8>, p: int, v: GameVersion) -> Option<int> {
    if !(has_bytes(d, p, 38) && code_at(d, p)) {
        None
    } else {
        match destructable_drops_end(d, p, v) {
            Some(q) => if has_bytes(d, q, 4) {
                Some(q + 4)
            } else {
                None
            },
            None => None,
        }
    }
}

/// Whether `x` is the destructable stored at `p` for version `v`.
pub open spec fn destructable_at(d: Seq<u8>, p: int, v: GameVersion, x: Destructable) -> bool {
    let q = destructable_drops_end(d, p, v)->0;
    &&& destructable_end(d, p, v) is Some
    &&& x.model_id@ == code_text(d, p)
    &&& x.variation == u32_at(d, p + 4)
    &&& x.coord_x == u32_at(d, p + 8)
    &&& x.coord_y == u32_at(d, p + 12)
    &&& x.coord_z == u32_at(d, p + 16)
    &&& x.angle == u32_at(d, p + 20)
    &&& x.scale_x == u32_at(d, p + 24)
    &&& x.scale_y == u32_at(d, p + 28)
    &&& x.scale_z == u32_at(d, p + 32)
    &&& x.flags == d[p + 36]
    &&& x.life == d[p + 37]
    &&& if v == GameVersion::RoC {
        x.drops is Empty
    } else {
        drops_read(d, p + 38, v, x.drops) == Some(q)
    }
    &&& x.creation_id == u32_at(d, q)
}

/// The bytes that store destructable `x` for version `v`.
pub open spec fn destructable_bytes(x: Destructable, v: GameVersion) -> Seq<u8> {
    encode_utf8(x.model_id@) + le_bytes_u32(x.variation) + le_bytes_u32(x.coord_x) + le_bytes_u32(
        x.coord_y,
    ) + le_bytes_u32(x.coord_z) + le_bytes_u32(x.angle) + le_bytes_u32(x.scale_x) + le_bytes_u32(
        x.scale_y,
    ) + le_bytes_u32(x.scale_z) + seq![x.flags] + seq![x.life] + (if v == GameVersion::RoC {
        Seq::empty()
    } else {
        drops_bytes(x.drops, v)
    }) + le_bytes_u32(x.creation_id)
}

/// The layout of a destructable record in the doodads file: its model code
/// in bytes 0 to 3, then the variation, the position x, y and z, the angle
/// and the scale x, y and z as little-endian words at bytes 4, 8, 12, 16,
/// 20, 24, 28 and 32, the flags at byte 36 and the life at byte 37; its drops
/// follow (none in Reign of Chaos), then its creation number. Reading takes
/// each field from its bytes and writing puts it there.
pub proof fn law_destructable_layout(d: Seq<u8>, p: int, v: GameVersion, x: Destructable, y: Destructable)
    requires
        encode_utf8(y.model_id@).len() == 4,
    ensures
        destructable_at(d, p, v, x) ==> {
            &&& x.model_id@ == code_text(d, p)
            &&& x.variation == u32_at(d, p + 4)
            &&& x.coord_x == u32_at(d, p + 8)
            &&& x.coord_y == u32_at(d, p + 12)
            &&& x.coord_z == u32_at(d, p + 16)
            &&& x.angle == u32_at(d, p + 20)
            &&& x.scale_x == u32_at(d, p + 24)
            &&& x.scale_y == u32_at(d, p + 28)
            &&& x.scale_z == u32_at(d, p + 32)
            &&& x.flags == d[p + 36]
            &&& x.life == d[p + 37]
            &&& (v == GameVersion::RoC ==> x.drops is Empty && x.creation_id == u32_at(d, p + 38))
        },
        ({
            let b = destructable_bytes(y, v);
            &&& b.subrange(0, 4) == encode_utf8(y.model_id@)
            &&& b.subrange(4, 8) == le_bytes_u32(y.variation)
            &&& b.subrange(8, 12) == le_bytes_u32(y.coord_x)
            &&& b.subrange(12, 16) == le_bytes_u32(y.coord_y)
            &&& b.subrange(16, 20) == le_bytes_u32(y.coord_z)
            &&& b.subrange(20, 24) == le_bytes_u32(y.angle)
            &&& b.subrange(24, 28) == le_bytes_u32(y.scale_x)
            &&& b.subrange(28, 32) == le_bytes_u32(y.scale_y)
            &&& b.subrange(32, 36) == le_bytes_u32(y.scale_z)
            &&& b[36] == y.flags
            &&& b[37] == y.life
            &&& b.subrange(b.len() - 4, b.len() as int) == le_bytes_u32(y.creation_id)
            &&& (v == GameVersion::RoC ==> b.len() == 42)
        }),
{
    if destructable_at(d, p, v, x) && v == GameVersion::RoC {
        assert(destructable_drops_end(d, p, v)->0 == p + 38);
    }
    let b = destructable_bytes(y, v);
    let m = encode_utf8(y.model_id@);
    let drops = if v == GameVersion::RoC {
        Seq::<u8>::empty()
    } else {
        drops_bytes(y.drops, v)
    };
    let head = m + le_bytes_u32(y.variation) + le_bytes_u32(y.coord_x) + le_bytes_u32(y.coord_y)
        + le_bytes_u32(y.coord_z) + le_bytes_u32(y.angle) + le_bytes_u32(y.scale_x) + le_bytes_u32(
        y.scale_y,
    ) + le_bytes_u32(y.scale_z) + seq![y.flags] + seq![y.life];
    assert(b =~= head + drops + le_bytes_u32(y.creation_id));
    assert(head.len() == 38);
    assert(b.subrange(0, 4) =~= m);
    assert(b.subrange(4, 8) =~= le_bytes_u32(y.variation));
    assert(b.subrange(8, 12) =~= le_bytes_u32(y.coord_x));
    assert(b.subrange(12, 16) =~= le_bytes_u32(y.coord_y));
    assert(b.subrange(16, 20) =~= le_bytes_u32(y.coord_z));
    assert(b.subrange(20, 24) =~= le_bytes_u32(y.angle));
    assert(b.subrange(24, 28) =~= le_bytes_u32(y.scale_x));
    assert(b.subrange(28, 32) =~= le_bytes_u32(y.scale_y));
    assert(b.subrange(32, 36) =~= le_bytes_u32(y.scale_z));
    assert(b[36] == head[36]);
    assert(b[37] == head[37]);
    assert(b.subrange(b.len() - 4, b.len() as int) =~= le_bytes_u32(y.creation_id));
}

impl Destructable {
    /// Reads the drops of a destructable: Reign of Chaos stores none.
    fn load_drops(reader: &mut BinaryReader, game_version: &GameVersion) -> (res: Result<Drops, ReadError>)
        requires
            old(reader).wf(),
            *game_version != GameVersion::Reforged,
        ensures
            final(reader).wf(),
            final(reader).contents() == old(reader).contents(),
            *game_version == GameVersion::RoC ==> (res matches Ok(Drops::Empty)
                && final(reader).position() == old(reader).position()),
            *game_version != GameVersion::RoC ==> {
                &&& res is Ok <==> drops_end(old(reader).contents(), old(reader).position() as int, *game_version) is Some
                &&& res is Ok ==> drops_end(old(reader).contents(), old(reader).position() as int, *game_version)
                    == Some(final(reader).position() as int)
                &&& res matches Ok(x) ==> drops_read(
                    old(reader).contents(),
                    old(reader).position() as int,
                    *game_version,
                    x,
                ) == Some(final(reader).position() as int)
            },
    {
        if game_version.is_roc() {
            Ok(Drops::Empty)
        } else {
            Drops::read_version(reader, game_version)
        }
    }

    /// Reads a destructable saved for version `game_version`.
    #[verifier::rlimit(40)]
    pub fn read_version(reader: &mut BinaryReader, game_version: &GameVersion) -> (res: Result<Self, ReadError>)
        requires
            old(reader).wf(),
            *game_version != GameVersion::Reforged,
        ensures
            final(reader).wf(),
            final(reader).contents() == old(reader).contents(),
            res is Ok <==> destructable_end(old(reader).contents(), old(reader).position() as int, *game_version) is Some,
            res is Ok ==> destructable_end(old(reader).contents(), old(reader).position() as int, *game_version)
                == Some(final(reader).position() as int),
            res matches Ok(x) ==> destructable_at(old(reader).contents(), old(reader).position() as int, *game_version, x),
    {
        let model_id = match reader.read_string_utf8(4) {
            Ok(v) => v,
            Err(e) => {
                return Err(e);
            },
        };
        let variation = match reader.read_u32() {
            Ok(v) => v,
            Err(e) => {
                return Err(e);
            },
        };
        let coord_x = match reader.read_u32() {
            Ok(v) => v,
            Err(e) => {
                return Err(e);
            },
        };
        let coord_y = match reader.read_u32() {
            Ok(v) => v,
            Err(e) => {
                return Err(e);
            },
        };
        let coord_z = match reader.read_u32() {
            Ok(v) => v,
            Err(e) => {
                return Err(e);
            },
        };
        let angle = match reader.read_u32() {
            Ok(v) => v,
            Err(e) => {
                return Err(e);
            },
        };
        let scale_x = match reader.read_u32() {
            Ok(v) => v,
            Err(e) => {
                return Err(e);
            },
        };
        let scale_y = match reader.read_u32() {
            Ok(v) => v,
            Err(e) => {
                return Err(e);
            },
        };
        let scale_z = match reader.read_u32() {
            Ok(v) => v,
            Err(e) => {
                return Err(e);
            },
        };
        let flags = match reader.read_u8() {
            Ok(v) => v,
            Err(e) => {
                return Err(e);
            },
        };
        let life = match reader.read_u8() {
            Ok(v) => v,
            Err(e) => {
                return Err(e);
            },
        };
        let drops = match Self::load_drops(reader, game_version) {
            Ok(v) => v,
            Err(e) => {
                return Err(e);
            },
        };
        let creation_id = match reader.read_u32() {
            Ok(v) => v,
            Err(e) => {
                return Err(e);
            },
        };
        Ok(Destructable {
            model_id,
            variation,
            coord_x,
            coord_y,
            coord_z,
            angle,
            scale_x,
            scale_y,
            scale_z,
            flags,
            life,
            drops,
            creation_id,
        })
    }

    /// Writes the drops of a destructable: Reign of Chaos stores none.
    fn write_drops(drops: &Drops, writer: &mut BinaryWriter, game_version: &GameVersion)
        requires
            *game_version != GameVersion::Reforged,
            *game_version != GameVersion::RoC ==> old(writer).has_room(
                drops_bytes(*drops, *game_version).len() as int,
            ),
        ensures
            *game_version == GameVersion::RoC ==> final(writer).contents() == old(writer).contents()
                && final(writer).position() == old(writer).position(),
            *game_version != GameVersion::RoC ==> final(writer).contents() == write_at(
                old(writer).contents(),
                old(writer).position() as int,
                drops_bytes(*drops, *game_version),
            ) && final(writer).position() == old(writer).position() + drops_bytes(
                *drops,
                *game_version,
            ).len(),
    {
        if !game_version.is_roc() {
            let _ = drops.write_version(writer, game_version);
        }
    }

    /// Writes the destructable for version `game_version`.
    #[verifier::rlimit(60)]
    #[verifier::spinoff_prover]
    pub fn write_version(&self, writer: &mut BinaryWriter, game_version: &GameVersion) -> (res: Result<(), WriteError>)
        requires
            old(writer).has_room(destructable_bytes(*self, *game_version).len() as int),
            *game_version != GameVersion::Reforged,
        ensures
            res is Ok,
            final(writer).contents() == write_at(
                old(writer).contents(),
                old(writer).position() as int,
                destructable_bytes(*self, *game_version),
            ),
            final(writer).position() == old(writer).position() + destructable_bytes(
                *self,
                *game_version,
            ).len(),
    {
        let ghost c0 = writer.contents();
        let ghost p0 = writer.position() as int;
        let ghost mut acc: Seq<u8> = Seq::empty();
        assert(write_at(c0, p0, acc) =~= c0);
        let _ = writer.write_string_utf8(self.model_id.as_str());
        proof {
            lemma_write_at_concat(c0, p0, acc, encode_utf8(self.model_id@));
            acc = acc + encode_utf8(self.model_id@);
        }
        let _ = writer.write_u32(self.variation);
        proof {
            lemma_write_at_concat(c0, p0, acc, le_bytes_u32(self.variation));
            acc = acc + le_bytes_u32(self.variation);
        }
        let _ = writer.write_u32(self.coord_x);
        proof {
            lemma_write_at_concat(c0, p0, acc, le_bytes_u32(self.coord_x));
            acc = acc + le_bytes_u32(self.coord_x);
        }
        let _ = writer.write_u32(self.coord_y);
        proof {
            lemma_write_at_concat(c0, p0, acc, le_bytes_u32(self.coord_y));
            acc = acc + le_bytes_u32(self.coord_y);
        }
        let _ = writer.write_u32(self.coord_z);
        proof {
            lemma_write_at_concat(c0, p0, acc, le_bytes_u32(self.coord_z));
            acc = acc + le_bytes_u32(self.coord_z);
        }
        let _ = writer.write_u32(self.angle);
        proof {
            lemma_write_at_concat(c0, p0, acc, le_bytes_u32(self.angle));
            acc = acc + le_bytes_u32(self.angle);
        }
        let _ = writer.write_u32(self.scale_x);
        proof {
            lemma_write_at_concat(c0, p0, acc, le_bytes_u32(self.scale_x));
            acc = acc + le_bytes_u32(self.scale_x);
        }
        let _ = writer.write_u32(self.scale_y);
        proof {
            lemma_write_at_concat(c0, p0, acc, le_bytes_u32(self.scale_y));
            acc = acc + le_bytes_u32(self.scale_y);
        }
        let _ = writer.write_u32(self.scale_z);
        proof {
            lemma_write_at_concat(c0, p0, acc, le_bytes_u32(self.scale_z));
            acc = acc + le_bytes_u32(self.scale_z);
        }
        let _ = writer.write_u8(self.flags);
        proof {
            lemma_write_at_concat(c0, p0, acc, seq![self.flags]);
            acc = acc + seq![self.flags];
        }
        let _ = writer.write_u8(self.life);
        proof {
            lemma_write_at_concat(c0, p0, acc, seq![self.life]);
            acc = acc + seq![self.life];
        }
        let ghost dropped = if *game_version == GameVersion::RoC {
            Seq::<u8>::empty()
        } else {
            drops_bytes(self.drops, *game_version)
        };
        Self::write_drops(&self.drops, writer, game_version);
        proof {
            if *game_version == GameVersion::RoC {
                assert(acc + dropped =~= acc);
            } else {
                lemma_write_at_concat(c0, p0, acc, dropped);
            }
            acc = acc + dropped;
        }
        let _ = writer.write_u32(self.creation_id);
        proof {
            lemma_write_at_concat(c0, p0, acc, le_bytes_u32(self.creation_id));
            acc = acc + le_bytes_u32(self.creation_id);
        }
        assert(acc =~= destructable_bytes(*self, *game_version));
        Ok(())
    }
}

/// A special doodad: its four-character ID and the bits of its position.
#[derive(Debug)]
pub struct SpecialDoodad {
    pub model_id: String,
    pub coord_x: u32,
    pub coord_y: u32,
    pub coord_z: u32,
}

/// Where reading special doodad `x` from `p` ends, when it is stored there.
pub open spec fn special_read(d: Seq<u8>, p: int, x: SpecialDoodad) -> Option<int> {
    if has_bytes(d, p, 16) && code_at(d, p) && x.model_id@ == code_text(d, p) && x.coord_x == u32_at(
        d,
        p + 4,
    ) && x.coord_y == u32_at(d, p + 8) && x.coord_z == u32_at(d, p + 12) {
        Some(p + 16)
    } else {
        None
    }
}

/// The layout of a special doodad in the doodads file: its model code in
/// bytes 0 to 3, then its position x, y and z as little-endian words at bytes
/// 4, 8 and 12. Reading takes each field from its bytes and writing puts it
/// there.
pub proof fn law_special_doodad_layout(d: Seq<u8>, p: int, x: SpecialDoodad, y: SpecialDoodad)
    requires
        encode_utf8(y.model_id@).len() == 4,
    ensures
        special_read(d, p, x) is Some ==> {
            &&& x.model_id@ == code_text(d, p)
            &&& x.coord_x == u32_at(d, p + 4)
            &&& x.coord_y == u32_at(d, p + 8)
            &&& x.coord_z == u32_at(d, p + 12)
        },
        special_bytes(y).len() == 16,
        special_bytes(y).subrange(0, 4) == encode_utf8(y.model_id@),
        special_bytes(y).subrange(4, 8) == le_bytes_u32(y.coord_x),
        special_bytes(y).subrange(8, 12) == le_bytes_u32(y.coord_y),
        special_bytes(y).subrange(12, 16) == le_bytes_u32(y.coord_z),
{
    let b = special_bytes(y);
    assert(b.subrange(0, 4) =~= encode_utf8(y.model_id@));
    assert(b.subrange(4, 8) =~= le_bytes_u32(y.coord_x));
    assert(b.subrange(8, 12) =~= le_bytes_u32(y.coord_y));
    assert(b.subrange(12, 16) =~= le_bytes_u32(y.coord_z));
}

/// The bytes that store special doodad `x`.
pub open spec fn special_bytes(x: SpecialDoodad) -> Seq<u8> {
    encode_utf8(x.model_id@) + le_bytes_u32(x.coord_x) + le_bytes_u32(x.coord_y) + le_bytes_u32(
        x.coord_z,
    )
}

impl SpecialDoodad {
    /// Reads a special doodad.
    pub fn read(reader: &mut BinaryReader) -> (res: Result<Self, ReadError>)
        requires
            old(reader).wf(),
        ensures
            final(reader).wf(),
            final(reader).contents() == old(reader).contents(),
            ({
                let d = old(reader).contents();
                let p = old(reader).position() as int;
                &&& res is Ok <==> has_bytes(d, p, 16) && code_at(d, p)
                &&& res matches Ok(x) ==> special_read(d, p, x) == Some(final(reader).position() as int)
            }),
    {
        let model_id = match reader.read_string_utf8(4) {
            Ok(v) => v,
            Err(e) => {
                return Err(e);
            },
        };
        let coord_x = match reader.read_u32() {
            Ok(v) => v,
            Err(e) => {
                return Err(e);
            },
        };
        let coord_y = match reader.read_u32() {
            Ok(v) => v,
            Err(e) => {
                return Err(e);
            },
        };
        let coord_z = match reader.read_u32() {
            Ok(v) => v,
            Err(e) => {
                return Err(e);
            },
        };
        Ok(SpecialDoodad { model_id, coord_x, coord_y, coord_z })
    }

    /// Writes the special doodad.
    pub fn write(&self, writer: &mut BinaryWriter) -> (res: Result<(), WriteError>)
        requires
            old(writer).has_room(special_bytes(*self).len() as int),
        ensures
            res is Ok,
            final(writer).contents() == write_at(
                old(writer).contents(),
                old(writer).position() as int,
                special_bytes(*self),
            ),
            final(writer).position() == old(writer).position() + special_bytes(*self).len(),
    {
        let ghost c0 = writer.contents();
        let ghost p0 = writer.position() as int;
        let ghost a = encode_utf8(self.model_id@);
        let _ = writer.write_string_utf8(self.model_id.as_str());
        let _ = writer.write_u32(self.coord_x);
        proof {
            lemma_write_at_concat(c0, p0, a, le_bytes_u32(self.coord_x));
        }
        let _ = writer.write_u32(self.coord_y);
        proof {
            lemma_write_at_concat(c0, p0, a + le_bytes_u32(self.coord_x), le_bytes_u32(self.coord_y));
        }
        let _ = writer.write_u32(self.coord_z);
        proof {
            lemma_write_at_concat(
                c0,
                p0,
                a + le_bytes_u32(self.coord_x) + le_bytes_u32(self.coord_y),
                le_bytes_u32(self.coord_z),
            );
        }
        Ok(())
    }
}


/// [`destructable_end`] over `d` for version `v`.
pub open spec fn destructable_ends(d: Seq<u8>, v: GameVersion) -> spec_fn(int) -> Option<int> {
    |q: int| destructable_end(d, q, v)
}

/// Where reading destructable `x` from a position ends, for version `v`.
pub open spec fn destructable_reads(d: Seq<u8>, v: GameVersion) -> spec_fn(int, Destructable) -> Option<int> {
    |q: int, x: Destructable| if destructable_at(d, q, v, x) {
        destructable_end(d, q, v)
    } else {
        None
    }
}

/// Where the special doodads stored from a position end.
pub open spec fn special_ends(d: Seq<u8>) -> spec_fn(int) -> Option<int> {
    |q: int| if has_bytes(d, q, 16) && code_at(d, q) {
        Some(q + 16)
    } else {
        None
    }
}

/// Where reading special doodad `x` from a position ends.
pub open spec fn special_reads(d: Seq<u8>) -> spec_fn(int, SpecialDoodad) -> Option<int> {
    |q: int, x: SpecialDoodad| special_read(d, q, x)
}

/// [`destructable_bytes`] for version `v`, as a function.
pub open spec fn destructable_bytes_of(v: GameVersion) -> spec_fn(Destructable) -> Seq<u8> {
    |x: Destructable| destructable_bytes(x, v)
}

/// [`special_bytes`] as a function.
pub open spec fn special_bytes_of() -> spec_fn(SpecialDoodad) -> Seq<u8> {
    |x: SpecialDoodad| special_bytes(x)
}

/// The doodads of the map (`war3map.doo`): destructables and special
/// doodads.
#[derive(Debug)]
pub struct DoodadMap {
    pub id: String,
    pub version: GameVersion,
    pub subversion: u32,
    pub destructables: Vec<Destructable>,
    pub special_doodad_version: u32,
    pub special_doodads: Vec<SpecialDoodad>,
}

/// Where the doodads file stored at `p` ends, when it can be read: an ID, a
/// known version, a subversion, the counted destructables, a special
/// version and the counted special doodads.
pub open spec fn doodad_map_end(d: Seq<u8>, p: int) -> Option<int> {
    if !(has_bytes(d, p, 16) && code_at(d, p)) {
        None
    } else {
        match unit_map_version(u32_at(d, p + 4)) {
            None => None,
            Some(v) => match seq_end(p + 16, u32_at(d, p + 12) as nat, destructable_ends(d, v)) {
                None => None,
                Some(q) => if has_bytes(d, q, 8) {
                    seq_end(q + 8, u32_at(d, q + 4) as nat, special_ends(d))
                } else {
                    None
                },
            },
        }
    }
}

/// Whether `x` is the doodads file stored at `p`.
pub open spec fn doodad_map_at(d: Seq<u8>, p: int, x: DoodadMap) -> bool {
    let q = seq_end(p + 16, u32_at(d, p + 12) as nat, destructable_ends(d, x.version))->0;
    &&& doodad_map_end(d, p) is Some
    &&& x.id@ == code_text(d, p)
    &&& unit_map_version(u32_at(d, p + 4)) == Some(x.version)
    &&& x.subversion == u32_at(d, p + 8)
    &&& x.destructables@.len() == u32_at(d, p + 12)
    &&& seq_read(p + 16, x.destructables@, destructable_reads(d, x.version)) == Some(q)
    &&& x.special_doodad_version == u32_at(d, q)
    &&& x.special_doodads@.len() == u32_at(d, q + 4)
    &&& seq_read(q + 8, x.special_doodads@, special_reads(d)) == doodad_map_end(d, p)
}

/// The bytes that store doodads file `x`.
pub open spec fn doodad_map_bytes(x: DoodadMap) -> Seq<u8> {
    encode_utf8(x.id@) + le_bytes_u32(unit_map_version_code(x.version)) + le_bytes_u32(x.subversion)
        + le_bytes_u32(x.destructables@.len() as u32) + seq_bytes(
        x.destructables@,
        destructable_bytes_of(x.version),
    ) + le_bytes_u32(x.special_doodad_version) + le_bytes_u32(x.special_doodads@.len() as u32)
        + seq_bytes(x.special_doodads@, special_bytes_of())
}

/// Reads `n` entries.
fn read_destructables(reader: &mut BinaryReader, n: u32, game_version: &GameVersion) -> (res: Result<Vec<Destructable>, ReadError>)
    requires
        old(reader).wf(),
        *game_version != GameVersion::Reforged,
    ensures
        final(reader).wf(),
        final(reader).contents() == old(reader).contents(),
        ({
            let d = old(reader).contents();
            let p = old(reader).position() as int;
            &&& res is Ok <==> seq_end(p, n as nat, destructable_ends(d, *game_version)) is Some
            &&& res is Ok ==> seq_end(p, n as nat, destructable_ends(d, *game_version)) == Some(final(reader).position() as int)
            &&& res matches Ok(s) ==> s@.len() == n && seq_read(p, s@, destructable_reads(d, *game_version)) == Some(
                final(reader).position() as int,
            )
        }),
{
    let ghost d = reader.contents();
    let ghost p0 = reader.position() as int;
    let mut items: Vec<Destructable> = Vec::new();
    let mut k: u32 = 0;
    while k < n
        invariant
            reader.wf(),
            reader.contents() == d,
            d == old(reader).contents(),
            p0 == old(reader).position(),
            *game_version != GameVersion::Reforged,
            k <= n,
            items@.len() == k,
            seq_end(p0, k as nat, destructable_ends(d, *game_version)) == Some(reader.position() as int),
            seq_read(p0, items@, destructable_reads(d, *game_version)) == Some(reader.position() as int),
        decreases n - k,
    {
        let x = match Destructable::read_version(reader, game_version) {
            Ok(x) => x,
            Err(e) => {
                proof {
                    assert(seq_end(p0, (k + 1) as nat, destructable_ends(d, *game_version)) is None);
                    lemma_seq_end_none(p0, (k + 1) as nat, n as nat, destructable_ends(d, *game_version));
                }
                return Err(e);
            },
        };
        let ghost before = items@;
        items.push(x);
        assert(items@.drop_last() == before);
        k = k + 1;
    }
    Ok(items)
}

/// Reads `n` entries.
fn read_specials(reader: &mut BinaryReader, n: u32) -> (res: Result<Vec<SpecialDoodad>, ReadError>)
    requires
        old(reader).wf(),
    ensures
        final(reader).wf(),
        final(reader).contents() == old(reader).contents(),
        ({
            let d = old(reader).contents();
            let p = old(reader).position() as int;
            &&& res is Ok <==> seq_end(p, n as nat, special_ends(d)) is Some
            &&& res is Ok ==> seq_end(p, n as nat, special_ends(d)) == Some(final(reader).position() as int)
            &&& res matches Ok(s) ==> s@.len() == n && seq_read(p, s@, special_reads(d)) == Some(
                final(reader).position() as int,
            )
        }),
{
    let ghost d = reader.contents();
    let ghost p0 = reader.position() as int;
    let mut items: Vec<SpecialDoodad> = Vec::new();
    let mut k: u32 = 0;
    while k < n
        invariant
            reader.wf(),
            reader.contents() == d,
            d == old(reader).contents(),
            p0 == old(reader).position(),
            k <= n,
            items@.len() == k,
            seq_end(p0, k as nat, special_ends(d)) == Some(reader.position() as int),
            seq_read(p0, items@, special_reads(d)) == Some(reader.position() as int),
        decreases n - k,
    {
        let x = match SpecialDoodad::read(reader) {
            Ok(x) => x,
            Err(e) => {
                proof {
                    assert(seq_end(p0, (k + 1) as nat, special_ends(d)) is None);
                    lemma_seq_end_none(p0, (k + 1) as nat, n as nat, special_ends(d));
                }
                return Err(e);
            },
        };
        let ghost before = items@;
        items.push(x);
        assert(items@.drop_last() == before);
        k = k + 1;
    }
    Ok(items)
}

/// Writes the entries `items`, one after the other.
fn write_destructables(writer: &mut BinaryWriter, items: &Vec<Destructable>, game_version: &GameVersion)
    requires
        old(writer).has_room(seq_bytes(items@, destructable_bytes_of(*game_version)).len() as int),
        *game_version != GameVersion::Reforged,
    ensures
        final(writer).contents() == write_at(
            old(writer).contents(),
            old(writer).position() as int,
            seq_bytes(items@, destructable_bytes_of(*game_version)),
        ),
        final(writer).position() == old(writer).position() + seq_bytes(items@, destructable_bytes_of(*game_version)).len(),
{
    let ghost c0 = writer.contents();
    let ghost p0 = writer.position() as int;
    let ghost s = items@;
    let ghost f = destructable_bytes_of(*game_version);
    let mut k: usize = 0;
    while k < items.len()
        invariant
            k <= s.len(),
            s == items@,
            f == destructable_bytes_of(*game_version),
            *game_version != GameVersion::Reforged,
            0 <= p0,
            p0 + seq_bytes(s, f).len() <= usize::MAX,
            writer.contents() == write_at(c0, p0, seq_bytes(s.take(k as int), f)),
            writer.position() == p0 + seq_bytes(s.take(k as int), f).len(),
        decreases s.len() - k,
    {
        proof {
            lemma_seq_bytes_prefix(s, f, k + 1);
            assert(s.take(k + 1).drop_last() == s.take(k as int));
            assert(s.take(k + 1).last() == s[k as int]);
        }
        let _ = items[k].write_version(writer, game_version);
        proof {
            lemma_write_at_concat(c0, p0, seq_bytes(s.take(k as int), f), f(s[k as int]));
        }
        k = k + 1;
    }
    assert(s.take(s.len() as int) == s);
}

/// Writes the entries `items`, one after the other.
fn write_specials(writer: &mut BinaryWriter, items: &Vec<SpecialDoodad>)
    requires
        old(writer).has_room(seq_bytes(items@, special_bytes_of()).len() as int),
    ensures
        final(writer).contents() == write_at(
            old(writer).contents(),
            old(writer).position() as int,
            seq_bytes(items@, special_bytes_of()),
        ),
        final(writer).position() == old(writer).position() + seq_bytes(items@, special_bytes_of()).len(),
{
    let ghost c0 = writer.contents();
    let ghost p0 = writer.position() as int;
    let ghost s = items@;
    let ghost f = special_bytes_of();
    let mut k: usize = 0;
    while k < items.len()
        invariant
            k <= s.len(),
            s == items@,
            f == special_bytes_of(),
            0 <= p0,
            p0 + seq_bytes(s, f).len() <= usize::MAX,
            writer.contents() == write_at(c0, p0, seq_bytes(s.take(k as int), f)),
            writer.position() == p0 + seq_bytes(s.take(k as int), f).len(),
        decreases s.len() - k,
    {
        proof {
            lemma_seq_bytes_prefix(s, f, k + 1);
            assert(s.take(k + 1).drop_last() == s.take(k as int));
            assert(s.take(k + 1).last() == s[k as int]);
        }
        let _ = items[k].write(writer);
        proof {
            lemma_write_at_concat(c0, p0, seq_bytes(s.take(k as int), f), f(s[k as int]));
        }
        k = k + 1;
    }
    assert(s.take(s.len() as int) == s);
}

impl DoodadMap {
    /// Name of the file in the map archive.
    pub const FILE_NAME: &'static str = "war3map.doo";

    /// Reads the doodads file at the cursor, which must then be at the end of
    /// the bytes: an unknown version or trailing bytes fail with
    /// [`ReadError::Reason`].
    pub fn read(reader: &mut BinaryReader) -> (res: Result<Self, ReadError>)
        requires
            old(reader).wf(),
        ensures
            final(reader).wf(),
            final(reader).contents() == old(reader).contents(),
            ({
                let d = old(reader).contents();
                let p = old(reader).position() as int;
                &&& res is Ok <==> doodad_map_end(d, p) == Some(d.len() as int)
                &&& res matches Ok(x) ==> doodad_map_at(d, p, x)
                &&& (has_bytes(d, p, 8) && code_at(d, p) && unit_map_version(u32_at(d, p + 4)) is None)
                    ==> (res matches Err(ReadError::Reason(m)) && m@ == unknown_version(u32_at(d, p + 4)))
                &&& (doodad_map_end(d, p) matches Some(q) && q != d.len()) ==> (res matches Err(
                    ReadError::Reason(_),
                ))
            }),
    {
        let id = match reader.read_string_utf8(4) {
            Ok(v) => v,
            Err(e) => {
                return Err(e);
            },
        };
        let code = match reader.read_u32() {
            Ok(v) => v,
            Err(e) => {
                return Err(e);
            },
        };
        let version = match to_game_version(code) {
            Ok(v) => v,
            Err(reason) => {
                return Err(ReadError::Reason(reason));
            },
        };
        let subversion = match reader.read_u32() {
            Ok(v) => v,
            Err(e) => {
                return Err(e);
            },
        };
        let count = match reader.read_u32() {
            Ok(v) => v,
            Err(e) => {
                return Err(e);
            },
        };
        let destructables = match read_destructables(reader, count, &version) {
            Ok(v) => v,
            Err(e) => {
                return Err(e);
            },
        };
        let special_doodad_version = match reader.read_u32() {
            Ok(v) => v,
            Err(e) => {
                return Err(e);
            },
        };
        let count = match reader.read_u32() {
            Ok(v) => v,
            Err(e) => {
                return Err(e);
            },
        };
        let special_doodads = match read_specials(reader, count) {
            Ok(v) => v,
            Err(e) => {
                return Err(e);
            },
        };
        if reader.size() != reader.pos() as usize {
            let left = reader.size() - reader.pos() as usize;
            return Err(
                ReadError::Reason(
                    text_with_number("trailing bytes after the doodads of war3map.doo: ", left as u64),
                ),
            );
        }
        Ok(DoodadMap { id, version, subversion, destructables, special_doodad_version, special_doodads })
    }

    /// Writes the doodads file at the cursor.
    #[verifier::rlimit(40)]
    pub fn write(&self, writer: &mut BinaryWriter) -> (res: Result<(), WriteError>)
        requires
            old(writer).has_room(doodad_map_bytes(*self).len() as int),
            self.version != GameVersion::Reforged,
        ensures
            res is Ok,
            final(writer).contents() == write_at(
                old(writer).contents(),
                old(writer).position() as int,
                doodad_map_bytes(*self),
            ),
            final(writer).position() == old(writer).position() + doodad_map_bytes(*self).len(),
    {
        let ghost c0 = writer.contents();
        let ghost p0 = writer.position() as int;
        let ghost mut acc: Seq<u8> = Seq::empty();
        assert(write_at(c0, p0, acc) =~= c0);
        let _ = writer.write_string_utf8(self.id.as_str());
        proof {
            lemma_write_at_concat(c0, p0, acc, encode_utf8(self.id@));
            acc = acc + encode_utf8(self.id@);
        }
        let _ = writer.write_u32(from_game_version(&self.version));
        proof {
            lemma_write_at_concat(c0, p0, acc, le_bytes_u32(unit_map_version_code(self.version)));
            acc = acc + le_bytes_u32(unit_map_version_code(self.version));
        }
        let _ = writer.write_u32(self.subversion);
        proof {
            lemma_write_at_concat(c0, p0, acc, le_bytes_u32(self.subversion));
            acc = acc + le_bytes_u32(self.subversion);
        }
        let _ = writer.write_u32(self.destructables.len() as u32);
        proof {
            lemma_write_at_concat(c0, p0, acc, le_bytes_u32(self.destructables@.len() as u32));
            acc = acc + le_bytes_u32(self.destructables@.len() as u32);
        }
        let _ = write_destructables(writer, &self.destructables, &self.version);
        proof {
            lemma_write_at_concat(c0, p0, acc, seq_bytes(self.destructables@, destructable_bytes_of(self.version)));
            acc = acc + seq_bytes(self.destructables@, destructable_bytes_of(self.version));
        }
        let _ = writer.write_u32(self.special_doodad_version);
        proof {
            lemma_write_at_concat(c0, p0, acc, le_bytes_u32(self.special_doodad_version));
            acc = acc + le_bytes_u32(self.special_doodad_version);
        }
        let _ = writer.write_u32(self.special_doodads.len() as u32);
        proof {
            lemma_write_at_concat(c0, p0, acc, le_bytes_u32(self.special_doodads@.len() as u32));
            acc = acc + le_bytes_u32(self.special_doodads@.len() as u32);
        }
        let _ = write_specials(writer, &self.special_doodads);
        proof {
            lemma_write_at_concat(c0, p0, acc, seq_bytes(self.special_doodads@, special_bytes_of()));
            acc = acc + seq_bytes(self.special_doodads@, special_bytes_of());
        }
        assert(acc =~= doodad_map_bytes(*self));
        Ok(())
    }

    /// The serialized doodads file in a fresh writer.
    pub fn prepare_write(&self) -> (res: Result<BinaryWriter, MapError>)
        requires
            doodad_map_bytes(*self).len() <= usize::MAX,
            self.version != GameVersion::Reforged,
        ensures
            res matches Ok(w) && w.contents() == doodad_map_bytes(*self),
    {
        let mut writer = BinaryWriter::new();
        let _ = self.write(&mut writer);
        proof {
            assert(write_at(Seq::empty(), 0, doodad_map_bytes(*self)) =~= doodad_map_bytes(*self));
        }
        Ok(writer)
    }
}

} // verus!
