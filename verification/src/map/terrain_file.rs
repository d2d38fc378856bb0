//! Terrain tile points of `war3map.w3e`.

use vstd::prelude::*;

use vstd::utf8::encode_utf8;

use crate::formats::binary_reader::{u16_at, u32_at, BinaryReader};
use crate::formats::binary_writer::{lemma_write_at_concat, write_at, BinaryWriter};
use crate::formats::encoding::le_bytes_u16;
use crate::formats::roundtrip::law_u16_write_read;
use crate::formats::encoding::le_bytes_u32;
use crate::formats::{text_with_number, MpqError, ReadError, WriteError};
use crate::map::error::MapError;
use crate::map::triggers::trigger_data::has_bytes;
use crate::map::unit_map::{code_at, lemma_seq_bytes_prefix, seq_bytes, seq_end, seq_read};
use crate::map::w3i_file::{code_ends, code_reads, counted_end, counted_read};

verus! {

/// Errors of the terrain file.
#[derive(Debug)]
pub enum TerrainError {
    MpqError(MpqError),
    InitReader(ReadError),
    Parsing(ReadError),
    SaveError(WriteError),
}

/// One tile point of the terrain: height, water level and packed texture,
/// flag and cliff data.
#[derive(Debug)]
pub struct TilePoint {
    pub ground_height: i16,
    pub water_level: u16,
    pub ground_texture_and_flags: u8,
    pub texture_details: u8,
    pub cliff_texture_and_layer_height: u8,
}

/// The seven serialized bytes of a tile point.
pub open spec fn tile_bytes(t: TilePoint) -> Seq<u8> {
    le_bytes_u16(t.ground_height as u16) + le_bytes_u16(t.water_level) + seq![
        t.ground_texture_and_flags,
        t.texture_details,
        t.cliff_texture_and_layer_height,
    ]
}

/// The tile point stored at `pos` in `buf`.
pub open spec fn tile_at(buf: Seq<u8>, pos: int) -> TilePoint {
    TilePoint {
        ground_height: u16_at(buf, pos) as i16,
        water_level: u16_at(buf, pos + 2),
        ground_texture_and_flags: buf[pos + 4],
        texture_details: buf[pos + 5],
        cliff_texture_and_layer_height: buf[pos + 6],
    }
}

/// The layout of a tile point record in the terrain file: bytes 0 and 1
/// hold the ground height and bytes 2 and 3 the water level, little endian;
/// byte 4 holds the ground texture and flags, byte 5 the texture details and
/// byte 6 the cliff texture and layer height. Reading takes each field from
/// its bytes and writing puts it there.
pub proof fn law_tile_point_layout(buf: Seq<u8>, pos: int, t: TilePoint)
    ensures
        tile_at(buf, pos).ground_height as u16 == u16_at(buf, pos),
        tile_at(buf, pos).water_level == u16_at(buf, pos + 2),
        tile_at(buf, pos).ground_texture_and_flags == buf[pos + 4],
        tile_at(buf, pos).texture_details == buf[pos + 5],
        tile_at(buf, pos).cliff_texture_and_layer_height == buf[pos + 6],
        tile_bytes(t).len() == 7,
        tile_bytes(t).subrange(0, 2) == le_bytes_u16(t.ground_height as u16),
        tile_bytes(t).subrange(2, 4) == le_bytes_u16(t.water_level),
        tile_bytes(t)[4] == t.ground_texture_and_flags,
        tile_bytes(t)[5] == t.texture_details,
        tile_bytes(t)[6] == t.cliff_texture_and_layer_height,
{
    let h = u16_at(buf, pos);
    assert((h as i16) as u16 == h) by (bit_vector);
    assert(tile_bytes(t).subrange(0, 2) =~= le_bytes_u16(t.ground_height as u16));
    assert(tile_bytes(t).subrange(2, 4) =~= le_bytes_u16(t.water_level));
}

impl TilePoint {
    /// Boundary bit (0x4000) of the water level field.
    pub fn boundary_flag(&self) -> (res: bool)
        ensures
            res == (self.water_level & 0x4000 == 0x4000),
    {
        self.water_level & 0x4000 == 0x4000
    }

    /// The water level field without its boundary bit.
    pub fn get_water_level(&self) -> (res: i16)
        ensures
            res == (self.water_level & 0xBFFF) as i16,
    {
        (self.water_level & 0xBFFF) as i16
    }

    /// Ramp bit (0x10).
    pub fn ramp(&self) -> (res: bool)
        ensures
            res == (self.ground_texture_and_flags & 0x10 == 0x10),
    {
        self.ground_texture_and_flags & 0x0010 == 0x0010
    }

    /// Blight bit (0x20).
    pub fn blight(&self) -> (res: bool)
        ensures
            res == (self.ground_texture_and_flags & 0x20 == 0x20),
    {
        self.ground_texture_and_flags & 0x0020 == 0x0020
    }

    /// Water bit (0x40).
    pub fn water(&self) -> (res: bool)
        ensures
            res == (self.ground_texture_and_flags & 0x40 == 0x40),
    {
        self.ground_texture_and_flags & 0x0040 == 0x0040
    }

    /// High nibble of the ground texture and flags byte.
    pub fn ground_texture(&self) -> (res: u8)
        ensures
            res == self.ground_texture_and_flags >> 4,
    {
        self.ground_texture_and_flags >> 4
    }

    /// Low nibble of the cliff texture and layer height byte: the cliff
    /// texture.
    pub fn cliff_texture(&self) -> (res: u8)
        ensures
            res == self.cliff_texture_and_layer_height & 0x0F,
    {
        self.cliff_texture_and_layer_height & 0x0F
    }

    /// High nibble of the cliff texture and layer height byte.
    pub fn layer_height(&self) -> (res: u8)
        ensures
            res == self.cliff_texture_and_layer_height >> 4,
    {
        self.cliff_texture_and_layer_height >> 4
    }

    /// Sets or clears the boundary bit, leaving every other bit as it was.
    pub fn set_boundary_flag(&mut self, value: bool)
        ensures
            final(self).water_level == if value {
                old(self).water_level | 0x4000
            } else {
                old(self).water_level & 0xBFFF
            },
            final(self).ground_height == old(self).ground_height,
            final(self).ground_texture_and_flags == old(self).ground_texture_and_flags,
            final(self).texture_details == old(self).texture_details,
            final(self).cliff_texture_and_layer_height == old(self).cliff_texture_and_layer_height,
    {
        if value {
            self.water_level = self.water_level | 0x4000;
        } else {
            self.water_level = self.water_level & 0xBFFF;
        }
    }

    /// Reads a tile point at the cursor; fails with [`ReadError::EOF`] when
    /// fewer than seven bytes are left.
    pub fn read(reader: &mut BinaryReader) -> (res: Result<Self, ReadError>)
        requires
            old(reader).wf(),
        ensures
            final(reader).wf(),
            final(reader).contents() == old(reader).contents(),
            old(reader).has(7) ==> (res matches Ok(t) && t == tile_at(
                old(reader).contents(),
                old(reader).position() as int,
            ) && final(reader).position() == old(reader).position() + 7),
            !old(reader).has(7) ==> res matches Err(ReadError::EOF),
    {
        let ground_height = match reader.read_i16() {
            Ok(v) => v,
            Err(e) => return Err(e),
        };
        let water_level = match reader.read_u16() {
            Ok(v) => v,
            Err(e) => return Err(e),
        };
        let ground_texture_and_flags = match reader.read_u8() {
            Ok(v) => v,
            Err(e) => return Err(e),
        };
        let texture_details = match reader.read_u8() {
            Ok(v) => v,
            Err(e) => return Err(e),
        };
        let cliff_texture_and_layer_height = match reader.read_u8() {
            Ok(v) => v,
            Err(e) => return Err(e),
        };
        Ok(
            TilePoint {
                ground_height,
                water_level,
                ground_texture_and_flags,
                texture_details,
                cliff_texture_and_layer_height,
            },
        )
    }

    /// Writes the seven bytes of the tile point at the cursor.
    pub fn write(&self, writer: &mut BinaryWriter) -> (res: Result<(), WriteError>)
        requires
            old(writer).has_room(7),
        ensures
            res is Ok,
            final(writer).contents() == write_at(
                old(writer).contents(),
                old(writer).position() as int,
                tile_bytes(*self),
            ),
            final(writer).position() == old(writer).position() + 7,
    {
        let ghost before = writer.contents();
        let ghost start = writer.position() as int;
        let ghost a = le_bytes_u16(self.ground_height as u16);
        let ghost b = le_bytes_u16(self.water_level);
        writer.write_i16(self.ground_height);
        writer.write_u16(self.water_level);
        proof {
            lemma_write_at_concat(before, start, a, b);
        }
        writer.write_u8(self.ground_texture_and_flags);
        proof {
            lemma_write_at_concat(before, start, a + b, seq![self.ground_texture_and_flags]);
        }
        writer.write_u8(self.texture_details);
        proof {
            lemma_write_at_concat(
                before,
                start,
                a + b + seq![self.ground_texture_and_flags],
                seq![self.texture_details],
            );
        }
        writer.write_u8(self.cliff_texture_and_layer_height);
        proof {
            lemma_write_at_concat(
                before,
                start,
                a + b + seq![self.ground_texture_and_flags] + seq![self.texture_details],
                seq![self.cliff_texture_and_layer_height],
            );
            assert(a + b + seq![self.ground_texture_and_flags] + seq![self.texture_details] + seq![
                self.cliff_texture_and_layer_height,
            ] =~= tile_bytes(*self));
        }
        Ok(())
    }
}

/// A tile point written at `pos` reads back as itself there.
pub proof fn law_tile_write_read(buf: Seq<u8>, pos: int, t: TilePoint)
    requires
        0 <= pos,
    ensures
        write_at(buf, pos, tile_bytes(t)).len() >= pos + 7,
        tile_at(write_at(buf, pos, tile_bytes(t)), pos) == t,
{
    let w = write_at(buf, pos, tile_bytes(t));
    law_u16_write_read(buf, pos, t.ground_height as u16);
    assert(u16_at(w, pos) == u16_at(write_at(buf, pos, le_bytes_u16(t.ground_height as u16)), pos));
    assert(u16_at(w, pos + 2) == u16_at(
        write_at(buf, pos + 2, le_bytes_u16(t.water_level)),
        pos + 2,
    ));
    law_u16_write_read(buf, pos + 2, t.water_level);
    let gh = t.ground_height;
    assert((gh as u16) as i16 == gh) by (bit_vector);
}

/// Setting the boundary flag makes it read back as set, clearing it as
/// cleared, and neither changes the water level read without that bit.
pub proof fn law_boundary_flag(water_level: u16, value: bool)
    ensures
        ({
            let w = if value {
                water_level | 0x4000
            } else {
                water_level & 0xBFFF
            };
            &&& (w & 0x4000 == 0x4000) == value
            &&& (w & 0xBFFF) == (water_level & 0xBFFF)
        }),
{
    assert((water_level | 0x4000) & 0x4000 == 0x4000) by (bit_vector);
    assert((water_level & 0xBFFF) & 0x4000 != 0x4000) by (bit_vector);
    assert((water_level | 0x4000) & 0xBFFF == water_level & 0xBFFF) by (bit_vector);
    assert((water_level & 0xBFFF) & 0xBFFF == water_level & 0xBFFF) by (bit_vector);
}


/// Where the tile size fields of the terrain file stored at `p` start: after
/// the ID, version, main tileset, custom flag, and the two counted lists of
/// tileset codes.
pub open spec fn terrain_sizes_pos(d: Seq<u8>, p: int) -> Option<int> {
    if !(code_at(d, p) && has_bytes(d, p, 13)) {
        None
    } else {
        match counted_end(d, p + 13, code_ends(d)) {
            None => None,
            Some(g) => counted_end(d, g, code_ends(d)),
        }
    }
}

/// The number of tile points of the terrain whose sizes are stored at `c`.
pub open spec fn tile_count(d: Seq<u8>, c: int) -> int {
    u32_at(d, c) * u32_at(d, c + 4)
}

/// Whether the tile count of the terrain file stored at `p`, when its sizes
/// can be read, fits in a `u32`.
pub open spec fn terrain_size_ok(d: Seq<u8>, p: int) -> bool {
    match terrain_sizes_pos(d, p) {
        Some(c) => has_bytes(d, c, 8) ==> tile_count(d, c) <= u32::MAX,
        None => true,
    }
}

/// Where the terrain file stored at `p` ends, when it can be read: its
/// head, sizes, center offset, then width times height tile points of seven
/// bytes each.
pub open spec fn terrain_end(d: Seq<u8>, p: int) -> Option<int> {
    match terrain_sizes_pos(d, p) {
        None => None,
        Some(c) => if has_bytes(d, c, 16) && tile_count(d, c) <= u32::MAX && has_bytes(
            d,
            c + 16,
            7 * tile_count(d, c),
        ) {
            Some(c + 16 + 7 * tile_count(d, c))
        } else {
            None
        },
    }
}

/// The terrain of the map (`war3map.w3e`). The center offset is held as the
/// bits of its IEEE 754 single precision encoding, which is how the file
/// stores it.
#[derive(Debug)]
pub struct TerrainFile {
    pub id: String,
    pub version: u32,
    pub main_tileset: u8,
    pub custom_tileset: bool,
    pub ground_tilesets: Vec<String>,
    pub cliff_tilesets: Vec<String>,
    pub my_height: u32,
    pub mx_width: u32,
    pub center_offset_x: u32,
    pub center_offset_y: u32,
    pub tilepoints: Vec<TilePoint>,
}

/// Whether `x` is the terrain file stored at `p`.
pub open spec fn terrain_at(d: Seq<u8>, p: int, x: TerrainFile) -> bool {
    let g = counted_end(d, p + 13, code_ends(d))->0;
    let c = terrain_sizes_pos(d, p)->0;
    &&& terrain_end(d, p) is Some
    &&& x.id@ == crate::map::unit_map::code_text(d, p)
    &&& x.version == u32_at(d, p + 4)
    &&& x.main_tileset == d[p + 8]
    &&& x.custom_tileset == (u32_at(d, p + 9) == 1)
    &&& counted_read(d, p + 13, x.ground_tilesets@, code_reads(d)) == Some(g)
    &&& counted_read(d, g, x.cliff_tilesets@, code_reads(d)) == Some(c)
    &&& x.my_height == u32_at(d, c)
    &&& x.mx_width == u32_at(d, c + 4)
    &&& x.center_offset_x == u32_at(d, c + 8)
    &&& x.center_offset_y == u32_at(d, c + 12)
    &&& x.tilepoints@.len() == tile_count(d, c)
    &&& forall|i: int| 0 <= i < x.tilepoints@.len() ==> #[trigger] x.tilepoints@[i] == tile_at(d, c + 16 + 7 * i)
}

/// The layout of the terrain file: a four-byte id; the version as a
/// little-endian word at byte 4; the main tileset at byte 8; the custom
/// tileset flag as a word at byte 9 (1 for set); the counted ground and cliff
/// tileset codes; then the height and the width in tile points, and the
/// center offset x and y, as words; then the tile points, seven bytes each,
/// row after row.
pub proof fn law_terrain_layout(d: Seq<u8>, p: int, x: TerrainFile)
    requires
        terrain_at(d, p, x),
    ensures
        x.version == u32_at(d, p + 4),
        x.main_tileset == d[p + 8],
        x.custom_tileset == (u32_at(d, p + 9) == 1),
        ({
            let c = terrain_sizes_pos(d, p)->0;
            &&& x.my_height == u32_at(d, c)
            &&& x.mx_width == u32_at(d, c + 4)
            &&& x.center_offset_x == u32_at(d, c + 8)
            &&& x.center_offset_y == u32_at(d, c + 12)
            &&& forall|i: int| 0 <= i < x.tilepoints@.len() ==> {
                &&& (#[trigger] x.tilepoints@[i]).ground_height as u16 == u16_at(d, c + 16 + 7 * i)
                &&& x.tilepoints@[i].water_level == u16_at(d, c + 16 + 7 * i + 2)
                &&& x.tilepoints@[i].ground_texture_and_flags == d[c + 16 + 7 * i + 4]
                &&& x.tilepoints@[i].texture_details == d[c + 16 + 7 * i + 5]
                &&& x.tilepoints@[i].cliff_texture_and_layer_height == d[c + 16 + 7 * i + 6]
            }
        }),
{
    let c = terrain_sizes_pos(d, p)->0;
    assert forall|i: int| 0 <= i < x.tilepoints@.len() implies {
        &&& (#[trigger] x.tilepoints@[i]).ground_height as u16 == u16_at(d, c + 16 + 7 * i)
        &&& x.tilepoints@[i].water_level == u16_at(d, c + 16 + 7 * i + 2)
        &&& x.tilepoints@[i].ground_texture_and_flags == d[c + 16 + 7 * i + 4]
        &&& x.tilepoints@[i].texture_details == d[c + 16 + 7 * i + 5]
        &&& x.tilepoints@[i].cliff_texture_and_layer_height == d[c + 16 + 7 * i + 6]
    } by {
        law_tile_point_layout(d, c + 16 + 7 * i, x.tilepoints@[i]);
    }
}

/// The UTF-8 bytes of text `s`, as a function.
pub open spec fn text_bytes_of() -> spec_fn(String) -> Seq<u8> {
    |s: String| encode_utf8(s@)
}

/// [`tile_bytes`] as a function.
pub open spec fn tile_bytes_of() -> spec_fn(TilePoint) -> Seq<u8> {
    |t: TilePoint| tile_bytes(t)
}

/// The bytes that store terrain file `x`.
pub open spec fn terrain_bytes(x: TerrainFile) -> Seq<u8> {
    encode_utf8(x.id@) + le_bytes_u32(x.version) + seq![x.main_tileset] + le_bytes_u32(
        if x.custom_tileset {
            1u32
        } else {
            0u32
        },
    ) + le_bytes_u32(x.ground_tilesets@.len() as u32) + seq_bytes(x.ground_tilesets@, text_bytes_of())
        + le_bytes_u32(x.cliff_tilesets@.len() as u32) + seq_bytes(x.cliff_tilesets@, text_bytes_of())
        + le_bytes_u32(x.my_height) + le_bytes_u32(x.mx_width) + le_bytes_u32(x.center_offset_x)
        + le_bytes_u32(x.center_offset_y) + seq_bytes(x.tilepoints@, tile_bytes_of())
}

/// Reads `n` four-byte codes.
fn read_tilesets(reader: &mut BinaryReader, n: u32) -> (res: Result<Vec<String>, ReadError>)
    requires
        old(reader).wf(),
    ensures
        final(reader).wf(),
        final(reader).contents() == old(reader).contents(),
        ({
            let d = old(reader).contents();
            let p = old(reader).position() as int;
            &&& res is Ok <==> seq_end(p, n as nat, code_ends(d)) is Some
            &&& res is Ok ==> seq_end(p, n as nat, code_ends(d)) == Some(final(reader).position() as int)
            &&& res matches Ok(s) ==> s@.len() == n && seq_read(p, s@, code_reads(d)) == Some(
                final(reader).position() as int,
            )
        }),
{
    let ghost d = reader.contents();
    let ghost p0 = reader.position() as int;
    let mut items: Vec<String> = Vec::new();
    let mut k: u32 = 0;
    while k < n
        invariant
            reader.wf(),
            reader.contents() == d,
            d == old(reader).contents(),
            p0 == old(reader).position(),
            k <= n,
            items@.len() == k,
            seq_end(p0, k as nat, code_ends(d)) == Some(reader.position() as int),
            seq_read(p0, items@, code_reads(d)) == Some(reader.position() as int),
        decreases n - k,
    {
        let x = match reader.read_string_utf8(4) {
            Ok(x) => x,
            Err(e) => {
                proof {
                    assert(seq_end(p0, (k + 1) as nat, code_ends(d)) is None);
                    crate::map::unit_map::lemma_seq_end_none(p0, (k + 1) as nat, n as nat, code_ends(d));
                }
                return Err(e);
            },
        };
        let ghost before = items@;
        items.push(x);
        assert(items@.drop_last() == before);
        k = k + 1;
    }
    Ok(items)
}

/// Reads `n` tile points.
fn read_tiles(reader: &mut BinaryReader, n: u32) -> (res: Result<Vec<TilePoint>, ReadError>)
    requires
        old(reader).wf(),
    ensures
        final(reader).wf(),
        final(reader).contents() == old(reader).contents(),
        ({
            let d = old(reader).contents();
            let p = old(reader).position() as int;
            &&& res is Ok <==> has_bytes(d, p, 7 * n)
            &&& res is Ok ==> final(reader).position() == p + 7 * n
            &&& res matches Ok(s) ==> s@.len() == n && forall|i: int|
                0 <= i < n ==> #[trigger] s@[i] == tile_at(d, p + 7 * i)
        }),
{
    let ghost d = reader.contents();
    let ghost p0 = reader.position() as int;
    let mut items: Vec<TilePoint> = Vec::new();
    let mut k: u32 = 0;
    while k < n
        invariant
            reader.wf(),
            reader.contents() == d,
            d == old(reader).contents(),
            p0 == old(reader).position(),
            k <= n,
            items@.len() == k,
            reader.position() == p0 + 7 * k,
            forall|i: int| 0 <= i < k ==> #[trigger] items@[i] == tile_at(d, p0 + 7 * i),
        decreases n - k,
    {
        let x = match TilePoint::read(reader) {
            Ok(x) => x,
            Err(e) => {
                return Err(e);
            },
        };
        items.push(x);
        k = k + 1;
    }
    Ok(items)
}

impl TerrainFile {
    /// Name of the file in the map archive.
    pub const FILE_NAME: &'static str = "war3map.w3e";

    /// Reads the terrain file at the cursor and leaves the cursor after its
    /// last tile point. A tile count that does not fit in 32 bits fails with
    /// [`ReadError::Reason`].
    #[verifier::rlimit(40)]
    pub fn read_fields(reader: &mut BinaryReader) -> (res: Result<Self, ReadError>)
        requires
            old(reader).wf(),
        ensures
            final(reader).wf(),
            final(reader).contents() == old(reader).contents(),
            ({
                let d = old(reader).contents();
                let p = old(reader).position() as int;
                &&& res is Ok <==> terrain_end(d, p) is Some
                &&& res is Ok ==> terrain_end(d, p) == Some(final(reader).position() as int)
                &&& res matches Ok(x) ==> terrain_at(d, p, x)
                &&& !terrain_size_ok(d, p) ==> (res matches Err(ReadError::Reason(_)))
            }),
    {
        let ghost d = reader.contents();
        let ghost p = reader.position() as int;
        let id = match reader.read_string_utf8(4) {
            Ok(v) => v,
            Err(e) => {
                return Err(e);
            },
        };
        let version = match reader.read_u32() {
            Ok(v) => v,
            Err(e) => {
                return Err(e);
            },
        };
        let main_tileset = match reader.read_u8() {
            Ok(v) => v,
            Err(e) => {
                return Err(e);
            },
        };
        let custom_tileset = match reader.read_u32() {
            Ok(v) => v == 1,
            Err(e) => {
                return Err(e);
            },
        };
        let n = match reader.read_u32() {
            Ok(v) => v,
            Err(e) => {
                return Err(e);
            },
        };
        let ground_tilesets = match read_tilesets(reader, n) {
            Ok(v) => v,
            Err(e) => {
                return Err(e);
            },
        };
        let n = match reader.read_u32() {
            Ok(v) => v,
            Err(e) => {
                return Err(e);
            },
        };
        let cliff_tilesets = match read_tilesets(reader, n) {
            Ok(v) => v,
            Err(e) => {
                return Err(e);
            },
        };
        let ghost c = reader.position() as int;
        let my_height = match reader.read_u32() {
            Ok(v) => v,
            Err(e) => {
                return Err(e);
            },
        };
        let mx_width = match reader.read_u32() {
            Ok(v) => v,
            Err(e) => {
                return Err(e);
            },
        };
        assert((mx_width as u64) * (my_height as u64) <= u64::MAX) by (nonlinear_arith)
            requires
                mx_width <= u32::MAX,
                my_height <= u32::MAX,
        ;
        let count = (mx_width as u64) * (my_height as u64);
        assert(count == tile_count(d, c)) by (nonlinear_arith)
            requires
                count == (mx_width as u64) * (my_height as u64),
                my_height == u32_at(d, c),
                mx_width == u32_at(d, c + 4),
        ;
        if count > 0xFFFF_FFFFu64 {
            return Err(ReadError::Reason(text_with_number("tile count does not fit in 32 bits: ", count)));
        }
        let center_offset_x = match reader.read_u32() {
            Ok(v) => v,
            Err(e) => {
                return Err(e);
            },
        };
        let center_offset_y = match reader.read_u32() {
            Ok(v) => v,
            Err(e) => {
                return Err(e);
            },
        };
        let tilepoints = match read_tiles(reader, count as u32) {
            Ok(v) => v,
            Err(e) => {
                return Err(e);
            },
        };
        Ok(TerrainFile {
            id,
            version,
            main_tileset,
            custom_tileset,
            ground_tilesets,
            cliff_tilesets,
            my_height,
            mx_width,
            center_offset_x,
            center_offset_y,
            tilepoints,
        })
    }

    /// Reads the terrain file, which fills the buffer from the cursor to its
    /// end.
    pub fn read(reader: &mut BinaryReader) -> (res: Result<Self, ReadError>)
        requires
            old(reader).wf(),
            terrain_size_ok(old(reader).contents(), old(reader).position() as int),
            terrain_end(old(reader).contents(), old(reader).position() as int) matches Some(q) ==> q
                == old(reader).contents().len(),
        ensures
            final(reader).wf(),
            final(reader).contents() == old(reader).contents(),
            ({
                let d = old(reader).contents();
                let p = old(reader).position() as int;
                &&& res is Ok <==> terrain_end(d, p) is Some
                &&& res matches Ok(x) ==> terrain_at(d, p, x) && final(reader).position() == d.len()
            }),
    {
        Self::read_fields(reader)
    }
}


/// Writes the UTF-8 bytes of each text of `items`, one after the other.
fn write_texts(writer: &mut BinaryWriter, items: &Vec<String>)
    requires
        old(writer).has_room(seq_bytes(items@, text_bytes_of()).len() as int),
    ensures
        final(writer).contents() == write_at(
            old(writer).contents(),
            old(writer).position() as int,
            seq_bytes(items@, text_bytes_of()),
        ),
        final(writer).position() == old(writer).position() + seq_bytes(items@, text_bytes_of()).len(),
{
    let ghost c0 = writer.contents();
    let ghost p0 = writer.position() as int;
    let ghost s = items@;
    let ghost f = text_bytes_of();
    let mut k: usize = 0;
    while k < items.len()
        invariant
            k <= s.len(),
            s == items@,
            f == text_bytes_of(),
            0 <= p0,
            p0 + seq_bytes(s, f).len() <= usize::MAX,
            writer.contents() == write_at(c0, p0, seq_bytes(s.take(k as int), f)),
            writer.position() == p0 + seq_bytes(s.take(k as int), f).len(),
        decreases s.len() - k,
    {
        proof {
            lemma_seq_bytes_prefix(s, f, k + 1);
            assert(s.take(k + 1).drop_last() == s.take(k as int));
            assert(s.take(k + 1).last() == s[k as int]);
        }
        let _ = writer.write_string_utf8(items[k].as_str());
        proof {
            lemma_write_at_concat(c0, p0, seq_bytes(s.take(k as int), f), f(s[k as int]));
        }
        k = k + 1;
    }
    assert(s.take(s.len() as int) == s);
}

/// Writes the tile points `items`, one after the other.
fn write_tiles(writer: &mut BinaryWriter, items: &Vec<TilePoint>)
    requires
        old(writer).has_room(seq_bytes(items@, tile_bytes_of()).len() as int),
    ensures
        final(writer).contents() == write_at(
            old(writer).contents(),
            old(writer).position() as int,
            seq_bytes(items@, tile_bytes_of()),
        ),
        final(writer).position() == old(writer).position() + seq_bytes(items@, tile_bytes_of()).len(),
{
    let ghost c0 = writer.contents();
    let ghost p0 = writer.position() as int;
    let ghost s = items@;
    let ghost f = tile_bytes_of();
    let mut k: usize = 0;
    while k < items.len()
        invariant
            k <= s.len(),
            s == items@,
            f == tile_bytes_of(),
            0 <= p0,
            p0 + seq_bytes(s, f).len() <= usize::MAX,
            writer.contents() == write_at(c0, p0, seq_bytes(s.take(k as int), f)),
            writer.position() == p0 + seq_bytes(s.take(k as int), f).len(),
        decreases s.len() - k,
    {
        proof {
            lemma_seq_bytes_prefix(s, f, k + 1);
            assert(s.take(k + 1).drop_last() == s.take(k as int));
            assert(s.take(k + 1).last() == s[k as int]);
        }
        let _ = items[k].write(writer);
        proof {
            lemma_write_at_concat(c0, p0, seq_bytes(s.take(k as int), f), f(s[k as int]));
        }
        k = k + 1;
    }
    assert(s.take(s.len() as int) == s);
}

impl TerrainFile {
    /// Writes the terrain file at the cursor.
    #[verifier::rlimit(60)]
    #[verifier::spinoff_prover]
    pub fn write(&self, writer: &mut BinaryWriter) -> (res: Result<(), WriteError>)
        requires
            old(writer).has_room(terrain_bytes(*self).len() as int),
        ensures
            res is Ok,
            final(writer).contents() == write_at(
                old(writer).contents(),
                old(writer).position() as int,
                terrain_bytes(*self),
            ),
            final(writer).position() == old(writer).position() + terrain_bytes(*self).len(),
    {
        let ghost c0 = writer.contents();
        let ghost p0 = writer.position() as int;
        let ghost mut acc: Seq<u8> = Seq::empty();
        assert(write_at(c0, p0, acc) =~= c0);
        let flag: u32 = if self.custom_tileset {
            1
        } else {
            0
        };
        let _ = writer.write_string_utf8(self.id.as_str());
        proof {
            lemma_write_at_concat(c0, p0, acc, encode_utf8(self.id@));
            acc = acc + encode_utf8(self.id@);
        }
        let _ = writer.write_u32(self.version);
        proof {
            lemma_write_at_concat(c0, p0, acc, le_bytes_u32(self.version));
            acc = acc + le_bytes_u32(self.version);
        }
        let _ = writer.write_u8(self.main_tileset);
        proof {
            lemma_write_at_concat(c0, p0, acc, seq![self.main_tileset]);
            acc = acc + seq![self.main_tileset];
        }
        let _ = writer.write_u32(flag);
        proof {
            lemma_write_at_concat(c0, p0, acc, le_bytes_u32(flag));
            acc = acc + le_bytes_u32(flag);
        }
        let _ = writer.write_u32(self.ground_tilesets.len() as u32);
        proof {
            lemma_write_at_concat(c0, p0, acc, le_bytes_u32(self.ground_tilesets@.len() as u32));
            acc = acc + le_bytes_u32(self.ground_tilesets@.len() as u32);
        }
        let _ = write_texts(writer, &self.ground_tilesets);
        proof {
            lemma_write_at_concat(c0, p0, acc, seq_bytes(self.ground_tilesets@, text_bytes_of()));
            acc = acc + seq_bytes(self.ground_tilesets@, text_bytes_of());
        }
        let _ = writer.write_u32(self.cliff_tilesets.len() as u32);
        proof {
            lemma_write_at_concat(c0, p0, acc, le_bytes_u32(self.cliff_tilesets@.len() as u32));
            acc = acc + le_bytes_u32(self.cliff_tilesets@.len() as u32);
        }
        let _ = write_texts(writer, &self.cliff_tilesets);
        proof {
            lemma_write_at_concat(c0, p0, acc, seq_bytes(self.cliff_tilesets@, text_bytes_of()));
            acc = acc + seq_bytes(self.cliff_tilesets@, text_bytes_of());
        }
        let _ = writer.write_u32(self.my_height);
        proof {
            lemma_write_at_concat(c0, p0, acc, le_bytes_u32(self.my_height));
            acc = acc + le_bytes_u32(self.my_height);
        }
        let _ = writer.write_u32(self.mx_width);
        proof {
            lemma_write_at_concat(c0, p0, acc, le_bytes_u32(self.mx_width));
            acc = acc + le_bytes_u32(self.mx_width);
        }
        let _ = writer.write_u32(self.center_offset_x);
        proof {
            lemma_write_at_concat(c0, p0, acc, le_bytes_u32(self.center_offset_x));
            acc = acc + le_bytes_u32(self.center_offset_x);
        }
        let _ = writer.write_u32(self.center_offset_y);
        proof {
            lemma_write_at_concat(c0, p0, acc, le_bytes_u32(self.center_offset_y));
            acc = acc + le_bytes_u32(self.center_offset_y);
        }
        let _ = write_tiles(writer, &self.tilepoints);
        proof {
            lemma_write_at_concat(c0, p0, acc, seq_bytes(self.tilepoints@, tile_bytes_of()));
            acc = acc + seq_bytes(self.tilepoints@, tile_bytes_of());
        }
        assert(acc =~= terrain_bytes(*self));
        Ok(())
    }

    /// The serialized terrain file in a fresh writer.
    pub fn prepare_write(&self) -> (res: Result<BinaryWriter, MapError>)
        requires
            terrain_bytes(*self).len() <= usize::MAX,
        ensures
            res matches Ok(w) && w.contents() == terrain_bytes(*self),
    {
        let mut writer = BinaryWriter::new();
        let _ = self.write(&mut writer);
        proof {
            assert(write_at(Seq::empty(), 0, terrain_bytes(*self)) =~= terrain_bytes(*self));
        }
        Ok(writer)
    }
}


/// Whether terrain file `x` reads back as written: a four-byte ID and
/// tileset codes, counts that fit in a `u32`, and as many tile points as
/// its width times its height, which fits in a `u32`.
pub open spec fn terrain_round_ok(x: TerrainFile) -> bool {
    &&& encode_utf8(x.id@).len() == 4
    &&& x.ground_tilesets@.len() <= u32::MAX
    &&& x.cliff_tilesets@.len() <= u32::MAX
    &&& forall|i: int| 0 <= i < x.ground_tilesets@.len() ==> encode_utf8((#[trigger] x.ground_tilesets@[i])@).len() == 4
    &&& forall|i: int| 0 <= i < x.cliff_tilesets@.len() ==> encode_utf8((#[trigger] x.cliff_tilesets@[i])@).len() == 4
    &&& x.my_height * x.mx_width <= u32::MAX
    &&& x.tilepoints@.len() == x.my_height * x.mx_width
}

/// The texts of `s`.
pub open spec fn text_views(s: Seq<String>) -> Seq<Seq<char>> {
    s.map_values(|t: String| t@)
}

/// Whether terrain file `a`, as read, holds what `b` stores.
pub open spec fn same_terrain(a: TerrainFile, b: TerrainFile) -> bool {
    &&& a.id@ == b.id@ && a.version == b.version && a.main_tileset == b.main_tileset
    &&& a.custom_tileset == b.custom_tileset
    &&& text_views(a.ground_tilesets@) == text_views(b.ground_tilesets@)
    &&& text_views(a.cliff_tilesets@) == text_views(b.cliff_tilesets@)
    &&& a.my_height == b.my_height && a.mx_width == b.mx_width
    &&& a.center_offset_x == b.center_offset_x && a.center_offset_y == b.center_offset_y
    &&& a.tilepoints@ == b.tilepoints@
}

proof fn lemma_tile_in(d: Seq<u8>, q: int, t: TilePoint)
    requires
        0 <= q,
        q + 7 <= d.len(),
        d.subrange(q, q + 7) == tile_bytes(t),
    ensures
        tile_at(d, q) == t,
{
    let b = tile_bytes(t);
    law_tile_write_read(Seq::empty(), 0, t);
    assert(write_at(Seq::empty(), 0, b) =~= b);
    assert forall|j: int| 0 <= j < 7 implies d[q + j] == b[j] by {
        assert(d[q + j] == d.subrange(q, q + 7)[j]);
    }
    assert(tile_at(d, q) == tile_at(b, 0));
}

proof fn lemma_codes_in(d: Seq<u8>, p: int, s: Seq<String>)
    requires
        0 <= p,
        forall|i: int| 0 <= i < s.len() ==> encode_utf8((#[trigger] s[i])@).len() == 4,
        p + seq_bytes(s, text_bytes_of()).len() <= d.len(),
        d.subrange(p, p + seq_bytes(s, text_bytes_of()).len()) == seq_bytes(s, text_bytes_of()),
    ensures
        seq_bytes(s, text_bytes_of()).len() == 4 * s.len(),
        seq_end(p, s.len(), code_ends(d)) == Some(p + 4 * s.len()),
        forall|s2: Seq<String>| s2.len() == s.len() && #[trigger] seq_read(p, s2, code_reads(d)) is Some
            ==> seq_read(p, s2, code_reads(d)) == Some(p + 4 * s.len()) && text_views(s2) == text_views(s),
{
    broadcast use vstd::utf8::encode_utf8_valid_utf8, vstd::utf8::encode_utf8_decode_utf8;

    assert forall|i: int| 0 <= i < s.len() implies text_bytes_of()(#[trigger] s[i]).len() == 4 by {}
    crate::map::field_roundtrip::lemma_fixed_seq_bytes(s, text_bytes_of(), 4);
    let same = |u: String, v: String| u@ == v@;
    assert forall|i: int, q: int|
        0 <= i < s.len() && 0 <= q && q + text_bytes_of()(s[i]).len() <= d.len() && #[trigger] d.subrange(
            q,
            q + text_bytes_of()(#[trigger] s[i]).len(),
        ) == text_bytes_of()(s[i]) implies {
            &&& code_ends(d)(q) == Some(q + text_bytes_of()(s[i]).len())
            &&& forall|y: String| #[trigger] code_reads(d)(q, y) is Some ==> code_reads(d)(q, y) == Some(
                q + text_bytes_of()(s[i]).len(),
            ) && same(y, s[i])
        } by {
        assert(d.subrange(q, q + 4) == encode_utf8(s[i]@));
    }
    crate::map::field_roundtrip::lemma_seq_in(d, p, s, text_bytes_of(), code_ends(d), code_reads(d), same);
    assert forall|s2: Seq<String>| s2.len() == s.len() && #[trigger] seq_read(p, s2, code_reads(d)) is Some
        implies text_views(s2) == text_views(s) by {
        assert(text_views(s2) =~= text_views(s));
    }
}

/// A terrain file with a four-byte ID and tileset codes, counts that fit in
/// a `u32`, and width times height tile points (a number that fits in a
/// `u32`) is written so that reading its bytes goes to their end and gives
/// it back.
#[verifier::rlimit(100)]
#[verifier::spinoff_prover]
pub proof fn law_terrain_write_read(x: TerrainFile)
    requires
        terrain_round_ok(x),
    ensures
        ({
            let d = terrain_bytes(x);
            &&& terrain_size_ok(d, 0)
            &&& terrain_end(d, 0) == Some(d.len() as int)
            &&& forall|y: TerrainFile| #[trigger] terrain_at(d, 0, y) ==> same_terrain(y, x)
        }),
{
    broadcast use vstd::utf8::encode_utf8_valid_utf8, vstd::utf8::encode_utf8_decode_utf8;

    let d = terrain_bytes(x);
    let gs = x.ground_tilesets@;
    let cs = x.cliff_tilesets@;
    let ts = x.tilepoints@;
    let ng = gs.len();
    let nc = cs.len();
    let flag: u32 = if x.custom_tileset { 1u32 } else { 0u32 };
    let a = encode_utf8(x.id@);
    let f = seq_bytes(gs, text_bytes_of());
    let h = seq_bytes(cs, text_bytes_of());
    let tb = seq_bytes(ts, tile_bytes_of());
    assert forall|i: int| 0 <= i < ts.len() implies tile_bytes_of()(#[trigger] ts[i]).len() == 7 by {}
    crate::map::field_roundtrip::lemma_fixed_seq_bytes(ts, tile_bytes_of(), 7);
    assert forall|i: int| 0 <= i < gs.len() implies text_bytes_of()(#[trigger] gs[i]).len() == 4 by {}
    crate::map::field_roundtrip::lemma_fixed_seq_bytes(gs, text_bytes_of(), 4);
    assert forall|i: int| 0 <= i < cs.len() implies text_bytes_of()(#[trigger] cs[i]).len() == 4 by {}
    crate::map::field_roundtrip::lemma_fixed_seq_bytes(cs, text_bytes_of(), 4);
    let g: int = 17 + 4 * ng as int;
    let c: int = g + 4 + 4 * nc as int;
    assert(d =~= a + le_bytes_u32(x.version) + seq![x.main_tileset] + le_bytes_u32(flag) + le_bytes_u32(ng as u32) + f
        + le_bytes_u32(nc as u32) + h + le_bytes_u32(x.my_height) + le_bytes_u32(x.mx_width) + le_bytes_u32(
        x.center_offset_x,
    ) + le_bytes_u32(x.center_offset_y) + tb);
    assert(d.len() == c + 16 + 7 * ts.len());
    assert(d.subrange(0, 4) =~= a);
    assert(d.subrange(4, 8) =~= le_bytes_u32(x.version));
    assert(d[8] == x.main_tileset);
    assert(d.subrange(9, 13) =~= le_bytes_u32(flag));
    assert(d.subrange(13, 17) =~= le_bytes_u32(ng as u32));
    assert(d.subrange(17, g) =~= f);
    assert(d.subrange(g, g + 4) =~= le_bytes_u32(nc as u32));
    assert(d.subrange(g + 4, c) =~= h);
    assert(d.subrange(c, c + 4) =~= le_bytes_u32(x.my_height));
    assert(d.subrange(c + 4, c + 8) =~= le_bytes_u32(x.mx_width));
    assert(d.subrange(c + 8, c + 12) =~= le_bytes_u32(x.center_offset_x));
    assert(d.subrange(c + 12, c + 16) =~= le_bytes_u32(x.center_offset_y));
    assert(d.subrange(c + 16, d.len() as int) =~= tb);
    crate::map::trigger_jass_file::lemma_u32_in(d, 4, x.version);
    crate::map::trigger_jass_file::lemma_u32_in(d, 9, flag);
    crate::map::trigger_jass_file::lemma_u32_in(d, 13, ng as u32);
    crate::map::trigger_jass_file::lemma_u32_in(d, g, nc as u32);
    crate::map::trigger_jass_file::lemma_u32_in(d, c, x.my_height);
    crate::map::trigger_jass_file::lemma_u32_in(d, c + 4, x.mx_width);
    crate::map::trigger_jass_file::lemma_u32_in(d, c + 8, x.center_offset_x);
    crate::map::trigger_jass_file::lemma_u32_in(d, c + 12, x.center_offset_y);
    lemma_codes_in(d, 17, gs);
    lemma_codes_in(d, g + 4, cs);
    assert(code_at(d, 0));
    assert(crate::map::unit_map::code_text(d, 0) == x.id@);
    assert(terrain_sizes_pos(d, 0) == Some(c));
    assert(tile_count(d, c) == ts.len());
    assert forall|y: TerrainFile| #[trigger] terrain_at(d, 0, y) implies same_terrain(y, x) by {
        assert(counted_end(d, 13, code_ends(d)) == Some(g));
        assert(y.tilepoints@ =~= ts) by {
            assert forall|i: int| 0 <= i < ts.len() implies y.tilepoints@[i] == ts[i] by {
                assert(y.tilepoints@[i] == tile_at(d, c + 16 + 7 * i));
                assert(d.subrange(c + 16 + 7 * i, c + 16 + 7 * i + 7) =~= tb.subrange(7 * i, 7 * i + 7));
                lemma_tile_in(d, c + 16 + 7 * i, ts[i]);
            }
        }
    }
}

} // verus!
