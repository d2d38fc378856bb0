//! BLP1 texture header values.

use vstd::prelude::*;

use vstd::utf8::{
    decode_utf8, encode_utf8, is_leading_byte_width_1, partial_valid_utf8, partial_valid_utf8_extend_ascii_block,
    valid_utf8,
};

use crate::formats::binary_reader::{u32_at, BinaryReader};
use crate::formats::binary_writer::{le_bytes_u32_seq, lemma_write_at_concat, write_at, BinaryWriter};
use crate::formats::encoding::le_bytes_u32;
use crate::formats::{ReadError, WriteError};

verus! {

/// Number of colors in a BLP palette.
pub const PALETTE_SIZE: usize = 256;
/// Number of mipmap slots in a BLP header.
pub const MAX_MIPMAP: usize = 16;
/// `Flags` bit that signals an alpha channel.
pub const FLAG_ALPHA: u32 = 0x0000_0008;

/// Compression of a BLP texture.
#[derive(PartialOrd, PartialEq, Eq, Structural, Clone, Debug, Copy)]
pub enum Compression {
    JPEG,
    PALETTE,
}

/// Errors of BLP decoding and encoding.
#[derive(Debug)]
pub enum BLPError {
    Read(ReadError),
    Write(WriteError),
    /// Unknown compression code.
    UnknownType(u32),
    /// A magic other than `BLP1`.
    InvalidMagic(String),
}

impl Compression {
    /// The compression whose code is `n` (0: JPEG, 1: palette).
    pub fn from(n: u32) -> (res: Result<Self, BLPError>)
        ensures
            n == 0 ==> res == Ok::<Compression, BLPError>(Compression::JPEG),
            n == 1 ==> res == Ok::<Compression, BLPError>(Compression::PALETTE),
            n > 1 ==> res == Err::<Compression, BLPError>(BLPError::UnknownType(n)),
    {
        match n {
            0 => Ok(Compression::JPEG),
            1 => Ok(Compression::PALETTE),
            _ => Err(BLPError::UnknownType(n)),
        }
    }

    /// The code of the compression.
    pub fn code(&self) -> (res: u32)
        ensures
            *self is JPEG ==> res == 0,
            *self is PALETTE ==> res == 1,
    {
        match self {
            Compression::JPEG => 0,
            Compression::PALETTE => 1,
        }
    }
}

/// Whether a BLP `Flags` field marks an alpha channel (bit test: flags combine).
pub fn flags_have_alpha(flags: u32) -> (res: bool)
    ensures
        res == (flags & FLAG_ALPHA != 0),
{
    flags & FLAG_ALPHA != 0
}

/// Whether a BLP `PictureType` carries a separate alpha index list per mipmap (3 or 4).
pub fn picture_type_has_alpha_list(picture_type: u32) -> (res: bool)
    ensures
        res == (picture_type == 3 || picture_type == 4),
{
    picture_type == 3 || picture_type == 4
}


/// The four bytes of the magic `BLP1`.
pub open spec fn blp1_magic() -> Seq<u8> {
    seq![66u8, 76u8, 80u8, 49u8]
}

/// The magic `BLP1` is ASCII, hence UTF-8.
pub(crate) proof fn lemma_magic_utf8()
    ensures
        valid_utf8(blp1_magic()),
{
    let m = blp1_magic();
    assert(m.subrange(0, 0).len() == 0);
    assert(partial_valid_utf8(m, 0));
    assert forall|i: int| 0 <= 0 <= i < 4 <= m.len() implies #[trigger] is_leading_byte_width_1(m[i]) by {}
    partial_valid_utf8_extend_ascii_block(m, 0, 4);
    assert(m.subrange(0, 4) =~= m);
}

/// A color of a BLP palette.
#[derive(Debug, Clone, Copy, PartialEq, Eq, Structural)]
pub struct PaletteColor {
    pub r: u8,
    pub g: u8,
    pub b: u8,
    pub a: u8,
}

/// A BLP1 texture: its header, and either the JPEG header and mipmaps or the
/// palette and the color (and alpha) indexes of each mipmap.
#[derive(Debug)]
pub struct BLP {
    pub magic_num: String,
    pub compression: Compression,
    pub flags: u32,
    pub width: u32,
    pub height: u32,
    pub picture_type: u32,
    pub picture_sub_type: u32,
    pub mipmap_offsets: Vec<u32>,
    pub mipmap_sizes: Vec<u32>,
    pub jpeg_header_size: u32,
    pub jpeg_header: Vec<u8>,
    pub jpeg_mipmaps_raw: Vec<Vec<u8>>,
    pub palette_colors: Vec<PaletteColor>,
    pub palette_rgb_indexes: Vec<Vec<u8>>,
    pub palette_alpha_indexes: Vec<Vec<u8>>,
}

/// Header word `k` (compression, flags, width, height, picture type, sub
/// type) of the texture stored at `p`.
pub open spec fn header_word(d: Seq<u8>, p: int, k: int) -> u32 {
    u32_at(d, p + 4 + 4 * k)
}

/// Offset of mipmap `i` of the texture stored at `p`.
pub open spec fn mipmap_offset(d: Seq<u8>, p: int, i: int) -> u32 {
    u32_at(d, p + 28 + 4 * i)
}

/// Size of mipmap `i` of the texture stored at `p`.
pub open spec fn mipmap_size(d: Seq<u8>, p: int, i: int) -> u32 {
    u32_at(d, p + 92 + 4 * i)
}

/// Where a seek to `off` from the start of the bytes lands: no further than
/// their end.
pub open spec fn seek_pos(d: Seq<u8>, off: u32) -> int {
    if off > d.len() {
        d.len() as int
    } else {
        off as int
    }
}

/// Whether picture type `t` has an alpha index list per mipmap.
pub open spec fn alpha_list(t: u32) -> bool {
    t == 3 || t == 4
}

/// The JPEG mipmaps read from the first `k` slots of the texture stored at
/// `p`, and whether a slot of size zero has ended the list; `None` when a
/// mipmap runs past the bytes.
pub open spec fn jpeg_upto(d: Seq<u8>, p: int, k: nat) -> Option<(Seq<Seq<u8>>, bool)>
    decreases k,
{
    if k == 0 {
        Some((Seq::empty(), false))
    } else {
        match jpeg_upto(d, p, (k - 1) as nat) {
            None => None,
            Some((s, stopped)) => {
                let size = mipmap_size(d, p, k - 1);
                let q = seek_pos(d, mipmap_offset(d, p, k - 1));
                if stopped || size == 0 {
                    Some((s, true))
                } else if q + size <= d.len() {
                    Some((s.push(d.subrange(q, q + size)), false))
                } else {
                    None
                }
            }
        }
    }
}

/// The color indexes and alpha indexes read from the first `k` slots of the
/// paletted texture stored at `p` (slots of size zero are passed over);
/// `None` when a list runs past the bytes.
pub open spec fn palette_upto(d: Seq<u8>, p: int, k: nat) -> Option<(Seq<Seq<u8>>, Seq<Seq<u8>>)>
    decreases k,
{
    if k == 0 {
        Some((Seq::empty(), Seq::empty()))
    } else {
        match palette_upto(d, p, (k - 1) as nat) {
            None => None,
            Some((rgb, alpha)) => {
                let size = mipmap_size(d, p, k - 1);
                let q = seek_pos(d, mipmap_offset(d, p, k - 1));
                if size == 0 {
                    Some((rgb, alpha))
                } else if !alpha_list(header_word(d, p, 4)) {
                    if q + size <= d.len() {
                        Some((rgb.push(d.subrange(q, q + size)), alpha))
                    } else {
                        None
                    }
                } else if q + 2 * size <= d.len() {
                    Some(
                        (
                            rgb.push(d.subrange(q, q + size)),
                            alpha.push(d.subrange(q + size, q + 2 * size)),
                        ),
                    )
                } else {
                    None
                }
            }
        }
    }
}

/// The palette color stored as blue, green, red and inverted alpha at `q`.
pub open spec fn color_at(d: Seq<u8>, q: int) -> PaletteColor {
    PaletteColor { r: d[q + 2], g: d[q + 1], b: d[q], a: (255 - d[q + 3]) as u8 }
}

/// The JPEG mipmaps of the texture stored at `p`.
pub open spec fn jpeg_list(d: Seq<u8>, p: int) -> Seq<Seq<u8>> {
    let r = jpeg_upto(d, p, 16)->0;
    r.0
}

/// The color indexes of the paletted texture stored at `p`.
pub open spec fn palette_rgb(d: Seq<u8>, p: int) -> Seq<Seq<u8>> {
    let r = palette_upto(d, p, 16)->0;
    r.0
}

/// The alpha indexes of the paletted texture stored at `p`.
pub open spec fn palette_alpha(d: Seq<u8>, p: int) -> Seq<Seq<u8>> {
    let r = palette_upto(d, p, 16)->0;
    r.1
}

/// Whether the texture stored at `p` can be read: the magic `BLP1`, a known
/// compression, the header, then its JPEG header and mipmaps or its palette
/// and indexes.
pub open spec fn blp_ok(d: Seq<u8>, p: int) -> bool {
    &&& 0 <= p && p + 156 <= d.len()
    &&& d.subrange(p, p + 4) == blp1_magic()
    &&& header_word(d, p, 0) <= 1
    &&& if header_word(d, p, 0) == 0 {
        &&& p + 160 <= d.len()
        &&& p + 160 + u32_at(d, p + 156) <= d.len()
        &&& jpeg_upto(d, p, 16) is Some
    } else {
        &&& p + 156 + 1024 <= d.len()
        &&& palette_upto(d, p, 16) is Some
    }
}

/// Whether `x` is the texture stored at `p`.
pub open spec fn blp_at(d: Seq<u8>, p: int, x: BLP) -> bool {
    &&& blp_ok(d, p)
    &&& x.magic_num@ == decode_utf8(blp1_magic())
    &&& x.compression.code_spec() == header_word(d, p, 0)
    &&& x.flags == header_word(d, p, 1)
    &&& x.width == header_word(d, p, 2)
    &&& x.height == header_word(d, p, 3)
    &&& x.picture_type == header_word(d, p, 4)
    &&& x.picture_sub_type == header_word(d, p, 5)
    &&& x.mipmap_offsets@.len() == 16
    &&& x.mipmap_sizes@.len() == 16
    &&& forall|i: int| 0 <= i < 16 ==> #[trigger] x.mipmap_offsets@[i] == mipmap_offset(d, p, i)
    &&& forall|i: int| 0 <= i < 16 ==> #[trigger] x.mipmap_sizes@[i] == mipmap_size(d, p, i)
    &&& if header_word(d, p, 0) == 0 {
        &&& x.jpeg_header_size == u32_at(d, p + 156)
        &&& x.jpeg_header@ == d.subrange(p + 160, p + 160 + u32_at(d, p + 156))
        &&& x.jpeg_mipmaps_raw@.map_values(|v: Vec<u8>| v@) == jpeg_list(d, p)
        &&& x.palette_colors@.len() == 0
        &&& x.palette_rgb_indexes@.len() == 0
        &&& x.palette_alpha_indexes@.len() == 0
    } else {
        &&& x.jpeg_header_size == 0
        &&& x.jpeg_header@.len() == 0
        &&& x.jpeg_mipmaps_raw@.len() == 0
        &&& x.palette_colors@.len() == 256
        &&& forall|i: int| 0 <= i < 256 ==> #[trigger] x.palette_colors@[i] == color_at(d, p + 156 + 4 * i)
        &&& x.palette_rgb_indexes@.map_values(|v: Vec<u8>| v@) == palette_rgb(d, p)
        &&& x.palette_alpha_indexes@.map_values(|v: Vec<u8>| v@) == palette_alpha(d, p)
    }
}

impl Compression {
    /// The code of the compression.
    pub open spec fn code_spec(&self) -> u32 {
        match self {
            Compression::JPEG => 0,
            Compression::PALETTE => 1,
        }
    }
}


/// The contents of each of the vectors `s`.
pub open spec fn views(s: Seq<Vec<u8>>) -> Seq<Seq<u8>> {
    s.map_values(|v: Vec<u8>| v@)
}

proof fn lemma_views_push(s: Seq<Vec<u8>>, v: Vec<u8>)
    ensures
        views(s.push(v)) == views(s).push(v@),
{
    assert(views(s.push(v)) =~= views(s).push(v@));
}

proof fn lemma_jpeg_none(d: Seq<u8>, p: int, k: nat, m: nat)
    requires
        jpeg_upto(d, p, k) is None,
        k <= m,
    ensures
        jpeg_upto(d, p, m) is None,
    decreases m - k,
{
    if k < m {
        lemma_jpeg_none(d, p, k, (m - 1) as nat);
    }
}

proof fn lemma_palette_none(d: Seq<u8>, p: int, k: nat, m: nat)
    requires
        palette_upto(d, p, k) is None,
        k <= m,
    ensures
        palette_upto(d, p, m) is None,
    decreases m - k,
{
    if k < m {
        lemma_palette_none(d, p, k, (m - 1) as nat);
    }
}

/// Moves the cursor to `offset` from the start of the bytes, or to their
/// end when that is nearer.
fn seek_to(reader: &mut BinaryReader, offset: u32)
    requires
        old(reader).wf(),
    ensures
        final(reader).wf(),
        final(reader).contents() == old(reader).contents(),
        final(reader).position() == seek_pos(old(reader).contents(), offset),
{
    reader.seek_begin();
    reader.skip(offset as i64);
}

/// Reads the JPEG header and mipmaps of the texture stored at `p`, whose
/// header the cursor has just passed.
fn parse_jpeg_mipmaps(reader: &mut BinaryReader, Ghost(p): Ghost<int>, offsets: &Vec<u32>, sizes: &Vec<u32>) -> (res:
    Result<(u32, Vec<u8>, Vec<Vec<u8>>), ReadError>)
    requires
        old(reader).wf(),
        0 <= p,
        old(reader).position() == p + 156,
        offsets@.len() == 16,
        sizes@.len() == 16,
        forall|i: int| 0 <= i < 16 ==> #[trigger] offsets@[i] == mipmap_offset(old(reader).contents(), p, i),
        forall|i: int| 0 <= i < 16 ==> #[trigger] sizes@[i] == mipmap_size(old(reader).contents(), p, i),
    ensures
        final(reader).wf(),
        final(reader).contents() == old(reader).contents(),
        ({
            let d = old(reader).contents();
            &&& res is Ok <==> (p + 160 <= d.len() && p + 160 + u32_at(d, p + 156) <= d.len()
                && jpeg_upto(d, p, 16) is Some)
            &&& res matches Ok((hs, h, frags)) ==> hs == u32_at(d, p + 156) && h@ == d.subrange(
                p + 160,
                p + 160 + hs,
            ) && views(frags@) == jpeg_list(d, p)
        }),
{
    let ghost d = reader.contents();
    let hs = match reader.read_u32() {
        Ok(v) => v,
        Err(e) => {
            return Err(e);
        },
    };
    let header = match reader.read_bytes(hs as usize) {
        Ok(v) => v,
        Err(e) => {
            return Err(e);
        },
    };
    let mut frags: Vec<Vec<u8>> = Vec::new();
    let mut stopped = false;
    let mut i: usize = 0;
    while i < 16
        invariant
            reader.wf(),
            reader.contents() == d,
            d == old(reader).contents(),
            0 <= p,
            i <= 16,
            offsets@.len() == 16,
            sizes@.len() == 16,
            forall|j: int| 0 <= j < 16 ==> #[trigger] offsets@[j] == mipmap_offset(d, p, j),
            forall|j: int| 0 <= j < 16 ==> #[trigger] sizes@[j] == mipmap_size(d, p, j),
            jpeg_upto(d, p, i as nat) == Some((views(frags@), stopped)),
        decreases 16 - i,
    {
        let size = sizes[i];
        if !stopped {
            if size == 0 {
                stopped = true;
            } else {
                seek_to(reader, offsets[i]);
                let chunk = match reader.read_bytes(size as usize) {
                    Ok(v) => v,
                    Err(e) => {
                        proof {
                            assert(jpeg_upto(d, p, (i + 1) as nat) is None);
                            lemma_jpeg_none(d, p, (i + 1) as nat, 16);
                        }
                        return Err(e);
                    },
                };
                proof {
                    lemma_views_push(frags@, chunk);
                }
                frags.push(chunk);
            }
        }
        i = i + 1;
    }
    Ok((hs, header, frags))
}

/// Reads the palette and the indexes of each mipmap of the texture stored
/// at `p`, whose header the cursor has just passed.
fn parse_palette(reader: &mut BinaryReader, Ghost(p): Ghost<int>, offsets: &Vec<u32>, sizes: &Vec<u32>, alpha: bool) -> (res:
    Result<(Vec<PaletteColor>, Vec<Vec<u8>>, Vec<Vec<u8>>), ReadError>)
    requires
        old(reader).wf(),
        0 <= p,
        old(reader).position() == p + 156,
        offsets@.len() == 16,
        sizes@.len() == 16,
        forall|i: int| 0 <= i < 16 ==> #[trigger] offsets@[i] == mipmap_offset(old(reader).contents(), p, i),
        forall|i: int| 0 <= i < 16 ==> #[trigger] sizes@[i] == mipmap_size(old(reader).contents(), p, i),
        alpha == alpha_list(header_word(old(reader).contents(), p, 4)),
    ensures
        final(reader).wf(),
        final(reader).contents() == old(reader).contents(),
        ({
            let d = old(reader).contents();
            &&& res is Ok <==> (p + 156 + 1024 <= d.len() && palette_upto(d, p, 16) is Some)
            &&& res matches Ok((colors, rgb, alphas)) ==> colors@.len() == 256 && (forall|i: int|
                0 <= i < 256 ==> #[trigger] colors@[i] == color_at(d, p + 156 + 4 * i)) && views(rgb@)
                == palette_rgb(d, p) && views(alphas@) == palette_alpha(d, p)
        }),
{
    let ghost d = reader.contents();
    let raw = match reader.read_bytes(PALETTE_SIZE * 4) {
        Ok(v) => v,
        Err(e) => {
            return Err(e);
        },
    };
    let mut colors: Vec<PaletteColor> = Vec::new();
    let mut c: usize = 0;
    while c < PALETTE_SIZE
        invariant
            c <= PALETTE_SIZE,
            raw@ == d.subrange(p + 156, p + 156 + 1024),
            raw@.len() == 1024,
            0 <= p,
            p + 156 + 1024 <= d.len(),
            colors@.len() == c,
            forall|i: int| 0 <= i < c ==> #[trigger] colors@[i] == color_at(d, p + 156 + 4 * i),
        decreases PALETTE_SIZE - c,
    {
        let color = PaletteColor {
            r: raw[4 * c + 2],
            g: raw[4 * c + 1],
            b: raw[4 * c],
            a: 255 - raw[4 * c + 3],
        };
        colors.push(color);
        c = c + 1;
    }
    let mut rgb: Vec<Vec<u8>> = Vec::new();
    let mut alphas: Vec<Vec<u8>> = Vec::new();
    let mut i: usize = 0;
    while i < 16
        invariant
            reader.wf(),
            reader.contents() == d,
            d == old(reader).contents(),
            0 <= p,
            i <= 16,
            offsets@.len() == 16,
            sizes@.len() == 16,
            forall|j: int| 0 <= j < 16 ==> #[trigger] offsets@[j] == mipmap_offset(d, p, j),
            forall|j: int| 0 <= j < 16 ==> #[trigger] sizes@[j] == mipmap_size(d, p, j),
            alpha == alpha_list(header_word(d, p, 4)),
            palette_upto(d, p, i as nat) == Some((views(rgb@), views(alphas@))),
        decreases 16 - i,
    {
        let size = sizes[i];
        if size != 0 {
            seek_to(reader, offsets[i]);
            let chunk = match reader.read_bytes(size as usize) {
                Ok(v) => v,
                Err(e) => {
                    proof {
                        assert(palette_upto(d, p, (i + 1) as nat) is None);
                        lemma_palette_none(d, p, (i + 1) as nat, 16);
                    }
                    return Err(e);
                },
            };
            proof {
                lemma_views_push(rgb@, chunk);
            }
            if alpha {
                let more = match reader.read_bytes(size as usize) {
                    Ok(v) => v,
                    Err(e) => {
                        proof {
                            assert(palette_upto(d, p, (i + 1) as nat) is None);
                            lemma_palette_none(d, p, (i + 1) as nat, 16);
                        }
                        return Err(e);
                    },
                };
                proof {
                    lemma_views_push(alphas@, more);
                }
                rgb.push(chunk);
                alphas.push(more);
            } else {
                rgb.push(chunk);
            }
        }
        i = i + 1;
    }
    Ok((colors, rgb, alphas))
}

impl BLP {
    /// The JPEG header.
    pub fn get_jpeg_header(&self) -> (res: &Vec<u8>)
        ensures
            res@ == self.jpeg_header@,
    {
        &self.jpeg_header
    }

    /// The width in pixels.
    pub fn width(&self) -> (res: u32)
        ensures
            res == self.width,
    {
        self.width
    }

    /// The height in pixels.
    pub fn height(&self) -> (res: u32)
        ensures
            res == self.height,
    {
        self.height
    }

    /// The number of mipmaps held.
    pub fn mipmap_count(&self) -> (res: usize)
        ensures
            res == if self.compression is JPEG {
                self.jpeg_mipmaps_raw@.len()
            } else {
                self.palette_rgb_indexes@.len()
            },
    {
        match self.compression {
            Compression::JPEG => self.jpeg_mipmaps_raw.len(),
            Compression::PALETTE => self.palette_rgb_indexes.len(),
        }
    }

    /// Whether the flags mark an alpha channel.
    pub fn has_alpha(&self) -> (res: bool)
        ensures
            res == (self.flags & FLAG_ALPHA != 0),
    {
        self.flags & FLAG_ALPHA != 0
    }

    /// Whether the picture type has an alpha index list per mipmap.
    fn has_alpha_list(&self) -> (res: bool)
        ensures
            res == alpha_list(self.picture_type),
    {
        self.picture_type == 3 || self.picture_type == 4
    }

    /// Reads a BLP1 texture at the cursor; mipmaps are found by their offset
    /// from the start of the bytes. A magic other than `BLP1` fails with
    /// [`BLPError::InvalidMagic`], an unknown compression with
    /// [`BLPError::UnknownType`], missing bytes with [`BLPError::Read`].
    #[verifier::rlimit(40)]
    pub fn from(reader: &mut BinaryReader) -> (res: Result<Self, BLPError>)
        requires
            old(reader).wf(),
        ensures
            final(reader).wf(),
            final(reader).contents() == old(reader).contents(),
            ({
                let d = old(reader).contents();
                let p = old(reader).position() as int;
                &&& res is Ok <==> blp_ok(d, p)
                &&& res matches Ok(x) ==> blp_at(d, p, x)
                &&& (p + 4 <= d.len() && valid_utf8(d.subrange(p, p + 4)) && d.subrange(p, p + 4)
                    != blp1_magic()) ==> (res matches Err(BLPError::InvalidMagic(m)) && m@
                    == decode_utf8(d.subrange(p, p + 4)))
                &&& (p + 8 <= d.len() && d.subrange(p, p + 4) == blp1_magic() && header_word(d, p, 0)
                    > 1) ==> res == Err::<BLP, BLPError>(BLPError::UnknownType(header_word(d, p, 0)))
            }),
    {
        let ghost d = reader.contents();
        let ghost p = reader.position() as int;
        let magic_num = match reader.read_string_utf8(4) {
            Ok(v) => v,
            Err(e) => {
                proof {
                    lemma_magic_utf8();
                    if p + 4 <= d.len() && d.subrange(p, p + 4) == blp1_magic() {
                        assert(valid_utf8(d.subrange(p, p + 4)));
                    }
                }
                return Err(BLPError::Read(e));
            },
        };
        let bytes = magic_num.as_str().as_bytes();
        proof {
            vstd::utf8::decode_utf8_encode_utf8(d.subrange(p, p + 4));
        }
        if !(bytes.len() == 4 && bytes[0] == 66 && bytes[1] == 76 && bytes[2] == 80 && bytes[3] == 49) {
            proof {
                if d.subrange(p, p + 4) == blp1_magic() {
                    assert(bytes@ == blp1_magic());
                }
            }
            return Err(BLPError::InvalidMagic(magic_num));
        }
        assert(d.subrange(p, p + 4) =~= blp1_magic());
        let code = match reader.read_u32() {
            Ok(v) => v,
            Err(e) => {
                return Err(BLPError::Read(e));
            },
        };
        let compression = match Compression::from(code) {
            Ok(c) => c,
            Err(e) => {
                return Err(e);
            },
        };
        let flags = match reader.read_u32() {
            Ok(v) => v,
            Err(e) => {
                return Err(BLPError::Read(e));
            },
        };
        let width = match reader.read_u32() {
            Ok(v) => v,
            Err(e) => {
                return Err(BLPError::Read(e));
            },
        };
        let height = match reader.read_u32() {
            Ok(v) => v,
            Err(e) => {
                return Err(BLPError::Read(e));
            },
        };
        let picture_type = match reader.read_u32() {
            Ok(v) => v,
            Err(e) => {
                return Err(BLPError::Read(e));
            },
        };
        let picture_sub_type = match reader.read_u32() {
            Ok(v) => v,
            Err(e) => {
                return Err(BLPError::Read(e));
            },
        };
        let mipmap_offsets = match reader.read_vec_u32(MAX_MIPMAP) {
            Ok(v) => v,
            Err(e) => {
                return Err(BLPError::Read(e));
            },
        };
        let mipmap_sizes = match reader.read_vec_u32(MAX_MIPMAP) {
            Ok(v) => v,
            Err(e) => {
                return Err(BLPError::Read(e));
            },
        };
        let mut blp = BLP {
            magic_num,
            compression,
            flags,
            width,
            height,
            picture_type,
            picture_sub_type,
            mipmap_offsets,
            mipmap_sizes,
            jpeg_header_size: 0,
            jpeg_header: Vec::new(),
            jpeg_mipmaps_raw: Vec::new(),
            palette_colors: Vec::new(),
            palette_rgb_indexes: Vec::new(),
            palette_alpha_indexes: Vec::new(),
        };
        match blp.compression {
            Compression::JPEG => {
                match parse_jpeg_mipmaps(reader, Ghost(p), &blp.mipmap_offsets, &blp.mipmap_sizes) {
                    Ok((hs, header, frags)) => {
                        blp.jpeg_header_size = hs;
                        blp.jpeg_header = header;
                        blp.jpeg_mipmaps_raw = frags;
                    },
                    Err(e) => {
                        return Err(BLPError::Read(e));
                    },
                }
            },
            Compression::PALETTE => {
                let alpha = blp.has_alpha_list();
                match parse_palette(reader, Ghost(p), &blp.mipmap_offsets, &blp.mipmap_sizes, alpha) {
                    Ok((colors, rgb, alphas)) => {
                        blp.palette_colors = colors;
                        blp.palette_rgb_indexes = rgb;
                        blp.palette_alpha_indexes = alphas;
                    },
                    Err(e) => {
                        return Err(BLPError::Read(e));
                    },
                }
            },
        }
        Ok(blp)
    }
}


/// Slot `i` of `v`; zero past its end.
pub open spec fn slot(v: Seq<u32>, i: int) -> u32 {
    if 0 <= i < v.len() {
        v[i]
    } else {
        0
    }
}

/// The sixteen mipmap slots of `v`, zero past its end.
pub open spec fn slots(v: Seq<u32>) -> Seq<u32> {
    Seq::new(16, |i: int| slot(v, i))
}

/// `n` zero bytes (none when `n` is not positive).
pub open spec fn zeros(n: int) -> Seq<u8> {
    Seq::new(
        if n > 0 {
            n as nat
        } else {
            0
        },
        |i: int| 0u8,
    )
}

/// The serialized header: magic, compression code, flags, width, height,
/// picture type and sub type, then the sixteen mipmap offsets and the
/// sixteen mipmap sizes.
pub open spec fn blp_head(x: BLP) -> Seq<u8> {
    encode_utf8(x.magic_num@) + le_bytes_u32(x.compression.code_spec()) + le_bytes_u32(x.flags)
        + le_bytes_u32(x.width) + le_bytes_u32(x.height) + le_bytes_u32(x.picture_type)
        + le_bytes_u32(x.picture_sub_type) + le_bytes_u32_seq(slots(x.mipmap_offsets@))
        + le_bytes_u32_seq(slots(x.mipmap_sizes@))
}

/// The layout of a BLP1 texture: the magic `BLP1`, then as little-endian
/// words the compression (0 JPEG, 1 palette) at byte 4, the flags at 8, the
/// width at 12, the height at 16, the picture type at 20 and subtype at 24;
/// the sixteen mipmap offsets from byte 28 and the sixteen mipmap sizes from
/// byte 92; a paletted texture then has 256 colors of four bytes from byte
/// 156, each stored as blue, green, red and inverted alpha; a JPEG one has
/// its header size at byte 156 and its header from byte 160.
pub proof fn law_blp_layout(d: Seq<u8>, p: int, x: BLP, y: BLP, i: int)
    ensures
        Compression::JPEG.code_spec() == 0,
        Compression::PALETTE.code_spec() == 1,
        blp_at(d, p, x) ==> {
            &&& x.compression.code_spec() == u32_at(d, p + 4)
            &&& x.flags == u32_at(d, p + 8)
            &&& x.width == u32_at(d, p + 12)
            &&& x.height == u32_at(d, p + 16)
            &&& x.picture_type == u32_at(d, p + 20)
            &&& x.picture_sub_type == u32_at(d, p + 24)
            &&& (0 <= i < 16 ==> x.mipmap_offsets@[i] == u32_at(d, p + 28 + 4 * i) && x.mipmap_sizes@[i]
                == u32_at(d, p + 92 + 4 * i))
            &&& (u32_at(d, p + 4) == 0 ==> x.jpeg_header_size == u32_at(d, p + 156))
            &&& (u32_at(d, p + 4) != 0 && 0 <= i < 256 ==> {
                let c = x.palette_colors@[i];
                let q = p + 156 + 4 * i;
                &&& c.b == d[q]
                &&& c.g == d[q + 1]
                &&& c.r == d[q + 2]
                &&& c.a == (255 - d[q + 3]) as u8
            })
        },
        encode_utf8(y.magic_num@).len() == 4 ==> {
            let h = blp_head(y);
            &&& h.subrange(4, 8) == le_bytes_u32(y.compression.code_spec())
            &&& h.subrange(8, 12) == le_bytes_u32(y.flags)
            &&& h.subrange(12, 16) == le_bytes_u32(y.width)
            &&& h.subrange(16, 20) == le_bytes_u32(y.height)
            &&& h.subrange(20, 24) == le_bytes_u32(y.picture_type)
            &&& h.subrange(24, 28) == le_bytes_u32(y.picture_sub_type)
        },
{
    if blp_at(d, p, x) && 0 <= i < 16 {
        assert(x.mipmap_offsets@[i] == mipmap_offset(d, p, i));
        assert(x.mipmap_sizes@[i] == mipmap_size(d, p, i));
    }
    if blp_at(d, p, x) && u32_at(d, p + 4) != 0 && 0 <= i < 256 {
        assert(x.palette_colors@[i] == color_at(d, p + 156 + 4 * i));
    }
    if encode_utf8(y.magic_num@).len() == 4 {
        let h = blp_head(y);
        assert(h.subrange(4, 8) =~= le_bytes_u32(y.compression.code_spec()));
        assert(h.subrange(8, 12) =~= le_bytes_u32(y.flags));
        assert(h.subrange(12, 16) =~= le_bytes_u32(y.width));
        assert(h.subrange(16, 20) =~= le_bytes_u32(y.height));
        assert(h.subrange(20, 24) =~= le_bytes_u32(y.picture_type));
        assert(h.subrange(24, 28) =~= le_bytes_u32(y.picture_sub_type));
    }
}

/// The first `k` JPEG mipmaps written from position `pos`: zeros up to the
/// mipmap's offset when the position is still before it, then its bytes.
pub open spec fn jpeg_frag_bytes(offsets: Seq<u32>, frags: Seq<Seq<u8>>, pos: int, k: nat) -> Seq<u8>
    decreases k,
{
    if k == 0 {
        Seq::empty()
    } else {
        let prev = jpeg_frag_bytes(offsets, frags, pos, (k - 1) as nat);
        prev + zeros(slot(offsets, k - 1) - (pos + prev.len())) + frags[k - 1]
    }
}

/// The JPEG part written from position `pos`: header size, header, mipmaps.
pub open spec fn jpeg_body(x: BLP, pos: int) -> Seq<u8> {
    let h = le_bytes_u32(x.jpeg_header@.len() as u32) + x.jpeg_header@;
    h + jpeg_frag_bytes(x.mipmap_offsets@, views(x.jpeg_mipmaps_raw@), pos + h.len(), x.jpeg_mipmaps_raw@.len())
}

/// A palette color stored as blue, green, red and inverted alpha.
pub open spec fn color_bytes(c: PaletteColor) -> Seq<u8> {
    seq![c.b, c.g, c.r, (255 - c.a) as u8]
}

/// The stored palette.
pub open spec fn colors_bytes(cs: Seq<PaletteColor>) -> Seq<u8>
    decreases cs.len(),
{
    if cs.len() == 0 {
        Seq::empty()
    } else {
        colors_bytes(cs.drop_last()) + color_bytes(cs.last())
    }
}

/// The color indexes of the first `k` mipmaps, each followed by its alpha
/// indexes when `with_alpha` holds.
pub open spec fn indexes_bytes(rgb: Seq<Seq<u8>>, alpha: Seq<Seq<u8>>, with_alpha: bool, k: nat) -> Seq<u8>
    decreases k,
{
    if k == 0 {
        Seq::empty()
    } else {
        indexes_bytes(rgb, alpha, with_alpha, (k - 1) as nat) + rgb[k - 1] + if with_alpha {
            alpha[k - 1]
        } else {
            Seq::empty()
        }
    }
}

/// The paletted part: palette, then the indexes of each mipmap.
pub open spec fn palette_body(x: BLP) -> Seq<u8> {
    colors_bytes(x.palette_colors@) + indexes_bytes(
        views(x.palette_rgb_indexes@),
        views(x.palette_alpha_indexes@),
        alpha_list(x.picture_type),
        x.palette_rgb_indexes@.len(),
    )
}

/// The serialized texture, written from position `pos`.
pub open spec fn blp_bytes(x: BLP, pos: int) -> Seq<u8> {
    let head = blp_head(x);
    head + if x.compression is JPEG {
        jpeg_body(x, pos + head.len())
    } else {
        palette_body(x)
    }
}

proof fn lemma_frag_len_mono(offsets: Seq<u32>, frags: Seq<Seq<u8>>, pos: int, k: nat, m: nat)
    requires
        k <= m,
    ensures
        jpeg_frag_bytes(offsets, frags, pos, k).len() <= jpeg_frag_bytes(offsets, frags, pos, m).len(),
    decreases m - k,
{
    if k < m {
        lemma_frag_len_mono(offsets, frags, pos, k, (m - 1) as nat);
    }
}

proof fn lemma_indexes_len_mono(rgb: Seq<Seq<u8>>, alpha: Seq<Seq<u8>>, a: bool, k: nat, m: nat)
    requires
        k <= m,
    ensures
        indexes_bytes(rgb, alpha, a, k).len() <= indexes_bytes(rgb, alpha, a, m).len(),
    decreases m - k,
{
    if k < m {
        lemma_indexes_len_mono(rgb, alpha, a, k, (m - 1) as nat);
    }
}

proof fn lemma_u32_seq_len(vs: Seq<u32>)
    ensures
        le_bytes_u32_seq(vs).len() == 4 * vs.len(),
    decreases vs.len(),
{
    if vs.len() > 0 {
        lemma_u32_seq_len(vs.drop_last());
    }
}

proof fn lemma_colors_len(cs: Seq<PaletteColor>)
    ensures
        colors_bytes(cs).len() == 4 * cs.len(),
    decreases cs.len(),
{
    if cs.len() > 0 {
        lemma_colors_len(cs.drop_last());
    }
}

/// The sixteen slots of `v` as a vector.
fn padded_slots(v: &Vec<u32>) -> (res: Vec<u32>)
    ensures
        res@ == slots(v@),
{
    let mut out: Vec<u32> = Vec::new();
    let mut i: usize = 0;
    while i < MAX_MIPMAP
        invariant
            i <= 16,
            out@ == slots(v@).take(i as int),
        decreases 16 - i,
    {
        let value = if i < v.len() {
            v[i]
        } else {
            0
        };
        out.push(value);
        i = i + 1;
        assert(out@ =~= slots(v@).take(i as int));
    }
    assert(out@ =~= slots(v@));
    out
}

impl BLP {
    /// Writes the texture at the cursor (see [`blp_bytes`]).
    pub fn write(&self, writer: &mut BinaryWriter) -> (res: Result<(), BLPError>)
        requires
            old(writer).position() + blp_bytes(*self, old(writer).position() as int).len() <= usize::MAX,
            self.compression is PALETTE && alpha_list(self.picture_type) ==> self.palette_rgb_indexes@.len()
                <= self.palette_alpha_indexes@.len(),
        ensures
            res is Ok,
            final(writer).contents() == write_at(
                old(writer).contents(),
                old(writer).position() as int,
                blp_bytes(*self, old(writer).position() as int),
            ),
            final(writer).position() == old(writer).position() + blp_bytes(
                *self,
                old(writer).position() as int,
            ).len(),
    {
        match self.write_blp(writer) {
            Ok(()) => Ok(()),
            Err(e) => Err(BLPError::Write(e)),
        }
    }

    fn write_blp(&self, writer: &mut BinaryWriter) -> (res: Result<(), WriteError>)
        requires
            old(writer).position() + blp_bytes(*self, old(writer).position() as int).len() <= usize::MAX,
            self.compression is PALETTE && alpha_list(self.picture_type) ==> self.palette_rgb_indexes@.len()
                <= self.palette_alpha_indexes@.len(),
        ensures
            res is Ok,
            final(writer).contents() == write_at(
                old(writer).contents(),
                old(writer).position() as int,
                blp_bytes(*self, old(writer).position() as int),
            ),
            final(writer).position() == old(writer).position() + blp_bytes(
                *self,
                old(writer).position() as int,
            ).len(),
    {
        let ghost c0 = writer.contents();
        let ghost p0 = writer.position() as int;
        let ghost total = blp_bytes(*self, p0);
        let ghost head = blp_head(*self);
        let ghost mut acc = Seq::<u8>::empty();
        proof {
            assert(write_at(c0, p0, acc) =~= c0);
        }
        let offsets = padded_slots(&self.mipmap_offsets);
        let sizes = padded_slots(&self.mipmap_sizes);
        proof {
            assert(head =~= encode_utf8(self.magic_num@) + le_bytes_u32(self.compression.code_spec())
                + le_bytes_u32(self.flags) + le_bytes_u32(self.width) + le_bytes_u32(self.height)
                + le_bytes_u32(self.picture_type) + le_bytes_u32(self.picture_sub_type)
                + le_bytes_u32_seq(offsets@) + le_bytes_u32_seq(sizes@));
            assert(total.len() >= head.len());
            lemma_u32_seq_len(offsets@);
            lemma_u32_seq_len(sizes@);
        }
        let magic = self.magic_num.as_str();
        let _ = writer.write_string_utf8(magic);
        proof {
            lemma_write_at_concat(c0, p0, acc, encode_utf8(self.magic_num@));
            acc = acc + encode_utf8(self.magic_num@);
        }
        let _ = writer.write_u32(self.compression.code());
        proof {
            lemma_write_at_concat(c0, p0, acc, le_bytes_u32(self.compression.code_spec()));
            acc = acc + le_bytes_u32(self.compression.code_spec());
        }
        let _ = writer.write_u32(self.flags);
        proof {
            lemma_write_at_concat(c0, p0, acc, le_bytes_u32(self.flags));
            acc = acc + le_bytes_u32(self.flags);
        }
        let _ = writer.write_u32(self.width);
        proof {
            lemma_write_at_concat(c0, p0, acc, le_bytes_u32(self.width));
            acc = acc + le_bytes_u32(self.width);
        }
        let _ = writer.write_u32(self.height);
        proof {
            lemma_write_at_concat(c0, p0, acc, le_bytes_u32(self.height));
            acc = acc + le_bytes_u32(self.height);
        }
        let _ = writer.write_u32(self.picture_type);
        proof {
            lemma_write_at_concat(c0, p0, acc, le_bytes_u32(self.picture_type));
            acc = acc + le_bytes_u32(self.picture_type);
        }
        let _ = writer.write_u32(self.picture_sub_type);
        proof {
            lemma_write_at_concat(c0, p0, acc, le_bytes_u32(self.picture_sub_type));
            acc = acc + le_bytes_u32(self.picture_sub_type);
        }
        let _ = writer.write_vec_u32(offsets.as_slice());
        proof {
            lemma_write_at_concat(c0, p0, acc, le_bytes_u32_seq(offsets@));
            acc = acc + le_bytes_u32_seq(offsets@);
        }
        let _ = writer.write_vec_u32(sizes.as_slice());
        proof {
            lemma_write_at_concat(c0, p0, acc, le_bytes_u32_seq(sizes@));
            acc = acc + le_bytes_u32_seq(sizes@);
            assert(acc =~= head);
        }
        match self.compression {
            Compression::JPEG => {
                let _ = self.write_jpeg_mipmaps(writer);
                proof {
                    lemma_write_at_concat(c0, p0, head, jpeg_body(*self, p0 + head.len()));
                }
            },
            Compression::PALETTE => {
                let _ = self.write_palette(writer);
                proof {
                    lemma_write_at_concat(c0, p0, head, palette_body(*self));
                }
            },
        }
        Ok(())
    }

    /// Writes the JPEG header and places each mipmap at its offset, with
    /// zeros in the gap before it.
    fn write_jpeg_mipmaps(&self, writer: &mut BinaryWriter) -> (res: Result<(), WriteError>)
        requires
            old(writer).position() + jpeg_body(*self, old(writer).position() as int).len() <= usize::MAX,
        ensures
            res is Ok,
            final(writer).contents() == write_at(
                old(writer).contents(),
                old(writer).position() as int,
                jpeg_body(*self, old(writer).position() as int),
            ),
            final(writer).position() == old(writer).position() + jpeg_body(
                *self,
                old(writer).position() as int,
            ).len(),
    {
        let ghost c0 = writer.contents();
        let ghost p0 = writer.position() as int;
        let ghost offs = self.mipmap_offsets@;
        let ghost frags = views(self.jpeg_mipmaps_raw@);
        let ghost n = self.jpeg_mipmaps_raw@.len();
        let ghost a = le_bytes_u32(self.jpeg_header@.len() as u32);
        let ghost h = a + self.jpeg_header@;
        let ghost q = p0 + h.len();
        proof {
            lemma_frag_len_mono(offs, frags, q, 0, n);
        }
        let _ = writer.write_u32(self.jpeg_header.len() as u32);
        let _ = writer.write_bytes(self.jpeg_header.as_slice());
        proof {
            lemma_write_at_concat(c0, p0, a, self.jpeg_header@);
            assert(h + jpeg_frag_bytes(offs, frags, q, 0) =~= h);
        }
        let mut i: usize = 0;
        while i < self.jpeg_mipmaps_raw.len()
            invariant
                i <= n,
                n == self.jpeg_mipmaps_raw@.len(),
                frags == views(self.jpeg_mipmaps_raw@),
                offs == self.mipmap_offsets@,
                0 <= p0,
                q == p0 + h.len(),
                p0 + jpeg_body(*self, p0).len() <= usize::MAX,
                jpeg_body(*self, p0) == h + jpeg_frag_bytes(offs, frags, q, n),
                writer.position() == q + jpeg_frag_bytes(offs, frags, q, i as nat).len(),
                writer.contents() == write_at(c0, p0, h + jpeg_frag_bytes(offs, frags, q, i as nat)),
            decreases n - i,
        {
            let ghost prev = jpeg_frag_bytes(offs, frags, q, i as nat);
            let ghost here = q + prev.len();
            let target: u64 = if i < self.mipmap_offsets.len() {
                self.mipmap_offsets[i] as u64
            } else {
                0
            };
            proof {
                lemma_frag_len_mono(offs, frags, q, (i + 1) as nat, n);
                assert(jpeg_frag_bytes(offs, frags, q, (i + 1) as nat) == prev + zeros(
                    slot(offs, i as int) - here,
                ) + frags[i as int]);
                assert(target == slot(offs, i as int));
                assert(write_at(c0, p0, h + prev + zeros(0)) == writer.contents()) by {
                    assert(h + prev + zeros(0) =~= h + prev);
                }
            }
            while writer.pos() < target
                invariant
                    here <= writer.position(),
                    writer.position() <= here || writer.position() <= target,
                    target == slot(offs, i as int),
                    0 <= p0,
                    here + zeros(target - here).len() <= usize::MAX,
                    writer.contents() == write_at(c0, p0, h + prev + zeros(writer.position() - here)),
                    (h + prev).len() == here - p0,
                decreases target - writer.position(),
            {
                let ghost before = writer.position() as int;
                let _ = writer.write_u8(0);
                proof {
                    lemma_write_at_concat(c0, p0, h + prev + zeros(before - here), seq![0u8]);
                    assert(h + prev + zeros(before - here) + seq![0u8] =~= h + prev + zeros(
                        writer.position() - here,
                    ));
                }
            }
            proof {
                assert(writer.position() == here + zeros(target - here).len());
            }
            let _ = writer.write_bytes(self.jpeg_mipmaps_raw[i].as_slice());
            proof {
                lemma_write_at_concat(c0, p0, h + prev + zeros(target - here), frags[i as int]);
                assert(h + prev + zeros(target - here) + frags[i as int] =~= h + jpeg_frag_bytes(
                    offs,
                    frags,
                    q,
                    (i + 1) as nat,
                ));
            }
            i = i + 1;
        }
        Ok(())
    }

    /// Writes the palette and the indexes of each mipmap (with its alpha
    /// indexes when the picture type has them).
    fn write_palette(&self, writer: &mut BinaryWriter) -> (res: Result<(), WriteError>)
        requires
            old(writer).position() + palette_body(*self).len() <= usize::MAX,
            alpha_list(self.picture_type) ==> self.palette_rgb_indexes@.len() <= self.palette_alpha_indexes@.len(),
        ensures
            res is Ok,
            final(writer).contents() == write_at(
                old(writer).contents(),
                old(writer).position() as int,
                palette_body(*self),
            ),
            final(writer).position() == old(writer).position() + palette_body(*self).len(),
    {
        let ghost c0 = writer.contents();
        let ghost p0 = writer.position() as int;
        let ghost cs = self.palette_colors@;
        let ghost rgb = views(self.palette_rgb_indexes@);
        let ghost alpha = views(self.palette_alpha_indexes@);
        let ghost wa = alpha_list(self.picture_type);
        let ghost n = self.palette_rgb_indexes@.len();
        proof {
            lemma_colors_len(cs);
            lemma_indexes_len_mono(rgb, alpha, wa, 0, n);
            assert(write_at(c0, p0, Seq::<u8>::empty()) =~= c0);
            assert(cs.take(0) =~= Seq::<PaletteColor>::empty());
        }
        let mut c: usize = 0;
        while c < self.palette_colors.len()
            invariant
                c <= cs.len(),
                cs == self.palette_colors@,
                0 <= p0,
                p0 + palette_body(*self).len() <= usize::MAX,
                palette_body(*self) == colors_bytes(cs) + indexes_bytes(rgb, alpha, wa, n),
                colors_bytes(cs).len() == 4 * cs.len(),
                writer.position() == p0 + 4 * c,
                writer.contents() == write_at(c0, p0, colors_bytes(cs.take(c as int))),
            decreases cs.len() - c,
        {
            let rgba = self.palette_colors[c];
            let bgra: [u8; 4] = [rgba.b, rgba.g, rgba.r, 255 - rgba.a];
            let _ = writer.write_bytes(&bgra);
            proof {
                lemma_write_at_concat(c0, p0, colors_bytes(cs.take(c as int)), bgra@);
                assert(cs.take(c + 1).drop_last() =~= cs.take(c as int));
                assert(bgra@ =~= color_bytes(cs[c as int]));
                lemma_colors_len(cs.take(c as int));
            }
            c = c + 1;
        }
        proof {
            assert(cs.take(cs.len() as int) =~= cs);
            assert(colors_bytes(cs) + indexes_bytes(rgb, alpha, wa, 0) =~= colors_bytes(cs));
        }
        let with_alpha = self.has_alpha_list();
        let mut i: usize = 0;
        while i < self.palette_rgb_indexes.len()
            invariant
                i <= n,
                n == self.palette_rgb_indexes@.len(),
                rgb == views(self.palette_rgb_indexes@),
                alpha == views(self.palette_alpha_indexes@),
                wa == alpha_list(self.picture_type),
                with_alpha == wa,
                wa ==> n <= self.palette_alpha_indexes@.len(),
                0 <= p0,
                p0 + palette_body(*self).len() <= usize::MAX,
                palette_body(*self) == colors_bytes(cs) + indexes_bytes(rgb, alpha, wa, n),
                writer.position() == p0 + colors_bytes(cs).len() + indexes_bytes(rgb, alpha, wa, i as nat).len(),
                writer.contents() == write_at(c0, p0, colors_bytes(cs) + indexes_bytes(rgb, alpha, wa, i as nat)),
            decreases n - i,
        {
            let ghost prev = colors_bytes(cs) + indexes_bytes(rgb, alpha, wa, i as nat);
            proof {
                lemma_indexes_len_mono(rgb, alpha, wa, (i + 1) as nat, n);
            }
            let _ = writer.write_bytes(self.palette_rgb_indexes[i].as_slice());
            proof {
                lemma_write_at_concat(c0, p0, prev, rgb[i as int]);
            }
            if with_alpha {
                let _ = writer.write_bytes(self.palette_alpha_indexes[i].as_slice());
                proof {
                    lemma_write_at_concat(c0, p0, prev + rgb[i as int], alpha[i as int]);
                    assert(prev + rgb[i as int] + alpha[i as int] =~= colors_bytes(cs) + indexes_bytes(
                        rgb,
                        alpha,
                        wa,
                        (i + 1) as nat,
                    ));
                }
            } else {
                proof {
                    assert(prev + rgb[i as int] =~= colors_bytes(cs) + indexes_bytes(
                        rgb,
                        alpha,
                        wa,
                        (i + 1) as nat,
                    ));
                }
            }
            i = i + 1;
        }
        Ok(())
    }
}

} // verus!
