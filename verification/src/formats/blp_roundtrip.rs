//! Writing back a paletted texture that was read.

use vstd::prelude::*;
use vstd::utf8::encode_utf8;

use crate::formats::binary_reader::u32_at;
use crate::formats::binary_writer::le_bytes_u32_seq;
use crate::formats::blp::{
    alpha_list, blp1_magic, blp_at, blp_bytes, blp_head, color_at, color_bytes, colors_bytes, header_word,
    indexes_bytes, jpeg_body, jpeg_frag_bytes, jpeg_list, jpeg_upto, lemma_magic_utf8, mipmap_offset,
    mipmap_size, palette_body, palette_rgb, palette_alpha, palette_upto, seek_pos, slot, slots, views, zeros,
    PaletteColor, BLP,
};
use crate::formats::encoding::{le_bytes_u32, lemma_u32_bytes_roundtrip};

verus! {

proof fn lemma_le_at(d: Seq<u8>, q: int)
    requires
        0 <= q,
        q + 4 <= d.len(),
    ensures
        le_bytes_u32(u32_at(d, q)) == d.subrange(q, q + 4),
{
    lemma_u32_bytes_roundtrip(d[q], d[q + 1], d[q + 2], d[q + 3]);
    assert(d.subrange(q, q + 4) =~= seq![d[q], d[q + 1], d[q + 2], d[q + 3]]);
}

proof fn lemma_words_at(d: Seq<u8>, q: int, vs: Seq<u32>)
    requires
        0 <= q,
        q + 4 * vs.len() <= d.len(),
        forall|i: int| 0 <= i < vs.len() ==> #[trigger] vs[i] == u32_at(d, q + 4 * i),
    ensures
        le_bytes_u32_seq(vs) == d.subrange(q, q + 4 * vs.len()),
    decreases vs.len(),
{
    if vs.len() > 0 {
        let init = vs.drop_last();
        assert forall|i: int| 0 <= i < init.len() implies #[trigger] init[i] == u32_at(d, q + 4 * i) by {
            assert(init[i] == vs[i]);
        }
        lemma_words_at(d, q, init);
        let r = q + 4 * init.len();
        assert(vs.last() == vs[vs.len() - 1]);
        lemma_le_at(d, r);
        assert(d.subrange(q, q + 4 * vs.len()) =~= d.subrange(q, r) + d.subrange(r, r + 4));
    }
}

proof fn lemma_colors_at(d: Seq<u8>, q: int, cs: Seq<PaletteColor>)
    requires
        0 <= q,
        q + 4 * cs.len() <= d.len(),
        forall|i: int| 0 <= i < cs.len() ==> #[trigger] cs[i] == color_at(d, q + 4 * i),
    ensures
        colors_bytes(cs) == d.subrange(q, q + 4 * cs.len()),
    decreases cs.len(),
{
    if cs.len() > 0 {
        let init = cs.drop_last();
        assert forall|i: int| 0 <= i < init.len() implies #[trigger] init[i] == color_at(d, q + 4 * i) by {
            assert(init[i] == cs[i]);
        }
        lemma_colors_at(d, q, init);
        let r = q + 4 * init.len();
        assert(cs.last() == cs[cs.len() - 1]);
        assert(color_bytes(cs.last()) =~= d.subrange(r, r + 4));
        assert(d.subrange(q, q + 4 * cs.len()) =~= d.subrange(q, r) + d.subrange(r, r + 4));
    }
}

/// Where the indexes of the first `k` mipmap slots of the paletted
/// texture stored at the start of `d` end when they are stored one after
/// the other right after the palette, a slot of size zero taking no room.
pub open spec fn packed_end(d: Seq<u8>, k: nat) -> int
    decreases k,
{
    if k == 0 {
        1180
    } else {
        let e = packed_end(d, (k - 1) as nat);
        let size = mipmap_size(d, 0, k - 1);
        if size == 0 {
            e
        } else if alpha_list(header_word(d, 0, 4)) {
            e + 2 * size
        } else {
            e + size
        }
    }
}

/// Whether the paletted texture stored at the start of `d` is packed: the
/// indexes of each mipmap start where those of the slots before end, and
/// the bytes end with the last of them.
pub open spec fn palette_packed(d: Seq<u8>) -> bool {
    &&& forall|i: int| 0 <= i < 16 && mipmap_size(d, 0, i) != 0 ==> #[trigger] mipmap_offset(d, 0, i)
        == packed_end(d, i as nat)
    &&& d.len() == packed_end(d, 16)
}

proof fn lemma_packed_mono(d: Seq<u8>, k: nat, m: nat)
    requires
        k <= m,
    ensures
        packed_end(d, k) <= packed_end(d, m),
    decreases m - k,
{
    if k < m {
        lemma_packed_mono(d, k, (m - 1) as nat);
    }
}

proof fn lemma_indexes_same(
    r1: Seq<Seq<u8>>,
    a1: Seq<Seq<u8>>,
    r2: Seq<Seq<u8>>,
    a2: Seq<Seq<u8>>,
    w: bool,
    k: nat,
)
    requires
        forall|j: int| 0 <= j < k ==> #[trigger] r1[j] == r2[j],
        w ==> forall|j: int| 0 <= j < k ==> #[trigger] a1[j] == a2[j],
    ensures
        indexes_bytes(r1, a1, w, k) == indexes_bytes(r2, a2, w, k),
    decreases k,
{
    if k > 0 {
        lemma_indexes_same(r1, a1, r2, a2, w, (k - 1) as nat);
        assert(r1[k - 1] == r2[k - 1]);
        if w {
            assert(a1[k - 1] == a2[k - 1]);
        }
    }
}

proof fn lemma_packed_indexes(d: Seq<u8>, k: nat)
    requires
        k <= 16,
        palette_packed(d),
    ensures
        palette_upto(d, 0, k) is Some,
        ({
            let (rgb, alpha) = palette_upto(d, 0, k)->0;
            let w = alpha_list(header_word(d, 0, 4));
            &&& w ==> alpha.len() == rgb.len()
            &&& indexes_bytes(rgb, alpha, w, rgb.len()) == d.subrange(1180, packed_end(d, k))
        }),
    decreases k,
{
    let w = alpha_list(header_word(d, 0, 4));
    lemma_packed_mono(d, k, 16);
    if k == 0 {
        assert(d.subrange(1180, 1180) =~= Seq::<u8>::empty());
    } else {
        lemma_packed_indexes(d, (k - 1) as nat);
        lemma_packed_mono(d, 0, (k - 1) as nat);
        let (rgb, alpha) = palette_upto(d, 0, (k - 1) as nat)->0;
        let e = packed_end(d, (k - 1) as nat);
        let size = mipmap_size(d, 0, k - 1);
        if size != 0 {
            assert(mipmap_offset(d, 0, k - 1) == e);
            assert(seek_pos(d, mipmap_offset(d, 0, k - 1)) == e);
            let r = d.subrange(e, e + size);
            let rgb2 = rgb.push(r);
            assert forall|j: int| 0 <= j < rgb.len() implies #[trigger] rgb2[j] == rgb[j] by {}
            if w {
                let a = d.subrange(e + size, e + 2 * size);
                let alpha2 = alpha.push(a);
                assert forall|j: int| 0 <= j < rgb.len() implies #[trigger] alpha2[j] == alpha[j] by {}
                lemma_indexes_same(rgb2, alpha2, rgb, alpha, w, rgb.len());
                assert(rgb2[rgb.len() as int] == r && alpha2[rgb.len() as int] == a);
                assert(d.subrange(1180, e + 2 * size) =~= d.subrange(1180, e) + r + a);
            } else {
                lemma_indexes_same(rgb2, alpha, rgb, alpha, w, rgb.len());
                assert(rgb2[rgb.len() as int] == r);
                assert(d.subrange(1180, e + size) =~= d.subrange(1180, e) + r);
            }
        }
    }
}

/// A paletted texture that is stored packed (its header, its palette, then
/// the indexes of each mipmap one after the other in the order of the
/// slots, and nothing after them) is written back byte for byte as it was
/// read.
#[verifier::rlimit(40)]
pub proof fn law_blp_palette_read_write(d: Seq<u8>, x: BLP)
    requires
        blp_at(d, 0, x),
        header_word(d, 0, 0) == 1,
        palette_packed(d),
    ensures
        blp_bytes(x, 0) == d,
{
    broadcast use vstd::utf8::decode_utf8_encode_utf8;

    lemma_magic_utf8();
    assert(encode_utf8(x.magic_num@) == blp1_magic());
    assert(slots(x.mipmap_offsets@) =~= x.mipmap_offsets@);
    assert(slots(x.mipmap_sizes@) =~= x.mipmap_sizes@);
    lemma_words_at(d, 28, x.mipmap_offsets@);
    lemma_words_at(d, 92, x.mipmap_sizes@);
    lemma_le_at(d, 4);
    lemma_le_at(d, 8);
    lemma_le_at(d, 12);
    lemma_le_at(d, 16);
    lemma_le_at(d, 20);
    lemma_le_at(d, 24);
    assert(blp_head(x) =~= d.subrange(0, 156));
    lemma_colors_at(d, 156, x.palette_colors@);
    lemma_packed_indexes(d, 16);
    assert(views(x.palette_rgb_indexes@) == palette_rgb(d, 0));
    assert(views(x.palette_alpha_indexes@) == palette_alpha(d, 0));
    assert(palette_body(x) =~= d.subrange(156, 1180) + d.subrange(1180, d.len() as int));
    assert(d =~= d.subrange(0, 156) + d.subrange(156, 1180) + d.subrange(1180, d.len() as int));
}

/// How many of the first `k` mipmap slots of the JPEG texture stored at
/// the start of `d` come before the first slot of size zero.
pub open spec fn jpeg_lead(d: Seq<u8>, k: nat) -> nat
    decreases k,
{
    if k == 0 {
        0
    } else if jpeg_lead(d, (k - 1) as nat) == k - 1 && mipmap_size(d, 0, k - 1) != 0 {
        k
    } else {
        jpeg_lead(d, (k - 1) as nat)
    }
}

/// Where the JPEG texture stored at the start of `d` ends after its first
/// `k` mipmaps (after its JPEG header when `k` is zero).
pub open spec fn jpeg_end(d: Seq<u8>, k: nat) -> int {
    if k == 0 {
        160 + u32_at(d, 156)
    } else {
        mipmap_offset(d, 0, k - 1) + mipmap_size(d, 0, k - 1)
    }
}

/// Whether mipmap `i` of the JPEG texture stored at the start of `d`
/// starts at or after the end of the one before (of the JPEG header for the
/// first), with zero bytes in between.
#[verifier::opaque]
pub open spec fn jpeg_gap_ok(d: Seq<u8>, i: int) -> bool {
    &&& mipmap_offset(d, 0, i) >= jpeg_end(d, i as nat)
    &&& forall|j: int| jpeg_end(d, i as nat) <= j < mipmap_offset(d, 0, i) ==> #[trigger] d[j] == 0
}

/// Whether the JPEG texture stored at the start of `d` is packed: each
/// mipmap before the first slot of size zero follows the one before with
/// zero bytes in between, and the bytes end with the last of them.
pub open spec fn jpeg_packed(d: Seq<u8>) -> bool {
    &&& forall|i: int| 0 <= i < jpeg_lead(d, 16) ==> #[trigger] jpeg_gap_ok(d, i)
    &&& d.len() == jpeg_end(d, jpeg_lead(d, 16))
}

proof fn lemma_lead_le(d: Seq<u8>, k: nat, m: nat)
    requires
        k <= m,
    ensures
        jpeg_lead(d, k) <= k,
        jpeg_lead(d, k) <= jpeg_lead(d, m),
        jpeg_lead(d, k) < k ==> jpeg_lead(d, m) == jpeg_lead(d, k),
    decreases m,
{
    if m > 0 {
        if k < m {
            lemma_lead_le(d, k, (m - 1) as nat);
        } else if k > 0 {
            lemma_lead_le(d, (k - 1) as nat, (k - 1) as nat);
        }
    }
}

proof fn lemma_jpeg_end_mono(d: Seq<u8>, i: nat, j: nat)
    requires
        i <= j <= jpeg_lead(d, 16),
        jpeg_packed(d),
    ensures
        jpeg_end(d, i) <= jpeg_end(d, j),
    decreases j - i,
{
    if i < j {
        lemma_jpeg_end_mono(d, (i + 1) as nat, j);
        assert(jpeg_gap_ok(d, i as int));
        reveal(jpeg_gap_ok);
    }
}

proof fn lemma_frags_same(offsets: Seq<u32>, f1: Seq<Seq<u8>>, f2: Seq<Seq<u8>>, pos: int, k: nat)
    requires
        forall|j: int| 0 <= j < k ==> #[trigger] f1[j] == f2[j],
    ensures
        jpeg_frag_bytes(offsets, f1, pos, k) == jpeg_frag_bytes(offsets, f2, pos, k),
    decreases k,
{
    if k > 0 {
        lemma_frags_same(offsets, f1, f2, pos, (k - 1) as nat);
        assert(f1[k - 1] == f2[k - 1]);
    }
}

#[verifier::rlimit(60)]
proof fn lemma_packed_frags(d: Seq<u8>, offsets: Seq<u32>, k: nat)
    requires
        k <= 16,
        jpeg_packed(d),
        offsets.len() == 16,
        forall|i: int| 0 <= i < 16 ==> #[trigger] offsets[i] == mipmap_offset(d, 0, i),
        160 + u32_at(d, 156) <= d.len(),
    ensures
        jpeg_upto(d, 0, k) is Some,
        ({
            let (frags, stopped) = jpeg_upto(d, 0, k)->0;
            let h = 160 + u32_at(d, 156);
            &&& frags.len() == jpeg_lead(d, k)
            &&& stopped == (jpeg_lead(d, k) < k)
            &&& jpeg_frag_bytes(offsets, frags, h, frags.len()) == d.subrange(h, jpeg_end(d, jpeg_lead(d, k)))
        }),
    decreases k,
{
    let h = 160 + u32_at(d, 156);
    if k == 0 {
        assert(d.subrange(h, h) =~= Seq::<u8>::empty());
    } else {
        lemma_packed_frags(d, offsets, (k - 1) as nat);
        lemma_lead_le(d, (k - 1) as nat, 16);
        lemma_lead_le(d, k, 16);
        let (frags, stopped) = jpeg_upto(d, 0, (k - 1) as nat)->0;
        let size = mipmap_size(d, 0, k - 1);
        if !stopped && size != 0 {
            let i = k - 1;
            let e = jpeg_end(d, i as nat);
            let off = mipmap_offset(d, 0, i);
            assert(jpeg_lead(d, k) == k);
            assert(jpeg_gap_ok(d, i));
            assert(off >= e) by {
                reveal(jpeg_gap_ok);
            }
            lemma_jpeg_end_mono(d, k, jpeg_lead(d, 16));
            lemma_jpeg_end_mono(d, 0, i as nat);
            assert(off + size == jpeg_end(d, k));
            assert(seek_pos(d, off) == off);
            let r = d.subrange(off as int, off + size);
            let frags2 = frags.push(r);
            assert forall|j: int| 0 <= j < frags.len() implies #[trigger] frags2[j] == frags[j] by {}
            lemma_frags_same(offsets, frags2, frags, h, frags.len());
            assert(frags2[frags.len() as int] == r);
            assert(slot(offsets, i) == off);
            let prev = jpeg_frag_bytes(offsets, frags, h, frags.len());
            assert(h + prev.len() == e);
            assert(zeros(off - e) =~= d.subrange(e, off as int)) by {
                reveal(jpeg_gap_ok);
                assert forall|j: int| 0 <= j < off - e implies d.subrange(e, off as int)[j] == 0u8 by {
                    assert(d[e + j] == 0);
                }
            }
            assert(d.subrange(h, off + size) =~= d.subrange(h, e) + d.subrange(e, off as int) + r);
        }
    }
}

/// A JPEG texture that is stored packed (its header, its JPEG header,
/// then its mipmaps in the order of the slots, each at or after the end of
/// the one before with zero bytes in between, and nothing after them) is
/// written back byte for byte as it was read.
#[verifier::rlimit(60)]
pub proof fn law_blp_jpeg_read_write(d: Seq<u8>, x: BLP)
    requires
        blp_at(d, 0, x),
        header_word(d, 0, 0) == 0,
        jpeg_packed(d),
    ensures
        blp_bytes(x, 0) == d,
{
    broadcast use vstd::utf8::decode_utf8_encode_utf8;

    lemma_magic_utf8();
    assert(encode_utf8(x.magic_num@) == blp1_magic());
    assert(slots(x.mipmap_offsets@) =~= x.mipmap_offsets@);
    assert(slots(x.mipmap_sizes@) =~= x.mipmap_sizes@);
    lemma_words_at(d, 28, x.mipmap_offsets@);
    lemma_words_at(d, 92, x.mipmap_sizes@);
    lemma_le_at(d, 4);
    lemma_le_at(d, 8);
    lemma_le_at(d, 12);
    lemma_le_at(d, 16);
    lemma_le_at(d, 20);
    lemma_le_at(d, 24);
    lemma_le_at(d, 156);
    assert(blp_head(x) =~= d.subrange(0, 156));
    let hs = u32_at(d, 156);
    assert(x.jpeg_header@.len() == hs);
    lemma_packed_frags(d, x.mipmap_offsets@, 16);
    assert(views(x.jpeg_mipmaps_raw@) == jpeg_list(d, 0));
    let h = 160 + hs;
    assert(jpeg_body(x, 156) =~= d.subrange(156, 160) + d.subrange(160, h) + d.subrange(h, d.len() as int));
    assert(d =~= d.subrange(0, 156) + d.subrange(156, 160) + d.subrange(160, h) + d.subrange(h, d.len() as int));
}

} // verus!
