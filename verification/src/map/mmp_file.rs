//! Menu minimap (`war3map.mmp`): icons shown on the map preview.

use vstd::prelude::*;

use crate::formats::binary_reader::{u32_at, BinaryReader};
use crate::formats::binary_writer::{lemma_write_at_concat, write_at, BinaryWriter};
use crate::formats::encoding::le_bytes_u32;
use crate::formats::roundtrip::law_u32_write_read;
use crate::formats::{MpqError, ReadError, WriteError};
use crate::map::error::MapError;
use crate::map::trigger_jass_file::lemma_u32_in;

verus! {

/// Errors of the menu minimap.
#[derive(Debug)]
pub enum MenuMinimapError {
    MpqError(MpqError),
    InitReader(ReadError),
    Parsing(ReadError),
    SaveError(WriteError),
}

/// One icon of the menu minimap.
#[derive(Debug)]
pub struct MMPDataset {
    pub icon_type: u32,
    pub x: i32,
    pub y: i32,
    /// Color bytes (four when read from a file).
    pub color: Vec<u8>,
}

/// The abstract content of an icon.
pub type MMPDatasetView = (u32, i32, i32, Seq<u8>);

impl View for MMPDataset {
    type V = MMPDatasetView;

    open spec fn view(&self) -> MMPDatasetView {
        (self.icon_type, self.x, self.y, self.color@)
    }
}

/// The serialized bytes of an icon.
pub open spec fn dataset_bytes(d: MMPDatasetView) -> Seq<u8> {
    le_bytes_u32(d.0) + le_bytes_u32(d.1 as u32) + le_bytes_u32(d.2 as u32) + d.3
}

/// The icon stored at `pos` in `buf`.
pub open spec fn dataset_at(buf: Seq<u8>, pos: int) -> MMPDatasetView {
    (u32_at(buf, pos), u32_at(buf, pos + 4) as i32, u32_at(buf, pos + 8) as i32, buf.subrange(pos + 12, pos + 16))
}

/// The layout of an icon of the menu minimap: its type, then its x and y
/// position, as little-endian words at bytes 0, 4 and 8, then its four color
/// bytes 12 to 15. Reading takes each field from its bytes and writing puts
/// it there.
pub proof fn law_dataset_layout(buf: Seq<u8>, pos: int, x: MMPDatasetView)
    ensures
        dataset_at(buf, pos).0 == u32_at(buf, pos),
        dataset_at(buf, pos).1 == u32_at(buf, pos + 4) as i32,
        dataset_at(buf, pos).2 == u32_at(buf, pos + 8) as i32,
        0 <= pos && pos + 16 <= buf.len() ==> dataset_at(buf, pos).3 == seq![buf[pos + 12], buf[pos + 13], buf[pos + 14], buf[pos + 15]],
        dataset_bytes(x).subrange(0, 4) == le_bytes_u32(x.0),
        dataset_bytes(x).subrange(4, 8) == le_bytes_u32(x.1 as u32),
        dataset_bytes(x).subrange(8, 12) == le_bytes_u32(x.2 as u32),
        dataset_bytes(x).subrange(12, dataset_bytes(x).len() as int) == x.3,
{
    let b = dataset_bytes(x);
    assert(b.subrange(0, 4) =~= le_bytes_u32(x.0));
    assert(b.subrange(4, 8) =~= le_bytes_u32(x.1 as u32));
    assert(b.subrange(8, 12) =~= le_bytes_u32(x.2 as u32));
    assert(b.subrange(12, b.len() as int) =~= x.3);
    if 0 <= pos && pos + 16 <= buf.len() {
        assert(buf.subrange(pos + 12, pos + 16) =~= seq![buf[pos + 12], buf[pos + 13], buf[pos + 14], buf[pos + 15]]);
    }
}

/// The serialized bytes of icons, in order.
pub open spec fn datasets_bytes(ds: Seq<MMPDatasetView>) -> Seq<u8>
    decreases ds.len(),
{
    if ds.len() == 0 {
        Seq::empty()
    } else {
        datasets_bytes(ds.drop_last()) + dataset_bytes(ds.last())
    }
}

impl MMPDataset {
    /// Reads an icon at the cursor; fails with [`ReadError::EOF`] when fewer
    /// than sixteen bytes are left.
    pub fn read(reader: &mut BinaryReader) -> (res: Result<Self, ReadError>)
        requires
            old(reader).wf(),
        ensures
            final(reader).wf(),
            final(reader).contents() == old(reader).contents(),
            old(reader).has(16) ==> (res matches Ok(d) && d@ == dataset_at(
                old(reader).contents(),
                old(reader).position() as int,
            ) && final(reader).position() == old(reader).position() + 16),
            !old(reader).has(16) ==> res matches Err(ReadError::EOF),
    {
        let icon_type = match reader.read_u32() {
            Ok(v) => v,
            Err(e) => return Err(e),
        };
        let x = match reader.read_i32() {
            Ok(v) => v,
            Err(e) => return Err(e),
        };
        let y = match reader.read_i32() {
            Ok(v) => v,
            Err(e) => return Err(e),
        };
        let color = match reader.read_bytes(4) {
            Ok(v) => v,
            Err(e) => return Err(e),
        };
        Ok(MMPDataset { icon_type, x, y, color })
    }

    /// Writes the icon at the cursor.
    pub fn write(&self, writer: &mut BinaryWriter) -> (res: Result<(), WriteError>)
        requires
            old(writer).has_room(12int + self.color@.len()),
        ensures
            res is Ok,
            final(writer).contents() == write_at(
                old(writer).contents(),
                old(writer).position() as int,
                dataset_bytes(self@),
            ),
            final(writer).position() == old(writer).position() + dataset_bytes(self@).len(),
    {
        let ghost before = writer.contents();
        let ghost start = writer.position() as int;
        let ghost a = le_bytes_u32(self.icon_type);
        let ghost b = le_bytes_u32(self.x as u32);
        let ghost c = le_bytes_u32(self.y as u32);
        writer.write_u32(self.icon_type);
        writer.write_i32(self.x);
        proof {
            lemma_write_at_concat(before, start, a, b);
        }
        writer.write_i32(self.y);
        proof {
            lemma_write_at_concat(before, start, a + b, c);
        }
        writer.write_bytes(self.color.as_slice());
        proof {
            lemma_write_at_concat(before, start, a + b + c, self.color@);
        }
        Ok(())
    }
}

/// The menu minimap of a map.
#[derive(Debug)]
pub struct MMPFile {
    pub unknown: i32,
    pub datasets: Vec<MMPDataset>,
}

/// The serialized menu minimap: unknown field, icon count, icons.
pub open spec fn mmp_bytes(unknown: i32, ds: Seq<MMPDatasetView>) -> Seq<u8> {
    le_bytes_u32(unknown as u32) + le_bytes_u32((ds.len() as i32) as u32) + datasets_bytes(ds)
}

/// The menu minimap file starts with an unknown word and the count of its
/// icons, both little endian, and the icons follow from byte 8, sixteen
/// bytes each.
pub proof fn law_mmp_head(unknown: i32, ds: Seq<MMPDatasetView>)
    ensures
        mmp_bytes(unknown, ds).subrange(0, 4) == le_bytes_u32(unknown as u32),
        mmp_bytes(unknown, ds).subrange(4, 8) == le_bytes_u32((ds.len() as i32) as u32),
        mmp_bytes(unknown, ds).subrange(8, mmp_bytes(unknown, ds).len() as int) == datasets_bytes(ds),
{
    let b = mmp_bytes(unknown, ds);
    assert(b.subrange(0, 4) =~= le_bytes_u32(unknown as u32));
    assert(b.subrange(4, 8) =~= le_bytes_u32((ds.len() as i32) as u32));
    assert(b.subrange(8, b.len() as int) =~= datasets_bytes(ds));
}

impl MMPFile {
    /// Name of the file in the map archive.
    pub const FILE_NAME: &'static str = "war3map.mmp";

    /// The icons of the file.
    pub open spec fn dataset_views(&self) -> Seq<MMPDatasetView> {
        self.datasets@.map_values(|d: MMPDataset| d@)
    }

    /// Reads a menu minimap at the cursor: unknown field, icon count, then
    /// that many icons; fails with [`ReadError::EOF`] when the bytes run out.
    #[verifier::loop_isolation(false)]
    pub fn read(reader: &mut BinaryReader) -> (res: Result<Self, ReadError>)
        requires
            old(reader).wf(),
        ensures
            final(reader).wf(),
            final(reader).contents() == old(reader).contents(),
            ({
                let buf = old(reader).contents();
                let p = old(reader).position() as int;
                let count = (u32_at(buf, p + 4) as i32) as usize;
                &&& old(reader).has(8) && old(reader).has(8 + 16 * count) ==> (res matches Ok(f)
                    && f.unknown == u32_at(buf, p) as i32 && f.datasets@.len() == count && (forall|
                    k: int,
                | 0 <= k < count ==> #[trigger] f.datasets@[k]@ == dataset_at(buf, p + 8 + 16 * k))
                    && final(reader).position() == p + 8 + 16 * count)
                &&& !(old(reader).has(8) && old(reader).has(8 + 16 * count)) ==> res matches Err(
                    ReadError::EOF,
                )
            }),
    {
        let ghost buf = reader.contents();
        let ghost p = reader.position() as int;
        let unknown = match reader.read_i32() {
            Ok(v) => v,
            Err(e) => return Err(e),
        };
        let count = match reader.read_i32() {
            Ok(v) => v as usize,
            Err(e) => return Err(e),
        };
        let mut datasets: Vec<MMPDataset> = Vec::new();
        let mut k: usize = 0;
        while k < count
            invariant
                reader.wf(),
                reader.contents() == buf,
                k <= count,
                datasets@.len() == k,
                reader.position() == p + 8 + 16 * k,
                forall|j: int| 0 <= j < k ==> #[trigger] datasets@[j]@ == dataset_at(buf, p + 8 + 16 * j),
            decreases count - k,
        {
            match MMPDataset::read(reader) {
                Ok(d) => datasets.push(d),
                Err(e) => {
                    return Err(e);
                },
            }
            k = k + 1;
        }
        Ok(MMPFile { unknown, datasets })
    }

    /// Writes the menu minimap at the cursor.
    pub fn write(&self, writer: &mut BinaryWriter) -> (res: Result<(), WriteError>)
        requires
            old(writer).has_room(mmp_bytes(self.unknown, self.dataset_views()).len() as int),
        ensures
            res is Ok,
            final(writer).contents() == write_at(
                old(writer).contents(),
                old(writer).position() as int,
                mmp_bytes(self.unknown, self.dataset_views()),
            ),
            final(writer).position() == old(writer).position() + mmp_bytes(
                self.unknown,
                self.dataset_views(),
            ).len(),
    {
        let ghost before = writer.contents();
        let ghost start = writer.position() as int;
        let ghost ds = self.dataset_views();
        let ghost head = le_bytes_u32(self.unknown as u32) + le_bytes_u32((ds.len() as i32) as u32);
        writer.write_i32(self.unknown);
        writer.write_i32(self.datasets.len() as i32);
        proof {
            lemma_write_at_concat(
                before,
                start,
                le_bytes_u32(self.unknown as u32),
                le_bytes_u32((ds.len() as i32) as u32),
            );
            assert(ds.take(0) =~= Seq::<MMPDatasetView>::empty());
            assert(head + datasets_bytes(ds.take(0)) =~= head);
        }
        let mut k: usize = 0;
        while k < self.datasets.len()
            invariant
                0 <= start,
                k <= self.datasets@.len(),
                ds == self.dataset_views(),
                head == le_bytes_u32(self.unknown as u32) + le_bytes_u32((ds.len() as i32) as u32),
                start + mmp_bytes(self.unknown, ds).len() <= usize::MAX,
                writer.position() == start + (head + datasets_bytes(ds.take(k as int))).len(),
                writer.contents() == write_at(before, start, head + datasets_bytes(ds.take(k as int))),
            decreases self.datasets@.len() - k,
        {
            proof {
                lemma_datasets_bytes_prefix(ds, k as int + 1);
                assert(ds.take(k + 1).drop_last() =~= ds.take(k as int));
            }
            self.datasets[k].write(writer);
            proof {
                lemma_write_at_concat(before, start, head + datasets_bytes(ds.take(k as int)), dataset_bytes(ds[k as int]));
                assert(head + datasets_bytes(ds.take(k + 1)) =~= head + datasets_bytes(ds.take(k as int)) + dataset_bytes(ds[k as int]));
            }
            k = k + 1;
        }
        assert(ds.take(ds.len() as int) =~= ds);
        Ok(())
    }

    /// Serializes the menu minimap into a new writer.
    pub fn prepare_write(&self) -> (res: Result<BinaryWriter, MapError>)
        requires
            mmp_bytes(self.unknown, self.dataset_views()).len() <= usize::MAX,
        ensures
            res matches Ok(w) && w.contents() == mmp_bytes(self.unknown, self.dataset_views()),
    {
        let mut writer = BinaryWriter::new();
        proof {
            assert(write_at(Seq::<u8>::empty(), 0, mmp_bytes(self.unknown, self.dataset_views()))
                =~= mmp_bytes(self.unknown, self.dataset_views()));
        }
        match self.write(&mut writer) {
            Ok(()) => Ok(writer),
            Err(e) => Err(MapError::MenuMinimap(MenuMinimapError::SaveError(e))),
        }
    }
}

/// The bytes of a prefix of the icons are a prefix of the bytes of the icons.
pub proof fn lemma_datasets_bytes_prefix(ds: Seq<MMPDatasetView>, k: int)
    requires
        0 <= k <= ds.len(),
    ensures
        datasets_bytes(ds.take(k)).len() <= datasets_bytes(ds).len(),
    decreases ds.len(),
{
    if k < ds.len() {
        assert(ds.drop_last().take(k) =~= ds.take(k));
        lemma_datasets_bytes_prefix(ds.drop_last(), k);
    } else {
        assert(ds.take(k) =~= ds);
    }
}


proof fn lemma_datasets_layout(ds: Seq<MMPDatasetView>)
    requires
        forall|k: int| 0 <= k < ds.len() ==> (#[trigger] ds[k]).3.len() == 4,
    ensures
        datasets_bytes(ds).len() == 16 * ds.len(),
        forall|k: int| 0 <= k < ds.len() ==> datasets_bytes(ds).subrange(16 * k, 16 * k + 16)
            == dataset_bytes(#[trigger] ds[k]),
    decreases ds.len(),
{
    if ds.len() > 0 {
        let init = ds.drop_last();
        assert forall|k: int| 0 <= k < init.len() implies (#[trigger] init[k]).3.len() == 4 by {
            assert(init[k] == ds[k]);
        }
        lemma_datasets_layout(init);
        let a = datasets_bytes(init);
        let b = dataset_bytes(ds.last());
        assert(ds.last() == ds[ds.len() - 1]);
        assert forall|k: int| 0 <= k < ds.len() implies datasets_bytes(ds).subrange(16 * k, 16 * k + 16)
            == dataset_bytes(#[trigger] ds[k]) by {
            if k < init.len() {
                assert(init[k] == ds[k]);
                assert(datasets_bytes(ds).subrange(16 * k, 16 * k + 16) =~= a.subrange(16 * k, 16 * k + 16));
            } else {
                assert(datasets_bytes(ds).subrange(16 * k, 16 * k + 16) =~= b);
            }
        }
    }
}

proof fn lemma_i32_word(v: i32)
    ensures
        (v as u32) as i32 == v,
{
    assert((v as u32) as i32 == v) by (bit_vector);
}

/// The menu minimap written with at most `i32::MAX` icons of four color
/// bytes reads back: the unknown field, the icon count, and each icon at
/// its place.
pub proof fn law_mmp_write_read(unknown: i32, ds: Seq<MMPDatasetView>)
    requires
        ds.len() <= i32::MAX,
        forall|k: int| 0 <= k < ds.len() ==> (#[trigger] ds[k]).3.len() == 4,
    ensures
        ({
            let buf = mmp_bytes(unknown, ds);
            &&& buf.len() == 8 + 16 * ds.len()
            &&& u32_at(buf, 0) as i32 == unknown
            &&& (u32_at(buf, 4) as i32) as usize == ds.len()
            &&& forall|k: int| 0 <= k < ds.len() ==> dataset_at(buf, 8 + 16 * k) == #[trigger] ds[k]
        }),
{
    let buf = mmp_bytes(unknown, ds);
    lemma_datasets_layout(ds);
    let body = datasets_bytes(ds);
    assert(buf.subrange(0, 4) =~= le_bytes_u32(unknown as u32));
    assert(buf.subrange(4, 8) =~= le_bytes_u32((ds.len() as i32) as u32));
    lemma_u32_in(buf, 0, unknown as u32);
    lemma_u32_in(buf, 4, (ds.len() as i32) as u32);
    lemma_i32_word(unknown);
    lemma_i32_word(ds.len() as i32);
    assert forall|k: int| 0 <= k < ds.len() implies dataset_at(buf, 8 + 16 * k) == #[trigger] ds[k] by {
        let q = 8 + 16 * k;
        let e = dataset_bytes(ds[k]);
        assert(buf.subrange(q, q + 16) =~= body.subrange(16 * k, 16 * k + 16));
        assert(buf.subrange(q, q + 4) =~= le_bytes_u32(ds[k].0));
        assert(buf.subrange(q, q + 16) == e);
        assert(e.subrange(4, 8) =~= le_bytes_u32(ds[k].1 as u32));
        assert(e.subrange(8, 12) =~= le_bytes_u32(ds[k].2 as u32));
        assert(buf.subrange(q + 4, q + 8) =~= e.subrange(4, 8));
        assert(buf.subrange(q + 8, q + 12) =~= e.subrange(8, 12));
        assert(e.subrange(12, 16) =~= ds[k].3);
        assert(buf.subrange(q + 12, q + 16) =~= e.subrange(12, 16));
        lemma_u32_in(buf, q, ds[k].0);
        lemma_u32_in(buf, q + 4, ds[k].1 as u32);
        lemma_u32_in(buf, q + 8, ds[k].2 as u32);
        lemma_i32_word(ds[k].1);
        lemma_i32_word(ds[k].2);
    }
}

} // verus!
