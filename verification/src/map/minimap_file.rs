//! Minimap image of a map (`war3mapMap.blp`).

use vstd::prelude::*;

use crate::formats::binary_reader::BinaryReader;
use crate::formats::binary_writer::{write_at, BinaryWriter};
use crate::formats::blp::{alpha_list, blp_at, blp_bytes, blp_ok, BLPError, BLP};
use crate::formats::{MpqError, ReadError, WriteError};
use crate::map::error::MapError;

verus! {

/// Errors of the minimap image.
#[derive(Debug)]
pub enum MinimapError {
    /// Opening the file in the archive failed.
    MpqError(MpqError),
    /// The reader over the file could not be made.
    InitReader(ReadError),
    /// The image is no readable BLP1 texture.
    Blp(BLPError),
    /// Saving the image failed.
    SaveError(WriteError),
}

/// The minimap image of a map.
#[derive(Debug)]
pub struct MinimapFile {
    minimap: BLP,
}

impl MinimapFile {
    /// Name of the file in the map archive.
    pub const FILE_NAME: &'static str = "war3mapMap.blp";

    /// The image.
    pub closed spec fn image(&self) -> BLP {
        self.minimap
    }

    /// Reads the minimap image at the cursor; a texture that cannot be read
    /// fails with [`MinimapError::Blp`].
    pub fn read(reader: &mut BinaryReader) -> (res: Result<Self, MapError>)
        requires
            old(reader).wf(),
        ensures
            final(reader).wf(),
            final(reader).contents() == old(reader).contents(),
            res is Ok <==> blp_ok(old(reader).contents(), old(reader).position() as int),
            res matches Ok(x) ==> blp_at(old(reader).contents(), old(reader).position() as int, x.image()),
            res matches Err(e) ==> e matches MapError::Minimap(MinimapError::Blp(_)),
    {
        match BLP::from(reader) {
            Ok(minimap) => Ok(MinimapFile { minimap }),
            Err(e) => Err(MapError::Minimap(MinimapError::Blp(e))),
        }
    }

    /// The serialized image in a fresh writer.
    pub fn prepare_write(&self) -> (res: Result<BinaryWriter, MapError>)
        requires
            blp_bytes(self.image(), 0).len() <= usize::MAX,
            self.image().compression is PALETTE && alpha_list(self.image().picture_type)
                ==> self.image().palette_rgb_indexes@.len() <= self.image().palette_alpha_indexes@.len(),
        ensures
            res matches Ok(w) && w.contents() == blp_bytes(self.image(), 0),
    {
        let mut writer = BinaryWriter::new();
        match self.minimap.write(&mut writer) {
            Ok(()) => {
                proof {
                    assert(write_at(Seq::empty(), 0, blp_bytes(self.minimap, 0)) =~= blp_bytes(
                        self.minimap,
                        0,
                    ));
                }
                Ok(writer)
            },
            Err(e) => Err(MapError::Minimap(MinimapError::Blp(e))),
        }
    }
}

} // verus!
