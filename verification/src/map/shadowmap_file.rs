//! Shadow map (`war3map.shd`): one byte per shadow cell.

use vstd::prelude::*;

use crate::formats::binary_writer::{lemma_write_at_concat, write_at, BinaryWriter};
use crate::formats::{decimal_text, text_with_number, MpqError, ReadError, WriteError};
use crate::map::error::MapError;

verus! {

/// Errors of the shadow map.
#[derive(Debug)]
pub enum ShadowMapError {
    MpqError(MpqError),
    IoError(std::io::Error),
    Parsing(ReadError),
    SaveError(WriteError),
}

/// Whether a cell is shadowed.
#[derive(Debug, PartialEq, Eq, Structural, Clone, Copy)]
pub enum ShadowType {
    /// Byte 0x00.
    Shadow,
    /// Byte 0xff.
    NoShadow,
}

/// The byte of a shadow value.
pub open spec fn shadow_byte(s: ShadowType) -> u8 {
    match s {
        ShadowType::Shadow => 0x00,
        ShadowType::NoShadow => 0xff,
    }
}

/// The shadow value of a byte, if it is one.
pub open spec fn shadow_of(b: u8) -> Option<ShadowType> {
    if b == 0 {
        Some(ShadowType::Shadow)
    } else if b == 0xff {
        Some(ShadowType::NoShadow)
    } else {
        None
    }
}

impl ShadowType {
    /// The shadow value of `value`; fails on bytes other than 0x00 and 0xff.
    pub fn try_from(value: u8) -> (res: Result<Self, ReadError>)
        ensures
            shadow_of(value) matches Some(s) ==> res == Ok::<ShadowType, ReadError>(s),
            shadow_of(value) is None ==> (res matches Err(ReadError::Reason(m)) && m@
                == "Invalid shadow value "@ + decimal_text(value as nat)),
    {
        match value {
            0 => Ok(ShadowType::Shadow),
            255 => Ok(ShadowType::NoShadow),
            v => Err(ReadError::Reason(text_with_number("Invalid shadow value ", v as u64))),
        }
    }

    /// The byte of the shadow value.
    pub fn to_byte(&self) -> (res: u8)
        ensures
            res == shadow_byte(*self),
    {
        match self {
            ShadowType::Shadow => 0x00,
            ShadowType::NoShadow => 0xff,
        }
    }
}

/// The shadow values of a shadow map.
#[derive(Debug)]
pub struct ShadowMapFile {
    pub shaders: Vec<ShadowType>,
}

impl ShadowMapFile {
    /// Name of the file in the map archive.
    pub const FILE_NAME: &'static str = "war3map.shd";

    /// Decodes the bytes of a shadow map; fails on the first byte that is no
    /// shadow value.
    pub fn parse(bytes: &[u8]) -> (res: Result<Self, ShadowMapError>)
        ensures
            (forall|k: int| 0 <= k < bytes@.len() ==> #[trigger] shadow_of(bytes@[k]) is Some) ==> (
            res matches Ok(f) && f.shaders@.len() == bytes@.len() && (forall|k: int|
                0 <= k < bytes@.len() ==> Some(#[trigger] f.shaders@[k]) == shadow_of(bytes@[k]))),
            (exists|k: int| 0 <= k < bytes@.len() && #[trigger] shadow_of(bytes@[k]) is None) ==> (
            res matches Err(ShadowMapError::Parsing(ReadError::Reason(m))) && (exists|k: int|
                0 <= k < bytes@.len() && shadow_of(bytes@[k]) is None && (forall|j: int|
                    0 <= j < k ==> #[trigger] shadow_of(bytes@[j]) is Some) && m@
                    == "Invalid shadow value "@ + decimal_text(#[trigger] bytes@[k] as nat))),
    {
        let mut shaders: Vec<ShadowType> = Vec::new();
        let mut k: usize = 0;
        while k < bytes.len()
            invariant
                k <= bytes@.len(),
                shaders@.len() == k,
                forall|j: int|
                    #![trigger shaders@[j]]
                    #![trigger shadow_of(bytes@[j])]
                    0 <= j < k ==> Some(shaders@[j]) == shadow_of(bytes@[j]),
            decreases bytes@.len() - k,
        {
            match ShadowType::try_from(bytes[k]) {
                Ok(s) => shaders.push(s),
                Err(e) => {
                    proof {
                        assert(shadow_of(bytes@[k as int]) is None);
                    }
                    return Err(ShadowMapError::Parsing(e));
                },
            }
            k = k + 1;
        }
        Ok(ShadowMapFile { shaders })
    }

    /// Serializes the shadow map: one byte per cell.
    pub fn prepare_write(&self) -> (res: Result<BinaryWriter, MapError>)
        ensures
            res matches Ok(w) && w.contents() == self.shaders@.map_values(|s: ShadowType| shadow_byte(s)),
    {
        let mut writer = BinaryWriter::new();
        let mut k: usize = 0;
        proof {
            assert(self.shaders@.take(0).map_values(|s: ShadowType| shadow_byte(s)) =~= Seq::<u8>::empty());
        }
        while k < self.shaders.len()
            invariant
                k <= self.shaders@.len(),
                writer.position() == k,
                writer.contents() == self.shaders@.take(k as int).map_values(|s: ShadowType| shadow_byte(s)),
            decreases self.shaders@.len() - k,
        {
            let ghost before = writer.contents();
            writer.write_u8(self.shaders[k].to_byte());
            proof {
                assert(writer.contents() =~= self.shaders@.take(k + 1).map_values(
                    |s: ShadowType| shadow_byte(s),
                ));
            }
            k = k + 1;
        }
        assert(self.shaders@.take(self.shaders@.len() as int) =~= self.shaders@);
        Ok(writer)
    }
}

/// The shadow map stores a shaded cell as the byte 0x00 and an unshaded
/// one as 0xff; any other byte is no shadow value.
pub proof fn law_shadow_bytes(b: u8)
    ensures
        shadow_byte(ShadowType::Shadow) == 0x00,
        shadow_byte(ShadowType::NoShadow) == 0xff,
        shadow_of(b) == if b == 0x00 {
            Some(ShadowType::Shadow)
        } else if b == 0xff {
            Some(ShadowType::NoShadow)
        } else {
            None
        },
{
}

/// Decoding the bytes of a serialized shadow map gives its values back.
pub proof fn law_shadow_roundtrip(s: ShadowType)
    ensures
        shadow_of(shadow_byte(s)) == Some(s),
{
}

} // verus!
