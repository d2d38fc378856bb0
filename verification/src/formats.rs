//! Binary formats shared by the map components: game versions, byte writer
//! and reader, archive buffers and BLP textures.

use vstd::prelude::*;

pub mod encoding;
pub mod binary_writer;
pub mod binary_reader;
pub mod blp;
pub mod roundtrip;
pub mod blp_roundtrip;

verus! {

/// The decimal spelling of `n`.
pub open spec fn decimal_text(n: nat) -> Seq<char>
    decreases n,
{
    if n < 10 {
        seq![(n + 48) as char]
    } else {
        decimal_text(n / 10) + seq![((n % 10) + 48) as char]
    }
}

/// The text `prefix` followed by the decimal spelling of `n`.
pub(crate) fn text_with_number(prefix: &str, n: u64) -> (res: String)
    ensures
        res@ == prefix@ + decimal_text(n as nat),
{
    let mut res = String::new();
    crate::map::chars::append_str(&mut res, prefix);
    crate::map::chars::append_decimal(&mut res, n);
    res
}

/// Game version a map file was saved for.
#[derive(Debug, PartialOrd, PartialEq, Eq, Structural, Clone, Copy)]
pub enum GameVersion {
    RoC,
    TFT,
    Reforged,
}

impl Default for GameVersion {
    fn default() -> (res: Self)
        ensures
            res == GameVersion::TFT,
    {
        GameVersion::TFT
    }
}

impl GameVersion {
    /// Whether the version has The Frozen Throne content (TFT or Reforged).
    pub fn is_tft(&self) -> (res: bool)
        ensures
            res == !(*self is RoC),
    {
        match self {
            GameVersion::RoC => false,
            GameVersion::TFT | GameVersion::Reforged => true,
        }
    }

    /// Whether the version is Reign of Chaos.
    pub fn is_roc(&self) -> (res: bool)
        ensures
            res == (*self is RoC),
    {
        match self {
            GameVersion::RoC => true,
            GameVersion::TFT | GameVersion::Reforged => false,
        }
    }

    /// Whether the version is Reforged.
    pub fn is_remaster(&self) -> (res: bool)
        ensures
            res == (*self is Reforged),
    {
        match self {
            GameVersion::Reforged => true,
            _ => false,
        }
    }
}

/// Marker of a game data set of some game version.
pub trait GameDataVersionDescriptorT {
}

/// Game data of Reign of Chaos.
#[derive(Debug)]
pub struct GameDataRocDescriptor;

impl GameDataVersionDescriptorT for GameDataRocDescriptor {

}

/// Game data of The Frozen Throne.
#[derive(Debug)]
pub struct GameDataTftDescriptor;

impl GameDataVersionDescriptorT for GameDataTftDescriptor {

}

/// Game data of Reforged.
#[derive(Debug)]
pub struct GameDataReforgedDescriptor;

impl GameDataVersionDescriptorT for GameDataReforgedDescriptor {

}

/// Errors of map archives.
#[derive(Debug)]
pub enum MpqError {
    IoError(std::io::Error),
    /// The file is not a valid map archive.
    NotMapArchive,
    Reason(String),
}

/// The bytes of one file read from an archive.
pub struct MpqFileBuffer(pub Vec<u8>);

impl MpqFileBuffer {
    /// Hands over the bytes.
    pub fn inner(self) -> (res: Vec<u8>)
        ensures
            res@ == self.0@,
    {
        self.0
    }

    /// Number of bytes.
    pub fn size(&self) -> (res: usize)
        ensures
            res == self.0@.len(),
    {
        self.0.len()
    }
}

/// Size of the fixed Warcraft III map header that precedes the MPQ archive
/// in `.w3m`/`.w3x` files.
pub const MAP_HEADER_SIZE: usize = 512;

/// Errors raised while deserializing.
#[derive(Debug)]
pub enum ReadError {
    /// The buffer ended before the value.
    EOF,
    InvalidCString(String),
    NullCString { position: u64, length: usize },
    /// Bytes that are not UTF-8 where text was expected.
    Utf8Error { position: u64, length: usize, source: std::string::FromUtf8Error },
    Reason(String),
    IoError(std::io::Error),
}

/// Errors raised while serializing.
#[derive(Debug)]
pub enum WriteError {
    /// A failure with its explanation.
    Reason(String),
    /// An I/O failure of the underlying cursor.
    IoError(std::io::Error),
}

} // verus!
