//! Kinds of import paths of the import list (`war3map.imp`).

use vstd::prelude::*;

use crate::formats::binary_reader::{nul_index, u32_at, BinaryReader};
use crate::formats::binary_writer::{lemma_write_at_concat, write_at, BinaryWriter};
use crate::formats::encoding::le_bytes_u32;
use crate::formats::{text_with_number, GameVersion, MpqError, ReadError, WriteError};
use crate::map::custom_datas::skip_end;
use crate::map::error::MapError;
use crate::map::field_roundtrip::lemma_seq_in;
use crate::map::trigger_jass_file::{lemma_nul_after, lemma_u32_in};
use crate::map::triggers::trigger_data::has_bytes;
use crate::map::unit_map::{lemma_seq_bytes_prefix, lemma_seq_end_none, seq_bytes, seq_end, seq_read};

verus! {

/// How an imported file path is stored: the flag byte of TFT maps, or none
/// for RoC maps.
#[derive(Clone, Copy, Debug, PartialEq, Eq, Structural)]
pub enum ImportPathType {
    /// Standard path (flag 5 or 8).
    STANDARD(u8),
    /// Custom path (flag 10 or 13).
    CUSTOM(u8),
    /// RoC map, no flag.
    RoC,
}

/// The import path type of a TFT flag byte, if it is one.
pub open spec fn import_path_type_of(n: u8) -> Option<ImportPathType> {
    if n == 5 || n == 8 {
        Some(ImportPathType::STANDARD(n))
    } else if n == 10 || n == 13 {
        Some(ImportPathType::CUSTOM(n))
    } else {
        None
    }
}

/// The flag byte of an import path type (0 for RoC).
pub open spec fn import_path_byte(t: ImportPathType) -> u8 {
    match t {
        ImportPathType::STANDARD(n) => n,
        ImportPathType::CUSTOM(n) => n,
        ImportPathType::RoC => 0,
    }
}

impl ImportPathType {
    /// The import path type of a TFT flag byte.
    pub fn from_u8(n: u8) -> (res: Option<ImportPathType>)
        ensures
            res == import_path_type_of(n),
    {
        match n {
            5 | 8 => Some(ImportPathType::STANDARD(n)),
            10 | 13 => Some(ImportPathType::CUSTOM(n)),
            _ => None,
        }
    }

    /// The flag byte of the import path type.
    pub fn to_u8(&self) -> (res: u8)
        ensures
            res == import_path_byte(*self),
    {
        match self {
            ImportPathType::STANDARD(n) => *n,
            ImportPathType::CUSTOM(n) => *n,
            ImportPathType::RoC => 0,
        }
    }
}

/// Reading a flag byte and writing the type back gives the byte back.
pub proof fn law_import_path_byte_roundtrip(n: u8)
    ensures
        import_path_type_of(n) matches Some(t) ==> import_path_byte(t) == n,
{
}

/// Whether the flag of `t` is one of the bytes its kind is stored with.
pub open spec fn valid_import_path_type(t: ImportPathType) -> bool {
    match t {
        ImportPathType::STANDARD(n) => n == 5 || n == 8,
        ImportPathType::CUSTOM(n) => n == 10 || n == 13,
        ImportPathType::RoC => true,
    }
}

/// Writing a TFT import path type and reading the byte back gives the type
/// back; the RoC type has no TFT byte.
pub proof fn law_import_path_type_roundtrip(t: ImportPathType)
    requires
        valid_import_path_type(t),
    ensures
        t is RoC ==> import_path_type_of(import_path_byte(t)) is None,
        !(t is RoC) ==> import_path_type_of(import_path_byte(t)) == Some(t),
{
}


/// Errors of the import list.
#[derive(Debug)]
pub enum ImportError {
    MpqError(MpqError),
    InitReader(ReadError),
    Parsing(ReadError),
    SaveError(WriteError),
}

/// The files imported in the map: the kind of each path and the bytes of
/// the path, which hold no NUL.
#[derive(Debug)]
pub struct ImportFile {
    pub files: Vec<(ImportPathType, Vec<u8>)>,
}

/// Where the import entries stored from a position end, for version `v`: a
/// kind byte (one of the known ones past Reign of Chaos), then a
/// NUL-terminated path.
pub open spec fn import_entry_ends(d: Seq<u8>, v: GameVersion) -> spec_fn(int) -> Option<int> {
    |r: int| if has_bytes(d, r, 1) && (v == GameVersion::RoC || import_path_type_of(d[r]) is Some)
        && nul_index(d, r + 1) < d.len() {
        Some(nul_index(d, r + 1) + 1)
    } else {
        None
    }
}

/// The kind byte of an import entry, past Reign of Chaos: 5 and 8 are
/// standard paths, 10 and 13 custom ones, no other byte is a kind; an entry
/// is its kind byte followed by its path up to the next NUL.
pub proof fn law_import_entry_layout(n: u8, d: Seq<u8>, v: GameVersion, r: int, e: (ImportPathType, Vec<u8>))
    ensures
        (n == 5 || n == 8) ==> import_path_type_of(n) == Some(ImportPathType::STANDARD(n)),
        (n == 10 || n == 13) ==> import_path_type_of(n) == Some(ImportPathType::CUSTOM(n)),
        !(n == 5 || n == 8 || n == 10 || n == 13) ==> import_path_type_of(n) is None,
        import_path_byte(ImportPathType::STANDARD(n)) == n,
        import_path_byte(ImportPathType::CUSTOM(n)) == n,
        import_entry_reads(d, v)(r, e) is Some ==> {
            &&& (v == GameVersion::RoC ==> e.0 == ImportPathType::RoC)
            &&& (v != GameVersion::RoC ==> import_path_type_of(d[r]) == Some(e.0))
            &&& e.1@ == d.subrange(r + 1, nul_index(d, r + 1))
        },
        import_entry_bytes(e)[0] == import_path_byte(e.0),
        import_entry_bytes(e).subrange(1, e.1@.len() + 1int) == e.1@,
{
    assert(import_entry_bytes(e).subrange(1, e.1@.len() + 1int) =~= e.1@);
}

/// The kind of the import entry whose kind byte is `b`, for version `v`.
pub open spec fn import_kind(b: u8, v: GameVersion) -> ImportPathType {
    if v == GameVersion::RoC {
        ImportPathType::RoC
    } else {
        import_path_type_of(b)->0
    }
}

/// Where reading import entry `e` from a position ends, for version `v`.
pub open spec fn import_entry_reads(d: Seq<u8>, v: GameVersion) -> spec_fn(int, (ImportPathType, Vec<u8>)) -> Option<int> {
    |r: int, e: (ImportPathType, Vec<u8>)| if import_entry_ends(d, v)(r) is Some && e.0 == import_kind(
        d[r],
        v,
    ) && e.1@ == d.subrange(r + 1, nul_index(d, r + 1)) {
        import_entry_ends(d, v)(r)
    } else {
        None
    }
}

/// Where the import list stored at `p` ends, when it can be read: four
/// skipped bytes, a count, then the entries.
pub open spec fn import_end(d: Seq<u8>, p: int, v: GameVersion) -> Option<int> {
    let q = skip_end(d, p, 4);
    if has_bytes(d, q, 4) {
        seq_end(q + 4, u32_at(d, q) as nat, import_entry_ends(d, v))
    } else {
        None
    }
}

/// Whether the import paths hold no NUL.
pub open spec fn import_paths_ok(s: Seq<(ImportPathType, Vec<u8>)>) -> bool {
    forall|i: int| 0 <= i < s.len() ==> !(#[trigger] s[i]).1@.contains(0u8)
}

/// The bytes that store import entry `e`: its kind byte, its path and a NUL.
pub open spec fn import_entry_bytes(e: (ImportPathType, Vec<u8>)) -> Seq<u8> {
    seq![import_path_byte(e.0)] + e.1@ + seq![0u8]
}

/// [`import_entry_bytes`] as a function.
pub open spec fn import_entry_bytes_of() -> spec_fn((ImportPathType, Vec<u8>)) -> Seq<u8> {
    |e: (ImportPathType, Vec<u8>)| import_entry_bytes(e)
}

/// The bytes that store import list `x`: nothing without entries, else a
/// one, the count and the entries.
pub open spec fn import_bytes(x: ImportFile) -> Seq<u8> {
    if x.files@.len() == 0 {
        Seq::empty()
    } else {
        le_bytes_u32(1) + le_bytes_u32(x.files@.len() as u32) + seq_bytes(
            x.files@,
            import_entry_bytes_of(),
        )
    }
}

/// Reads `n` import entries for version `game_version`.
fn read_entries(reader: &mut BinaryReader, n: u32, game_version: &GameVersion) -> (res: Result<
    Vec<(ImportPathType, Vec<u8>)>,
    ReadError,
>)
    requires
        old(reader).wf(),
    ensures
        final(reader).wf(),
        final(reader).contents() == old(reader).contents(),
        ({
            let d = old(reader).contents();
            let p = old(reader).position() as int;
            let v = *game_version;
            &&& res is Ok <==> seq_end(p, n as nat, import_entry_ends(d, v)) is Some
            &&& res is Ok ==> seq_end(p, n as nat, import_entry_ends(d, v)) == Some(
                final(reader).position() as int,
            )
            &&& res matches Ok(s) ==> s@.len() == n && seq_read(p, s@, import_entry_reads(d, v))
                == Some(final(reader).position() as int) && import_paths_ok(s@)
        }),
{
    let ghost d = reader.contents();
    let ghost p0 = reader.position() as int;
    let ghost v = *game_version;
    let mut items: Vec<(ImportPathType, Vec<u8>)> = Vec::new();
    let mut k: u32 = 0;
    while k < n
        invariant
            reader.wf(),
            reader.contents() == d,
            d == old(reader).contents(),
            p0 == old(reader).position(),
            v == *game_version,
            k <= n,
            items@.len() == k,
            seq_end(p0, k as nat, import_entry_ends(d, v)) == Some(reader.position() as int),
            seq_read(p0, items@, import_entry_reads(d, v)) == Some(reader.position() as int),
            import_paths_ok(items@),
        decreases n - k,
    {
        let b = match reader.read_u8() {
            Ok(b) => b,
            Err(e) => {
                proof {
                    assert(seq_end(p0, (k + 1) as nat, import_entry_ends(d, v)) is None);
                    lemma_seq_end_none(p0, (k + 1) as nat, n as nat, import_entry_ends(d, v));
                }
                return Err(e);
            },
        };
        let kind = if game_version.is_roc() {
            ImportPathType::RoC
        } else {
            match ImportPathType::from_u8(b) {
                Some(t) => t,
                None => {
                    proof {
                        assert(seq_end(p0, (k + 1) as nat, import_entry_ends(d, v)) is None);
                        lemma_seq_end_none(p0, (k + 1) as nat, n as nat, import_entry_ends(d, v));
                    }
                    return Err(ReadError::Reason(text_with_number("Invalid import type ", b as u64)));
                },
            }
        };
        let ghost r = reader.position() as int;
        let path = match reader.read_c_string() {
            Ok(path) => path,
            Err(e) => {
                proof {
                    assert(seq_end(p0, (k + 1) as nat, import_entry_ends(d, v)) is None);
                    lemma_seq_end_none(p0, (k + 1) as nat, n as nat, import_entry_ends(d, v));
                }
                return Err(e);
            },
        };
        proof {
            lemma_before_nul(d, r);
            assert(!path@.contains(0u8)) by {
                if path@.contains(0u8) {
                    let j = choose|j: int| 0 <= j < path@.len() && path@[j] == 0u8;
                    assert(d[r + j] == path@[j]);
                }
            }
        }
        let ghost before = items@;
        items.push((kind, path));
        assert(items@.drop_last() == before);
        k = k + 1;
    }
    Ok(items)
}

/// Writes the import entries `items`, one after the other.
fn write_entries(writer: &mut BinaryWriter, items: &Vec<(ImportPathType, Vec<u8>)>)
    requires
        old(writer).has_room(seq_bytes(items@, import_entry_bytes_of()).len() as int),
    ensures
        final(writer).contents() == write_at(
            old(writer).contents(),
            old(writer).position() as int,
            seq_bytes(items@, import_entry_bytes_of()),
        ),
        final(writer).position() == old(writer).position() + seq_bytes(
            items@,
            import_entry_bytes_of(),
        ).len(),
{
    let ghost c0 = writer.contents();
    let ghost p0 = writer.position() as int;
    let ghost s = items@;
    let ghost f = import_entry_bytes_of();
    let mut k: usize = 0;
    while k < items.len()
        invariant
            k <= s.len(),
            s == items@,
            f == import_entry_bytes_of(),
            0 <= p0,
            p0 + seq_bytes(s, f).len() <= usize::MAX,
            writer.contents() == write_at(c0, p0, seq_bytes(s.take(k as int), f)),
            writer.position() == p0 + seq_bytes(s.take(k as int), f).len(),
        decreases s.len() - k,
    {
        proof {
            lemma_seq_bytes_prefix(s, f, k + 1);
            assert(s.take(k + 1).drop_last() == s.take(k as int));
            assert(s.take(k + 1).last() == s[k as int]);
        }
        let ghost c1 = writer.contents();
        let ghost p1 = writer.position() as int;
        let ghost a = seq![import_path_byte(items[k as int].0)];
        let ghost b = items[k as int].1@;
        let _ = writer.write_u8(items[k].0.to_u8());
        let _ = writer.write_bytes(items[k].1.as_slice());
        proof {
            lemma_write_at_concat(c1, p1, a, b);
        }
        let _ = writer.write_u8(0);
        proof {
            lemma_write_at_concat(c1, p1, a + b, seq![0u8]);
            lemma_write_at_concat(c0, p0, seq_bytes(s.take(k as int), f), f(s[k as int]));
        }
        k = k + 1;
    }
    assert(s.take(s.len() as int) == s);
}

impl ImportFile {
    /// Name of the file in the map archive.
    pub const FILE_NAME: &'static str = "war3map.imp";

    /// Reads the import list saved for version `game_version` at the cursor
    /// and leaves the cursor after it. Past Reign of Chaos an unknown kind
    /// byte fails with [`ReadError::Reason`].
    pub fn read_fields(reader: &mut BinaryReader, game_version: &GameVersion) -> (res: Result<Self, ReadError>)
        requires
            old(reader).wf(),
        ensures
            final(reader).wf(),
            final(reader).contents() == old(reader).contents(),
            ({
                let d = old(reader).contents();
                let p = old(reader).position() as int;
                let v = *game_version;
                let q = skip_end(d, p, 4);
                &&& res is Ok <==> import_end(d, p, v) is Some
                &&& res is Ok ==> import_end(d, p, v) == Some(final(reader).position() as int)
                &&& res matches Ok(x) ==> x.files@.len() == u32_at(d, q) && seq_read(
                    q + 4,
                    x.files@,
                    import_entry_reads(d, v),
                ) == import_end(d, p, v) && import_paths_ok(x.files@)
            }),
    {
        let ghost d = reader.contents();
        reader.skip(4);
        let count = match reader.read_u32() {
            Ok(v) => v,
            Err(e) => {
                return Err(e);
            },
        };
        let files = match read_entries(reader, count, game_version) {
            Ok(v) => v,
            Err(e) => {
                return Err(e);
            },
        };
        Ok(ImportFile { files })
    }

    /// Reads the import list, which fills the buffer from the cursor to its
    /// end.
    pub fn read_version(reader: &mut BinaryReader, game_version: &GameVersion) -> (res: Result<Self, ReadError>)
        requires
            old(reader).wf(),
            import_end(old(reader).contents(), old(reader).position() as int, *game_version) matches Some(
                q,
            ) ==> q == old(reader).contents().len(),
        ensures
            final(reader).wf(),
            final(reader).contents() == old(reader).contents(),
            ({
                let d = old(reader).contents();
                let p = old(reader).position() as int;
                let v = *game_version;
                let q = skip_end(d, p, 4);
                &&& res is Ok <==> import_end(d, p, v) is Some
                &&& res matches Ok(x) ==> x.files@.len() == u32_at(d, q) && seq_read(
                    q + 4,
                    x.files@,
                    import_entry_reads(d, v),
                ) == Some(d.len() as int) && import_paths_ok(x.files@)
            }),
    {
        Self::read_fields(reader, game_version)
    }

    /// Reads the import list when there are bytes; an empty buffer has none.
    pub fn read_opt(reader: &mut BinaryReader, game_version: &GameVersion) -> (res: Result<Option<Self>, MapError>)
        requires
            old(reader).wf(),
            import_end(old(reader).contents(), old(reader).position() as int, *game_version) matches Some(
                q,
            ) ==> q == old(reader).contents().len(),
        ensures
            final(reader).wf(),
            final(reader).contents() == old(reader).contents(),
            ({
                let d = old(reader).contents();
                let p = old(reader).position() as int;
                let v = *game_version;
                let q = skip_end(d, p, 4);
                &&& d.len() == 0 ==> (res matches Ok(None))
                &&& d.len() > 0 ==> (res is Ok <==> import_end(d, p, v) is Some)
                &&& res matches Ok(Some(x)) ==> d.len() > 0 && x.files@.len() == u32_at(d, q)
                    && seq_read(q + 4, x.files@, import_entry_reads(d, v)) == Some(d.len() as int)
            }),
    {
        if reader.size() > 0 {
            match Self::read_version(reader, game_version) {
                Ok(x) => Ok(Some(x)),
                Err(e) => Err(MapError::Import(ImportError::Parsing(e))),
            }
        } else {
            Ok(None)
        }
    }

    /// Writes the import list at the cursor: nothing when it is empty.
    pub fn write_version(&self, writer: &mut BinaryWriter, game_version: &GameVersion) -> (res: Result<(), WriteError>)
        requires
            old(writer).has_room(import_bytes(*self).len() as int),
        ensures
            res is Ok,
            final(writer).contents() == write_at(
                old(writer).contents(),
                old(writer).position() as int,
                import_bytes(*self),
            ),
            final(writer).position() == old(writer).position() + import_bytes(*self).len(),
    {
        let ghost c0 = writer.contents();
        let ghost p0 = writer.position() as int;
        if self.files.len() == 0 {
            assert(write_at(c0, p0, Seq::empty()) =~= c0);
            return Ok(());
        }
        let ghost a = le_bytes_u32(1);
        let ghost b = le_bytes_u32(self.files@.len() as u32);
        let _ = writer.write_u32(1);
        let _ = writer.write_u32(self.files.len() as u32);
        proof {
            lemma_write_at_concat(c0, p0, a, b);
        }
        write_entries(writer, &self.files);
        proof {
            lemma_write_at_concat(c0, p0, a + b, seq_bytes(self.files@, import_entry_bytes_of()));
        }
        Ok(())
    }

    /// The serialized import list in a fresh writer.
    pub fn prepare_write(&self, game_version: &GameVersion) -> (res: Result<BinaryWriter, MapError>)
        requires
            import_bytes(*self).len() <= usize::MAX,
        ensures
            res matches Ok(w) && w.contents() == import_bytes(*self),
    {
        let mut writer = BinaryWriter::new();
        let _ = self.write_version(&mut writer, game_version);
        proof {
            assert(write_at(Seq::empty(), 0, import_bytes(*self)) =~= import_bytes(*self));
        }
        Ok(writer)
    }
}

/// No byte before the first NUL at or after `p` is a NUL.
proof fn lemma_before_nul(d: Seq<u8>, p: int)
    requires
        0 <= p,
    ensures
        forall|i: int| p <= i < nul_index(d, p) ==> d[i] != 0,
    decreases d.len() - p,
{
    if p < d.len() && d[p] != 0 {
        lemma_before_nul(d, p + 1);
    }
}


/// What reading gives back of import entry `e` for version `v`: its path,
/// and its kind (every kind reads as [`ImportPathType::RoC`] in Reign of
/// Chaos).
pub open spec fn same_import(a: (ImportPathType, Vec<u8>), e: (ImportPathType, Vec<u8>), v: GameVersion) -> bool {
    &&& a.1@ == e.1@
    &&& a.0 == (if v == GameVersion::RoC {
        ImportPathType::RoC
    } else {
        e.0
    })
}

/// Whether import entry `e` reads back for version `v`: its path holds no
/// NUL and, past Reign of Chaos, its kind is one of the known ones.
pub open spec fn import_round_ok(e: (ImportPathType, Vec<u8>), v: GameVersion) -> bool {
    &&& !e.1@.contains(0u8)
    &&& v != GameVersion::RoC ==> import_path_type_of(import_path_byte(e.0)) == Some(e.0)
}

proof fn lemma_import_entry_in(d: Seq<u8>, q: int, e: (ImportPathType, Vec<u8>), v: GameVersion)
    requires
        0 <= q,
        q + import_entry_bytes(e).len() <= d.len(),
        d.subrange(q, q + import_entry_bytes(e).len()) == import_entry_bytes(e),
        import_round_ok(e, v),
    ensures
        import_entry_ends(d, v)(q) == Some(q + import_entry_bytes(e).len()),
        forall|y: (ImportPathType, Vec<u8>)| #[trigger] import_entry_reads(d, v)(q, y) is Some
            ==> import_entry_reads(d, v)(q, y) == Some(q + import_entry_bytes(e).len()) && same_import(y, e, v),
{
    let b = import_entry_bytes(e);
    let m = e.1@.len() as int;
    assert(d[q] == b[0]);
    assert forall|i: int| q + 1 <= i < q + 1 + m implies d[i] != 0 by {
        assert(d[i] == b[i - q]);
        assert(b[i - q] == e.1@[i - q - 1]);
        if d[i] == 0 {
            assert(e.1@.contains(0u8));
        }
    }
    assert(d[q + 1 + m] == b[m + 1]);
    lemma_nul_after(d, q + 1, m);
    assert(d.subrange(q + 1, q + 1 + m) =~= e.1@) by {
        assert forall|i: int| 0 <= i < m implies d.subrange(q + 1, q + 1 + m)[i] == e.1@[i] by {
            assert(d[q + 1 + i] == b[i + 1]);
        }
    }
}

/// An import list with entries (at most `u32::MAX`) whose paths hold no
/// NUL and, past Reign of Chaos, whose kinds are known ones, is written so
/// that reading its bytes for version `v` goes to their end and gives back
/// each path, and each kind (Reign of Chaos reading every kind as its own).
pub proof fn law_import_write_read(x: ImportFile, v: GameVersion)
    requires
        0 < x.files@.len() <= u32::MAX,
        forall|i: int| 0 <= i < x.files@.len() ==> import_round_ok(#[trigger] x.files@[i], v),
    ensures
        ({
            let d = import_bytes(x);
            &&& import_end(d, 0, v) == Some(d.len() as int)
            &&& forall|y: ImportFile|
                y.files@.len() == u32_at(d, 4) && #[trigger] seq_read(8, y.files@, import_entry_reads(d, v))
                    == Some(d.len() as int) ==> y.files@.len() == x.files@.len() && forall|i: int|
                    0 <= i < x.files@.len() ==> same_import(#[trigger] y.files@[i], x.files@[i], v)
        }),
{
    let d = import_bytes(x);
    let s = x.files@;
    let a = le_bytes_u32(1);
    let b = le_bytes_u32(s.len() as u32);
    let c = seq_bytes(s, import_entry_bytes_of());
    assert(d == a + b + c);
    assert(d.subrange(4, 8) =~= b);
    assert(d.subrange(8, 8 + c.len() as int) =~= c);
    lemma_u32_in(d, 4, s.len() as u32);
    let same = |u: (ImportPathType, Vec<u8>), w: (ImportPathType, Vec<u8>)| same_import(u, w, v);
    assert forall|i: int, q: int|
        0 <= i < s.len() && 0 <= q && q + import_entry_bytes_of()(s[i]).len() <= d.len() && #[trigger] d.subrange(
            q,
            q + import_entry_bytes_of()(#[trigger] s[i]).len(),
        ) == import_entry_bytes_of()(s[i]) implies {
            &&& import_entry_ends(d, v)(q) == Some(q + import_entry_bytes_of()(s[i]).len())
            &&& forall|y: (ImportPathType, Vec<u8>)| #[trigger] import_entry_reads(d, v)(q, y) is Some
                ==> import_entry_reads(d, v)(q, y) == Some(q + import_entry_bytes_of()(s[i]).len()) && same(y, s[i])
        } by {
        lemma_import_entry_in(d, q, s[i], v);
    }
    lemma_seq_in(d, 8, s, import_entry_bytes_of(), import_entry_ends(d, v), import_entry_reads(d, v), same);
}

} // verus!
