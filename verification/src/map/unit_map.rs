//! Item drop tables of the placed units of `war3mapUnits.doo`.

use vstd::prelude::*;
use vstd::utf8::{decode_utf8, encode_utf8, valid_utf8};

use crate::formats::binary_reader::{u32_at, BinaryReader};
use crate::formats::binary_writer::{lemma_write_at_concat, write_at, BinaryWriter};
use crate::formats::encoding::le_bytes_u32;
use crate::formats::{GameVersion, MpqError, ReadError, WriteError};
use crate::map::error::MapError;
use crate::map::trigger_jass_file::unknown_version;
use crate::map::triggers::trigger_data::has_bytes;

verus! {

/// Errors of the units file.
#[derive(Debug)]
pub enum UnitMapError {
    MpqError(MpqError),
    InitReader(ReadError),
    Parsing(ReadError),
    SaveError(WriteError),
}

/// An item that a unit may drop: its four-character ID and its drop rate.
#[derive(Debug)]
pub struct DropItem(pub String, pub u32);

/// A set of items, one of which a unit drops.
#[derive(Debug)]
pub struct DropItemSet(pub Vec<DropItem>);

/// What a unit drops when it dies.
#[derive(Debug)]
pub enum Drops {
    /// An item table of the map, by index.
    PresetTable(i32),
    /// Item sets stored with the unit.
    EmbeddedTable(Vec<DropItemSet>),
    /// Nothing.
    Empty,
}

impl Drops {
    /// Stored table index meaning that no table of the map is used.
    pub const NO_TABLE_POINTER: i32 = -1;
}

/// Where reading item `x` from `d` at `p` ends, when `x` is what is stored
/// there.
pub open spec fn drop_item_read(d: Seq<u8>, p: int, x: DropItem) -> Option<int> {
    if has_bytes(d, p, 8) && valid_utf8(d.subrange(p, p + 4)) && x.0@ == decode_utf8(
        d.subrange(p, p + 4),
    ) && x.1 == u32_at(d, p + 4) {
        Some(p + 8)
    } else {
        None
    }
}

/// Where reading the items `s`, one after the other, ends.
pub open spec fn drop_items_read(d: Seq<u8>, p: int, s: Seq<DropItem>) -> Option<int>
    decreases s.len(),
{
    if s.len() == 0 {
        Some(p)
    } else {
        match drop_items_read(d, p, s.drop_last()) {
            Some(q) => drop_item_read(d, q, s.last()),
            None => None,
        }
    }
}

/// Where reading the item set `x` (a count, then its items) ends.
pub open spec fn item_set_read(d: Seq<u8>, p: int, x: DropItemSet) -> Option<int> {
    if has_bytes(d, p, 4) && x.0@.len() == u32_at(d, p) {
        drop_items_read(d, p + 4, x.0@)
    } else {
        None
    }
}

/// Where reading the item sets `s`, one after the other, ends.
pub open spec fn item_sets_read(d: Seq<u8>, p: int, s: Seq<DropItemSet>) -> Option<int>
    decreases s.len(),
{
    if s.len() == 0 {
        Some(p)
    } else {
        match item_sets_read(d, p, s.drop_last()) {
            Some(q) => item_set_read(d, q, s.last()),
            None => None,
        }
    }
}

/// Where reading the drops `x` for version `v` ends: Reign of Chaos stores a
/// count of item sets; The Frozen Throne first stores a table index, which,
/// when not negative, is all that counts.
pub open spec fn drops_read(d: Seq<u8>, p: int, v: GameVersion, x: Drops) -> Option<int> {
    if v == GameVersion::RoC {
        if !has_bytes(d, p, 4) {
            None
        } else {
            let n = u32_at(d, p);
            match x {
                Drops::Empty => if n == 0 {
                    Some(p + 4)
                } else {
                    None
                },
                Drops::EmbeddedTable(sets) => if n > 0 && sets@.len() == n {
                    item_sets_read(d, p + 4, sets@)
                } else {
                    None
                },
                Drops::PresetTable(_) => None,
            }
        }
    } else if !has_bytes(d, p, 8) {
        None
    } else {
        let pointer = u32_at(d, p) as i32;
        let n = u32_at(d, p + 4);
        if pointer > Drops::NO_TABLE_POINTER {
            if x == Drops::PresetTable(pointer) {
                Some(p + 8)
            } else {
                None
            }
        } else if n > 0 {
            match x {
                Drops::EmbeddedTable(sets) => if sets@.len() == n {
                    item_sets_read(d, p + 8, sets@)
                } else {
                    None
                },
                _ => None,
            }
        } else if x == Drops::Empty {
            Some(p + 8)
        } else {
            None
        }
    }
}

/// Whether the four bytes at `p` are a UTF-8 code.
pub open spec fn code_at(d: Seq<u8>, p: int) -> bool {
    has_bytes(d, p, 4) && valid_utf8(d.subrange(p, p + 4))
}

/// Where an item stored at `p` ends, when it can be read.
pub open spec fn drop_item_end(d: Seq<u8>, p: int) -> Option<int> {
    if has_bytes(d, p, 8) && code_at(d, p) {
        Some(p + 8)
    } else {
        None
    }
}

/// Where `n` items stored one after the other from `p` end, when they can
/// all be read.
pub open spec fn drop_items_end(d: Seq<u8>, p: int, n: nat) -> Option<int>
    decreases n,
{
    if n == 0 {
        Some(p)
    } else {
        match drop_items_end(d, p, (n - 1) as nat) {
            Some(q) => drop_item_end(d, q),
            None => None,
        }
    }
}

/// Where the item set stored at `p` ends, when it can be read.
pub open spec fn item_set_end(d: Seq<u8>, p: int) -> Option<int> {
    if has_bytes(d, p, 4) {
        drop_items_end(d, p + 4, u32_at(d, p) as nat)
    } else {
        None
    }
}

/// Where `n` item sets stored one after the other from `p` end, when they
/// can all be read.
pub open spec fn item_sets_end(d: Seq<u8>, p: int, n: nat) -> Option<int>
    decreases n,
{
    if n == 0 {
        Some(p)
    } else {
        match item_sets_end(d, p, (n - 1) as nat) {
            Some(q) => item_set_end(d, q),
            None => None,
        }
    }
}

/// Where the drops stored at `p` for version `v` end, when they can be read.
pub open spec fn drops_end(d: Seq<u8>, p: int, v: GameVersion) -> Option<int> {
    if v == GameVersion::RoC {
        if has_bytes(d, p, 4) {
            item_sets_end(d, p + 4, u32_at(d, p) as nat)
        } else {
            None
        }
    } else if !has_bytes(d, p, 8) {
        None
    } else if u32_at(d, p) as i32 > Drops::NO_TABLE_POINTER {
        Some(p + 8)
    } else {
        item_sets_end(d, p + 8, u32_at(d, p + 4) as nat)
    }
}

proof fn lemma_items_end_none(d: Seq<u8>, p: int, n: nat, m: nat)
    requires
        drop_items_end(d, p, n) is None,
        n <= m,
    ensures
        drop_items_end(d, p, m) is None,
    decreases m - n,
{
    if n < m {
        lemma_items_end_none(d, p, n, (m - 1) as nat);
    }
}

proof fn lemma_sets_end_none(d: Seq<u8>, p: int, n: nat, m: nat)
    requires
        item_sets_end(d, p, n) is None,
        n <= m,
    ensures
        item_sets_end(d, p, m) is None,
    decreases m - n,
{
    if n < m {
        lemma_sets_end_none(d, p, n, (m - 1) as nat);
    }
}

/// The bytes that store item `x`: the UTF-8 bytes of its ID and its rate.
pub open spec fn drop_item_bytes(x: DropItem) -> Seq<u8> {
    vstd::utf8::encode_utf8(x.0@) + le_bytes_u32(x.1)
}

/// The bytes that store the items `s`.
pub open spec fn drop_items_bytes(s: Seq<DropItem>) -> Seq<u8>
    decreases s.len(),
{
    if s.len() == 0 {
        Seq::empty()
    } else {
        drop_items_bytes(s.drop_last()) + drop_item_bytes(s.last())
    }
}

/// The bytes that store the item set `x`.
pub open spec fn item_set_bytes(x: DropItemSet) -> Seq<u8> {
    le_bytes_u32(x.0@.len() as u32) + drop_items_bytes(x.0@)
}

/// The bytes that store the item sets `s`.
pub open spec fn item_sets_bytes(s: Seq<DropItemSet>) -> Seq<u8>
    decreases s.len(),
{
    if s.len() == 0 {
        Seq::empty()
    } else {
        item_sets_bytes(s.drop_last()) + item_set_bytes(s.last())
    }
}

/// The bytes that store the drops `x` for version `v`.
pub open spec fn drops_bytes(x: Drops, v: GameVersion) -> Seq<u8> {
    if v == GameVersion::RoC {
        match x {
            Drops::EmbeddedTable(sets) => le_bytes_u32(sets@.len() as u32) + item_sets_bytes(sets@),
            _ => le_bytes_u32(0),
        }
    } else {
        match x {
            Drops::Empty => le_bytes_u32(-1i32 as u32) + le_bytes_u32(0),
            Drops::PresetTable(pointer) => le_bytes_u32(pointer as u32) + le_bytes_u32(0),
            Drops::EmbeddedTable(sets) => le_bytes_u32(-1i32 as u32) + le_bytes_u32(
                sets@.len() as u32,
            ) + item_sets_bytes(sets@),
        }
    }
}

impl DropItem {
    /// Reads an item: four bytes of UTF-8 ID and a `u32` rate.
    pub fn read_version(reader: &mut BinaryReader, game_version: &GameVersion) -> (res: Result<Self, ReadError>)
        requires
            old(reader).wf(),
        ensures
            final(reader).wf(),
            final(reader).contents() == old(reader).contents(),
            old(reader).position() <= final(reader).position(),
            res matches Ok(x) ==> drop_item_read(old(reader).contents(), old(reader).position() as int, x)
                == Some(final(reader).position() as int),
            res is Ok <==> drop_item_end(old(reader).contents(), old(reader).position() as int) is Some,
            res is Ok ==> drop_item_end(old(reader).contents(), old(reader).position() as int) == Some(
                final(reader).position() as int,
            ),
    {
        let ghost d = reader.contents();
        let ghost p = reader.position() as int;
        let id = match reader.read_string_utf8(4) {
            Ok(s) => s,
            Err(e) => {
                return Err(e);
            },
        };
        let rate = match reader.read_u32() {
            Ok(r) => r,
            Err(e) => {
                return Err(e);
            },
        };
        Ok(DropItem(id, rate))
    }

    /// Writes the item.
    pub fn write_version(&self, writer: &mut BinaryWriter, game_version: &GameVersion) -> (res: Result<(), WriteError>)
        requires
            old(writer).has_room(drop_item_bytes(*self).len() as int),
        ensures
            res is Ok,
            final(writer).contents() == write_at(
                old(writer).contents(),
                old(writer).position() as int,
                drop_item_bytes(*self),
            ),
            final(writer).position() == old(writer).position() + drop_item_bytes(*self).len(),
    {
        let ghost c0 = writer.contents();
        let ghost p0 = writer.position() as int;
        let _ = writer.write_string_utf8(self.0.as_str());
        let _ = writer.write_u32(self.1);
        proof {
            lemma_write_at_concat(c0, p0, vstd::utf8::encode_utf8(self.0@), le_bytes_u32(self.1));
        }
        Ok(())
    }
}

/// Reads `n` items.
fn read_drop_items(reader: &mut BinaryReader, n: u32, game_version: &GameVersion) -> (res: Result<Vec<DropItem>, ReadError>)
    requires
        old(reader).wf(),
    ensures
        final(reader).wf(),
        final(reader).contents() == old(reader).contents(),
        old(reader).position() <= final(reader).position(),
        res matches Ok(v) ==> v@.len() == n && drop_items_read(
            old(reader).contents(),
            old(reader).position() as int,
            v@,
        ) == Some(final(reader).position() as int),
        res is Ok <==> drop_items_end(old(reader).contents(), old(reader).position() as int, n as nat) is Some,
        res is Ok ==> drop_items_end(old(reader).contents(), old(reader).position() as int, n as nat)
            == Some(final(reader).position() as int),
{
    let ghost d = reader.contents();
    let ghost p0 = reader.position() as int;
    let mut items: Vec<DropItem> = Vec::new();
    let mut k: u32 = 0;
    while k < n
        invariant
            reader.wf(),
            reader.contents() == d,
            d == old(reader).contents(),
            p0 == old(reader).position(),
            p0 <= reader.position(),
            k <= n,
            items@.len() == k,
            drop_items_read(d, p0, items@) == Some(reader.position() as int),
            drop_items_end(d, p0, k as nat) == Some(reader.position() as int),
        decreases n - k,
    {
        let x = match DropItem::read_version(reader, game_version) {
            Ok(x) => x,
            Err(e) => {
                proof {
                    assert(drop_items_end(d, p0, (k + 1) as nat) is None);
                    lemma_items_end_none(d, p0, (k + 1) as nat, n as nat);
                }
                return Err(e);
            },
        };
        let ghost before = items@;
        items.push(x);
        assert(items@.drop_last() == before);
        k = k + 1;
    }
    Ok(items)
}

impl DropItemSet {
    /// Reads an item set: a count, then that many items.
    pub fn read_version(reader: &mut BinaryReader, game_version: &GameVersion) -> (res: Result<Self, ReadError>)
        requires
            old(reader).wf(),
        ensures
            final(reader).wf(),
            final(reader).contents() == old(reader).contents(),
            old(reader).position() <= final(reader).position(),
            res matches Ok(x) ==> item_set_read(old(reader).contents(), old(reader).position() as int, x)
                == Some(final(reader).position() as int),
            res is Ok <==> item_set_end(old(reader).contents(), old(reader).position() as int) is Some,
            res is Ok ==> item_set_end(old(reader).contents(), old(reader).position() as int) == Some(
                final(reader).position() as int,
            ),
            !has_bytes(old(reader).contents(), old(reader).position() as int, 4) ==> res matches Err(
                ReadError::EOF,
            ),
    {
        let n = match reader.read_u32() {
            Ok(n) => n,
            Err(e) => {
                return Err(e);
            },
        };
        match read_drop_items(reader, n, game_version) {
            Ok(items) => Ok(DropItemSet(items)),
            Err(e) => Err(e),
        }
    }

    /// Writes the item set.
    pub fn write_version(&self, writer: &mut BinaryWriter, game_version: &GameVersion) -> (res: Result<(), WriteError>)
        requires
            old(writer).has_room(item_set_bytes(*self).len() as int),
        ensures
            res is Ok,
            final(writer).contents() == write_at(
                old(writer).contents(),
                old(writer).position() as int,
                item_set_bytes(*self),
            ),
            final(writer).position() == old(writer).position() + item_set_bytes(*self).len(),
    {
        let ghost c0 = writer.contents();
        let ghost p0 = writer.position() as int;
        let ghost head = le_bytes_u32(self.0@.len() as u32);
        let _ = writer.write_u32(self.0.len() as u32);
        let ghost s = self.0@;
        let mut k: usize = 0;
        while k < self.0.len()
            invariant
                k <= s.len(),
                s == self.0@,
                0 <= p0,
                p0 + item_set_bytes(*self).len() <= usize::MAX,
                item_set_bytes(*self) == head + drop_items_bytes(s),
                writer.contents() == write_at(c0, p0, head + drop_items_bytes(s.take(k as int))),
                writer.position() == p0 + head.len() + drop_items_bytes(s.take(k as int)).len(),
            decreases s.len() - k,
        {
            proof {
                lemma_items_prefix(s, k + 1);
                assert(s.take(k + 1).drop_last() == s.take(k as int));
                assert(s.take(k + 1).last() == s[k as int]);
            }
            let _ = self.0[k].write_version(writer, game_version);
            proof {
                lemma_write_at_concat(
                    c0,
                    p0,
                    head + drop_items_bytes(s.take(k as int)),
                    drop_item_bytes(s[k as int]),
                );
                assert(head + drop_items_bytes(s.take(k + 1)) =~= head + drop_items_bytes(
                    s.take(k as int),
                ) + drop_item_bytes(s[k as int]));
            }
            k = k + 1;
        }
        assert(s.take(s.len() as int) == s);
        Ok(())
    }
}

proof fn lemma_items_prefix(s: Seq<DropItem>, k: int)
    requires
        0 <= k <= s.len(),
    ensures
        drop_items_bytes(s.take(k)).len() <= drop_items_bytes(s).len(),
    decreases s.len(),
{
    if k < s.len() {
        lemma_items_prefix(s.drop_last(), k);
        assert(s.drop_last().take(k) == s.take(k));
    } else {
        assert(s.take(k) == s);
    }
}

proof fn lemma_sets_prefix(s: Seq<DropItemSet>, k: int)
    requires
        0 <= k <= s.len(),
    ensures
        item_sets_bytes(s.take(k)).len() <= item_sets_bytes(s).len(),
    decreases s.len(),
{
    if k < s.len() {
        lemma_sets_prefix(s.drop_last(), k);
        assert(s.drop_last().take(k) == s.take(k));
    } else {
        assert(s.take(k) == s);
    }
}

/// Reads `n` item sets.
fn read_item_sets(reader: &mut BinaryReader, n: u32, game_version: &GameVersion) -> (res: Result<Vec<DropItemSet>, ReadError>)
    requires
        old(reader).wf(),
    ensures
        final(reader).wf(),
        final(reader).contents() == old(reader).contents(),
        old(reader).position() <= final(reader).position(),
        res matches Ok(v) ==> v@.len() == n && item_sets_read(
            old(reader).contents(),
            old(reader).position() as int,
            v@,
        ) == Some(final(reader).position() as int),
        res is Ok <==> item_sets_end(old(reader).contents(), old(reader).position() as int, n as nat) is Some,
        res is Ok ==> item_sets_end(old(reader).contents(), old(reader).position() as int, n as nat)
            == Some(final(reader).position() as int),
{
    let ghost d = reader.contents();
    let ghost p0 = reader.position() as int;
    let mut sets: Vec<DropItemSet> = Vec::new();
    let mut k: u32 = 0;
    while k < n
        invariant
            reader.wf(),
            reader.contents() == d,
            d == old(reader).contents(),
            p0 == old(reader).position(),
            p0 <= reader.position(),
            k <= n,
            sets@.len() == k,
            item_sets_read(d, p0, sets@) == Some(reader.position() as int),
            item_sets_end(d, p0, k as nat) == Some(reader.position() as int),
        decreases n - k,
    {
        let x = match DropItemSet::read_version(reader, game_version) {
            Ok(x) => x,
            Err(e) => {
                proof {
                    assert(item_sets_end(d, p0, (k + 1) as nat) is None);
                    lemma_sets_end_none(d, p0, (k + 1) as nat, n as nat);
                }
                return Err(e);
            },
        };
        let ghost before = sets@;
        sets.push(x);
        assert(sets@.drop_last() == before);
        k = k + 1;
    }
    Ok(sets)
}

/// Writes the item sets `sets`, one after the other.
fn write_item_sets(writer: &mut BinaryWriter, sets: &Vec<DropItemSet>, game_version: &GameVersion)
    requires
        old(writer).has_room(item_sets_bytes(sets@).len() as int),
    ensures
        final(writer).contents() == write_at(
            old(writer).contents(),
            old(writer).position() as int,
            item_sets_bytes(sets@),
        ),
        final(writer).position() == old(writer).position() + item_sets_bytes(sets@).len(),
{
    let ghost c0 = writer.contents();
    let ghost p0 = writer.position() as int;
    let ghost s = sets@;
    let mut k: usize = 0;
    while k < sets.len()
        invariant
            k <= s.len(),
            s == sets@,
            0 <= p0,
            p0 + item_sets_bytes(s).len() <= usize::MAX,
            writer.contents() == write_at(c0, p0, item_sets_bytes(s.take(k as int))),
            writer.position() == p0 + item_sets_bytes(s.take(k as int)).len(),
        decreases s.len() - k,
    {
        proof {
            lemma_sets_prefix(s, k + 1);
            assert(s.take(k + 1).drop_last() == s.take(k as int));
            assert(s.take(k + 1).last() == s[k as int]);
        }
        let _ = sets[k].write_version(writer, game_version);
        proof {
            lemma_write_at_concat(c0, p0, item_sets_bytes(s.take(k as int)), item_set_bytes(s[k as int]));
        }
        k = k + 1;
    }
    assert(s.take(s.len() as int) == s);
}


impl Drops {
    /// Reads what a unit drops, stored for version `game_version`.
    #[verifier::loop_isolation(false)]
    pub fn read_version(reader: &mut BinaryReader, game_version: &GameVersion) -> (res: Result<Self, ReadError>)
        requires
            old(reader).wf(),
            *game_version != GameVersion::Reforged,
        ensures
            final(reader).wf(),
            final(reader).contents() == old(reader).contents(),
            res matches Ok(x) ==> drops_read(
                old(reader).contents(),
                old(reader).position() as int,
                *game_version,
                x,
            ) == Some(final(reader).position() as int),
            res is Ok <==> drops_end(old(reader).contents(), old(reader).position() as int, *game_version) is Some,
            res is Ok ==> drops_end(old(reader).contents(), old(reader).position() as int, *game_version)
                == Some(final(reader).position() as int),
            !has_bytes(old(reader).contents(), old(reader).position() as int, 4) ==> res matches Err(
                ReadError::EOF,
            ),
    {
        match game_version {
            GameVersion::RoC => {
                let n = match reader.read_u32() {
                    Ok(n) => n,
                    Err(e) => {
                        return Err(e);
                    },
                };
                let sets = match read_item_sets(reader, n, game_version) {
                    Ok(v) => v,
                    Err(e) => {
                        return Err(e);
                    },
                };
                if sets.len() == 0 {
                    Ok(Drops::Empty)
                } else {
                    Ok(Drops::EmbeddedTable(sets))
                }
            },
            _ => {
                let pointer = match reader.read_i32() {
                    Ok(p) => p,
                    Err(e) => {
                        return Err(e);
                    },
                };
                let n = match reader.read_u32() {
                    Ok(n) => n,
                    Err(e) => {
                        return Err(e);
                    },
                };
                if pointer > Drops::NO_TABLE_POINTER {
                    Ok(Drops::PresetTable(pointer))
                } else if n > 0 {
                    match read_item_sets(reader, n, game_version) {
                        Ok(v) => Ok(Drops::EmbeddedTable(v)),
                        Err(e) => Err(e),
                    }
                } else {
                    Ok(Drops::Empty)
                }
            },
        }
    }

    /// Writes what a unit drops, for version `game_version`.
    pub fn write_version(&self, writer: &mut BinaryWriter, game_version: &GameVersion) -> (res: Result<(), WriteError>)
        requires
            old(writer).has_room(drops_bytes(*self, *game_version).len() as int),
            *game_version != GameVersion::Reforged,
        ensures
            res is Ok,
            final(writer).contents() == write_at(
                old(writer).contents(),
                old(writer).position() as int,
                drops_bytes(*self, *game_version),
            ),
            final(writer).position() == old(writer).position() + drops_bytes(
                *self,
                *game_version,
            ).len(),
    {
        let ghost c0 = writer.contents();
        let ghost p0 = writer.position() as int;
        match game_version {
            GameVersion::RoC => match self {
                Drops::EmbeddedTable(sets) => {
                    let _ = writer.write_u32(sets.len() as u32);
                    write_item_sets(writer, sets, game_version);
                    proof {
                        lemma_write_at_concat(
                            c0,
                            p0,
                            le_bytes_u32(sets@.len() as u32),
                            item_sets_bytes(sets@),
                        );
                    }
                },
                _ => {
                    let _ = writer.write_u32(0);
                },
            },
            _ => match self {
                Drops::Empty => {
                    let _ = writer.write_i32(Drops::NO_TABLE_POINTER);
                    let _ = writer.write_u32(0);
                    proof {
                        lemma_write_at_concat(c0, p0, le_bytes_u32(-1i32 as u32), le_bytes_u32(0));
                    }
                },
                Drops::PresetTable(pointer) => {
                    let _ = writer.write_i32(*pointer);
                    let _ = writer.write_u32(0);
                    proof {
                        lemma_write_at_concat(c0, p0, le_bytes_u32(*pointer as u32), le_bytes_u32(0));
                    }
                },
                Drops::EmbeddedTable(sets) => {
                    let _ = writer.write_i32(Drops::NO_TABLE_POINTER);
                    let _ = writer.write_u32(sets.len() as u32);
                    proof {
                        lemma_write_at_concat(
                            c0,
                            p0,
                            le_bytes_u32(-1i32 as u32),
                            le_bytes_u32(sets@.len() as u32),
                        );
                    }
                    write_item_sets(writer, sets, game_version);
                    proof {
                        lemma_write_at_concat(
                            c0,
                            p0,
                            le_bytes_u32(-1i32 as u32) + le_bytes_u32(sets@.len() as u32),
                            item_sets_bytes(sets@),
                        );
                    }
                },
            },
        }
        Ok(())
    }
}

/// Where `n` entries stored one after the other from `p` end, when each
/// entry, stored at `q`, ends at `f(q)`.
pub open spec fn seq_end(p: int, n: nat, f: spec_fn(int) -> Option<int>) -> Option<int>
    decreases n,
{
    if n == 0 {
        Some(p)
    } else {
        match seq_end(p, (n - 1) as nat, f) {
            Some(q) => f(q),
            None => None,
        }
    }
}

/// Where reading the entries `s`, one after the other from `p`, ends, when
/// entry `x` stored at `q` reads as `f(q, x)`.
pub open spec fn seq_read<T>(p: int, s: Seq<T>, f: spec_fn(int, T) -> Option<int>) -> Option<int>
    decreases s.len(),
{
    if s.len() == 0 {
        Some(p)
    } else {
        match seq_read(p, s.drop_last(), f) {
            Some(q) => f(q, s.last()),
            None => None,
        }
    }
}

pub(crate) proof fn lemma_seq_end_none(p: int, n: nat, m: nat, f: spec_fn(int) -> Option<int>)
    requires
        seq_end(p, n, f) is None,
        n <= m,
    ensures
        seq_end(p, m, f) is None,
    decreases m - n,
{
    if n < m {
        lemma_seq_end_none(p, n, (m - 1) as nat, f);
    }
}

/// The text of the four-byte code at `p`.
pub open spec fn code_text(d: Seq<u8>, p: int) -> Seq<char> {
    decode_utf8(d.subrange(p, p + 4))
}

/// An item a unit carries: its inventory slot and its four-character ID.
#[derive(Debug)]
pub struct InventoryItem(pub i32, pub String);

/// Where an inventory item stored at `p` ends, when it can be read.
pub open spec fn inventory_item_end(d: Seq<u8>, p: int) -> Option<int> {
    if has_bytes(d, p, 8) && code_at(d, p + 4) {
        Some(p + 8)
    } else {
        None
    }
}

/// Where reading inventory item `x` from `p` ends, when `x` is stored there.
pub open spec fn inventory_item_read(d: Seq<u8>, p: int, x: InventoryItem) -> Option<int> {
    if inventory_item_end(d, p) is Some && x.0 == u32_at(d, p) as i32 && x.1@ == code_text(d, p + 4) {
        Some(p + 8)
    } else {
        None
    }
}

/// A modified ability of a unit: its four-character ID, whether it is cast
/// automatically, and its level.
#[derive(Debug)]
pub struct AbilityModification {
    pub ability_id: String,
    pub autocast: bool,
    pub level: u32,
}

/// Where an ability modification stored at `p` ends, when it can be read.
pub open spec fn ability_end(d: Seq<u8>, p: int) -> Option<int> {
    if has_bytes(d, p, 12) && code_at(d, p) {
        Some(p + 12)
    } else {
        None
    }
}

/// Where reading ability modification `x` from `p` ends, when `x` is
/// stored there.
pub open spec fn ability_read(d: Seq<u8>, p: int, x: AbilityModification) -> Option<int> {
    if ability_end(d, p) is Some && x.ability_id@ == code_text(d, p) && x.autocast == (u32_at(d, p + 4)
        == 1) && x.level == u32_at(d, p + 8) {
        Some(p + 12)
    } else {
        None
    }
}

/// A unit of a custom random group: its four-character ID and the bits of
/// its rate (an IEEE 754 single precision number).
#[derive(Debug)]
pub struct RandomUnit(pub String, pub u32);

/// Where a random unit stored at `p` ends, when it can be read.
pub open spec fn random_unit_end(d: Seq<u8>, p: int) -> Option<int> {
    if has_bytes(d, p, 8) && code_at(d, p) {
        Some(p + 8)
    } else {
        None
    }
}

/// Where reading random unit `x` from `p` ends, when `x` is stored there.
pub open spec fn random_unit_read(d: Seq<u8>, p: int, x: RandomUnit) -> Option<int> {
    if random_unit_end(d, p) is Some && x.0@ == code_text(d, p) && x.1 == u32_at(d, p + 4) {
        Some(p + 8)
    } else {
        None
    }
}

/// How a placed unit or item is chosen.
#[derive(Debug)]
pub enum RandomUnitItemFlag {
    /// Any neutral one of a level and an item class.
    Neutral(u32, u8),
    /// One of a group of the map's random tables, by group and column.
    RandomFromTableGroup(i32, u32),
    /// One of a custom list.
    RandomFromCustomTable(Vec<RandomUnit>),
    /// The one placed.
    NotRandom,
}

impl RandomUnitItemFlag {
    /// Bits of the stored value that hold the level.
    pub const LEVEL_MASK: u32 = 0x00FF_FFFF;
    /// Bits of the stored value that hold the item class.
    pub const CLASS_MASK: u32 = 0xFF00_0000;
    /// Position of the item class in the stored value.
    pub const CLASS_SHIFT: u32 = 24;
}

/// Where the random choice stored at `p` ends, when it can be read.
pub open spec fn flag_end(d: Seq<u8>, p: int) -> Option<int> {
    if !has_bytes(d, p, 4) {
        None
    } else if u32_at(d, p) as i32 == 0 {
        if has_bytes(d, p, 8) {
            Some(p + 8)
        } else {
            None
        }
    } else if u32_at(d, p) as i32 == 1 {
        if has_bytes(d, p, 12) {
            Some(p + 12)
        } else {
            None
        }
    } else if u32_at(d, p) as i32 == 2 {
        if has_bytes(d, p, 8) {
            seq_end(p + 8, u32_at(d, p + 4) as nat, random_unit_ends(d))
        } else {
            None
        }
    } else {
        Some(p + 4)
    }
}

/// Where reading random choice `x` from `p` ends, when `x` is stored there:
/// a kind, then the level and class packed in one value, a group and
/// column, or a counted list of units; an unknown kind means none.
pub open spec fn flag_read(d: Seq<u8>, p: int, x: RandomUnitItemFlag) -> Option<int> {
    if flag_end(d, p) is None {
        None
    } else {
        let k = u32_at(d, p) as i32;
        match x {
            RandomUnitItemFlag::Neutral(level, class) => if k == 0 && level == u32_at(d, p + 4)
                & 0x00FF_FFFFu32 && class == ((u32_at(d, p + 4) & 0xFF00_0000u32) >> 24u32) as u8 {
                Some(p + 8)
            } else {
                None
            },
            RandomUnitItemFlag::RandomFromTableGroup(group, column) => if k == 1 && group == u32_at(
                d,
                p + 4,
            ) as i32 && column == u32_at(d, p + 8) {
                Some(p + 12)
            } else {
                None
            },
            RandomUnitItemFlag::RandomFromCustomTable(units) => if k == 2 && units@.len() == u32_at(
                d,
                p + 4,
            ) {
                seq_read(p + 8, units@, random_unit_reads(d))
            } else {
                None
            },
            RandomUnitItemFlag::NotRandom => if k != 0 && k != 1 && k != 2 {
                Some(p + 4)
            } else {
                None
            },
        }
    }
}


/// [`inventory_item_end`] over `d`.
pub open spec fn inventory_item_ends(d: Seq<u8>) -> spec_fn(int) -> Option<int> {
    |q: int| inventory_item_end(d, q)
}

/// [`inventory_item_read`] over `d`.
pub open spec fn inventory_item_reads(d: Seq<u8>) -> spec_fn(int, InventoryItem) -> Option<int> {
    |q: int, x: InventoryItem| inventory_item_read(d, q, x)
}

/// [`ability_end`] over `d`.
pub open spec fn ability_ends(d: Seq<u8>) -> spec_fn(int) -> Option<int> {
    |q: int| ability_end(d, q)
}

/// [`ability_read`] over `d`.
pub open spec fn ability_reads(d: Seq<u8>) -> spec_fn(int, AbilityModification) -> Option<int> {
    |q: int, x: AbilityModification| ability_read(d, q, x)
}

/// [`random_unit_end`] over `d`.
pub open spec fn random_unit_ends(d: Seq<u8>) -> spec_fn(int) -> Option<int> {
    |q: int| random_unit_end(d, q)
}

/// [`random_unit_read`] over `d`.
pub open spec fn random_unit_reads(d: Seq<u8>) -> spec_fn(int, RandomUnit) -> Option<int> {
    |q: int, x: RandomUnit| random_unit_read(d, q, x)
}

impl InventoryItem {
    /// Reads an inventory item: its slot, then its four-byte UTF-8 ID.
    pub fn read_version(reader: &mut BinaryReader, game_version: &GameVersion) -> (res: Result<Self, ReadError>)
        requires
            old(reader).wf(),
        ensures
            final(reader).wf(),
            final(reader).contents() == old(reader).contents(),
            res is Ok <==> inventory_item_end(old(reader).contents(), old(reader).position() as int) is Some,
            res matches Ok(x) ==> inventory_item_read(old(reader).contents(), old(reader).position() as int, x)
                == Some(final(reader).position() as int),
    {
        let slot = match reader.read_i32() {
            Ok(v) => v,
            Err(e) => {
                return Err(e);
            },
        };
        match reader.read_string_utf8(4) {
            Ok(id) => Ok(InventoryItem(slot, id)),
            Err(e) => Err(e),
        }
    }
}

impl AbilityModification {
    /// Reads an ability modification: its four-byte UTF-8 ID, its autocast
    /// flag (1 for on) and its level.
    pub fn read_version(reader: &mut BinaryReader, game_version: &GameVersion) -> (res: Result<Self, ReadError>)
        requires
            old(reader).wf(),
        ensures
            final(reader).wf(),
            final(reader).contents() == old(reader).contents(),
            res is Ok <==> ability_end(old(reader).contents(), old(reader).position() as int) is Some,
            res matches Ok(x) ==> ability_read(old(reader).contents(), old(reader).position() as int, x)
                == Some(final(reader).position() as int),
    {
        let ability_id = match reader.read_string_utf8(4) {
            Ok(v) => v,
            Err(e) => {
                return Err(e);
            },
        };
        let autocast = match reader.read_u32() {
            Ok(v) => v == 1,
            Err(e) => {
                return Err(e);
            },
        };
        match reader.read_u32() {
            Ok(level) => Ok(AbilityModification { ability_id, autocast, level }),
            Err(e) => Err(e),
        }
    }
}

impl RandomUnit {
    /// Reads a random unit: its four-byte UTF-8 ID, then its rate.
    pub fn read_version(reader: &mut BinaryReader, game_version: &GameVersion) -> (res: Result<Self, ReadError>)
        requires
            old(reader).wf(),
        ensures
            final(reader).wf(),
            final(reader).contents() == old(reader).contents(),
            res is Ok <==> random_unit_end(old(reader).contents(), old(reader).position() as int) is Some,
            res matches Ok(x) ==> random_unit_read(old(reader).contents(), old(reader).position() as int, x)
                == Some(final(reader).position() as int),
    {
        let id = match reader.read_string_utf8(4) {
            Ok(v) => v,
            Err(e) => {
                return Err(e);
            },
        };
        match reader.read_u32() {
            Ok(rate) => Ok(RandomUnit(id, rate)),
            Err(e) => Err(e),
        }
    }
}

/// Reads `n` inventory items.
fn read_inventory(reader: &mut BinaryReader, n: u32, game_version: &GameVersion) -> (res: Result<Vec<InventoryItem>, ReadError>)
    requires
        old(reader).wf(),
    ensures
        final(reader).wf(),
        final(reader).contents() == old(reader).contents(),
        ({
            let d = old(reader).contents();
            let p = old(reader).position() as int;
            &&& res is Ok <==> seq_end(p, n as nat, inventory_item_ends(d)) is Some
            &&& res is Ok ==> seq_end(p, n as nat, inventory_item_ends(d)) == Some(final(reader).position() as int)
            &&& res matches Ok(v) ==> v@.len() == n && seq_read(p, v@, inventory_item_reads(d))
                == Some(final(reader).position() as int)
        }),
{
    let ghost d = reader.contents();
    let ghost p0 = reader.position() as int;
    let mut items: Vec<InventoryItem> = Vec::new();
    let mut k: u32 = 0;
    while k < n
        invariant
            reader.wf(),
            reader.contents() == d,
            d == old(reader).contents(),
            p0 == old(reader).position(),
            k <= n,
            items@.len() == k,
            seq_end(p0, k as nat, inventory_item_ends(d)) == Some(reader.position() as int),
            seq_read(p0, items@, inventory_item_reads(d)) == Some(reader.position() as int),
        decreases n - k,
    {
        let x = match InventoryItem::read_version(reader, game_version) {
            Ok(x) => x,
            Err(e) => {
                proof {
                    assert(seq_end(p0, (k + 1) as nat, inventory_item_ends(d)) is None);
                    lemma_seq_end_none(p0, (k + 1) as nat, n as nat, inventory_item_ends(d));
                }
                return Err(e);
            },
        };
        let ghost before = items@;
        items.push(x);
        assert(items@.drop_last() == before);
        k = k + 1;
    }
    Ok(items)
}

/// Reads `n` ability modifications.
fn read_abilities(reader: &mut BinaryReader, n: u32, game_version: &GameVersion) -> (res: Result<Vec<AbilityModification>, ReadError>)
    requires
        old(reader).wf(),
    ensures
        final(reader).wf(),
        final(reader).contents() == old(reader).contents(),
        ({
            let d = old(reader).contents();
            let p = old(reader).position() as int;
            &&& res is Ok <==> seq_end(p, n as nat, ability_ends(d)) is Some
            &&& res is Ok ==> seq_end(p, n as nat, ability_ends(d)) == Some(final(reader).position() as int)
            &&& res matches Ok(v) ==> v@.len() == n && seq_read(p, v@, ability_reads(d))
                == Some(final(reader).position() as int)
        }),
{
    let ghost d = reader.contents();
    let ghost p0 = reader.position() as int;
    let mut items: Vec<AbilityModification> = Vec::new();
    let mut k: u32 = 0;
    while k < n
        invariant
            reader.wf(),
            reader.contents() == d,
            d == old(reader).contents(),
            p0 == old(reader).position(),
            k <= n,
            items@.len() == k,
            seq_end(p0, k as nat, ability_ends(d)) == Some(reader.position() as int),
            seq_read(p0, items@, ability_reads(d)) == Some(reader.position() as int),
        decreases n - k,
    {
        let x = match AbilityModification::read_version(reader, game_version) {
            Ok(x) => x,
            Err(e) => {
                proof {
                    assert(seq_end(p0, (k + 1) as nat, ability_ends(d)) is None);
                    lemma_seq_end_none(p0, (k + 1) as nat, n as nat, ability_ends(d));
                }
                return Err(e);
            },
        };
        let ghost before = items@;
        items.push(x);
        assert(items@.drop_last() == before);
        k = k + 1;
    }
    Ok(items)
}

/// Reads `n` random units.
fn read_random_units(reader: &mut BinaryReader, n: u32, game_version: &GameVersion) -> (res: Result<Vec<RandomUnit>, ReadError>)
    requires
        old(reader).wf(),
    ensures
        final(reader).wf(),
        final(reader).contents() == old(reader).contents(),
        ({
            let d = old(reader).contents();
            let p = old(reader).position() as int;
            &&& res is Ok <==> seq_end(p, n as nat, random_unit_ends(d)) is Some
            &&& res is Ok ==> seq_end(p, n as nat, random_unit_ends(d)) == Some(final(reader).position() as int)
            &&& res matches Ok(v) ==> v@.len() == n && seq_read(p, v@, random_unit_reads(d))
                == Some(final(reader).position() as int)
        }),
{
    let ghost d = reader.contents();
    let ghost p0 = reader.position() as int;
    let mut items: Vec<RandomUnit> = Vec::new();
    let mut k: u32 = 0;
    while k < n
        invariant
            reader.wf(),
            reader.contents() == d,
            d == old(reader).contents(),
            p0 == old(reader).position(),
            k <= n,
            items@.len() == k,
            seq_end(p0, k as nat, random_unit_ends(d)) == Some(reader.position() as int),
            seq_read(p0, items@, random_unit_reads(d)) == Some(reader.position() as int),
        decreases n - k,
    {
        let x = match RandomUnit::read_version(reader, game_version) {
            Ok(x) => x,
            Err(e) => {
                proof {
                    assert(seq_end(p0, (k + 1) as nat, random_unit_ends(d)) is None);
                    lemma_seq_end_none(p0, (k + 1) as nat, n as nat, random_unit_ends(d));
                }
                return Err(e);
            },
        };
        let ghost before = items@;
        items.push(x);
        assert(items@.drop_last() == before);
        k = k + 1;
    }
    Ok(items)
}

impl RandomUnitItemFlag {
    /// Reads how a placed unit or item is chosen.
    pub fn read_version(reader: &mut BinaryReader, game_version: &GameVersion) -> (res: Result<Self, ReadError>)
        requires
            old(reader).wf(),
        ensures
            final(reader).wf(),
            final(reader).contents() == old(reader).contents(),
            res is Ok <==> flag_end(old(reader).contents(), old(reader).position() as int) is Some,
            res is Ok ==> flag_end(old(reader).contents(), old(reader).position() as int) == Some(
                final(reader).position() as int,
            ),
            res matches Ok(x) ==> flag_read(old(reader).contents(), old(reader).position() as int, x)
                == Some(final(reader).position() as int),
    {
        let kind = match reader.read_i32() {
            Ok(v) => v,
            Err(e) => {
                return Err(e);
            },
        };
        if kind == 0 {
            match reader.read_u32() {
                Ok(value) => {
                    let level = value & Self::LEVEL_MASK;
                    let item_class = ((value & Self::CLASS_MASK) >> Self::CLASS_SHIFT) as u8;
                    Ok(RandomUnitItemFlag::Neutral(level, item_class))
                },
                Err(e) => Err(e),
            }
        } else if kind == 1 {
            let group_id = match reader.read_i32() {
                Ok(v) => v,
                Err(e) => {
                    return Err(e);
                },
            };
            match reader.read_u32() {
                Ok(column) => Ok(RandomUnitItemFlag::RandomFromTableGroup(group_id, column)),
                Err(e) => Err(e),
            }
        } else if kind == 2 {
            let n = match reader.read_u32() {
                Ok(v) => v,
                Err(e) => {
                    return Err(e);
                },
            };
            match read_random_units(reader, n, game_version) {
                Ok(units) => Ok(RandomUnitItemFlag::RandomFromCustomTable(units)),
                Err(e) => Err(e),
            }
        } else {
            Ok(RandomUnitItemFlag::NotRandom)
        }
    }
}


/// A placed unit or item of the map. Real numbers are held as the bits of
/// their IEEE 754 single precision encoding, which is how the file stores
/// them.
#[derive(Debug)]
pub struct UnitItem {
    pub model_id: String,
    pub variation: u32,
    pub coord_x: u32,
    pub coord_y: u32,
    pub coord_z: u32,
    pub angle: u32,
    pub scale_x: u32,
    pub scale_y: u32,
    pub scale_z: u32,
    pub flags: u8,
    pub player_owner: u32,
    pub unk1: u8,
    pub unk2: u8,
    pub hp: i32,
    pub mana: i32,
    pub drops: Drops,
    pub gold_amount: i32,
    pub acquisition_range: u32,
    pub strength: i32,
    pub agility: i32,
    pub intelligence: i32,
    pub level: u32,
    pub inventory: Vec<InventoryItem>,
    pub abilities: Vec<AbilityModification>,
    pub random_type: RandomUnitItemFlag,
    pub color: i32,
    pub waygate_region_id: i32,
    pub creation_id: u32,
}

/// Where the inventory count of a unit whose drops end at `q` is stored:
/// after the gold, acquisition range and level, and, past Reign of Chaos,
/// the three attributes.
pub open spec fn inventory_pos(q: int, v: GameVersion) -> int {
    if v == GameVersion::RoC {
        q + 12
    } else {
        q + 24
    }
}

/// Where the unit stored at `p` for version `v` ends, when it can be read.
pub open spec fn unit_end(d: Seq<u8>, p: int, v: GameVersion) -> Option<int> {
    if !(has_bytes(d, p, 51) && code_at(d, p)) {
        None
    } else {
        match drops_end(d, p + 51, v) {
            None => None,
            Some(q) => {
                let s = inventory_pos(q, v);
                if !has_bytes(d, q, s + 4 - q) {
                    None
                } else {
                    match seq_end(s + 4, u32_at(d, s) as nat, inventory_item_ends(d)) {
                        None => None,
                        Some(t) => if !has_bytes(d, t, 4) {
                            None
                        } else {
                            match seq_end(t + 4, u32_at(d, t) as nat, ability_ends(d)) {
                                None => None,
                                Some(w) => match flag_end(d, w) {
                                    None => None,
                                    Some(z) => if has_bytes(d, z, 12) {
                                        Some(z + 12)
                                    } else {
                                        None
                                    },
                                },
                            }
                        },
                    }
                }
            },
        }
    }
}

/// Whether `x` is the unit stored at `p` for version `v`.
pub open spec fn unit_at(d: Seq<u8>, p: int, v: GameVersion, x: UnitItem) -> bool {
    let q = drops_end(d, p + 51, v)->0;
    let s = inventory_pos(q, v);
    let t = seq_end(s + 4, u32_at(d, s) as nat, inventory_item_ends(d))->0;
    let w = seq_end(t + 4, u32_at(d, t) as nat, ability_ends(d))->0;
    let z = flag_end(d, w)->0;
    &&& unit_end(d, p, v) is Some
    &&& x.model_id@ == code_text(d, p)
    &&& x.variation == u32_at(d, p + 4)
    &&& x.coord_x == u32_at(d, p + 8)
    &&& x.coord_y == u32_at(d, p + 12)
    &&& x.coord_z == u32_at(d, p + 16)
    &&& x.angle == u32_at(d, p + 20)
    &&& x.scale_x == u32_at(d, p + 24)
    &&& x.scale_y == u32_at(d, p + 28)
    &&& x.scale_z == u32_at(d, p + 32)
    &&& x.flags == d[p + 36]
    &&& x.player_owner == u32_at(d, p + 37)
    &&& x.unk1 == d[p + 41]
    &&& x.unk2 == d[p + 42]
    &&& x.hp == u32_at(d, p + 43) as i32
    &&& x.mana == u32_at(d, p + 47) as i32
    &&& drops_read(d, p + 51, v, x.drops) == Some(q)
    &&& x.gold_amount == u32_at(d, q) as i32
    &&& x.acquisition_range == u32_at(d, q + 4)
    &&& x.level == u32_at(d, q + 8)
    &&& if v == GameVersion::RoC {
        x.strength == 0 && x.agility == 0 && x.intelligence == 0
    } else {
        x.strength == u32_at(d, q + 12) as i32 && x.agility == u32_at(d, q + 16) as i32
            && x.intelligence == u32_at(d, q + 20) as i32
    }
    &&& x.inventory@.len() == u32_at(d, s)
    &&& seq_read(s + 4, x.inventory@, inventory_item_reads(d)) == Some(t)
    &&& x.abilities@.len() == u32_at(d, t)
    &&& seq_read(t + 4, x.abilities@, ability_reads(d)) == Some(w)
    &&& flag_read(d, w, x.random_type) == Some(z)
    &&& x.color == u32_at(d, z) as i32
    &&& x.waygate_region_id == u32_at(d, z + 4) as i32
    &&& x.creation_id == u32_at(d, z + 8)
}

/// The layout of a placed unit or item in the units file: its model code in
/// bytes 0 to 3; the variation, the position x, y and z, the angle and the
/// scale x, y and z as little-endian words at bytes 4 to 35; the flags at
/// byte 36; the owning player as a word at byte 37; two unknown bytes at 41
/// and 42; the hit points and mana as words at 43 and 47; then its drops,
/// after which come the gold amount, the acquisition range and the level
/// (and, from The Frozen Throne on, strength, agility and intelligence) as
/// words. Reading takes each field from its bytes; the units file
/// write/read law gives writing the same layout.
pub proof fn law_unit_layout(d: Seq<u8>, p: int, v: GameVersion, x: UnitItem)
    ensures
        unit_at(d, p, v, x) ==> {
            let q = drops_end(d, p + 51, v)->0;
            &&& x.model_id@ == code_text(d, p)
            &&& x.variation == u32_at(d, p + 4)
            &&& x.coord_x == u32_at(d, p + 8)
            &&& x.coord_y == u32_at(d, p + 12)
            &&& x.coord_z == u32_at(d, p + 16)
            &&& x.angle == u32_at(d, p + 20)
            &&& x.scale_x == u32_at(d, p + 24)
            &&& x.scale_y == u32_at(d, p + 28)
            &&& x.scale_z == u32_at(d, p + 32)
            &&& x.flags == d[p + 36]
            &&& x.player_owner == u32_at(d, p + 37)
            &&& x.unk1 == d[p + 41]
            &&& x.unk2 == d[p + 42]
            &&& x.hp == u32_at(d, p + 43) as i32
            &&& x.mana == u32_at(d, p + 47) as i32
            &&& x.gold_amount == u32_at(d, q) as i32
            &&& x.acquisition_range == u32_at(d, q + 4)
            &&& x.level == u32_at(d, q + 8)
            &&& (v != GameVersion::RoC ==> x.strength == u32_at(d, q + 12) as i32 && x.agility == u32_at(
                d,
                q + 16,
            ) as i32 && x.intelligence == u32_at(d, q + 20) as i32)
        },
{
}

impl UnitItem {
    /// Reads a placed unit or item saved for version `game_version`.
    #[verifier::rlimit(60)]
    #[verifier::spinoff_prover]
    pub fn read_version(reader: &mut BinaryReader, game_version: &GameVersion) -> (res: Result<Self, ReadError>)
        requires
            old(reader).wf(),
            *game_version != GameVersion::Reforged,
        ensures
            final(reader).wf(),
            final(reader).contents() == old(reader).contents(),
            res is Ok <==> unit_end(old(reader).contents(), old(reader).position() as int, *game_version) is Some,
            res matches Ok(x) ==> unit_at(old(reader).contents(), old(reader).position() as int, *game_version, x)
                && final(reader).position() == unit_end(
                old(reader).contents(),
                old(reader).position() as int,
                *game_version,
            )->0,
    {
        let ghost d = reader.contents();
        let ghost p = reader.position() as int;
        let model_id = match reader.read_string_utf8(4) {
            Ok(v) => v,
            Err(e) => {
                return Err(e);
            },
        };
        let variation = match reader.read_u32() {
            Ok(v) => v,
            Err(e) => {
                return Err(e);
            },
        };
        let coord_x = match reader.read_u32() {
            Ok(v) => v,
            Err(e) => {
                return Err(e);
            },
        };
        let coord_y = match reader.read_u32() {
            Ok(v) => v,
            Err(e) => {
                return Err(e);
            },
        };
        let coord_z = match reader.read_u32() {
            Ok(v) => v,
            Err(e) => {
                return Err(e);
            },
        };
        let angle = match reader.read_u32() {
            Ok(v) => v,
            Err(e) => {
                return Err(e);
            },
        };
        let scale_x = match reader.read_u32() {
            Ok(v) => v,
            Err(e) => {
                return Err(e);
            },
        };
        let scale_y = match reader.read_u32() {
            Ok(v) => v,
            Err(e) => {
                return Err(e);
            },
        };
        let scale_z = match reader.read_u32() {
            Ok(v) => v,
            Err(e) => {
                return Err(e);
            },
        };
        let flags = match reader.read_u8() {
            Ok(v) => v,
            Err(e) => {
                return Err(e);
            },
        };
        let player_owner = match reader.read_u32() {
            Ok(v) => v,
            Err(e) => {
                return Err(e);
            },
        };
        let unk1 = match reader.read_u8() {
            Ok(v) => v,
            Err(e) => {
                return Err(e);
            },
        };
        let unk2 = match reader.read_u8() {
            Ok(v) => v,
            Err(e) => {
                return Err(e);
            },
        };
        let hp = match reader.read_i32() {
            Ok(v) => v,
            Err(e) => {
                return Err(e);
            },
        };
        let mana = match reader.read_i32() {
            Ok(v) => v,
            Err(e) => {
                return Err(e);
            },
        };
        assert(reader.position() == p + 51);
        let drops = match Drops::read_version(reader, game_version) {
            Ok(v) => v,
            Err(e) => {
                return Err(e);
            },
        };
        let ghost q = reader.position() as int;
        let gold_amount = match reader.read_i32() {
            Ok(v) => v,
            Err(e) => {
                return Err(e);
            },
        };
        let acquisition_range = match reader.read_u32() {
            Ok(v) => v,
            Err(e) => {
                return Err(e);
            },
        };
        let level = match reader.read_u32() {
            Ok(v) => v,
            Err(e) => {
                return Err(e);
            },
        };
        let (strength, agility, intelligence) = if game_version.is_tft() {
            let strength = match reader.read_i32() {
                Ok(v) => v,
                Err(e) => {
                    return Err(e);
                },
            };
            let agility = match reader.read_i32() {
                Ok(v) => v,
                Err(e) => {
                    return Err(e);
                },
            };
            let intelligence = match reader.read_i32() {
                Ok(v) => v,
                Err(e) => {
                    return Err(e);
                },
            };
            (strength, agility, intelligence)
        } else {
            (0, 0, 0)
        };
        let ghost s = reader.position() as int;
        assert(s == inventory_pos(q, *game_version));
        let count_items = match reader.read_u32() {
            Ok(v) => v,
            Err(e) => {
                return Err(e);
            },
        };
        let inventory = match read_inventory(reader, count_items, game_version) {
            Ok(v) => v,
            Err(e) => {
                return Err(e);
            },
        };
        let count_abilities = match reader.read_u32() {
            Ok(v) => v,
            Err(e) => {
                return Err(e);
            },
        };
        let abilities = match read_abilities(reader, count_abilities, game_version) {
            Ok(v) => v,
            Err(e) => {
                return Err(e);
            },
        };
        let random_type = match RandomUnitItemFlag::read_version(reader, game_version) {
            Ok(v) => v,
            Err(e) => {
                return Err(e);
            },
        };
        let color = match reader.read_i32() {
            Ok(v) => v,
            Err(e) => {
                return Err(e);
            },
        };
        let waygate_region_id = match reader.read_i32() {
            Ok(v) => v,
            Err(e) => {
                return Err(e);
            },
        };
        let creation_id = match reader.read_u32() {
            Ok(v) => v,
            Err(e) => {
                return Err(e);
            },
        };
        Ok(UnitItem {
            model_id,
            variation,
            coord_x,
            coord_y,
            coord_z,
            angle,
            scale_x,
            scale_y,
            scale_z,
            flags,
            player_owner,
            unk1,
            unk2,
            hp,
            mana,
            drops,
            gold_amount,
            acquisition_range,
            strength,
            agility,
            intelligence,
            level,
            inventory,
            abilities,
            random_type,
            color,
            waygate_region_id,
            creation_id,
        })
    }
}


/// The bytes that store the entries `s`, one after the other, entry `x`
/// taking `f(x)`.
pub open spec fn seq_bytes<T>(s: Seq<T>, f: spec_fn(T) -> Seq<u8>) -> Seq<u8>
    decreases s.len(),
{
    if s.len() == 0 {
        Seq::empty()
    } else {
        seq_bytes(s.drop_last(), f) + f(s.last())
    }
}

pub(crate) proof fn lemma_seq_bytes_prefix<T>(s: Seq<T>, f: spec_fn(T) -> Seq<u8>, k: int)
    requires
        0 <= k <= s.len(),
    ensures
        seq_bytes(s.take(k), f).len() <= seq_bytes(s, f).len(),
    decreases s.len(),
{
    if k < s.len() {
        lemma_seq_bytes_prefix(s.drop_last(), f, k);
        assert(s.drop_last().take(k) == s.take(k));
    } else {
        assert(s.take(k) == s);
    }
}

/// The bytes that store inventory item `x`: its slot and the UTF-8 bytes of
/// its ID.
pub open spec fn inventory_item_bytes(x: InventoryItem) -> Seq<u8> {
    le_bytes_u32(x.0 as u32) + encode_utf8(x.1@)
}

/// [`inventory_item_bytes`] as a function.
pub open spec fn inventory_item_bytes_of() -> spec_fn(InventoryItem) -> Seq<u8> {
    |x: InventoryItem| inventory_item_bytes(x)
}

/// The bytes that store ability modification `x`.
pub open spec fn ability_bytes(x: AbilityModification) -> Seq<u8> {
    encode_utf8(x.ability_id@) + le_bytes_u32(
        if x.autocast {
            1u32
        } else {
            0u32
        },
    ) + le_bytes_u32(x.level)
}

/// [`ability_bytes`] as a function.
pub open spec fn ability_bytes_of() -> spec_fn(AbilityModification) -> Seq<u8> {
    |x: AbilityModification| ability_bytes(x)
}

/// The bytes that store random unit `x`.
pub open spec fn random_unit_bytes(x: RandomUnit) -> Seq<u8> {
    encode_utf8(x.0@) + le_bytes_u32(x.1)
}

/// [`random_unit_bytes`] as a function.
pub open spec fn random_unit_bytes_of() -> spec_fn(RandomUnit) -> Seq<u8> {
    |x: RandomUnit| random_unit_bytes(x)
}

/// The bytes that store random choice `x`.
pub open spec fn flag_bytes(x: RandomUnitItemFlag) -> Seq<u8> {
    match x {
        RandomUnitItemFlag::Neutral(level, class) => le_bytes_u32(0) + le_bytes_u32(
            level | ((class as u32) << 24u32),
        ),
        RandomUnitItemFlag::RandomFromTableGroup(group, column) => le_bytes_u32(1) + le_bytes_u32(
            group as u32,
        ) + le_bytes_u32(column),
        RandomUnitItemFlag::RandomFromCustomTable(units) => le_bytes_u32(2) + le_bytes_u32(
            units@.len() as u32,
        ) + seq_bytes(units@, random_unit_bytes_of()),
        RandomUnitItemFlag::NotRandom => le_bytes_u32(-1i32 as u32),
    }
}

/// The bytes that store the fields of unit `x` before its drops.
pub open spec fn unit_head_bytes(x: UnitItem) -> Seq<u8> {
    encode_utf8(x.model_id@) + le_bytes_u32(x.variation) + le_bytes_u32(x.coord_x) + le_bytes_u32(
        x.coord_y,
    ) + le_bytes_u32(x.coord_z) + le_bytes_u32(x.angle) + le_bytes_u32(x.scale_x) + le_bytes_u32(
        x.scale_y,
    ) + le_bytes_u32(x.scale_z) + seq![x.flags] + le_bytes_u32(x.player_owner) + seq![x.unk1]
        + seq![x.unk2] + le_bytes_u32(x.hp as u32) + le_bytes_u32(x.mana as u32)
}

/// The bytes that store the drops of unit `x` and the fields after them,
/// up to its inventory, for version `v`.
pub open spec fn unit_mid_bytes(x: UnitItem, v: GameVersion) -> Seq<u8> {
    drops_bytes(x.drops, v) + le_bytes_u32(x.gold_amount as u32) + le_bytes_u32(x.acquisition_range)
        + le_bytes_u32(x.level) + (if v == GameVersion::RoC {
        Seq::empty()
    } else {
        le_bytes_u32(x.strength as u32) + le_bytes_u32(x.agility as u32) + le_bytes_u32(
            x.intelligence as u32,
        )
    })
}

/// The bytes that store the inventory of unit `x` and the fields after it.
pub open spec fn unit_tail_bytes(x: UnitItem) -> Seq<u8> {
    le_bytes_u32(x.inventory@.len() as u32) + seq_bytes(x.inventory@, inventory_item_bytes_of())
        + le_bytes_u32(x.abilities@.len() as u32) + seq_bytes(x.abilities@, ability_bytes_of())
        + flag_bytes(x.random_type) + le_bytes_u32(x.color as u32) + le_bytes_u32(
        x.waygate_region_id as u32,
    ) + le_bytes_u32(x.creation_id)
}

/// The bytes that store unit `x` for version `v`.
pub open spec fn unit_bytes(x: UnitItem, v: GameVersion) -> Seq<u8> {
    unit_head_bytes(x) + unit_mid_bytes(x, v) + unit_tail_bytes(x)
}

impl InventoryItem {
    /// Writes the inventory item.
    pub fn write_version(&self, writer: &mut BinaryWriter, game_version: &GameVersion) -> (res: Result<(), WriteError>)
        requires
            old(writer).has_room(inventory_item_bytes(*self).len() as int),
        ensures
            res is Ok,
            final(writer).contents() == write_at(
                old(writer).contents(),
                old(writer).position() as int,
                inventory_item_bytes(*self),
            ),
            final(writer).position() == old(writer).position() + inventory_item_bytes(*self).len(),
    {
        let ghost c0 = writer.contents();
        let ghost p0 = writer.position() as int;
        let _ = writer.write_i32(self.0);
        let _ = writer.write_string_utf8(self.1.as_str());
        proof {
            lemma_write_at_concat(c0, p0, le_bytes_u32(self.0 as u32), encode_utf8(self.1@));
        }
        Ok(())
    }
}

impl AbilityModification {
    /// Writes the ability modification.
    pub fn write_version(&self, writer: &mut BinaryWriter, game_version: &GameVersion) -> (res: Result<(), WriteError>)
        requires
            old(writer).has_room(ability_bytes(*self).len() as int),
        ensures
            res is Ok,
            final(writer).contents() == write_at(
                old(writer).contents(),
                old(writer).position() as int,
                ability_bytes(*self),
            ),
            final(writer).position() == old(writer).position() + ability_bytes(*self).len(),
    {
        let ghost c0 = writer.contents();
        let ghost p0 = writer.position() as int;
        let ghost a = encode_utf8(self.ability_id@);
        let auto: u32 = if self.autocast {
            1
        } else {
            0
        };
        let _ = writer.write_string_utf8(self.ability_id.as_str());
        let _ = writer.write_u32(auto);
        proof {
            lemma_write_at_concat(c0, p0, a, le_bytes_u32(auto));
        }
        let _ = writer.write_u32(self.level);
        proof {
            lemma_write_at_concat(c0, p0, a + le_bytes_u32(auto), le_bytes_u32(self.level));
        }
        Ok(())
    }
}

impl RandomUnit {
    /// Writes the random unit.
    pub fn write_version(&self, writer: &mut BinaryWriter, game_version: &GameVersion) -> (res: Result<(), WriteError>)
        requires
            old(writer).has_room(random_unit_bytes(*self).len() as int),
        ensures
            res is Ok,
            final(writer).contents() == write_at(
                old(writer).contents(),
                old(writer).position() as int,
                random_unit_bytes(*self),
            ),
            final(writer).position() == old(writer).position() + random_unit_bytes(*self).len(),
    {
        let ghost c0 = writer.contents();
        let ghost p0 = writer.position() as int;
        let _ = writer.write_string_utf8(self.0.as_str());
        let _ = writer.write_u32(self.1);
        proof {
            lemma_write_at_concat(c0, p0, encode_utf8(self.0@), le_bytes_u32(self.1));
        }
        Ok(())
    }
}

/// Writes the inventory items `items`, one after the other.
fn write_inventory(writer: &mut BinaryWriter, items: &Vec<InventoryItem>, game_version: &GameVersion)
    requires
        old(writer).has_room(seq_bytes(items@, inventory_item_bytes_of()).len() as int),
    ensures
        final(writer).contents() == write_at(
            old(writer).contents(),
            old(writer).position() as int,
            seq_bytes(items@, inventory_item_bytes_of()),
        ),
        final(writer).position() == old(writer).position() + seq_bytes(items@, inventory_item_bytes_of()).len(),
{
    let ghost c0 = writer.contents();
    let ghost p0 = writer.position() as int;
    let ghost s = items@;
    let ghost f = inventory_item_bytes_of();
    let mut k: usize = 0;
    while k < items.len()
        invariant
            k <= s.len(),
            s == items@,
            f == inventory_item_bytes_of(),
            0 <= p0,
            p0 + seq_bytes(s, f).len() <= usize::MAX,
            writer.contents() == write_at(c0, p0, seq_bytes(s.take(k as int), f)),
            writer.position() == p0 + seq_bytes(s.take(k as int), f).len(),
        decreases s.len() - k,
    {
        proof {
            lemma_seq_bytes_prefix(s, f, k + 1);
            assert(s.take(k + 1).drop_last() == s.take(k as int));
            assert(s.take(k + 1).last() == s[k as int]);
        }
        let _ = items[k].write_version(writer, game_version);
        proof {
            lemma_write_at_concat(c0, p0, seq_bytes(s.take(k as int), f), f(s[k as int]));
        }
        k = k + 1;
    }
    assert(s.take(s.len() as int) == s);
}

/// Writes the ability modifications `items`, one after the other.
fn write_abilities(writer: &mut BinaryWriter, items: &Vec<AbilityModification>, game_version: &GameVersion)
    requires
        old(writer).has_room(seq_bytes(items@, ability_bytes_of()).len() as int),
    ensures
        final(writer).contents() == write_at(
            old(writer).contents(),
            old(writer).position() as int,
            seq_bytes(items@, ability_bytes_of()),
        ),
        final(writer).position() == old(writer).position() + seq_bytes(items@, ability_bytes_of()).len(),
{
    let ghost c0 = writer.contents();
    let ghost p0 = writer.position() as int;
    let ghost s = items@;
    let ghost f = ability_bytes_of();
    let mut k: usize = 0;
    while k < items.len()
        invariant
            k <= s.len(),
            s == items@,
            f == ability_bytes_of(),
            0 <= p0,
            p0 + seq_bytes(s, f).len() <= usize::MAX,
            writer.contents() == write_at(c0, p0, seq_bytes(s.take(k as int), f)),
            writer.position() == p0 + seq_bytes(s.take(k as int), f).len(),
        decreases s.len() - k,
    {
        proof {
            lemma_seq_bytes_prefix(s, f, k + 1);
            assert(s.take(k + 1).drop_last() == s.take(k as int));
            assert(s.take(k + 1).last() == s[k as int]);
        }
        let _ = items[k].write_version(writer, game_version);
        proof {
            lemma_write_at_concat(c0, p0, seq_bytes(s.take(k as int), f), f(s[k as int]));
        }
        k = k + 1;
    }
    assert(s.take(s.len() as int) == s);
}

/// Writes the random units `items`, one after the other.
fn write_random_units(writer: &mut BinaryWriter, items: &Vec<RandomUnit>, game_version: &GameVersion)
    requires
        old(writer).has_room(seq_bytes(items@, random_unit_bytes_of()).len() as int),
    ensures
        final(writer).contents() == write_at(
            old(writer).contents(),
            old(writer).position() as int,
            seq_bytes(items@, random_unit_bytes_of()),
        ),
        final(writer).position() == old(writer).position() + seq_bytes(items@, random_unit_bytes_of()).len(),
{
    let ghost c0 = writer.contents();
    let ghost p0 = writer.position() as int;
    let ghost s = items@;
    let ghost f = random_unit_bytes_of();
    let mut k: usize = 0;
    while k < items.len()
        invariant
            k <= s.len(),
            s == items@,
            f == random_unit_bytes_of(),
            0 <= p0,
            p0 + seq_bytes(s, f).len() <= usize::MAX,
            writer.contents() == write_at(c0, p0, seq_bytes(s.take(k as int), f)),
            writer.position() == p0 + seq_bytes(s.take(k as int), f).len(),
        decreases s.len() - k,
    {
        proof {
            lemma_seq_bytes_prefix(s, f, k + 1);
            assert(s.take(k + 1).drop_last() == s.take(k as int));
            assert(s.take(k + 1).last() == s[k as int]);
        }
        let _ = items[k].write_version(writer, game_version);
        proof {
            lemma_write_at_concat(c0, p0, seq_bytes(s.take(k as int), f), f(s[k as int]));
        }
        k = k + 1;
    }
    assert(s.take(s.len() as int) == s);
}

impl RandomUnitItemFlag {
    /// Writes how a placed unit or item is chosen.
    pub fn write_version(&self, writer: &mut BinaryWriter, game_version: &GameVersion) -> (res: Result<(), WriteError>)
        requires
            old(writer).has_room(flag_bytes(*self).len() as int),
        ensures
            res is Ok,
            final(writer).contents() == write_at(
                old(writer).contents(),
                old(writer).position() as int,
                flag_bytes(*self),
            ),
            final(writer).position() == old(writer).position() + flag_bytes(*self).len(),
    {
        let ghost c0 = writer.contents();
        let ghost p0 = writer.position() as int;
        match self {
            RandomUnitItemFlag::Neutral(level, class) => {
                let _ = writer.write_i32(0);
                let packed = *level | ((*class as u32) << Self::CLASS_SHIFT);
                let _ = writer.write_u32(packed);
                proof {
                    lemma_write_at_concat(c0, p0, le_bytes_u32(0), le_bytes_u32(packed));
                }
            },
            RandomUnitItemFlag::RandomFromTableGroup(group, column) => {
                let _ = writer.write_i32(1);
                let _ = writer.write_i32(*group);
                proof {
                    lemma_write_at_concat(c0, p0, le_bytes_u32(1), le_bytes_u32(*group as u32));
                }
                let _ = writer.write_u32(*column);
                proof {
                    lemma_write_at_concat(
                        c0,
                        p0,
                        le_bytes_u32(1) + le_bytes_u32(*group as u32),
                        le_bytes_u32(*column),
                    );
                }
            },
            RandomUnitItemFlag::RandomFromCustomTable(units) => {
                let _ = writer.write_i32(2);
                let _ = writer.write_u32(units.len() as u32);
                proof {
                    lemma_write_at_concat(c0, p0, le_bytes_u32(2), le_bytes_u32(units@.len() as u32));
                }
                write_random_units(writer, units, game_version);
                proof {
                    lemma_write_at_concat(
                        c0,
                        p0,
                        le_bytes_u32(2) + le_bytes_u32(units@.len() as u32),
                        seq_bytes(units@, random_unit_bytes_of()),
                    );
                }
            },
            RandomUnitItemFlag::NotRandom => {
                let _ = writer.write_i32(-1);
            },
        }
        Ok(())
    }
}



impl UnitItem {
    /// Writes the fields before the drops.
    fn write_head(&self, writer: &mut BinaryWriter, game_version: &GameVersion)
        requires
            old(writer).has_room(unit_head_bytes(*self).len() as int),
            *game_version != GameVersion::Reforged,
        ensures
            final(writer).contents() == write_at(
                old(writer).contents(),
                old(writer).position() as int,
                unit_head_bytes(*self),
            ),
            final(writer).position() == old(writer).position() + unit_head_bytes(*self).len(),
    {
        let ghost c0 = writer.contents();
        let ghost p0 = writer.position() as int;
        let ghost mut acc: Seq<u8> = Seq::empty();
        assert(write_at(c0, p0, acc) =~= c0);
        let _ = writer.write_string_utf8(self.model_id.as_str());
        proof {
            lemma_write_at_concat(c0, p0, acc, encode_utf8(self.model_id@));
            acc = acc + encode_utf8(self.model_id@);
        }
        let _ = writer.write_u32(self.variation);
        proof {
            lemma_write_at_concat(c0, p0, acc, le_bytes_u32(self.variation));
            acc = acc + le_bytes_u32(self.variation);
        }
        let _ = writer.write_u32(self.coord_x);
        proof {
            lemma_write_at_concat(c0, p0, acc, le_bytes_u32(self.coord_x));
            acc = acc + le_bytes_u32(self.coord_x);
        }
        let _ = writer.write_u32(self.coord_y);
        proof {
            lemma_write_at_concat(c0, p0, acc, le_bytes_u32(self.coord_y));
            acc = acc + le_bytes_u32(self.coord_y);
        }
        let _ = writer.write_u32(self.coord_z);
        proof {
            lemma_write_at_concat(c0, p0, acc, le_bytes_u32(self.coord_z));
            acc = acc + le_bytes_u32(self.coord_z);
        }
        let _ = writer.write_u32(self.angle);
        proof {
            lemma_write_at_concat(c0, p0, acc, le_bytes_u32(self.angle));
            acc = acc + le_bytes_u32(self.angle);
        }
        let _ = writer.write_u32(self.scale_x);
        proof {
            lemma_write_at_concat(c0, p0, acc, le_bytes_u32(self.scale_x));
            acc = acc + le_bytes_u32(self.scale_x);
        }
        let _ = writer.write_u32(self.scale_y);
        proof {
            lemma_write_at_concat(c0, p0, acc, le_bytes_u32(self.scale_y));
            acc = acc + le_bytes_u32(self.scale_y);
        }
        let _ = writer.write_u32(self.scale_z);
        proof {
            lemma_write_at_concat(c0, p0, acc, le_bytes_u32(self.scale_z));
            acc = acc + le_bytes_u32(self.scale_z);
        }
        let _ = writer.write_u8(self.flags);
        proof {
            lemma_write_at_concat(c0, p0, acc, seq![self.flags]);
            acc = acc + seq![self.flags];
        }
        let _ = writer.write_u32(self.player_owner);
        proof {
            lemma_write_at_concat(c0, p0, acc, le_bytes_u32(self.player_owner));
            acc = acc + le_bytes_u32(self.player_owner);
        }
        let _ = writer.write_u8(self.unk1);
        proof {
            lemma_write_at_concat(c0, p0, acc, seq![self.unk1]);
            acc = acc + seq![self.unk1];
        }
        let _ = writer.write_u8(self.unk2);
        proof {
            lemma_write_at_concat(c0, p0, acc, seq![self.unk2]);
            acc = acc + seq![self.unk2];
        }
        let _ = writer.write_i32(self.hp);
        proof {
            lemma_write_at_concat(c0, p0, acc, le_bytes_u32(self.hp as u32));
            acc = acc + le_bytes_u32(self.hp as u32);
        }
        let _ = writer.write_i32(self.mana);
        proof {
            lemma_write_at_concat(c0, p0, acc, le_bytes_u32(self.mana as u32));
            acc = acc + le_bytes_u32(self.mana as u32);
        }
        assert(acc =~= unit_head_bytes(*self));
    }

    /// Writes the drops and the fields after them, up to the inventory.
    fn write_mid(&self, writer: &mut BinaryWriter, game_version: &GameVersion)
        requires
            old(writer).has_room(unit_mid_bytes(*self, *game_version).len() as int),
            *game_version != GameVersion::Reforged,
        ensures
            final(writer).contents() == write_at(
                old(writer).contents(),
                old(writer).position() as int,
                unit_mid_bytes(*self, *game_version),
            ),
            final(writer).position() == old(writer).position() + unit_mid_bytes(*self, *game_version).len(),
    {
        let ghost c0 = writer.contents();
        let ghost p0 = writer.position() as int;
        let ghost mut acc: Seq<u8> = Seq::empty();
        assert(write_at(c0, p0, acc) =~= c0);
        let _ = self.drops.write_version(writer, game_version);
        proof {
            lemma_write_at_concat(c0, p0, acc, drops_bytes(self.drops, *game_version));
            acc = acc + drops_bytes(self.drops, *game_version);
        }
        let _ = writer.write_i32(self.gold_amount);
        proof {
            lemma_write_at_concat(c0, p0, acc, le_bytes_u32(self.gold_amount as u32));
            acc = acc + le_bytes_u32(self.gold_amount as u32);
        }
        let _ = writer.write_u32(self.acquisition_range);
        proof {
            lemma_write_at_concat(c0, p0, acc, le_bytes_u32(self.acquisition_range));
            acc = acc + le_bytes_u32(self.acquisition_range);
        }
        let _ = writer.write_u32(self.level);
        proof {
            lemma_write_at_concat(c0, p0, acc, le_bytes_u32(self.level));
            acc = acc + le_bytes_u32(self.level);
        }
        if game_version.is_tft() {
            let _ = writer.write_i32(self.strength);
            proof {
                lemma_write_at_concat(c0, p0, acc, le_bytes_u32(self.strength as u32));
                acc = acc + le_bytes_u32(self.strength as u32);
            }
            let _ = writer.write_i32(self.agility);
            proof {
                lemma_write_at_concat(c0, p0, acc, le_bytes_u32(self.agility as u32));
                acc = acc + le_bytes_u32(self.agility as u32);
            }
            let _ = writer.write_i32(self.intelligence);
            proof {
                lemma_write_at_concat(c0, p0, acc, le_bytes_u32(self.intelligence as u32));
                acc = acc + le_bytes_u32(self.intelligence as u32);
            }
        }
        assert(acc =~= unit_mid_bytes(*self, *game_version));
    }

    /// Writes the inventory and the fields after it.
    fn write_tail(&self, writer: &mut BinaryWriter, game_version: &GameVersion)
        requires
            old(writer).has_room(unit_tail_bytes(*self).len() as int),
            *game_version != GameVersion::Reforged,
        ensures
            final(writer).contents() == write_at(
                old(writer).contents(),
                old(writer).position() as int,
                unit_tail_bytes(*self),
            ),
            final(writer).position() == old(writer).position() + unit_tail_bytes(*self).len(),
    {
        let ghost c0 = writer.contents();
        let ghost p0 = writer.position() as int;
        let ghost mut acc: Seq<u8> = Seq::empty();
        assert(write_at(c0, p0, acc) =~= c0);
        let _ = writer.write_u32(self.inventory.len() as u32);
        proof {
            lemma_write_at_concat(c0, p0, acc, le_bytes_u32(self.inventory@.len() as u32));
            acc = acc + le_bytes_u32(self.inventory@.len() as u32);
        }
        let _ = write_inventory(writer, &self.inventory, game_version);
        proof {
            lemma_write_at_concat(c0, p0, acc, seq_bytes(self.inventory@, inventory_item_bytes_of()));
            acc = acc + seq_bytes(self.inventory@, inventory_item_bytes_of());
        }
        let _ = writer.write_u32(self.abilities.len() as u32);
        proof {
            lemma_write_at_concat(c0, p0, acc, le_bytes_u32(self.abilities@.len() as u32));
            acc = acc + le_bytes_u32(self.abilities@.len() as u32);
        }
        let _ = write_abilities(writer, &self.abilities, game_version);
        proof {
            lemma_write_at_concat(c0, p0, acc, seq_bytes(self.abilities@, ability_bytes_of()));
            acc = acc + seq_bytes(self.abilities@, ability_bytes_of());
        }
        let _ = self.random_type.write_version(writer, game_version);
        proof {
            lemma_write_at_concat(c0, p0, acc, flag_bytes(self.random_type));
            acc = acc + flag_bytes(self.random_type);
        }
        let _ = writer.write_i32(self.color);
        proof {
            lemma_write_at_concat(c0, p0, acc, le_bytes_u32(self.color as u32));
            acc = acc + le_bytes_u32(self.color as u32);
        }
        let _ = writer.write_i32(self.waygate_region_id);
        proof {
            lemma_write_at_concat(c0, p0, acc, le_bytes_u32(self.waygate_region_id as u32));
            acc = acc + le_bytes_u32(self.waygate_region_id as u32);
        }
        let _ = writer.write_u32(self.creation_id);
        proof {
            lemma_write_at_concat(c0, p0, acc, le_bytes_u32(self.creation_id));
            acc = acc + le_bytes_u32(self.creation_id);
        }
        assert(acc =~= unit_tail_bytes(*self));
    }

    /// Writes the placed unit or item for version `game_version`.
    pub fn write_version(&self, writer: &mut BinaryWriter, game_version: &GameVersion) -> (res: Result<(), WriteError>)
        requires
            old(writer).has_room(unit_bytes(*self, *game_version).len() as int),
            *game_version != GameVersion::Reforged,
        ensures
            res is Ok,
            final(writer).contents() == write_at(
                old(writer).contents(),
                old(writer).position() as int,
                unit_bytes(*self, *game_version),
            ),
            final(writer).position() == old(writer).position() + unit_bytes(*self, *game_version).len(),
    {
        let ghost c0 = writer.contents();
        let ghost p0 = writer.position() as int;
        let ghost a = unit_head_bytes(*self);
        let ghost b = unit_mid_bytes(*self, *game_version);
        let ghost c = unit_tail_bytes(*self);
        self.write_head(writer, game_version);
        self.write_mid(writer, game_version);
        proof {
            lemma_write_at_concat(c0, p0, a, b);
        }
        self.write_tail(writer, game_version);
        proof {
            lemma_write_at_concat(c0, p0, a + b, c);
        }
        Ok(())
    }
}


/// [`unit_end`] over `d` for version `v`.
pub open spec fn unit_ends(d: Seq<u8>, v: GameVersion) -> spec_fn(int) -> Option<int> {
    |q: int| unit_end(d, q, v)
}

/// Where reading unit `x` from `p` for version `v` ends, when `x` is stored
/// there.
pub open spec fn unit_read(d: Seq<u8>, p: int, v: GameVersion, x: UnitItem) -> Option<int> {
    if unit_at(d, p, v, x) {
        unit_end(d, p, v)
    } else {
        None
    }
}

/// [`unit_read`] over `d` for version `v`.
pub open spec fn unit_reads(d: Seq<u8>, v: GameVersion) -> spec_fn(int, UnitItem) -> Option<int> {
    |q: int, x: UnitItem| unit_read(d, q, v, x)
}

/// [`unit_bytes`] for version `v`, as a function.
pub open spec fn unit_bytes_of(v: GameVersion) -> spec_fn(UnitItem) -> Seq<u8> {
    |x: UnitItem| unit_bytes(x, v)
}

/// The game version that the units file stores as `code`.
pub open spec fn unit_map_version(code: u32) -> Option<GameVersion> {
    if code == 7 {
        Some(GameVersion::RoC)
    } else if code == 8 {
        Some(GameVersion::TFT)
    } else {
        None
    }
}

/// The code of version `v` in the units file.
pub open spec fn unit_map_version_code(v: GameVersion) -> u32 {
    if v == GameVersion::RoC {
        7
    } else {
        8
    }
}

/// Where the units file stored at `p` ends, when it can be read: an ID, a
/// known version, a subversion, then the counted units.
pub open spec fn unit_map_end(d: Seq<u8>, p: int) -> Option<int> {
    if !(has_bytes(d, p, 16) && code_at(d, p)) {
        None
    } else {
        match unit_map_version(u32_at(d, p + 4)) {
            None => None,
            Some(v) => seq_end(p + 16, u32_at(d, p + 12) as nat, unit_ends(d, v)),
        }
    }
}

/// The placed units and items of the map (`war3mapUnits.doo`).
#[derive(Debug)]
pub struct UnitItemMap {
    pub id: String,
    pub version: GameVersion,
    pub subversion: u32,
    pub units_items: Vec<UnitItem>,
}

/// The bytes that store the units file `m`.
pub open spec fn unit_map_bytes(m: UnitItemMap) -> Seq<u8> {
    encode_utf8(m.id@) + le_bytes_u32(unit_map_version_code(m.version)) + le_bytes_u32(m.subversion)
        + le_bytes_u32(m.units_items@.len() as u32) + seq_bytes(
        m.units_items@,
        unit_bytes_of(m.version),
    )
}

/// The version that the units file stores as `value`: 7 for Reign of
/// Chaos, 8 for The Frozen Throne.
pub(crate) fn to_game_version(value: u32) -> (res: Result<GameVersion, String>)
    ensures
        res is Ok <==> unit_map_version(value) is Some,
        res matches Ok(v) ==> unit_map_version(value) == Some(v),
        res matches Err(m) ==> m@ == unknown_version(value),
{
    if value == 7 {
        Ok(GameVersion::RoC)
    } else if value == 8 {
        Ok(GameVersion::TFT)
    } else {
        let mut m = crate::formats::text_with_number("Unknown or unsupported game version '", value as u64);
        m.append("'");
        Err(m)
    }
}

/// The code of `game_version` in the units file.
pub(crate) fn from_game_version(game_version: &GameVersion) -> (res: u32)
    requires
        *game_version != GameVersion::Reforged,
    ensures
        res == unit_map_version_code(*game_version),
{
    match game_version {
        GameVersion::RoC => 7,
        _ => 8,
    }
}

/// Reads `n` units for version `game_version`.
fn read_units(reader: &mut BinaryReader, n: u32, game_version: &GameVersion) -> (res: Result<Vec<UnitItem>, ReadError>)
    requires
        old(reader).wf(),
        *game_version != GameVersion::Reforged,
    ensures
        final(reader).wf(),
        final(reader).contents() == old(reader).contents(),
        ({
            let d = old(reader).contents();
            let p = old(reader).position() as int;
            let v = *game_version;
            &&& res is Ok <==> seq_end(p, n as nat, unit_ends(d, v)) is Some
            &&& res is Ok ==> seq_end(p, n as nat, unit_ends(d, v)) == Some(final(reader).position() as int)
            &&& res matches Ok(s) ==> s@.len() == n && seq_read(p, s@, unit_reads(d, v)) == Some(
                final(reader).position() as int,
            )
        }),
{
    let ghost d = reader.contents();
    let ghost p0 = reader.position() as int;
    let ghost v = *game_version;
    let mut items: Vec<UnitItem> = Vec::new();
    let mut k: u32 = 0;
    while k < n
        invariant
            reader.wf(),
            reader.contents() == d,
            d == old(reader).contents(),
            p0 == old(reader).position(),
            v == *game_version,
            v != GameVersion::Reforged,
            k <= n,
            items@.len() == k,
            seq_end(p0, k as nat, unit_ends(d, v)) == Some(reader.position() as int),
            seq_read(p0, items@, unit_reads(d, v)) == Some(reader.position() as int),
        decreases n - k,
    {
        let x = match UnitItem::read_version(reader, game_version) {
            Ok(x) => x,
            Err(e) => {
                proof {
                    assert(seq_end(p0, (k + 1) as nat, unit_ends(d, v)) is None);
                    lemma_seq_end_none(p0, (k + 1) as nat, n as nat, unit_ends(d, v));
                }
                return Err(e);
            },
        };
        let ghost before = items@;
        items.push(x);
        assert(items@.drop_last() == before);
        k = k + 1;
    }
    Ok(items)
}

/// Writes the units `items`, one after the other, for version
/// `game_version`.
fn write_units(writer: &mut BinaryWriter, items: &Vec<UnitItem>, game_version: &GameVersion)
    requires
        old(writer).has_room(seq_bytes(items@, unit_bytes_of(*game_version)).len() as int),
        *game_version != GameVersion::Reforged,
    ensures
        final(writer).contents() == write_at(
            old(writer).contents(),
            old(writer).position() as int,
            seq_bytes(items@, unit_bytes_of(*game_version)),
        ),
        final(writer).position() == old(writer).position() + seq_bytes(
            items@,
            unit_bytes_of(*game_version),
        ).len(),
{
    let ghost c0 = writer.contents();
    let ghost p0 = writer.position() as int;
    let ghost s = items@;
    let ghost f = unit_bytes_of(*game_version);
    let mut k: usize = 0;
    while k < items.len()
        invariant
            k <= s.len(),
            s == items@,
            f == unit_bytes_of(*game_version),
            *game_version != GameVersion::Reforged,
            0 <= p0,
            p0 + seq_bytes(s, f).len() <= usize::MAX,
            writer.contents() == write_at(c0, p0, seq_bytes(s.take(k as int), f)),
            writer.position() == p0 + seq_bytes(s.take(k as int), f).len(),
        decreases s.len() - k,
    {
        proof {
            lemma_seq_bytes_prefix(s, f, k + 1);
            assert(s.take(k + 1).drop_last() == s.take(k as int));
            assert(s.take(k + 1).last() == s[k as int]);
        }
        let _ = items[k].write_version(writer, game_version);
        proof {
            lemma_write_at_concat(c0, p0, seq_bytes(s.take(k as int), f), f(s[k as int]));
        }
        k = k + 1;
    }
    assert(s.take(s.len() as int) == s);
}

impl UnitItemMap {
    /// Name of the file in the map archive.
    pub const FILE_NAME: &'static str = "war3mapUnits.doo";

    /// Reads the units file at the cursor, which must then be at the end of
    /// the bytes: an unknown version or trailing bytes fail with
    /// [`ReadError::Reason`].
    pub fn read(reader: &mut BinaryReader) -> (res: Result<Self, ReadError>)
        requires
            old(reader).wf(),
        ensures
            final(reader).wf(),
            final(reader).contents() == old(reader).contents(),
            ({
                let d = old(reader).contents();
                let p = old(reader).position() as int;
                &&& res is Ok <==> unit_map_end(d, p) == Some(d.len() as int)
                &&& res matches Ok(m) ==> {
                    &&& m.id@ == code_text(d, p)
                    &&& unit_map_version(u32_at(d, p + 4)) == Some(m.version)
                    &&& m.subversion == u32_at(d, p + 8)
                    &&& m.units_items@.len() == u32_at(d, p + 12)
                    &&& seq_read(p + 16, m.units_items@, unit_reads(d, m.version)) == Some(
                        d.len() as int,
                    )
                }
                &&& (has_bytes(d, p, 8) && code_at(d, p) && unit_map_version(u32_at(d, p + 4)) is None)
                    ==> (res matches Err(ReadError::Reason(m)) && m@ == unknown_version(u32_at(d, p + 4)))
                &&& (unit_map_end(d, p) matches Some(q) && q != d.len()) ==> (res matches Err(
                    ReadError::Reason(_),
                ))
            }),
    {
        let id = match reader.read_string_utf8(4) {
            Ok(v) => v,
            Err(e) => {
                return Err(e);
            },
        };
        let code = match reader.read_u32() {
            Ok(v) => v,
            Err(e) => {
                return Err(e);
            },
        };
        let version = match to_game_version(code) {
            Ok(v) => v,
            Err(reason) => {
                return Err(ReadError::Reason(reason));
            },
        };
        let subversion = match reader.read_u32() {
            Ok(v) => v,
            Err(e) => {
                return Err(e);
            },
        };
        let count = match reader.read_u32() {
            Ok(v) => v,
            Err(e) => {
                return Err(e);
            },
        };
        let units_items = match read_units(reader, count, &version) {
            Ok(v) => v,
            Err(e) => {
                return Err(e);
            },
        };
        if reader.size() != reader.pos() as usize {
            let left = reader.size() - reader.pos() as usize;
            return Err(
                ReadError::Reason(
                    crate::formats::text_with_number(
                        "trailing bytes after the units of war3mapUnits.doo: ",
                        left as u64,
                    ),
                ),
            );
        }
        Ok(UnitItemMap { id, version, subversion, units_items })
    }

    /// Writes the units file at the cursor.
    #[verifier::rlimit(40)]
    #[verifier::spinoff_prover]
    pub fn write(&self, writer: &mut BinaryWriter) -> (res: Result<(), WriteError>)
        requires
            old(writer).has_room(unit_map_bytes(*self).len() as int),
            self.version != GameVersion::Reforged,
        ensures
            res is Ok,
            final(writer).contents() == write_at(
                old(writer).contents(),
                old(writer).position() as int,
                unit_map_bytes(*self),
            ),
            final(writer).position() == old(writer).position() + unit_map_bytes(*self).len(),
    {
        let ghost c0 = writer.contents();
        let ghost p0 = writer.position() as int;
        let ghost a = encode_utf8(self.id@);
        let ghost b = le_bytes_u32(unit_map_version_code(self.version));
        let ghost c = le_bytes_u32(self.subversion);
        let ghost e = le_bytes_u32(self.units_items@.len() as u32);
        let ghost f = seq_bytes(self.units_items@, unit_bytes_of(self.version));
        let _ = writer.write_string_utf8(self.id.as_str());
        let _ = writer.write_u32(from_game_version(&self.version));
        proof {
            lemma_write_at_concat(c0, p0, a, b);
        }
        let _ = writer.write_u32(self.subversion);
        proof {
            lemma_write_at_concat(c0, p0, a + b, c);
        }
        let _ = writer.write_u32(self.units_items.len() as u32);
        proof {
            lemma_write_at_concat(c0, p0, a + b + c, e);
        }
        write_units(writer, &self.units_items, &self.version);
        proof {
            lemma_write_at_concat(c0, p0, a + b + c + e, f);
        }
        Ok(())
    }

    /// The serialized units file in a fresh writer.
    pub fn prepare_write(&self) -> (res: Result<BinaryWriter, MapError>)
        requires
            unit_map_bytes(*self).len() <= usize::MAX,
            self.version != GameVersion::Reforged,
        ensures
            res matches Ok(w) && w.contents() == unit_map_bytes(*self),
    {
        let mut writer = BinaryWriter::new();
        let _ = self.write(&mut writer);
        proof {
            assert(write_at(Seq::empty(), 0, unit_map_bytes(*self)) =~= unit_map_bytes(*self));
        }
        Ok(writer)
    }
}

} // verus!
