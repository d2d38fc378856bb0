//! Custom object tables (`war3map.w3u`, `.w3t`, `.w3a`, ...): the objects of
//! a map that differ from the game data, and the fields they modify.

use vstd::prelude::*;

pub mod roundtrip;
pub mod messages;
use vstd::utf8::encode_utf8;

use crate::formats::binary_reader::{u32_at, BinaryReader};
use crate::formats::binary_writer::{lemma_write_at_concat, write_at, BinaryWriter};
use crate::formats::encoding::le_bytes_u32;
use crate::formats::{GameVersion, MpqError, ReadError, WriteError};
use crate::map::error::MapError;
use crate::map::triggers::trigger_data::{c_string_at, has_bytes};
use crate::formats::binary_reader::nul_index;
use crate::map::custom_datas::messages::{
    cstring_fail_message, cstring_fail_text, invalid_meta_message, invalid_meta_text, unsupported_read_message,
    unsupported_read_text, unsupported_write_message, unsupported_write_text,
};

verus! {

/// A four-byte object code.
#[derive(Copy, Clone, PartialOrd, PartialEq, Debug)]
pub struct ObjectIdCode(pub [u8; 4]);

/// A four-byte meta field code.
#[derive(Debug)]
pub struct MetaId(pub [u8; 4]);

/// An object of a custom table: an original one, or a custom one derived
/// from an original one.
#[derive(Debug)]
pub enum ObjectId {
    Original(ObjectIdCode),
    Custom(ObjectIdCode, ObjectIdCode),
}

impl ObjectId {
    /// The custom object `custom_id` derived from `original_id`.
    pub fn for_custom(original_id: [u8; 4], custom_id: [u8; 4]) -> (res: Self)
        ensures
            res matches ObjectId::Custom(o, c) && o.0@ == original_id@ && c.0@ == custom_id@,
    {
        ObjectId::Custom(ObjectIdCode(original_id), ObjectIdCode(custom_id))
    }

    /// The original object `original_id`.
    pub fn for_original(original_id: [u8; 4]) -> (res: Self)
        ensures
            res matches ObjectId::Original(o) && o.0@ == original_id@,
    {
        ObjectId::Original(ObjectIdCode(original_id))
    }
}

/// The new value of a modified field, by the type it is stored as. A real
/// number is held as the bits of its IEEE 754 single precision encoding,
/// which is how the table stores it.
#[derive(Debug)]
pub enum VariableValue {
    Integer(i32),
    Real(u32),
    Unreal(u32),
    String(String),
    Bool(bool),
    Char(char),
    UnitList(String),
    ItemList(String),
    RegenType(String),
    AttackType(String),
    WeaponType(String),
    TargetType(String),
    MoveType(String),
    DefenseType(String),
    PathingTexture(String),
    UpgradeList(String),
    StringList(String),
    AbilityList(String),
    HeroAbilityList(String),
    MissileArt(String),
    AttributeType(String),
    AttackBits(String),
}

/// The number that stores the type of `x`.
pub open spec fn value_tag(x: VariableValue) -> i32 {
    match x {
        VariableValue::Integer(_) => 0,
        VariableValue::Real(_) => 1,
        VariableValue::Unreal(_) => 2,
        VariableValue::String(_) => 3,
        VariableValue::Bool(_) => 4,
        VariableValue::Char(_) => 5,
        VariableValue::UnitList(_) => 6,
        VariableValue::ItemList(_) => 7,
        VariableValue::RegenType(_) => 8,
        VariableValue::AttackType(_) => 9,
        VariableValue::WeaponType(_) => 10,
        VariableValue::TargetType(_) => 11,
        VariableValue::MoveType(_) => 12,
        VariableValue::DefenseType(_) => 13,
        VariableValue::PathingTexture(_) => 14,
        VariableValue::UpgradeList(_) => 15,
        VariableValue::StringList(_) => 16,
        VariableValue::AbilityList(_) => 17,
        VariableValue::HeroAbilityList(_) => 18,
        VariableValue::MissileArt(_) => 19,
        VariableValue::AttributeType(_) => 20,
        VariableValue::AttackBits(_) => 21,
    }
}

/// The text of a value stored as a C string.
pub open spec fn value_text(x: VariableValue) -> Option<Seq<char>> {
    match x {
        VariableValue::String(s) => Some(s@),
        VariableValue::UnitList(s) => Some(s@),
        VariableValue::ItemList(s) => Some(s@),
        VariableValue::RegenType(s) => Some(s@),
        VariableValue::AttackType(s) => Some(s@),
        VariableValue::WeaponType(s) => Some(s@),
        VariableValue::TargetType(s) => Some(s@),
        VariableValue::MoveType(s) => Some(s@),
        VariableValue::DefenseType(s) => Some(s@),
        VariableValue::PathingTexture(s) => Some(s@),
        VariableValue::UpgradeList(s) => Some(s@),
        VariableValue::StringList(s) => Some(s@),
        VariableValue::AbilityList(s) => Some(s@),
        VariableValue::HeroAbilityList(s) => Some(s@),
        VariableValue::MissileArt(s) => Some(s@),
        VariableValue::AttributeType(s) => Some(s@),
        VariableValue::AttackBits(s) => Some(s@),
        _ => None,
    }
}

/// Whether type `t` is stored as a C string.
pub open spec fn text_tag(t: i32) -> bool {
    t == 3 || 6 <= t <= 21
}

/// Whether type `t` can be stored in a table without level data saved for
/// version `v`: the four basic types, and for Reign of Chaos all of them.
pub open spec fn no_opts_tag(t: i32, v: GameVersion) -> bool {
    0 <= t <= 3 || (v == GameVersion::RoC && 4 <= t <= 21)
}

/// Where a value of type `t` stored at `p` ends, when it can be read.
pub open spec fn value_end(d: Seq<u8>, p: int, t: i32) -> Option<int> {
    if 0 <= t <= 2 {
        if has_bytes(d, p, 4) {
            Some(p + 4)
        } else {
            None
        }
    } else if t == 4 || t == 5 {
        if has_bytes(d, p, 1) {
            Some(p + 1)
        } else {
            None
        }
    } else if text_tag(t) {
        match c_string_at(d, p) {
            Some((_, q)) => Some(q),
            None => None,
        }
    } else {
        None
    }
}

/// Whether `x` is the value of type `t` stored at `p`.
pub open spec fn value_at(d: Seq<u8>, p: int, t: i32, x: VariableValue) -> bool {
    &&& value_tag(x) == t
    &&& value_end(d, p, t) is Some
    &&& match x {
        VariableValue::Integer(i) => i == u32_at(d, p) as i32,
        VariableValue::Real(b) => b == u32_at(d, p),
        VariableValue::Unreal(b) => b == u32_at(d, p),
        VariableValue::Bool(b) => b == (d[p] == 1),
        VariableValue::Char(c) => c == d[p] as char,
        _ => value_text(x) == Some(c_string_at(d, p).unwrap().0),
    }
}

/// The type codes of stored values: 0 integer, 1 real, 2 unreal, 3 string,
/// 4 boolean, 5 character, then 6 to 21 the texts of unit lists, item
/// lists, regeneration, attack, weapon, target, move and defense types,
/// pathing textures, upgrade lists, string lists, ability lists, hero
/// ability lists, missile art, attribute types and attack bits. A value read
/// under code 0, 1 or 2 is the integer, real or unreal held in the next four
/// bytes, little endian; under code 3 a string; under code 4 the boolean
/// "byte is 1".
pub proof fn law_value_type_codes(x: VariableValue, d: Seq<u8>, p: int)
    ensures
        x is Integer ==> value_tag(x) == 0,
        x is Real ==> value_tag(x) == 1,
        x is Unreal ==> value_tag(x) == 2,
        x is String ==> value_tag(x) == 3,
        x is Bool ==> value_tag(x) == 4,
        x is Char ==> value_tag(x) == 5,
        x is UnitList ==> value_tag(x) == 6,
        x is ItemList ==> value_tag(x) == 7,
        x is RegenType ==> value_tag(x) == 8,
        x is AttackType ==> value_tag(x) == 9,
        x is WeaponType ==> value_tag(x) == 10,
        x is TargetType ==> value_tag(x) == 11,
        x is MoveType ==> value_tag(x) == 12,
        x is DefenseType ==> value_tag(x) == 13,
        x is PathingTexture ==> value_tag(x) == 14,
        x is UpgradeList ==> value_tag(x) == 15,
        x is StringList ==> value_tag(x) == 16,
        x is AbilityList ==> value_tag(x) == 17,
        x is HeroAbilityList ==> value_tag(x) == 18,
        x is MissileArt ==> value_tag(x) == 19,
        x is AttributeType ==> value_tag(x) == 20,
        x is AttackBits ==> value_tag(x) == 21,
        value_at(d, p, 0, x) ==> x == VariableValue::Integer(u32_at(d, p) as i32),
        value_at(d, p, 1, x) ==> x == VariableValue::Real(u32_at(d, p)),
        value_at(d, p, 2, x) ==> x == VariableValue::Unreal(u32_at(d, p)),
        value_at(d, p, 3, x) ==> x is String,
        value_at(d, p, 4, x) ==> x == VariableValue::Bool(d[p] == 1),
        value_at(d, p, 5, x) ==> x is Char,
        x matches VariableValue::Real(b) ==> value_bytes(x) == le_bytes_u32(b),
        x matches VariableValue::Unreal(b) ==> value_bytes(x) == le_bytes_u32(b),
        x matches VariableValue::Integer(i) ==> value_bytes(x) == le_bytes_u32(i as u32),
{
}

/// Position `n` bytes after `q`, or the end of `d` when that is nearer.
pub open spec fn skip_end(d: Seq<u8>, q: int, n: int) -> int {
    if q + n > d.len() {
        d.len() as int
    } else {
        q + n
    }
}

/// A modified field of an object: its code, its value and, in tables with
/// level data, the level and data pointer it applies to.
#[derive(Debug)]
pub struct MetaModification {
    pub id: MetaId,
    pub value: VariableValue,
    pub level: i32,
    pub data_pointer: i32,
}

/// Where the modification stored at `p` in a table without level data ends,
/// when it can be read for version `v`.
pub open spec fn meta_no_opts_end(d: Seq<u8>, p: int, v: GameVersion) -> Option<int> {
    if !has_bytes(d, p, 8) || !no_opts_tag(u32_at(d, p + 4) as i32, v) {
        None
    } else {
        match value_end(d, p + 8, u32_at(d, p + 4) as i32) {
            Some(q) => Some(skip_end(d, q, 4)),
            None => None,
        }
    }
}

/// Whether `m` is the modification stored at `p` in a table without level
/// data, for version `v`.
pub open spec fn meta_no_opts_at(d: Seq<u8>, p: int, v: GameVersion, m: MetaModification) -> bool {
    &&& meta_no_opts_end(d, p, v) is Some
    &&& m.id.0@ == d.subrange(p, p + 4)
    &&& value_at(d, p + 8, u32_at(d, p + 4) as i32, m.value)
    &&& m.level == 0
    &&& m.data_pointer == 0
}

/// Where the modification stored at `p` in a table with level data ends,
/// when it can be read.
pub open spec fn meta_opts_end(d: Seq<u8>, p: int) -> Option<int> {
    if !has_bytes(d, p, 16) || !(0 <= u32_at(d, p + 4) as i32 <= 3) {
        None
    } else {
        match value_end(d, p + 16, u32_at(d, p + 4) as i32) {
            Some(q) => Some(skip_end(d, q, 4)),
            None => None,
        }
    }
}

/// Whether `m` is the modification stored at `p` in a table with level data.
pub open spec fn meta_opts_at(d: Seq<u8>, p: int, m: MetaModification) -> bool {
    &&& meta_opts_end(d, p) is Some
    &&& m.id.0@ == d.subrange(p, p + 4)
    &&& m.level == u32_at(d, p + 8) as i32
    &&& m.data_pointer == u32_at(d, p + 12) as i32
    &&& value_at(d, p + 16, u32_at(d, p + 4) as i32, m.value)
}

/// Where the modification stored at `p` ends, by the table's layout.
pub open spec fn meta_end(d: Seq<u8>, p: int, v: GameVersion, level: bool) -> Option<int> {
    if level {
        meta_opts_end(d, p)
    } else {
        meta_no_opts_end(d, p, v)
    }
}

/// Whether `m` is the modification stored at `p`, by the table's layout.
pub open spec fn meta_at(d: Seq<u8>, p: int, v: GameVersion, level: bool, m: MetaModification) -> bool {
    if level {
        meta_opts_at(d, p, m)
    } else {
        meta_no_opts_at(d, p, v, m)
    }
}

/// Where `n` modifications stored one after the other from `p` end, when
/// they can all be read.
pub open spec fn metas_end(d: Seq<u8>, p: int, v: GameVersion, level: bool, n: nat) -> Option<int>
    decreases n,
{
    if n == 0 {
        Some(p)
    } else {
        match metas_end(d, p, v, level, (n - 1) as nat) {
            Some(q) => meta_end(d, q, v, level),
            None => None,
        }
    }
}

/// Whether `s` are the modifications stored one after the other from `p`.
pub open spec fn metas_at(d: Seq<u8>, p: int, v: GameVersion, level: bool, s: Seq<MetaModification>) -> bool
    decreases s.len(),
{
    if s.len() == 0 {
        true
    } else {
        metas_at(d, p, v, level, s.drop_last()) && match metas_end(
            d,
            p,
            v,
            level,
            (s.len() - 1) as nat,
        ) {
            Some(q) => meta_at(d, q, v, level, s.last()),
            None => false,
        }
    }
}

/// Once `n` modifications cannot be read, no more can.
pub proof fn lemma_metas_end_none(d: Seq<u8>, p: int, v: GameVersion, level: bool, n: nat, m: nat)
    requires
        metas_end(d, p, v, level, n) is None,
        n <= m,
    ensures
        metas_end(d, p, v, level, m) is None,
    decreases m - n,
{
    if n < m {
        lemma_metas_end_none(d, p, v, level, n, (m - 1) as nat);
    }
}

/// The value of text type `t` holding `s`.
fn text_value(t: i32, s: String) -> (res: VariableValue)
    requires
        text_tag(t),
    ensures
        value_tag(res) == t,
        value_text(res) == Some(s@),
{
    match t {
        3 => VariableValue::String(s),
        6 => VariableValue::UnitList(s),
        7 => VariableValue::ItemList(s),
        8 => VariableValue::RegenType(s),
        9 => VariableValue::AttackType(s),
        10 => VariableValue::WeaponType(s),
        11 => VariableValue::TargetType(s),
        12 => VariableValue::MoveType(s),
        13 => VariableValue::DefenseType(s),
        14 => VariableValue::PathingTexture(s),
        15 => VariableValue::UpgradeList(s),
        16 => VariableValue::StringList(s),
        17 => VariableValue::AbilityList(s),
        18 => VariableValue::HeroAbilityList(s),
        19 => VariableValue::MissileArt(s),
        20 => VariableValue::AttributeType(s),
        _ => VariableValue::AttackBits(s),
    }
}

/// Reads a value of type `t` at the cursor. A C string that is not UTF-8
/// fails with [`ReadError::Utf8Error`].
fn read_value(reader: &mut BinaryReader, t: i32) -> (res: Result<VariableValue, ReadError>)
    requires
        old(reader).wf(),
        0 <= t <= 21,
    ensures
        final(reader).wf(),
        final(reader).contents() == old(reader).contents(),
        res is Ok <==> value_end(old(reader).contents(), old(reader).position() as int, t) is Some,
        res matches Ok(x) ==> value_at(old(reader).contents(), old(reader).position() as int, t, x)
            && final(reader).position() == value_end(
            old(reader).contents(),
            old(reader).position() as int,
            t,
        )->0,
        res matches Err(ReadError::Utf8Error { position, length, .. }) ==> {
            let d = old(reader).contents();
            let p = old(reader).position() as int;
            &&& text_tag(t)
            &&& position == p
            &&& length == nul_index(d, p) - p
            &&& nul_index(d, p) < d.len()
            &&& !vstd::utf8::valid_utf8(d.subrange(p, nul_index(d, p)))
        },
        text_tag(t) && nul_index(old(reader).contents(), old(reader).position() as int) < old(reader).contents().len()
            && !vstd::utf8::valid_utf8(
            old(reader).contents().subrange(
                old(reader).position() as int,
                nul_index(old(reader).contents(), old(reader).position() as int),
            ),
        ) ==> res matches Err(ReadError::Utf8Error { .. }),
{
    if t == 0 {
        match reader.read_i32() {
            Ok(i) => Ok(VariableValue::Integer(i)),
            Err(e) => Err(e),
        }
    } else if t == 1 {
        match reader.read_u32() {
            Ok(b) => Ok(VariableValue::Real(b)),
            Err(e) => Err(e),
        }
    } else if t == 2 {
        match reader.read_u32() {
            Ok(b) => Ok(VariableValue::Unreal(b)),
            Err(e) => Err(e),
        }
    } else if t == 4 {
        match reader.read_u8() {
            Ok(b) => Ok(VariableValue::Bool(b == 1)),
            Err(e) => Err(e),
        }
    } else if t == 5 {
        match reader.read_char() {
            Ok(c) => Ok(VariableValue::Char(c)),
            Err(e) => Err(e),
        }
    } else {
        match reader.read_c_string_converted() {
            Ok(s) => Ok(text_value(t, s)),
            Err(e) => Err(e),
        }
    }
}

proof fn lemma_nul_index_bound(d: Seq<u8>, q: int)
    requires
        0 <= q <= d.len(),
    ensures
        q <= nul_index(d, q),
    decreases d.len() - q,
{
    if q < d.len() && d[q] != 0 {
        lemma_nul_index_bound(d, q + 1);
    }
}

/// Reads a modification of a table without level data saved for version
/// `game_version`. Fails with [`ReadError::Reason`] on a type that such a
/// table cannot hold, and with [`ReadError::InvalidCString`] on text that
/// is not UTF-8.
fn read_meta_no_opts(reader: &mut BinaryReader, id: &ObjectId, game_version: &GameVersion) -> (res:
    Result<MetaModification, ReadError>)
    requires
        old(reader).wf(),
    ensures
        final(reader).wf(),
        final(reader).contents() == old(reader).contents(),
        ({
            let d = old(reader).contents();
            let p = old(reader).position() as int;
            &&& res is Ok <==> meta_no_opts_end(d, p, *game_version) is Some
            &&& res matches Ok(m) ==> meta_no_opts_at(d, p, *game_version, m)
                && final(reader).position() == meta_no_opts_end(d, p, *game_version)->0
            &&& !has_bytes(d, p, 8) ==> (res matches Err(ReadError::EOF))
            &&& has_bytes(d, p, 8) && !no_opts_tag(u32_at(d, p + 4) as i32, *game_version)
                ==> (res matches Err(ReadError::Reason(m)) && m@ == unsupported_read_text(
                u32_at(d, p + 4) as i32,
                *id,
                d.subrange(p, p + 4),
            ))
            &&& has_bytes(d, p, 8) && no_opts_tag(u32_at(d, p + 4) as i32, *game_version) && text_tag(
                u32_at(d, p + 4) as i32,
            ) && nul_index(d, p + 8) < d.len() && !vstd::utf8::valid_utf8(d.subrange(p + 8, nul_index(d, p + 8)))
                ==> (res matches Err(ReadError::InvalidCString(m)) && m@ == invalid_meta_text(
                *id,
                d.subrange(p, p + 4),
            ))
        }),
{
    let ghost d = reader.contents();
    let ghost p = reader.position() as int;
    let bytes = match reader.read_bytes(4) {
        Ok(b) => b,
        Err(e) => {
            return Err(e);
        },
    };
    let meta_id = [bytes[0], bytes[1], bytes[2], bytes[3]];
    assert(meta_id@ =~= d.subrange(p, p + 4));
    let vtype = match reader.read_i32() {
        Ok(t) => t,
        Err(e) => {
            return Err(e);
        },
    };
    let supported = (0 <= vtype && vtype <= 3) || (game_version.is_roc() && 4 <= vtype && vtype
        <= 21);
    if !supported {
        return Err(ReadError::Reason(unsupported_read_message(vtype, id, &meta_id)));
    }
    let value = match read_value(reader, vtype) {
        Ok(x) => x,
        Err(ReadError::Utf8Error { .. }) => {
            return Err(ReadError::InvalidCString(invalid_meta_message(id, &meta_id)));
        },
        Err(e) => {
            return Err(e);
        },
    };
    reader.skip(4);
    Ok(MetaModification { id: MetaId(meta_id), value, level: 0, data_pointer: 0 })
}

/// Reads a modification of a table with level data. Fails with
/// [`ReadError::Reason`] on a type other than the four basic ones, and on
/// text that is not UTF-8.
fn read_meta_opts(reader: &mut BinaryReader, id: &ObjectId) -> (res: Result<MetaModification, ReadError>)
    requires
        old(reader).wf(),
    ensures
        final(reader).wf(),
        final(reader).contents() == old(reader).contents(),
        ({
            let d = old(reader).contents();
            let p = old(reader).position() as int;
            &&& res is Ok <==> meta_opts_end(d, p) is Some
            &&& res matches Ok(m) ==> meta_opts_at(d, p, m) && final(reader).position()
                == meta_opts_end(d, p)->0
            &&& !has_bytes(d, p, 16) ==> (res matches Err(ReadError::EOF))
            &&& has_bytes(d, p, 16) && !(0 <= u32_at(d, p + 4) as i32 <= 3) ==> (res matches Err(
                ReadError::Reason(m),
            ) && m@ == unsupported_read_text(u32_at(d, p + 4) as i32, *id, d.subrange(p, p + 4)))
            &&& has_bytes(d, p, 16) && u32_at(d, p + 4) as i32 == 3 && nul_index(d, p + 16) < d.len()
                && !vstd::utf8::valid_utf8(d.subrange(p + 16, nul_index(d, p + 16))) ==> (res matches Err(
                ReadError::Reason(m),
            ) && m@ == cstring_fail_text(*id, d.subrange(p, p + 4), (nul_index(d, p + 16) + 1) as nat))
        }),
{
    let ghost d = reader.contents();
    let ghost p = reader.position() as int;
    let bytes = match reader.read_bytes(4) {
        Ok(b) => b,
        Err(e) => {
            return Err(e);
        },
    };
    let meta_id = [bytes[0], bytes[1], bytes[2], bytes[3]];
    assert(meta_id@ =~= d.subrange(p, p + 4));
    let vtype = match reader.read_i32() {
        Ok(t) => t,
        Err(e) => {
            return Err(e);
        },
    };
    let level = match reader.read_i32() {
        Ok(l) => l,
        Err(e) => {
            return Err(e);
        },
    };
    let data_pointer = match reader.read_i32() {
        Ok(l) => l,
        Err(e) => {
            return Err(e);
        },
    };
    if !(0 <= vtype && vtype <= 3) {
        return Err(ReadError::Reason(unsupported_read_message(vtype, id, &meta_id)));
    }
    let ghost q = reader.position() as int;
    let value = match read_value(reader, vtype) {
        Ok(x) => x,
        Err(ReadError::Utf8Error { position, length, .. }) => {
            let size = reader.size();
            proof {
                lemma_nul_index_bound(d, q);
                assert(position as int + length as int + 1 <= size);
            }
            let after = position + length as u64 + 1;
            return Err(ReadError::Reason(cstring_fail_message(id, &meta_id, after)));
        },
        Err(e) => {
            return Err(e);
        },
    };
    reader.skip(4);
    Ok(MetaModification { id: MetaId(meta_id), value, level, data_pointer })
}

/// Reads `n` modifications, by the table's layout.
fn read_metas(reader: &mut BinaryReader, n: u32, id: &ObjectId, game_version: &GameVersion, level: bool) -> (res:
    Result<Vec<MetaModification>, ReadError>)
    requires
        old(reader).wf(),
    ensures
        final(reader).wf(),
        final(reader).contents() == old(reader).contents(),
        ({
            let d = old(reader).contents();
            let p = old(reader).position() as int;
            &&& res is Ok <==> metas_end(d, p, *game_version, level, n as nat) is Some
            &&& res matches Ok(s) ==> s@.len() == n && metas_at(d, p, *game_version, level, s@)
                && final(reader).position() == metas_end(d, p, *game_version, level, n as nat)->0
        }),
{
    let ghost d = reader.contents();
    let ghost p0 = reader.position() as int;
    let ghost v = *game_version;
    let mut items: Vec<MetaModification> = Vec::new();
    let mut k: u32 = 0;
    while k < n
        invariant
            reader.wf(),
            reader.contents() == d,
            d == old(reader).contents(),
            p0 == old(reader).position(),
            v == *game_version,
            k <= n,
            items@.len() == k,
            metas_end(d, p0, v, level, k as nat) == Some(reader.position() as int),
            metas_at(d, p0, v, level, items@),
        decreases n - k,
    {
        let ghost q = reader.position() as int;
        let read = if level {
            read_meta_opts(reader, id)
        } else {
            read_meta_no_opts(reader, id, game_version)
        };
        let m = match read {
            Ok(m) => m,
            Err(e) => {
                proof {
                    assert(metas_end(d, p0, v, level, (k + 1) as nat) is None);
                    lemma_metas_end_none(d, p0, v, level, (k + 1) as nat, n as nat);
                }
                return Err(e);
            },
        };
        let ghost before = items@;
        items.push(m);
        assert(items@.drop_last() == before);
        k = k + 1;
    }
    Ok(items)
}

/// An object of a custom table and the fields it modifies.
#[derive(Debug)]
pub struct ObjectDefinition {
    pub id: ObjectId,
    pub modified_datas: Vec<MetaModification>,
}

/// Where the modifications of an object stored at `p` (a count, then the
/// modifications) end, when they can be read.
pub open spec fn modifications_end(d: Seq<u8>, p: int, v: GameVersion, level: bool) -> Option<int> {
    if has_bytes(d, p, 4) {
        metas_end(d, p + 4, v, level, u32_at(d, p) as nat)
    } else {
        None
    }
}

/// Whether `s` are the modifications of an object stored at `p`.
pub open spec fn modifications_at(d: Seq<u8>, p: int, v: GameVersion, level: bool, s: Seq<MetaModification>) -> bool {
    &&& modifications_end(d, p, v, level) is Some
    &&& s.len() == u32_at(d, p)
    &&& metas_at(d, p + 4, v, level, s)
}

impl ObjectDefinition {
    /// Reads the modifications of object `id` in a table with level data.
    pub fn read_with_optional(reader: &mut BinaryReader, id: ObjectId) -> (res: Result<Self, ReadError>)
        requires
            old(reader).wf(),
        ensures
            final(reader).wf(),
            final(reader).contents() == old(reader).contents(),
            ({
                let d = old(reader).contents();
                let p = old(reader).position() as int;
                let v = GameVersion::TFT;
                &&& res is Ok <==> modifications_end(d, p, v, true) is Some
                &&& res matches Ok(x) ==> x.id == id && modifications_at(d, p, v, true, x.modified_datas@)
                    && final(reader).position() == modifications_end(d, p, v, true)->0
                &&& !has_bytes(d, p, 4) ==> (res matches Err(ReadError::EOF))
            }),
    {
        let n = match reader.read_u32() {
            Ok(n) => n,
            Err(e) => {
                return Err(e);
            },
        };
        match read_metas(reader, n, &id, &GameVersion::TFT, true) {
            Ok(modified_datas) => Ok(ObjectDefinition { id, modified_datas }),
            Err(e) => Err(e),
        }
    }

    /// Reads the modifications of object `id` in a table without level data
    /// saved for version `game_version`.
    pub fn read_without_optional(reader: &mut BinaryReader, id: ObjectId, game_version: &GameVersion) -> (res:
        Result<Self, ReadError>)
        requires
            old(reader).wf(),
        ensures
            final(reader).wf(),
            final(reader).contents() == old(reader).contents(),
            ({
                let d = old(reader).contents();
                let p = old(reader).position() as int;
                let v = *game_version;
                &&& res is Ok <==> modifications_end(d, p, v, false) is Some
                &&& res matches Ok(x) ==> x.id == id && modifications_at(d, p, v, false, x.modified_datas@)
                    && final(reader).position() == modifications_end(d, p, v, false)->0
                &&& !has_bytes(d, p, 4) ==> (res matches Err(ReadError::EOF))
            }),
    {
        let n = match reader.read_u32() {
            Ok(n) => n,
            Err(e) => {
                return Err(e);
            },
        };
        match read_metas(reader, n, &id, game_version, false) {
            Ok(modified_datas) => Ok(ObjectDefinition { id, modified_datas }),
            Err(e) => Err(e),
        }
    }
}

/// The four zero bytes that stand for "no custom code".
pub open spec fn no_code() -> Seq<u8> {
    seq![0u8, 0u8, 0u8, 0u8]
}

/// Whether `id` is the object code pair stored at `p`: an original object
/// has a zero custom code.
pub open spec fn object_id_at(d: Seq<u8>, p: int, id: ObjectId) -> bool {
    match id {
        ObjectId::Original(o) => o.0@ == d.subrange(p, p + 4) && d.subrange(p + 4, p + 8)
            == no_code(),
        ObjectId::Custom(o, c) => o.0@ == d.subrange(p, p + 4) && c.0@ == d.subrange(p + 4, p + 8)
            && d.subrange(p + 4, p + 8) != no_code(),
    }
}

/// Where the object stored at `p` (two codes, then its modifications) ends,
/// when it can be read.
pub open spec fn object_end(d: Seq<u8>, p: int, v: GameVersion, level: bool) -> Option<int> {
    if has_bytes(d, p, 8) {
        modifications_end(d, p + 8, v, level)
    } else {
        None
    }
}

/// Whether `x` is the object stored at `p`.
pub open spec fn object_at(d: Seq<u8>, p: int, v: GameVersion, level: bool, x: ObjectDefinition) -> bool {
    &&& object_end(d, p, v, level) is Some
    &&& object_id_at(d, p, x.id)
    &&& modifications_at(d, p + 8, v, level, x.modified_datas@)
}

/// Where `n` objects stored one after the other from `p` end, when they can
/// all be read.
pub open spec fn objects_end(d: Seq<u8>, p: int, v: GameVersion, level: bool, n: nat) -> Option<int>
    decreases n,
{
    if n == 0 {
        Some(p)
    } else {
        match objects_end(d, p, v, level, (n - 1) as nat) {
            Some(q) => object_end(d, q, v, level),
            None => None,
        }
    }
}

/// Whether `s` are the objects stored one after the other from `p`.
pub open spec fn objects_at(d: Seq<u8>, p: int, v: GameVersion, level: bool, s: Seq<ObjectDefinition>) -> bool
    decreases s.len(),
{
    if s.len() == 0 {
        true
    } else {
        objects_at(d, p, v, level, s.drop_last()) && match objects_end(
            d,
            p,
            v,
            level,
            (s.len() - 1) as nat,
        ) {
            Some(q) => object_at(d, q, v, level, s.last()),
            None => false,
        }
    }
}

/// Once `n` objects cannot be read, no more can.
pub proof fn lemma_objects_end_none(d: Seq<u8>, p: int, v: GameVersion, level: bool, n: nat, m: nat)
    requires
        objects_end(d, p, v, level, n) is None,
        n <= m,
    ensures
        objects_end(d, p, v, level, m) is None,
    decreases m - n,
{
    if n < m {
        lemma_objects_end_none(d, p, v, level, n, (m - 1) as nat);
    }
}

/// With level data, where modifications end does not depend on the version.
proof fn lemma_metas_end_opts(d: Seq<u8>, p: int, v: GameVersion, n: nat)
    ensures
        metas_end(d, p, v, true, n) == metas_end(d, p, GameVersion::TFT, true, n),
    decreases n,
{
    if n > 0 {
        lemma_metas_end_opts(d, p, v, (n - 1) as nat);
    }
}

/// With level data, which modifications are stored does not depend on the
/// version.
proof fn lemma_metas_at_opts(d: Seq<u8>, p: int, v: GameVersion, s: Seq<MetaModification>)
    ensures
        metas_at(d, p, v, true, s) == metas_at(d, p, GameVersion::TFT, true, s),
    decreases s.len(),
{
    if s.len() > 0 {
        lemma_metas_at_opts(d, p, v, s.drop_last());
        lemma_metas_end_opts(d, p, v, (s.len() - 1) as nat);
    }
}

/// Where a table stored at `p` (a version, the original objects, then the
/// custom objects, each list after its count) ends, when it can be read.
pub open spec fn table_end(d: Seq<u8>, p: int, v: GameVersion, level: bool) -> Option<int> {
    if !has_bytes(d, p, 8) {
        None
    } else {
        match objects_end(d, p + 8, v, level, u32_at(d, p + 4) as nat) {
            Some(q) => if has_bytes(d, q, 4) {
                objects_end(d, q + 4, v, level, u32_at(d, q) as nat)
            } else {
                None
            },
            None => None,
        }
    }
}

/// Errors of the custom abilities table.
#[derive(Debug)]
pub enum CustomAbilityError {
    MpqError(MpqError),
    InitReader(ReadError),
    Parsing(ReadError),
    SaveError(WriteError),
}

/// Errors of the custom buffs table.
#[derive(Debug)]
pub enum CustomBuffError {
    MpqError(MpqError),
    InitReader(ReadError),
    Parsing(ReadError),
    SaveError(WriteError),
}

/// Errors of the custom destructables table.
#[derive(Debug)]
pub enum CustomDestructableError {
    MpqError(MpqError),
    InitReader(ReadError),
    Parsing(ReadError),
    SaveError(WriteError),
}

/// Errors of the custom items table.
#[derive(Debug)]
pub enum CustomItemError {
    MpqError(MpqError),
    InitReader(ReadError),
    Parsing(ReadError),
    SaveError(WriteError),
}

/// Errors of the custom units table.
#[derive(Debug)]
pub enum CustomUnitError {
    MpqError(MpqError),
    InitReader(ReadError),
    Parsing(ReadError),
    SaveError(WriteError),
}

/// Errors of the custom upgrades table.
#[derive(Debug)]
pub enum CustomUpgradeError {
    MpqError(MpqError),
    InitReader(ReadError),
    Parsing(ReadError),
    SaveError(WriteError),
}

/// One kind of custom object table: its archive file name, its layout, and
/// how its failures show in [`MapError`].
pub trait CustomObjectKind {
    /// Whether modifications of this table carry a level and a data pointer.
    spec fn level_data() -> bool;

    /// Name of the table in the map archive.
    spec fn file_name_text() -> Seq<char>;

    /// The map error of this table for a failure `e` to set up the reader.
    spec fn init_error_of(e: ReadError) -> MapError;

    /// The map error of this table for a failure `e` to parse it.
    spec fn parsing_error_of(e: ReadError) -> MapError;

    /// The map error of this table for a failure `e` to serialize it.
    spec fn save_error_of(e: WriteError) -> MapError;

    /// Name of the table in the map archive.
    fn file_name() -> (res: &'static str)
        ensures
            res@ == Self::file_name_text(),
    ;

    /// Whether modifications of this table carry a level and a data pointer.
    fn has_level_data() -> (res: bool)
        ensures
            res == Self::level_data(),
    ;

    /// A failure to set up the reader.
    fn init_error(e: ReadError) -> (res: MapError)
        ensures
            res == Self::init_error_of(e),
    ;

    /// A failure to parse the table.
    fn parsing_error(e: ReadError) -> (res: MapError)
        ensures
            res == Self::parsing_error_of(e),
    ;

    /// A failure to serialize the table.
    fn save_error(e: WriteError) -> (res: MapError)
        ensures
            res == Self::save_error_of(e),
    ;
}

/// Kind marker for the custom abilities table.
#[derive(Debug)]
pub struct AbilityKind;

impl AbilityKind {
    /// Name of the table in the map archive.
    pub const FILE_NAME: &'static str = "war3map.w3a";
    /// Whether modifications carry level data.
    pub const HAS_LEVEL_DATA: bool = true;
}

impl CustomObjectKind for AbilityKind {
    open spec fn level_data() -> bool {
        true
    }

    open spec fn file_name_text() -> Seq<char> {
        Self::FILE_NAME@
    }

    open spec fn init_error_of(e: ReadError) -> MapError {
        MapError::CustomAbility(CustomAbilityError::InitReader(e))
    }

    open spec fn parsing_error_of(e: ReadError) -> MapError {
        MapError::CustomAbility(CustomAbilityError::Parsing(e))
    }

    open spec fn save_error_of(e: WriteError) -> MapError {
        MapError::CustomAbility(CustomAbilityError::SaveError(e))
    }

    fn file_name() -> (res: &'static str) {
        Self::FILE_NAME
    }

    fn has_level_data() -> (res: bool) {
        Self::HAS_LEVEL_DATA
    }

    fn init_error(e: ReadError) -> (res: MapError) {
        MapError::CustomAbility(CustomAbilityError::InitReader(e))
    }

    fn parsing_error(e: ReadError) -> (res: MapError) {
        MapError::CustomAbility(CustomAbilityError::Parsing(e))
    }

    fn save_error(e: WriteError) -> (res: MapError) {
        MapError::CustomAbility(CustomAbilityError::SaveError(e))
    }
}

/// Kind marker for the custom buffs table.
#[derive(Debug)]
pub struct BuffKind;

impl BuffKind {
    /// Name of the table in the map archive.
    pub const FILE_NAME: &'static str = "war3map.w3h";
    /// Whether modifications carry level data.
    pub const HAS_LEVEL_DATA: bool = false;
}

impl CustomObjectKind for BuffKind {
    open spec fn level_data() -> bool {
        false
    }

    open spec fn file_name_text() -> Seq<char> {
        Self::FILE_NAME@
    }

    open spec fn init_error_of(e: ReadError) -> MapError {
        MapError::CustomBuff(CustomBuffError::InitReader(e))
    }

    open spec fn parsing_error_of(e: ReadError) -> MapError {
        MapError::CustomBuff(CustomBuffError::Parsing(e))
    }

    open spec fn save_error_of(e: WriteError) -> MapError {
        MapError::CustomBuff(CustomBuffError::SaveError(e))
    }

    fn file_name() -> (res: &'static str) {
        Self::FILE_NAME
    }

    fn has_level_data() -> (res: bool) {
        Self::HAS_LEVEL_DATA
    }

    fn init_error(e: ReadError) -> (res: MapError) {
        MapError::CustomBuff(CustomBuffError::InitReader(e))
    }

    fn parsing_error(e: ReadError) -> (res: MapError) {
        MapError::CustomBuff(CustomBuffError::Parsing(e))
    }

    fn save_error(e: WriteError) -> (res: MapError) {
        MapError::CustomBuff(CustomBuffError::SaveError(e))
    }
}

/// Kind marker for the custom destructables table.
#[derive(Debug)]
pub struct DestructableKind;

impl DestructableKind {
    /// Name of the table in the map archive.
    pub const FILE_NAME: &'static str = "war3map.w3b";
    /// Whether modifications carry level data.
    pub const HAS_LEVEL_DATA: bool = false;
}

impl CustomObjectKind for DestructableKind {
    open spec fn level_data() -> bool {
        false
    }

    open spec fn file_name_text() -> Seq<char> {
        Self::FILE_NAME@
    }

    open spec fn init_error_of(e: ReadError) -> MapError {
        MapError::CustomDestructable(CustomDestructableError::InitReader(e))
    }

    open spec fn parsing_error_of(e: ReadError) -> MapError {
        MapError::CustomDestructable(CustomDestructableError::Parsing(e))
    }

    open spec fn save_error_of(e: WriteError) -> MapError {
        MapError::CustomDestructable(CustomDestructableError::SaveError(e))
    }

    fn file_name() -> (res: &'static str) {
        Self::FILE_NAME
    }

    fn has_level_data() -> (res: bool) {
        Self::HAS_LEVEL_DATA
    }

    fn init_error(e: ReadError) -> (res: MapError) {
        MapError::CustomDestructable(CustomDestructableError::InitReader(e))
    }

    fn parsing_error(e: ReadError) -> (res: MapError) {
        MapError::CustomDestructable(CustomDestructableError::Parsing(e))
    }

    fn save_error(e: WriteError) -> (res: MapError) {
        MapError::CustomDestructable(CustomDestructableError::SaveError(e))
    }
}

/// Kind marker for the custom items table.
#[derive(Debug)]
pub struct ItemKind;

impl ItemKind {
    /// Name of the table in the map archive.
    pub const FILE_NAME: &'static str = "war3map.w3t";
    /// Whether modifications carry level data.
    pub const HAS_LEVEL_DATA: bool = false;
}

impl CustomObjectKind for ItemKind {
    open spec fn level_data() -> bool {
        false
    }

    open spec fn file_name_text() -> Seq<char> {
        Self::FILE_NAME@
    }

    open spec fn init_error_of(e: ReadError) -> MapError {
        MapError::CustomItem(CustomItemError::InitReader(e))
    }

    open spec fn parsing_error_of(e: ReadError) -> MapError {
        MapError::CustomItem(CustomItemError::Parsing(e))
    }

    open spec fn save_error_of(e: WriteError) -> MapError {
        MapError::CustomItem(CustomItemError::SaveError(e))
    }

    fn file_name() -> (res: &'static str) {
        Self::FILE_NAME
    }

    fn has_level_data() -> (res: bool) {
        Self::HAS_LEVEL_DATA
    }

    fn init_error(e: ReadError) -> (res: MapError) {
        MapError::CustomItem(CustomItemError::InitReader(e))
    }

    fn parsing_error(e: ReadError) -> (res: MapError) {
        MapError::CustomItem(CustomItemError::Parsing(e))
    }

    fn save_error(e: WriteError) -> (res: MapError) {
        MapError::CustomItem(CustomItemError::SaveError(e))
    }
}

/// Kind marker for the custom units table.
#[derive(Debug)]
pub struct UnitKind;

impl UnitKind {
    /// Name of the table in the map archive.
    pub const FILE_NAME: &'static str = "war3map.w3u";
    /// Whether modifications carry level data.
    pub const HAS_LEVEL_DATA: bool = false;
}

impl CustomObjectKind for UnitKind {
    open spec fn level_data() -> bool {
        false
    }

    open spec fn file_name_text() -> Seq<char> {
        Self::FILE_NAME@
    }

    open spec fn init_error_of(e: ReadError) -> MapError {
        MapError::CustomUnit(CustomUnitError::InitReader(e))
    }

    open spec fn parsing_error_of(e: ReadError) -> MapError {
        MapError::CustomUnit(CustomUnitError::Parsing(e))
    }

    open spec fn save_error_of(e: WriteError) -> MapError {
        MapError::CustomUnit(CustomUnitError::SaveError(e))
    }

    fn file_name() -> (res: &'static str) {
        Self::FILE_NAME
    }

    fn has_level_data() -> (res: bool) {
        Self::HAS_LEVEL_DATA
    }

    fn init_error(e: ReadError) -> (res: MapError) {
        MapError::CustomUnit(CustomUnitError::InitReader(e))
    }

    fn parsing_error(e: ReadError) -> (res: MapError) {
        MapError::CustomUnit(CustomUnitError::Parsing(e))
    }

    fn save_error(e: WriteError) -> (res: MapError) {
        MapError::CustomUnit(CustomUnitError::SaveError(e))
    }
}

/// Kind marker for the custom upgrades table.
#[derive(Debug)]
pub struct UpgradeKind;

impl UpgradeKind {
    /// Name of the table in the map archive.
    pub const FILE_NAME: &'static str = "war3map.w3q";
    /// Whether modifications carry level data.
    pub const HAS_LEVEL_DATA: bool = true;
}

impl CustomObjectKind for UpgradeKind {
    open spec fn level_data() -> bool {
        true
    }

    open spec fn file_name_text() -> Seq<char> {
        Self::FILE_NAME@
    }

    open spec fn init_error_of(e: ReadError) -> MapError {
        MapError::CustomUpgrade(CustomUpgradeError::InitReader(e))
    }

    open spec fn parsing_error_of(e: ReadError) -> MapError {
        MapError::CustomUpgrade(CustomUpgradeError::Parsing(e))
    }

    open spec fn save_error_of(e: WriteError) -> MapError {
        MapError::CustomUpgrade(CustomUpgradeError::SaveError(e))
    }

    fn file_name() -> (res: &'static str) {
        Self::FILE_NAME
    }

    fn has_level_data() -> (res: bool) {
        Self::HAS_LEVEL_DATA
    }

    fn init_error(e: ReadError) -> (res: MapError) {
        MapError::CustomUpgrade(CustomUpgradeError::InitReader(e))
    }

    fn parsing_error(e: ReadError) -> (res: MapError) {
        MapError::CustomUpgrade(CustomUpgradeError::Parsing(e))
    }

    fn save_error(e: WriteError) -> (res: MapError) {
        MapError::CustomUpgrade(CustomUpgradeError::SaveError(e))
    }
}

/// A custom object table of kind `K`: its format version, then the
/// modified original objects and the custom objects.
#[derive(Debug)]
pub struct CustomObjectsFile<K: CustomObjectKind> {
    pub version: u32,
    pub original_objects: Vec<ObjectDefinition>,
    pub custom_objects: Vec<ObjectDefinition>,
    pub kind: std::marker::PhantomData<K>,
}

/// The custom abilities table.
pub type CustomAbilityFile = CustomObjectsFile<AbilityKind>;

/// The custom buffs table.
pub type CustomBuffFile = CustomObjectsFile<BuffKind>;

/// The custom destructables table.
pub type CustomDestructableFile = CustomObjectsFile<DestructableKind>;

/// The custom items table.
pub type CustomItemFile = CustomObjectsFile<ItemKind>;

/// The custom units table.
pub type CustomUnitFile = CustomObjectsFile<UnitKind>;

/// The custom upgrades table.
pub type CustomUpgradeFile = CustomObjectsFile<UpgradeKind>;

/// Whether a table of version `version`, original objects `orig` and custom
/// objects `custom` is the one stored at `p`.
pub open spec fn table_at(
    d: Seq<u8>,
    p: int,
    v: GameVersion,
    level: bool,
    version: u32,
    orig: Seq<ObjectDefinition>,
    custom: Seq<ObjectDefinition>,
) -> bool {
    &&& table_end(d, p, v, level) is Some
    &&& version == u32_at(d, p)
    &&& orig.len() == u32_at(d, p + 4)
    &&& objects_at(d, p + 8, v, level, orig)
    &&& custom.len() == u32_at(d, objects_end(d, p + 8, v, level, orig.len())->0)
    &&& objects_at(d, objects_end(d, p + 8, v, level, orig.len())->0 + 4, v, level, custom)
}

/// The layout of the custom object tables: a table starts with its format
/// version and the count of its original objects as little-endian words at
/// bytes 0 and 4, the original objects following from byte 8, then the count
/// of custom objects and those objects; an object starts with the code of
/// its original in bytes 0 to 3 and its own code in bytes 4 to 7, four zero
/// bytes for an original object. The ability and upgrade tables carry a
/// level and a data pointer with each modification; the buff, destructable,
/// item and unit tables do not.
pub proof fn law_custom_table_layout(
    d: Seq<u8>,
    p: int,
    v: GameVersion,
    level: bool,
    version: u32,
    orig: Seq<ObjectDefinition>,
    custom: Seq<ObjectDefinition>,
    id: ObjectId,
)
    ensures
        AbilityKind::level_data(),
        UpgradeKind::level_data(),
        !BuffKind::level_data(),
        !DestructableKind::level_data(),
        !ItemKind::level_data(),
        !UnitKind::level_data(),
        table_at(d, p, v, level, version, orig, custom) ==> version == u32_at(d, p) && orig.len() == u32_at(
            d,
            p + 4,
        ),
        object_id_at(d, p, id) ==> match id {
            ObjectId::Original(o) => o.0@ == d.subrange(p, p + 4) && d.subrange(p + 4, p + 8) == seq![
                0u8,
                0u8,
                0u8,
                0u8,
            ],
            ObjectId::Custom(o, c) => o.0@ == d.subrange(p, p + 4) && c.0@ == d.subrange(p + 4, p + 8)
                && d.subrange(p + 4, p + 8) != seq![0u8, 0u8, 0u8, 0u8],
        },
{
}

impl<K: CustomObjectKind> CustomObjectsFile<K> {
    /// Reads an object: its original code, its custom code (zero for an
    /// original object), then its modifications by the layout of `K`.
    fn read_object(reader: &mut BinaryReader, game_version: &GameVersion) -> (res: Result<
        ObjectDefinition,
        ReadError,
    >)
        requires
            old(reader).wf(),
        ensures
            final(reader).wf(),
            final(reader).contents() == old(reader).contents(),
            ({
                let d = old(reader).contents();
                let p = old(reader).position() as int;
                let v = *game_version;
                &&& res is Ok <==> object_end(d, p, v, K::level_data()) is Some
                &&& res matches Ok(x) ==> object_at(d, p, v, K::level_data(), x)
                    && final(reader).position() == object_end(d, p, v, K::level_data())->0
            }),
    {
        let ghost d = reader.contents();
        let ghost p = reader.position() as int;
        let first = match reader.read_bytes(4) {
            Ok(b) => b,
            Err(e) => {
                return Err(e);
            },
        };
        let second = match reader.read_bytes(4) {
            Ok(b) => b,
            Err(e) => {
                return Err(e);
            },
        };
        let original_id = [first[0], first[1], first[2], first[3]];
        let custom_id = [second[0], second[1], second[2], second[3]];
        assert(original_id@ =~= d.subrange(p, p + 4));
        assert(custom_id@ =~= d.subrange(p + 4, p + 8));
        let id = if custom_id[0] == 0 && custom_id[1] == 0 && custom_id[2] == 0 && custom_id[3]
            == 0 {
            assert(custom_id@ =~= no_code());
            ObjectId::for_original(original_id)
        } else {
            assert(custom_id@ != no_code()) by {
                if custom_id@ == no_code() {
                    assert(custom_id@[0] == 0 && custom_id@[1] == 0 && custom_id@[2] == 0
                        && custom_id@[3] == 0);
                }
            }
            ObjectId::for_custom(original_id, custom_id)
        };
        if K::has_level_data() {
            let ghost q = reader.position() as int;
            let res = ObjectDefinition::read_with_optional(reader, id);
            proof {
                if has_bytes(d, q, 4) {
                    lemma_metas_end_opts(d, q + 4, *game_version, u32_at(d, q) as nat);
                }
            }
            match res {
                Ok(x) => {
                    proof {
                        lemma_metas_at_opts(d, q + 4, *game_version, x.modified_datas@);
                    }
                    Ok(x)
                },
                Err(e) => Err(e),
            }
        } else {
            ObjectDefinition::read_without_optional(reader, id, game_version)
        }
    }

    /// Reads `n` objects.
    fn read_objects(reader: &mut BinaryReader, n: u32, game_version: &GameVersion) -> (res: Result<
        Vec<ObjectDefinition>,
        ReadError,
    >)
        requires
            old(reader).wf(),
        ensures
            final(reader).wf(),
            final(reader).contents() == old(reader).contents(),
            ({
                let d = old(reader).contents();
                let p = old(reader).position() as int;
                let v = *game_version;
                &&& res is Ok <==> objects_end(d, p, v, K::level_data(), n as nat) is Some
                &&& res matches Ok(s) ==> s@.len() == n && objects_at(d, p, v, K::level_data(), s@)
                    && final(reader).position() == objects_end(d, p, v, K::level_data(), n as nat)->0
            }),
    {
        let ghost d = reader.contents();
        let ghost p0 = reader.position() as int;
        let ghost v = *game_version;
        let ghost level = K::level_data();
        let mut items: Vec<ObjectDefinition> = Vec::new();
        let mut k: u32 = 0;
        while k < n
            invariant
                reader.wf(),
                reader.contents() == d,
                d == old(reader).contents(),
                p0 == old(reader).position(),
                v == *game_version,
                level == K::level_data(),
                k <= n,
                items@.len() == k,
                objects_end(d, p0, v, level, k as nat) == Some(reader.position() as int),
                objects_at(d, p0, v, level, items@),
            decreases n - k,
        {
            let x = match Self::read_object(reader, game_version) {
                Ok(x) => x,
                Err(e) => {
                    proof {
                        assert(objects_end(d, p0, v, level, (k + 1) as nat) is None);
                        lemma_objects_end_none(d, p0, v, level, (k + 1) as nat, n as nat);
                    }
                    return Err(e);
                },
            };
            let ghost before = items@;
            items.push(x);
            assert(items@.drop_last() == before);
            k = k + 1;
        }
        Ok(items)
    }

    /// Parses the table at the cursor, which must then be at the end of the
    /// bytes: trailing bytes fail with [`ReadError::Reason`].
    pub fn parse(reader: &mut BinaryReader, game_version: &GameVersion) -> (res: Result<Self, ReadError>)
        requires
            old(reader).wf(),
        ensures
            final(reader).wf(),
            final(reader).contents() == old(reader).contents(),
            ({
                let d = old(reader).contents();
                let p = old(reader).position() as int;
                let v = *game_version;
                &&& res is Ok <==> table_end(d, p, v, K::level_data()) == Some(d.len() as int)
                &&& res matches Ok(f) ==> table_at(
                    d,
                    p,
                    v,
                    K::level_data(),
                    f.version,
                    f.original_objects@,
                    f.custom_objects@,
                )
                &&& (table_end(d, p, v, K::level_data()) matches Some(q) && q != d.len()) ==> (
                res matches Err(ReadError::Reason(_)))
            }),
    {
        let ghost d = reader.contents();
        let ghost p = reader.position() as int;
        let version = match reader.read_u32() {
            Ok(x) => x,
            Err(e) => {
                return Err(e);
            },
        };
        let original_count = match reader.read_u32() {
            Ok(x) => x,
            Err(e) => {
                return Err(e);
            },
        };
        let original_objects = match Self::read_objects(reader, original_count, game_version) {
            Ok(s) => s,
            Err(e) => {
                return Err(e);
            },
        };
        let custom_count = match reader.read_u32() {
            Ok(x) => x,
            Err(e) => {
                return Err(e);
            },
        };
        let custom_objects = match Self::read_objects(reader, custom_count, game_version) {
            Ok(s) => s,
            Err(e) => {
                return Err(e);
            },
        };
        if reader.size() != reader.pos() as usize {
            let left = reader.size() - reader.pos() as usize;
            return Err(
                ReadError::Reason(
                    crate::formats::text_with_number(
                        "reader hasn't reached the end of the table. Missing bytes: ",
                        left as u64,
                    ),
                ),
            );
        }
        Ok(CustomObjectsFile {
            version,
            original_objects,
            custom_objects,
            kind: std::marker::PhantomData,
        })
    }

    /// Parses the table when there are bytes; an empty buffer has no table.
    pub fn read_opt(reader: &mut BinaryReader, game_version: &GameVersion) -> (res: Result<
        Option<Self>,
        MapError,
    >)
        requires
            old(reader).wf(),
        ensures
            final(reader).wf(),
            final(reader).contents() == old(reader).contents(),
            ({
                let d = old(reader).contents();
                let p = old(reader).position() as int;
                let v = *game_version;
                &&& d.len() == 0 ==> (res matches Ok(None))
                &&& d.len() > 0 ==> (res is Ok <==> table_end(d, p, v, K::level_data()) == Some(
                    d.len() as int,
                ))
                &&& res matches Ok(Some(f)) ==> d.len() > 0 && table_at(
                    d,
                    p,
                    v,
                    K::level_data(),
                    f.version,
                    f.original_objects@,
                    f.custom_objects@,
                )
            }),
    {
        if reader.size() > 0 {
            match Self::parse(reader, game_version) {
                Ok(parsed) => Ok(Some(parsed)),
                Err(e) => Err(K::parsing_error(e)),
            }
        } else {
            Ok(None)
        }
    }
}

impl VariableValue {
    /// The number that stores the type of the value.
    pub fn get_type_value(&self) -> (res: i32)
        ensures
            res == value_tag(*self),
    {
        match self {
            VariableValue::Integer(_) => 0,
            VariableValue::Real(_) => 1,
            VariableValue::Unreal(_) => 2,
            VariableValue::String(_) => 3,
            VariableValue::Bool(_) => 4,
            VariableValue::Char(_) => 5,
            VariableValue::UnitList(_) => 6,
            VariableValue::ItemList(_) => 7,
            VariableValue::RegenType(_) => 8,
            VariableValue::AttackType(_) => 9,
            VariableValue::WeaponType(_) => 10,
            VariableValue::TargetType(_) => 11,
            VariableValue::MoveType(_) => 12,
            VariableValue::DefenseType(_) => 13,
            VariableValue::PathingTexture(_) => 14,
            VariableValue::UpgradeList(_) => 15,
            VariableValue::StringList(_) => 16,
            VariableValue::AbilityList(_) => 17,
            VariableValue::HeroAbilityList(_) => 18,
            VariableValue::MissileArt(_) => 19,
            VariableValue::AttributeType(_) => 20,
            VariableValue::AttackBits(_) => 21,
        }
    }
}

/// The bytes that store the value `x` (after its type).
pub open spec fn value_bytes(x: VariableValue) -> Seq<u8> {
    match x {
        VariableValue::Integer(i) => le_bytes_u32(i as u32),
        VariableValue::Real(b) => le_bytes_u32(b),
        VariableValue::Unreal(b) => le_bytes_u32(b),
        VariableValue::Bool(b) => seq![
            if b {
                1u8
            } else {
                0u8
            },
        ],
        VariableValue::Char(c) => seq![(c as u32) as u8],
        _ => encode_utf8(value_text(x)->0).push(0u8),
    }
}

/// Whether the text of `x`, if it has one, can be stored as a C string.
pub open spec fn value_text_ok(x: VariableValue) -> bool {
    value_text(x) matches Some(s) ==> !encode_utf8(s).contains(0u8)
}

/// Whether `x` can be written in a table of the given layout for version `v`.
pub open spec fn value_writable(x: VariableValue, v: GameVersion, level: bool) -> bool {
    &&& if level {
        0 <= value_tag(x) <= 3
    } else {
        no_opts_tag(value_tag(x), v)
    }
    &&& value_text_ok(x)
}

/// The bytes that store modification `m` by the table's layout.
pub open spec fn meta_bytes(m: MetaModification, level: bool) -> Seq<u8> {
    if level {
        m.id.0@ + le_bytes_u32(value_tag(m.value) as u32) + le_bytes_u32(m.level as u32)
            + le_bytes_u32(m.data_pointer as u32) + value_bytes(m.value) + le_bytes_u32(0)
    } else {
        m.id.0@ + le_bytes_u32(value_tag(m.value) as u32) + value_bytes(m.value) + le_bytes_u32(0)
    }
}

/// The layout of a modification in a custom object table: its field code in
/// bytes 0 to 3 and the type code of its value as a little-endian word at
/// byte 4; in tables with level data, the level and the data pointer follow
/// as words at bytes 8 and 12 and the value starts at byte 16, otherwise it
/// starts at byte 8; four more bytes end the record. Reading takes each field
/// from its bytes and writing puts it there.
pub proof fn law_modification_layout(d: Seq<u8>, p: int, v: GameVersion, level: bool, m: MetaModification, n: MetaModification)
    ensures
        meta_at(d, p, v, level, m) ==> {
            let vp = if level {
                p + 16
            } else {
                p + 8
            };
            &&& m.id.0@ == d.subrange(p, p + 4)
            &&& value_tag(m.value) == u32_at(d, p + 4) as i32
            &&& level ==> m.level == u32_at(d, p + 8) as i32 && m.data_pointer == u32_at(d, p + 12) as i32
            &&& !level ==> m.level == 0 && m.data_pointer == 0
            &&& (m.value matches VariableValue::Integer(i) ==> i == u32_at(d, vp) as i32)
            &&& (m.value matches VariableValue::Real(b) ==> b == u32_at(d, vp))
            &&& (m.value matches VariableValue::Unreal(b) ==> b == u32_at(d, vp))
        },
        ({
            let b = meta_bytes(n, level);
            let k = if level {
                16int
            } else {
                8int
            };
            &&& b.subrange(0, 4) == n.id.0@
            &&& b.subrange(4, 8) == le_bytes_u32(value_tag(n.value) as u32)
            &&& level ==> b.subrange(8, 12) == le_bytes_u32(n.level as u32) && b.subrange(12, 16)
                == le_bytes_u32(n.data_pointer as u32)
            &&& b.subrange(k, k + value_bytes(n.value).len() as int) == value_bytes(n.value)
            &&& b.subrange(b.len() - 4, b.len() as int) == le_bytes_u32(0)
        }),
{
    let b = meta_bytes(n, level);
    let vb = value_bytes(n.value);
    assert(n.id.0@.len() == 4);
    if level {
        assert(b.subrange(0, 4) =~= n.id.0@);
        assert(b.subrange(4, 8) =~= le_bytes_u32(value_tag(n.value) as u32));
        assert(b.subrange(8, 12) =~= le_bytes_u32(n.level as u32));
        assert(b.subrange(12, 16) =~= le_bytes_u32(n.data_pointer as u32));
        assert(b.subrange(16, 16 + vb.len() as int) =~= vb);
    } else {
        assert(b.subrange(0, 4) =~= n.id.0@);
        assert(b.subrange(4, 8) =~= le_bytes_u32(value_tag(n.value) as u32));
        assert(b.subrange(8, 8 + vb.len() as int) =~= vb);
    }
    assert(b.subrange(b.len() - 4, b.len() as int) =~= le_bytes_u32(0));
}

/// The bytes that store the modifications `s`, one after the other.
pub open spec fn metas_bytes(s: Seq<MetaModification>, level: bool) -> Seq<u8>
    decreases s.len(),
{
    if s.len() == 0 {
        Seq::empty()
    } else {
        metas_bytes(s.drop_last(), level) + meta_bytes(s.last(), level)
    }
}

/// Whether all the modifications `s` can be written.
pub open spec fn metas_writable(s: Seq<MetaModification>, v: GameVersion, level: bool) -> bool
    decreases s.len(),
{
    s.len() == 0 || (metas_writable(s.drop_last(), v, level) && value_writable(
        s.last().value,
        v,
        level,
    ))
}

/// The bytes that store the codes of object `id`.
pub open spec fn object_id_bytes(id: ObjectId) -> Seq<u8> {
    match id {
        ObjectId::Original(o) => o.0@ + no_code(),
        ObjectId::Custom(o, c) => o.0@ + c.0@,
    }
}

/// The bytes that store object `x`: its codes, the count of its
/// modifications, then the modifications.
pub open spec fn object_bytes(x: ObjectDefinition, level: bool) -> Seq<u8> {
    object_id_bytes(x.id) + le_bytes_u32(x.modified_datas@.len() as u32) + metas_bytes(
        x.modified_datas@,
        level,
    )
}

/// The bytes that store the objects `s`, one after the other.
pub open spec fn objects_bytes(s: Seq<ObjectDefinition>, level: bool) -> Seq<u8>
    decreases s.len(),
{
    if s.len() == 0 {
        Seq::empty()
    } else {
        objects_bytes(s.drop_last(), level) + object_bytes(s.last(), level)
    }
}

/// Whether all the objects `s` can be written.
pub open spec fn objects_writable(s: Seq<ObjectDefinition>, v: GameVersion, level: bool) -> bool
    decreases s.len(),
{
    s.len() == 0 || (objects_writable(s.drop_last(), v, level) && metas_writable(
        s.last().modified_datas@,
        v,
        level,
    ))
}

/// The bytes that store a table: nothing at all when it has no object,
/// else its version and its two lists of objects, each after its count.
pub open spec fn table_bytes(
    version: u32,
    orig: Seq<ObjectDefinition>,
    custom: Seq<ObjectDefinition>,
    level: bool,
) -> Seq<u8> {
    if orig.len() == 0 && custom.len() == 0 {
        Seq::empty()
    } else {
        le_bytes_u32(version) + le_bytes_u32(orig.len() as u32) + objects_bytes(orig, level)
            + le_bytes_u32(custom.len() as u32) + objects_bytes(custom, level)
    }
}

proof fn lemma_metas_prefix(s: Seq<MetaModification>, v: GameVersion, level: bool, k: int)
    requires
        0 <= k <= s.len(),
    ensures
        metas_bytes(s.take(k), level).len() <= metas_bytes(s, level).len(),
        metas_writable(s, v, level) ==> metas_writable(s.take(k), v, level),
    decreases s.len(),
{
    if k < s.len() {
        lemma_metas_prefix(s.drop_last(), v, level, k);
        assert(s.drop_last().take(k) == s.take(k));
    } else {
        assert(s.take(k) == s);
    }
}

proof fn lemma_objects_prefix(s: Seq<ObjectDefinition>, v: GameVersion, level: bool, k: int)
    requires
        0 <= k <= s.len(),
    ensures
        objects_bytes(s.take(k), level).len() <= objects_bytes(s, level).len(),
        objects_writable(s, v, level) ==> objects_writable(s.take(k), v, level),
    decreases s.len(),
{
    if k < s.len() {
        lemma_objects_prefix(s.drop_last(), v, level, k);
        assert(s.drop_last().take(k) == s.take(k));
    } else {
        assert(s.take(k) == s);
    }
}

/// Writes the value `x` (after its type); fails on text that holds a NUL.
fn write_value(writer: &mut BinaryWriter, x: &VariableValue) -> (res: Result<(), WriteError>)
    requires
        old(writer).has_room(value_bytes(*x).len() as int),
    ensures
        res is Ok <==> value_text_ok(*x),
        res is Ok ==> final(writer).contents() == write_at(
            old(writer).contents(),
            old(writer).position() as int,
            value_bytes(*x),
        ) && final(writer).position() == old(writer).position() + value_bytes(*x).len(),
{
    match x {
        VariableValue::Integer(i) => writer.write_i32(*i),
        VariableValue::Real(b) => writer.write_u32(*b),
        VariableValue::Unreal(b) => writer.write_u32(*b),
        VariableValue::Bool(b) => {
            let byte: u8 = if *b {
                1
            } else {
                0
            };
            writer.write_u8(byte)
        },
        VariableValue::Char(c) => writer.write_char(*c),
        VariableValue::String(s) | VariableValue::UnitList(s) | VariableValue::ItemList(s)
        | VariableValue::RegenType(s) | VariableValue::AttackType(s) | VariableValue::WeaponType(s)
        | VariableValue::TargetType(s) | VariableValue::MoveType(s) | VariableValue::DefenseType(s)
        | VariableValue::PathingTexture(s) | VariableValue::UpgradeList(s)
        | VariableValue::StringList(s) | VariableValue::AbilityList(s)
        | VariableValue::HeroAbilityList(s) | VariableValue::MissileArt(s)
        | VariableValue::AttributeType(s) | VariableValue::AttackBits(s) => {
            writer.write_c_string_converted(s.as_str())
        },
    }
}

/// Writes modification `meta` of a table without level data saved for
/// version `game_version`; fails with [`WriteError::Reason`] on a type such
/// a table cannot hold or on text that holds a NUL.
fn write_meta_no_opts(writer: &mut BinaryWriter, id: &ObjectId, meta: &MetaModification, game_version: &GameVersion) -> (res:
    Result<(), WriteError>)
    requires
        old(writer).has_room(meta_bytes(*meta, false).len() as int),
    ensures
        res is Ok <==> value_writable(meta.value, *game_version, false),
        res is Ok ==> final(writer).contents() == write_at(
            old(writer).contents(),
            old(writer).position() as int,
            meta_bytes(*meta, false),
        ) && final(writer).position() == old(writer).position() + meta_bytes(*meta, false).len(),
        !no_opts_tag(value_tag(meta.value), *game_version) ==> (res matches Err(WriteError::Reason(m)) && m@
            == unsupported_write_text(value_tag(meta.value), *id, meta.id.0@, Some(*game_version))),
{
    let ghost c0 = writer.contents();
    let ghost p0 = writer.position() as int;
    let ghost a = meta.id.0@;
    let ghost b = le_bytes_u32(value_tag(meta.value) as u32);
    let ghost c = value_bytes(meta.value);
    let _ = writer.write_bytes(meta.id.0.as_slice());
    let tag = meta.value.get_type_value();
    let _ = writer.write_i32(tag);
    proof {
        lemma_write_at_concat(c0, p0, a, b);
    }
    let supported = (0 <= tag && tag <= 3) || (game_version.is_roc() && 4 <= tag && tag <= 21);
    if !supported {
        return Err(WriteError::Reason(unsupported_write_message(tag, id, &meta.id.0, Some(*game_version))));
    }
    match write_value(writer, &meta.value) {
        Ok(()) => {},
        Err(e) => {
            return Err(e);
        },
    }
    proof {
        lemma_write_at_concat(c0, p0, a + b, c);
    }
    let _ = writer.write_u32(0);
    proof {
        lemma_write_at_concat(c0, p0, a + b + c, le_bytes_u32(0));
    }
    Ok(())
}

/// Writes modification `meta` of a table with level data; fails with
/// [`WriteError::Reason`] on a type other than the four basic ones, or on
/// text that holds a NUL.
pub fn write_meta_opts(writer: &mut BinaryWriter, id: &ObjectId, meta: &MetaModification) -> (res: Result<
    (),
    WriteError,
>)
    requires
        old(writer).has_room(meta_bytes(*meta, true).len() as int),
    ensures
        res is Ok <==> value_writable(meta.value, GameVersion::TFT, true),
        res is Ok ==> final(writer).contents() == write_at(
            old(writer).contents(),
            old(writer).position() as int,
            meta_bytes(*meta, true),
        ) && final(writer).position() == old(writer).position() + meta_bytes(*meta, true).len(),
        !(0 <= value_tag(meta.value) <= 3) ==> (res matches Err(WriteError::Reason(m)) && m@
            == unsupported_write_text(value_tag(meta.value), *id, meta.id.0@, None)),
{
    let ghost c0 = writer.contents();
    let ghost p0 = writer.position() as int;
    let ghost a = meta.id.0@;
    let ghost b = le_bytes_u32(value_tag(meta.value) as u32);
    let ghost b2 = le_bytes_u32(meta.level as u32);
    let ghost b3 = le_bytes_u32(meta.data_pointer as u32);
    let ghost c = value_bytes(meta.value);
    let _ = writer.write_bytes(meta.id.0.as_slice());
    let tag = meta.value.get_type_value();
    let _ = writer.write_i32(tag);
    proof {
        lemma_write_at_concat(c0, p0, a, b);
    }
    let _ = writer.write_i32(meta.level);
    proof {
        lemma_write_at_concat(c0, p0, a + b, b2);
    }
    let _ = writer.write_i32(meta.data_pointer);
    proof {
        lemma_write_at_concat(c0, p0, a + b + b2, b3);
    }
    if !(0 <= tag && tag <= 3) {
        return Err(WriteError::Reason(unsupported_write_message(tag, id, &meta.id.0, None)));
    }
    match write_value(writer, &meta.value) {
        Ok(()) => {},
        Err(e) => {
            return Err(e);
        },
    }
    proof {
        lemma_write_at_concat(c0, p0, a + b + b2 + b3, c);
    }
    let _ = writer.write_u32(0);
    proof {
        lemma_write_at_concat(c0, p0, a + b + b2 + b3 + c, le_bytes_u32(0));
    }
    Ok(())
}

/// Writes the modifications `metas`, one after the other, by the table's
/// layout.
fn write_metas(writer: &mut BinaryWriter, id: &ObjectId, metas: &Vec<MetaModification>, game_version: &GameVersion, level: bool) -> (res:
    Result<(), WriteError>)
    requires
        old(writer).has_room(metas_bytes(metas@, level).len() as int),
    ensures
        res is Ok <==> metas_writable(metas@, *game_version, level),
        res is Ok ==> final(writer).contents() == write_at(
            old(writer).contents(),
            old(writer).position() as int,
            metas_bytes(metas@, level),
        ) && final(writer).position() == old(writer).position() + metas_bytes(metas@, level).len(),
{
    let ghost v = *game_version;
    let ghost c0 = writer.contents();
    let ghost p0 = writer.position() as int;
    let ghost s = metas@;
    let mut k: usize = 0;
    while k < metas.len()
        invariant
            k <= s.len(),
            s == metas@,
            v == *game_version,
            writer.contents() == write_at(c0, p0, metas_bytes(s.take(k as int), level)),
            writer.position() == p0 + metas_bytes(s.take(k as int), level).len(),
            p0 + metas_bytes(s, level).len() <= usize::MAX,
            metas_writable(s.take(k as int), v, level),
            0 <= p0,
        decreases s.len() - k,
    {
        proof {
            lemma_metas_prefix(s, v, level, k + 1);
            assert(s.take(k + 1).drop_last() == s.take(k as int));
            assert(s.take(k + 1).last() == s[k as int]);
        }
        let written = if level {
            write_meta_opts(writer, id, &metas[k])
        } else {
            write_meta_no_opts(writer, id, &metas[k], game_version)
        };
        match written {
            Ok(()) => {},
            Err(e) => {
                proof {
                    if metas_writable(s, v, level) {
                        lemma_metas_prefix(s, v, level, k + 1);
                    }
                }
                return Err(e);
            },
        }
        proof {
            lemma_write_at_concat(c0, p0, metas_bytes(s.take(k as int), level), meta_bytes(s[k as int], level));
        }
        k = k + 1;
    }
    proof {
        assert(s.take(s.len() as int) == s);
    }
    Ok(())
}

/// Writes the codes of object `id`: an original object gets a zero custom
/// code.
fn write_object_id(writer: &mut BinaryWriter, id: &ObjectId) -> (res: Result<(), WriteError>)
    requires
        old(writer).has_room(8),
    ensures
        res is Ok,
        final(writer).contents() == write_at(
            old(writer).contents(),
            old(writer).position() as int,
            object_id_bytes(*id),
        ),
        final(writer).position() == old(writer).position() + 8,
{
    let ghost c0 = writer.contents();
    let ghost p0 = writer.position() as int;
    match id {
        ObjectId::Original(original_id) => {
            let _ = writer.write_bytes(original_id.0.as_slice());
            let zeros = [0u8; 4];
            assert(zeros@ =~= no_code());
            let _ = writer.write_bytes(zeros.as_slice());
            proof {
                lemma_write_at_concat(c0, p0, original_id.0@, no_code());
            }
        },
        ObjectId::Custom(original_id, custom_id) => {
            let _ = writer.write_bytes(original_id.0.as_slice());
            let _ = writer.write_bytes(custom_id.0.as_slice());
            proof {
                lemma_write_at_concat(c0, p0, original_id.0@, custom_id.0@);
            }
        },
    }
    Ok(())
}

impl ObjectDefinition {
    /// Writes the object for a table without level data saved for version
    /// `game_version`.
    pub fn write_without_optional(&self, writer: &mut BinaryWriter, game_version: &GameVersion) -> (res:
        Result<(), WriteError>)
        requires
            old(writer).has_room(object_bytes(*self, false).len() as int),
        ensures
            res is Ok <==> metas_writable(self.modified_datas@, *game_version, false),
            res is Ok ==> final(writer).contents() == write_at(
                old(writer).contents(),
                old(writer).position() as int,
                object_bytes(*self, false),
            ) && final(writer).position() == old(writer).position() + object_bytes(*self, false).len(),
    {
        self.write_object(writer, game_version, false)
    }

    /// Writes the object for a table with level data.
    pub fn write_with_optional(&self, writer: &mut BinaryWriter) -> (res: Result<(), WriteError>)
        requires
            old(writer).has_room(object_bytes(*self, true).len() as int),
        ensures
            res is Ok <==> metas_writable(self.modified_datas@, GameVersion::TFT, true),
            res is Ok ==> final(writer).contents() == write_at(
                old(writer).contents(),
                old(writer).position() as int,
                object_bytes(*self, true),
            ) && final(writer).position() == old(writer).position() + object_bytes(*self, true).len(),
    {
        self.write_object(writer, &GameVersion::TFT, true)
    }

    /// Writes the object by the table's layout.
    fn write_object(&self, writer: &mut BinaryWriter, game_version: &GameVersion, level: bool) -> (res:
        Result<(), WriteError>)
        requires
            old(writer).has_room(object_bytes(*self, level).len() as int),
        ensures
            res is Ok <==> metas_writable(self.modified_datas@, *game_version, level),
            res is Ok ==> final(writer).contents() == write_at(
                old(writer).contents(),
                old(writer).position() as int,
                object_bytes(*self, level),
            ) && final(writer).position() == old(writer).position() + object_bytes(*self, level).len(),
    {
        let ghost c0 = writer.contents();
        let ghost p0 = writer.position() as int;
        let ghost a = object_id_bytes(self.id);
        let ghost b = le_bytes_u32(self.modified_datas@.len() as u32);
        let ghost c = metas_bytes(self.modified_datas@, level);
        let _ = write_object_id(writer, &self.id);
        let _ = writer.write_u32(self.modified_datas.len() as u32);
        proof {
            lemma_write_at_concat(c0, p0, a, b);
        }
        match write_metas(writer, &self.id, &self.modified_datas, game_version, level) {
            Ok(()) => {},
            Err(e) => {
                return Err(e);
            },
        }
        proof {
            lemma_write_at_concat(c0, p0, a + b, c);
        }
        Ok(())
    }
}

/// Writes the objects `objs`, one after the other, by the table's layout.
fn write_objects(writer: &mut BinaryWriter, objs: &Vec<ObjectDefinition>, game_version: &GameVersion, level: bool) -> (res:
    Result<(), WriteError>)
    requires
        old(writer).has_room(objects_bytes(objs@, level).len() as int),
    ensures
        res is Ok <==> objects_writable(objs@, *game_version, level),
        res is Ok ==> final(writer).contents() == write_at(
            old(writer).contents(),
            old(writer).position() as int,
            objects_bytes(objs@, level),
        ) && final(writer).position() == old(writer).position() + objects_bytes(objs@, level).len(),
{
    let ghost v = *game_version;
    let ghost c0 = writer.contents();
    let ghost p0 = writer.position() as int;
    let ghost s = objs@;
    let mut k: usize = 0;
    while k < objs.len()
        invariant
            k <= s.len(),
            s == objs@,
            v == *game_version,
            writer.contents() == write_at(c0, p0, objects_bytes(s.take(k as int), level)),
            writer.position() == p0 + objects_bytes(s.take(k as int), level).len(),
            p0 + objects_bytes(s, level).len() <= usize::MAX,
            objects_writable(s.take(k as int), v, level),
            0 <= p0,
        decreases s.len() - k,
    {
        proof {
            lemma_objects_prefix(s, v, level, k + 1);
            assert(s.take(k + 1).drop_last() == s.take(k as int));
            assert(s.take(k + 1).last() == s[k as int]);
        }
        match objs[k].write_object(writer, game_version, level) {
            Ok(()) => {},
            Err(e) => {
                proof {
                    if objects_writable(s, v, level) {
                        lemma_objects_prefix(s, v, level, k + 1);
                    }
                }
                return Err(e);
            },
        }
        proof {
            lemma_write_at_concat(c0, p0, objects_bytes(s.take(k as int), level), object_bytes(s[k as int], level));
        }
        k = k + 1;
    }
    proof {
        assert(s.take(s.len() as int) == s);
    }
    Ok(())
}

impl<K: CustomObjectKind> CustomObjectsFile<K> {
    /// Writes the table at the cursor; a table with no object writes
    /// nothing.
    #[verifier::rlimit(40)]
    #[verifier::spinoff_prover]
    pub fn write(&self, writer: &mut BinaryWriter, game_version: &GameVersion) -> (res: Result<(), WriteError>)
        requires
            old(writer).has_room(
                table_bytes(
                    self.version,
                    self.original_objects@,
                    self.custom_objects@,
                    K::level_data(),
                ).len() as int,
            ),
        ensures
            ({
                let v = *game_version;
                let level = K::level_data();
                let bytes = table_bytes(
                    self.version,
                    self.original_objects@,
                    self.custom_objects@,
                    level,
                );
                &&& res is Ok <==> (objects_writable(self.original_objects@, v, level)
                    && objects_writable(self.custom_objects@, v, level))
                &&& res is Ok ==> final(writer).contents() == write_at(
                    old(writer).contents(),
                    old(writer).position() as int,
                    bytes,
                ) && final(writer).position() == old(writer).position() + bytes.len()
            }),
    {
        let ghost c0 = writer.contents();
        let ghost p0 = writer.position() as int;
        let ghost level = K::level_data();
        if self.original_objects.len() == 0 && self.custom_objects.len() == 0 {
            proof {
                assert(write_at(c0, p0, Seq::empty()) == c0) by {
                    assert(write_at(c0, p0, Seq::empty()) =~= c0);
                }
            }
            return Ok(());
        }
        let lv = K::has_level_data();
        let ghost a = le_bytes_u32(self.version);
        let ghost b = le_bytes_u32(self.original_objects@.len() as u32);
        let ghost c = objects_bytes(self.original_objects@, level);
        let ghost e = le_bytes_u32(self.custom_objects@.len() as u32);
        let ghost f = objects_bytes(self.custom_objects@, level);
        let _ = writer.write_u32(self.version);
        let _ = writer.write_u32(self.original_objects.len() as u32);
        proof {
            lemma_write_at_concat(c0, p0, a, b);
        }
        match write_objects(writer, &self.original_objects, game_version, lv) {
            Ok(()) => {},
            Err(err) => {
                return Err(err);
            },
        }
        proof {
            lemma_write_at_concat(c0, p0, a + b, c);
        }
        let _ = writer.write_u32(self.custom_objects.len() as u32);
        proof {
            lemma_write_at_concat(c0, p0, a + b + c, e);
        }
        match write_objects(writer, &self.custom_objects, game_version, lv) {
            Ok(()) => {},
            Err(err) => {
                return Err(err);
            },
        }
        proof {
            lemma_write_at_concat(c0, p0, a + b + c + e, f);
        }
        Ok(())
    }

    /// The serialized table in a fresh writer.
    pub fn prepare_write(&self, game_version: &GameVersion) -> (res: Result<BinaryWriter, MapError>)
        requires
            table_bytes(
                self.version,
                self.original_objects@,
                self.custom_objects@,
                K::level_data(),
            ).len() <= usize::MAX,
        ensures
            res is Ok <==> (objects_writable(self.original_objects@, *game_version, K::level_data())
                && objects_writable(self.custom_objects@, *game_version, K::level_data())),
            res matches Ok(w) ==> w.contents() == table_bytes(
                self.version,
                self.original_objects@,
                self.custom_objects@,
                K::level_data(),
            ),
    {
        let mut writer = BinaryWriter::new();
        match self.write(&mut writer, game_version) {
            Ok(()) => {
                proof {
                    let bytes = table_bytes(
                        self.version,
                        self.original_objects@,
                        self.custom_objects@,
                        K::level_data(),
                    );
                    assert(write_at(Seq::empty(), 0, bytes) =~= bytes);
                }
                Ok(writer)
            },
            Err(e) => Err(K::save_error(e)),
        }
    }
}

} // verus!
