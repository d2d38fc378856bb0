//! Flag words of the map info file (`war3map.w3i`).

use vstd::prelude::*;

use crate::formats::binary_reader::{u32_at, BinaryReader};
use crate::formats::{decimal_text, text_with_number, GameVersion, MpqError, ReadError};
use crate::map::trigger_jass_file::unknown_version;
use crate::map::triggers::trigger_data::{c_string_at, has_bytes};
use crate::map::unit_map::{code_at, code_text, lemma_seq_end_none, seq_end, seq_read};

verus! {

/// Whether every bit of `bit` is set in `raw`.
pub open spec fn has_bit(raw: i32, bit: i32) -> bool {
    raw & bit == bit
}

/// `raw` with the bits of `bit` set (`value`) or cleared.
pub open spec fn with_bit(raw: i32, bit: i32, value: bool) -> i32 {
    if value {
        raw | bit
    } else {
        raw & !bit
    }
}

/// Whether every bit of `bit` is set in `raw`.
fn get_bit(raw: i32, bit: i32) -> (res: bool)
    ensures
        res == has_bit(raw, bit),
{
    raw & bit == bit
}

/// `raw` with the bits of `bit` set or cleared.
fn set_bit(raw: i32, bit: i32, value: bool) -> (res: i32)
    ensures
        res == with_bit(raw, bit, value),
{
    if value {
        raw | bit
    } else {
        raw & !bit
    }
}

/// Setting a single-bit flag makes it read back as set, clearing it as
/// cleared, and every other bit keeps its value.
pub proof fn law_flag_set_get(raw: i32, bit: i32, other: i32, value: bool)
    requires
        bit & other == 0,
    ensures
        has_bit(with_bit(raw, bit, value), bit) == (value || bit == 0),
        with_bit(raw, bit, value) & other == raw & other,
{
    assert((raw | bit) & bit == bit) by (bit_vector);
    assert(bit != 0 ==> (raw & !bit) & bit != bit) by (bit_vector);
    assert(bit & other == 0 ==> (raw | bit) & other == raw & other) by (bit_vector);
    assert(bit & other == 0 ==> (raw & !bit) & other == raw & other) by (bit_vector);
    assert((raw & !0i32) & 0i32 == 0i32) by (bit_vector);
}

/// General flags of a map.
#[derive(Debug, PartialEq, Eq, Structural, Clone, Copy)]
pub struct HeaderFlags {
    pub raw_value: i32,
}

impl Default for HeaderFlags {
    fn default() -> (res: Self)
        ensures
            res.raw_value == 0,
    {
        HeaderFlags { raw_value: 0 }
    }
}

impl HeaderFlags {
    /// Flags of the raw word `flags`.
    pub fn new(flags: i32) -> (res: Self)
        ensures
            res.raw_value == flags,
    {
        Self { raw_value: flags }
    }

    /// Bit 0x0001.
    pub fn hide_minimap_preview(&self) -> (res: bool)
        ensures
            res == has_bit(self.raw_value, 0x0001i32),
    {
        get_bit(self.raw_value, 0x0001i32)
    }

    /// Bit 0x0001.
    pub fn set_hide_minimap_preview(&mut self, value: bool)
        ensures
            final(self).raw_value == with_bit(old(self).raw_value, 0x0001i32, value),
    {
        self.raw_value = set_bit(self.raw_value, 0x0001i32, value);
    }

    /// Bit 0x0002.
    pub fn modify_ally_priorities(&self) -> (res: bool)
        ensures
            res == has_bit(self.raw_value, 0x0002i32),
    {
        get_bit(self.raw_value, 0x0002i32)
    }

    /// Bit 0x0002.
    pub fn set_modify_ally_priorities(&mut self, value: bool)
        ensures
            final(self).raw_value == with_bit(old(self).raw_value, 0x0002i32, value),
    {
        self.raw_value = set_bit(self.raw_value, 0x0002i32, value);
    }

    /// Bit 0x0004.
    pub fn is_melee(&self) -> (res: bool)
        ensures
            res == has_bit(self.raw_value, 0x0004i32),
    {
        get_bit(self.raw_value, 0x0004i32)
    }

    /// Bit 0x0004.
    pub fn set_is_melee(&mut self, value: bool)
        ensures
            final(self).raw_value == with_bit(old(self).raw_value, 0x0004i32, value),
    {
        self.raw_value = set_bit(self.raw_value, 0x0004i32, value);
    }

    /// Bit 0x0008.
    pub fn unknown(&self) -> (res: bool)
        ensures
            res == has_bit(self.raw_value, 0x0008i32),
    {
        get_bit(self.raw_value, 0x0008i32)
    }

    /// Bit 0x0008.
    pub fn set_unknown(&mut self, value: bool)
        ensures
            final(self).raw_value == with_bit(old(self).raw_value, 0x0008i32, value),
    {
        self.raw_value = set_bit(self.raw_value, 0x0008i32, value);
    }

    /// Bit 0x0010.
    pub fn mask_partial_vision(&self) -> (res: bool)
        ensures
            res == has_bit(self.raw_value, 0x0010i32),
    {
        get_bit(self.raw_value, 0x0010i32)
    }

    /// Bit 0x0010.
    pub fn set_mask_partial_vision(&mut self, value: bool)
        ensures
            final(self).raw_value == with_bit(old(self).raw_value, 0x0010i32, value),
    {
        self.raw_value = set_bit(self.raw_value, 0x0010i32, value);
    }

    /// Bit 0x0020.
    pub fn fixed_custom_player_force(&self) -> (res: bool)
        ensures
            res == has_bit(self.raw_value, 0x0020i32),
    {
        get_bit(self.raw_value, 0x0020i32)
    }

    /// Bit 0x0020.
    pub fn set_fixed_custom_player_force(&mut self, value: bool)
        ensures
            final(self).raw_value == with_bit(old(self).raw_value, 0x0020i32, value),
    {
        self.raw_value = set_bit(self.raw_value, 0x0020i32, value);
    }

    /// Bit 0x0040.
    pub fn use_custom_force(&self) -> (res: bool)
        ensures
            res == has_bit(self.raw_value, 0x0040i32),
    {
        get_bit(self.raw_value, 0x0040i32)
    }

    /// Bit 0x0040.
    pub fn set_use_custom_force(&mut self, value: bool)
        ensures
            final(self).raw_value == with_bit(old(self).raw_value, 0x0040i32, value),
    {
        self.raw_value = set_bit(self.raw_value, 0x0040i32, value);
    }

    /// Bit 0x0080.
    pub fn use_custom_tree(&self) -> (res: bool)
        ensures
            res == has_bit(self.raw_value, 0x0080i32),
    {
        get_bit(self.raw_value, 0x0080i32)
    }

    /// Bit 0x0080.
    pub fn set_use_custom_tree(&mut self, value: bool)
        ensures
            final(self).raw_value == with_bit(old(self).raw_value, 0x0080i32, value),
    {
        self.raw_value = set_bit(self.raw_value, 0x0080i32, value);
    }

    /// Bit 0x0100.
    pub fn use_custom_abilities(&self) -> (res: bool)
        ensures
            res == has_bit(self.raw_value, 0x0100i32),
    {
        get_bit(self.raw_value, 0x0100i32)
    }

    /// Bit 0x0100.
    pub fn set_use_custom_abilities(&mut self, value: bool)
        ensures
            final(self).raw_value == with_bit(old(self).raw_value, 0x0100i32, value),
    {
        self.raw_value = set_bit(self.raw_value, 0x0100i32, value);
    }

    /// Bit 0x0200.
    pub fn use_custom_upgrades(&self) -> (res: bool)
        ensures
            res == has_bit(self.raw_value, 0x0200i32),
    {
        get_bit(self.raw_value, 0x0200i32)
    }

    /// Bit 0x0200.
    pub fn set_use_custom_upgrades(&mut self, value: bool)
        ensures
            final(self).raw_value == with_bit(old(self).raw_value, 0x0200i32, value),
    {
        self.raw_value = set_bit(self.raw_value, 0x0200i32, value);
    }

    /// Bit 0x0400.
    pub fn unknown_2(&self) -> (res: bool)
        ensures
            res == has_bit(self.raw_value, 0x0400i32),
    {
        get_bit(self.raw_value, 0x0400i32)
    }

    /// Bit 0x0400.
    pub fn set_unknown_2(&mut self, value: bool)
        ensures
            final(self).raw_value == with_bit(old(self).raw_value, 0x0400i32, value),
    {
        self.raw_value = set_bit(self.raw_value, 0x0400i32, value);
    }

    /// Bit 0x0800.
    pub fn show_waves_cliff_shores(&self) -> (res: bool)
        ensures
            res == has_bit(self.raw_value, 0x0800i32),
    {
        get_bit(self.raw_value, 0x0800i32)
    }

    /// Bit 0x0800.
    pub fn set_show_waves_cliff_shores(&mut self, value: bool)
        ensures
            final(self).raw_value == with_bit(old(self).raw_value, 0x0800i32, value),
    {
        self.raw_value = set_bit(self.raw_value, 0x0800i32, value);
    }

    /// Bit 0x1000.
    pub fn show_waves_rolling_shores(&self) -> (res: bool)
        ensures
            res == has_bit(self.raw_value, 0x1000i32),
    {
        get_bit(self.raw_value, 0x1000i32)
    }

    /// Bit 0x1000.
    pub fn set_show_waves_rolling_shores(&mut self, value: bool)
        ensures
            final(self).raw_value == with_bit(old(self).raw_value, 0x1000i32, value),
    {
        self.raw_value = set_bit(self.raw_value, 0x1000i32, value);
    }

    /// TFT flag: bit 0x2000.
    pub fn unknown_3(&self) -> (res: bool)
        ensures
            res == has_bit(self.raw_value, 0x2000i32),
    {
        get_bit(self.raw_value, 0x2000i32)
    }

    /// TFT flag: bit 0x2000.
    pub fn set_unknown_3(&mut self, value: bool)
        ensures
            final(self).raw_value == with_bit(old(self).raw_value, 0x2000i32, value),
    {
        self.raw_value = set_bit(self.raw_value, 0x2000i32, value);
    }

    /// TFT flag: bit 0x4000.
    pub fn unknown_4(&self) -> (res: bool)
        ensures
            res == has_bit(self.raw_value, 0x4000i32),
    {
        get_bit(self.raw_value, 0x4000i32)
    }

    /// TFT flag: bit 0x4000.
    pub fn set_unknown_4(&mut self, value: bool)
        ensures
            final(self).raw_value == with_bit(old(self).raw_value, 0x4000i32, value),
    {
        self.raw_value = set_bit(self.raw_value, 0x4000i32, value);
    }

    /// TFT flag: bit 0x8000.
    pub fn unknown_5(&self) -> (res: bool)
        ensures
            res == has_bit(self.raw_value, 0x8000i32),
    {
        get_bit(self.raw_value, 0x8000i32)
    }

    /// TFT flag: bit 0x8000.
    pub fn set_unknown_5(&mut self, value: bool)
        ensures
            final(self).raw_value == with_bit(old(self).raw_value, 0x8000i32, value),
    {
        self.raw_value = set_bit(self.raw_value, 0x8000i32, value);
    }

    /// The raw flag word.
    pub fn raw_value(&self) -> (res: i32)
        ensures
            res == self.raw_value,
    {
        self.raw_value
    }
}

/// Flags of a force.
#[derive(Debug, PartialEq, Eq, Structural, Clone, Copy)]
pub struct ForceFlags {
    pub raw_value: i32,
}

impl Default for ForceFlags {
    fn default() -> (res: Self)
        ensures
            res.raw_value == 0,
    {
        ForceFlags { raw_value: 0 }
    }
}

impl ForceFlags {
    /// Flags of the raw word `flags`.
    pub fn new(flags: i32) -> (res: Self)
        ensures
            res.raw_value == flags,
    {
        Self { raw_value: flags }
    }

    /// Bit 0x0001.
    pub fn allied(&self) -> (res: bool)
        ensures
            res == has_bit(self.raw_value, 0x0001i32),
    {
        get_bit(self.raw_value, 0x0001i32)
    }

    /// Bit 0x0001.
    pub fn set_allied(&mut self, value: bool)
        ensures
            final(self).raw_value == with_bit(old(self).raw_value, 0x0001i32, value),
    {
        self.raw_value = set_bit(self.raw_value, 0x0001i32, value);
    }

    /// Bit 0x0002.
    pub fn shared_victory(&self) -> (res: bool)
        ensures
            res == has_bit(self.raw_value, 0x0002i32),
    {
        get_bit(self.raw_value, 0x0002i32)
    }

    /// Bit 0x0002.
    pub fn set_shared_victory(&mut self, value: bool)
        ensures
            final(self).raw_value == with_bit(old(self).raw_value, 0x0002i32, value),
    {
        self.raw_value = set_bit(self.raw_value, 0x0002i32, value);
    }

    /// Bit 0x0004.
    pub fn shared_vision(&self) -> (res: bool)
        ensures
            res == has_bit(self.raw_value, 0x0004i32),
    {
        get_bit(self.raw_value, 0x0004i32)
    }

    /// Bit 0x0004.
    pub fn set_shared_vision(&mut self, value: bool)
        ensures
            final(self).raw_value == with_bit(old(self).raw_value, 0x0004i32, value),
    {
        self.raw_value = set_bit(self.raw_value, 0x0004i32, value);
    }

    /// Bit 0x0010.
    pub fn shared_unit_control(&self) -> (res: bool)
        ensures
            res == has_bit(self.raw_value, 0x0010i32),
    {
        get_bit(self.raw_value, 0x0010i32)
    }

    /// Bit 0x0010.
    pub fn set_shared_unit_control(&mut self, value: bool)
        ensures
            final(self).raw_value == with_bit(old(self).raw_value, 0x0010i32, value),
    {
        self.raw_value = set_bit(self.raw_value, 0x0010i32, value);
    }

    /// Bit 0x0020.
    pub fn shared_advanced_unit_control(&self) -> (res: bool)
        ensures
            res == has_bit(self.raw_value, 0x0020i32),
    {
        get_bit(self.raw_value, 0x0020i32)
    }

    /// Bit 0x0020.
    pub fn set_shared_advanced_unit_control(&mut self, value: bool)
        ensures
            final(self).raw_value == with_bit(old(self).raw_value, 0x0020i32, value),
    {
        self.raw_value = set_bit(self.raw_value, 0x0020i32, value);
    }

    /// The raw flag word.
    pub fn raw_value(&self) -> (res: i32)
        ensures
            res == self.raw_value,
    {
        self.raw_value
    }
}

/// Kind of position of a random table column.
#[derive(Debug, PartialEq, Eq, Structural, Clone, Copy, PartialOrd)]
pub enum RandomTablePositionType {
    Unit,
    Building,
    Item,
}

impl RandomTablePositionType {
    /// The position type whose code is `n` (0, 1 or 2).
    pub fn from(n: u32) -> (res: Result<Self, ReadError>)
        ensures
            n == 0 ==> res == Ok::<RandomTablePositionType, ReadError>(RandomTablePositionType::Unit),
            n == 1 ==> res == Ok::<RandomTablePositionType, ReadError>(RandomTablePositionType::Building),
            n == 2 ==> res == Ok::<RandomTablePositionType, ReadError>(RandomTablePositionType::Item),
            n > 2 ==> (res matches Err(ReadError::Reason(m)) && m@ == "Unknown position type: "@
                + decimal_text(n as nat)),
    {
        match n {
            0 => Ok(RandomTablePositionType::Unit),
            1 => Ok(RandomTablePositionType::Building),
            2 => Ok(RandomTablePositionType::Item),
            _ => Err(ReadError::Reason(text_with_number("Unknown position type: ", n as u64))),
        }
    }
}


/// A set of items of a random item table: the chance and ID of each.
#[derive(Debug)]
pub struct RandomItemSet {
    pub items: Vec<(u32, String)>,
}

/// A random item table of the map: its index, name and item sets.
#[derive(Debug)]
pub struct RandomItemTable {
    pub id: i32,
    pub name: String,
    pub sets: Vec<RandomItemSet>,
}


/// How one field of the info file is stored.
#[derive(Debug, PartialEq, Eq, Structural, Clone, Copy)]
pub enum FieldKind {
    /// Four bytes, little endian.
    Word,
    /// One byte.
    Byte,
    /// A NUL-terminated UTF-8 string.
    Text,
    /// Four bytes of UTF-8.
    Code,
}

/// Where a field of kind `k` stored at `q` ends, when it can be read.
pub open spec fn field_end(d: Seq<u8>, q: int, k: FieldKind) -> Option<int> {
    match k {
        FieldKind::Word => if has_bytes(d, q, 4) {
            Some(q + 4)
        } else {
            None
        },
        FieldKind::Byte => if has_bytes(d, q, 1) {
            Some(q + 1)
        } else {
            None
        },
        FieldKind::Text => match c_string_at(d, q) {
            Some((_, e)) => Some(e),
            None => None,
        },
        FieldKind::Code => if code_at(d, q) {
            Some(q + 4)
        } else {
            None
        },
    }
}

/// Where the fields of layout `l`, stored one after the other from `p`,
/// end, when they can all be read.
pub open spec fn fields_end(d: Seq<u8>, p: int, l: Seq<FieldKind>) -> Option<int>
    decreases l.len(),
{
    if l.len() == 0 {
        Some(p)
    } else {
        match fields_end(d, p, l.drop_last()) {
            Some(q) => field_end(d, q, l.last()),
            None => None,
        }
    }
}

/// Where field `i` of layout `l` stored from `p` starts.
pub open spec fn field_pos(d: Seq<u8>, p: int, l: Seq<FieldKind>, i: int) -> int {
    fields_end(d, p, l.take(i))->0
}

/// The word of field `i`.
pub open spec fn word_field(d: Seq<u8>, p: int, l: Seq<FieldKind>, i: int) -> u32 {
    u32_at(d, field_pos(d, p, l, i))
}

/// The byte of field `i`.
pub open spec fn byte_field(d: Seq<u8>, p: int, l: Seq<FieldKind>, i: int) -> u8 {
    d[field_pos(d, p, l, i)]
}

/// The text of field `i`.
pub open spec fn text_field(d: Seq<u8>, p: int, l: Seq<FieldKind>, i: int) -> Seq<char> {
    let found = c_string_at(d, field_pos(d, p, l, i))->0;
    found.0
}

/// The code of field `i`.
pub open spec fn code_field(d: Seq<u8>, p: int, l: Seq<FieldKind>, i: int) -> Seq<char> {
    code_text(d, field_pos(d, p, l, i))
}

/// Once the first `k` fields cannot be read, the whole layout cannot.
pub(crate) proof fn lemma_fields_end_none(d: Seq<u8>, p: int, l: Seq<FieldKind>, k: int)
    requires
        0 <= k <= l.len(),
        fields_end(d, p, l.take(k)) is None,
    ensures
        fields_end(d, p, l) is None,
    decreases l.len() - k,
{
    if k < l.len() {
        assert(l.take(k + 1).drop_last() =~= l.take(k));
        lemma_fields_end_none(d, p, l, k + 1);
    } else {
        assert(l.take(k) =~= l);
    }
}

/// Reads field `k` of layout `l` stored from `p`, a word.
pub(crate) fn read_word(reader: &mut BinaryReader, Ghost(p): Ghost<int>, Ghost(l): Ghost<Seq<FieldKind>>, Ghost(k): Ghost<int>) -> (res:
    Result<u32, ReadError>)
    requires
        old(reader).wf(),
        0 <= k < l.len(),
        l[k] == FieldKind::Word,
        fields_end(old(reader).contents(), p, l.take(k)) == Some(old(reader).position() as int),
    ensures
        final(reader).wf(),
        final(reader).contents() == old(reader).contents(),
        res is Ok <==> fields_end(old(reader).contents(), p, l.take(k + 1)) is Some,
        res is Ok ==> fields_end(old(reader).contents(), p, l.take(k + 1)) == Some(
            final(reader).position() as int,
        ),
        res matches Ok(v) ==> v == word_field(old(reader).contents(), p, l, k),
        res is Err ==> fields_end(old(reader).contents(), p, l) is None,
{
    let ghost d = reader.contents();
    proof {
        assert(l.take(k + 1).drop_last() =~= l.take(k));
        assert(l.take(k + 1).last() == l[k]);
    }
    let res = reader.read_u32();
    proof {
        if res is Err {
            lemma_fields_end_none(d, p, l, k + 1);
        }
    }
    res
}

/// Reads field `k` of layout `l` stored from `p`, a byte.
pub(crate) fn read_byte(reader: &mut BinaryReader, Ghost(p): Ghost<int>, Ghost(l): Ghost<Seq<FieldKind>>, Ghost(k): Ghost<int>) -> (res:
    Result<u8, ReadError>)
    requires
        old(reader).wf(),
        0 <= k < l.len(),
        l[k] == FieldKind::Byte,
        fields_end(old(reader).contents(), p, l.take(k)) == Some(old(reader).position() as int),
    ensures
        final(reader).wf(),
        final(reader).contents() == old(reader).contents(),
        res is Ok <==> fields_end(old(reader).contents(), p, l.take(k + 1)) is Some,
        res is Ok ==> fields_end(old(reader).contents(), p, l.take(k + 1)) == Some(
            final(reader).position() as int,
        ),
        res matches Ok(v) ==> v == byte_field(old(reader).contents(), p, l, k),
        res is Err ==> fields_end(old(reader).contents(), p, l) is None,
{
    let ghost d = reader.contents();
    proof {
        assert(l.take(k + 1).drop_last() =~= l.take(k));
        assert(l.take(k + 1).last() == l[k]);
    }
    let res = reader.read_u8();
    proof {
        if res is Err {
            lemma_fields_end_none(d, p, l, k + 1);
        }
    }
    res
}

/// Reads field `k` of layout `l` stored from `p`, a C string; text that is
/// not UTF-8 fails with [`ReadError::InvalidCString`].
pub(crate) fn read_text(reader: &mut BinaryReader, Ghost(p): Ghost<int>, Ghost(l): Ghost<Seq<FieldKind>>, Ghost(k): Ghost<int>) -> (res:
    Result<String, ReadError>)
    requires
        old(reader).wf(),
        0 <= k < l.len(),
        l[k] == FieldKind::Text,
        fields_end(old(reader).contents(), p, l.take(k)) == Some(old(reader).position() as int),
    ensures
        final(reader).wf(),
        final(reader).contents() == old(reader).contents(),
        res is Ok <==> fields_end(old(reader).contents(), p, l.take(k + 1)) is Some,
        res is Ok ==> fields_end(old(reader).contents(), p, l.take(k + 1)) == Some(
            final(reader).position() as int,
        ),
        res matches Ok(v) ==> v@ == text_field(old(reader).contents(), p, l, k),
        res is Err ==> fields_end(old(reader).contents(), p, l) is None,
{
    let ghost d = reader.contents();
    proof {
        assert(l.take(k + 1).drop_last() =~= l.take(k));
        assert(l.take(k + 1).last() == l[k]);
    }
    let res = match reader.read_c_string_converted() {
        Ok(s) => Ok(s),
        Err(ReadError::Utf8Error { .. }) => Err(
            ReadError::InvalidCString(String::from_str("text of the info file is not UTF-8")),
        ),
        Err(e) => Err(e),
    };
    proof {
        if res is Err {
            lemma_fields_end_none(d, p, l, k + 1);
        }
    }
    res
}

/// Reads field `k` of layout `l` stored from `p`, a four-byte code.
pub(crate) fn read_code(reader: &mut BinaryReader, Ghost(p): Ghost<int>, Ghost(l): Ghost<Seq<FieldKind>>, Ghost(k): Ghost<int>) -> (res:
    Result<String, ReadError>)
    requires
        old(reader).wf(),
        0 <= k < l.len(),
        l[k] == FieldKind::Code,
        fields_end(old(reader).contents(), p, l.take(k)) == Some(old(reader).position() as int),
    ensures
        final(reader).wf(),
        final(reader).contents() == old(reader).contents(),
        res is Ok <==> fields_end(old(reader).contents(), p, l.take(k + 1)) is Some,
        res is Ok ==> fields_end(old(reader).contents(), p, l.take(k + 1)) == Some(
            final(reader).position() as int,
        ),
        res matches Ok(v) ==> v@ == code_field(old(reader).contents(), p, l, k),
        res is Err ==> fields_end(old(reader).contents(), p, l) is None,
{
    let ghost d = reader.contents();
    proof {
        assert(l.take(k + 1).drop_last() =~= l.take(k));
        assert(l.take(k + 1).last() == l[k]);
    }
    let res = reader.read_string_utf8(4);
    proof {
        if res is Err {
            lemma_fields_end_none(d, p, l, k + 1);
        }
    }
    res
}

/// A player slot of the map.
#[derive(Debug)]
pub struct PlayerData {
    pub player_id: i32,
    pub player_type: i32,
    pub player_race: i32,
    pub fixed_position: i32,
    pub player_name: String,
    pub starting_pos_x: u32,
    pub starting_pos_y: u32,
    pub ally_low_priorities: i32,
    pub ally_high_priorities: i32,
}

/// How a player entry is stored.
pub open spec fn player_layout() -> Seq<FieldKind> {
    seq![FieldKind::Word, FieldKind::Word, FieldKind::Word, FieldKind::Word, FieldKind::Text, FieldKind::Word, FieldKind::Word, FieldKind::Word, FieldKind::Word]
}

/// Whether `x` is the player entry stored at `q`.
pub open spec fn player_at(d: Seq<u8>, q: int, x: PlayerData) -> bool {
    let l = player_layout();
    &&& fields_end(d, q, l) is Some
    &&& x.player_id == word_field(d, q, l, 0) as i32
    &&& x.player_type == word_field(d, q, l, 1) as i32
    &&& x.player_race == word_field(d, q, l, 2) as i32
    &&& x.fixed_position == word_field(d, q, l, 3) as i32
    &&& x.player_name@ == text_field(d, q, l, 4)
    &&& x.starting_pos_x == word_field(d, q, l, 5)
    &&& x.starting_pos_y == word_field(d, q, l, 6)
    &&& x.ally_low_priorities == word_field(d, q, l, 7) as i32
    &&& x.ally_high_priorities == word_field(d, q, l, 8) as i32
}

/// Adding a field to a layout: the fields read as before, then the new one.
proof fn lemma_fields_end_push(d: Seq<u8>, p: int, l: Seq<FieldKind>, k: FieldKind)
    ensures
        fields_end(d, p, l.push(k)) == match fields_end(d, p, l) {
            Some(q) => field_end(d, q, k),
            None => None,
        },
{
    assert(l.push(k).drop_last() =~= l);
}

/// When a whole layout can be read from `q`, field `i - 1` starts where the
/// fields before it end, and ends where a field of its kind read there ends.
pub(crate) proof fn lemma_field_step(d: Seq<u8>, q: int, l: Seq<FieldKind>, i: int)
    requires
        fields_end(d, q, l) is Some,
        0 < i <= l.len(),
    ensures
        fields_end(d, q, l.take(i - 1)) is Some,
        fields_end(d, q, l.take(i)) == field_end(d, fields_end(d, q, l.take(i - 1))->0, l[i - 1]),
{
    assert(l.take(i) =~= l.take(i - 1).push(l[i - 1]));
    lemma_fields_end_push(d, q, l.take(i - 1), l[i - 1]);
    if fields_end(d, q, l.take(i - 1)) is None {
        lemma_fields_end_none(d, q, l, i - 1);
    }
}

/// Where a run of `n` word fields from field `a` on starts, the `k`-th of
/// them starts `4 * k` bytes later.
pub(crate) proof fn lemma_word_run(d: Seq<u8>, q: int, l: Seq<FieldKind>, a: int, n: int)
    requires
        fields_end(d, q, l) is Some,
        0 <= a,
        0 <= n,
        a + n <= l.len(),
        forall|k: int| a <= k < a + n ==> l[k] == FieldKind::Word,
    ensures
        fields_end(d, q, l.take(a)) is Some,
        forall|i: int|
            a <= i <= a + n ==> fields_end(d, q, #[trigger] l.take(i)) == Some(
                fields_end(d, q, l.take(a))->0 + 4 * (i - a),
            ),
    decreases n,
{
    if n > 0 {
        lemma_word_run(d, q, l, a, n - 1);
        lemma_field_step(d, q, l, a + n);
        assert(l[a + n - 1] == FieldKind::Word);
        if fields_end(d, q, l.take(a + n)) is None {
            lemma_fields_end_none(d, q, l, a + n);
        }
    } else if fields_end(d, q, l.take(a)) is None {
        lemma_fields_end_none(d, q, l, a);
    }
}

/// The layout of a player entry in the info file: the player number, type,
/// race and fixed-position flag as little-endian words at bytes 0, 4, 8 and
/// 12, then the name as a NUL-terminated UTF-8 text from byte 16; right after
/// the name's NUL come the starting position x, then y, then the low and the
/// high ally priority flags, each a little-endian word.
pub proof fn law_player_layout(d: Seq<u8>, q: int, x: PlayerData)
    requires
        player_at(d, q, x),
    ensures
        x.player_id == u32_at(d, q) as i32,
        x.player_type == u32_at(d, q + 4) as i32,
        x.player_race == u32_at(d, q + 8) as i32,
        x.fixed_position == u32_at(d, q + 12) as i32,
        c_string_at(d, q + 16) matches Some((name, e)) && {
            &&& x.player_name@ == name
            &&& x.starting_pos_x == u32_at(d, e)
            &&& x.starting_pos_y == u32_at(d, e + 4)
            &&& x.ally_low_priorities == u32_at(d, e + 8) as i32
            &&& x.ally_high_priorities == u32_at(d, e + 12) as i32
        },
{
    let l = player_layout();
    assert(l.take(0) =~= Seq::<FieldKind>::empty());
    assert(l.take(1) =~= l.take(0).push(l[0]));
    lemma_fields_end_push(d, q, l.take(0), l[0]);
    assert(l.take(2) =~= l.take(1).push(l[1]));
    lemma_fields_end_push(d, q, l.take(1), l[1]);
    assert(l.take(3) =~= l.take(2).push(l[2]));
    lemma_fields_end_push(d, q, l.take(2), l[2]);
    assert(l.take(4) =~= l.take(3).push(l[3]));
    lemma_fields_end_push(d, q, l.take(3), l[3]);
    assert(l.take(5) =~= l.take(4).push(l[4]));
    lemma_fields_end_push(d, q, l.take(4), l[4]);
    assert(l.take(6) =~= l.take(5).push(l[5]));
    lemma_fields_end_push(d, q, l.take(5), l[5]);
    assert(l.take(7) =~= l.take(6).push(l[6]));
    lemma_fields_end_push(d, q, l.take(6), l[6]);
    assert(l.take(8) =~= l.take(7).push(l[7]));
    lemma_fields_end_push(d, q, l.take(7), l[7]);
    assert(l.take(9) =~= l.take(8).push(l[8]));
    lemma_fields_end_push(d, q, l.take(8), l[8]);
    assert(l.take(9) =~= l);
    let t = l.take(8);
    if fields_end(d, q, t) is None {
        lemma_fields_end_none(d, q, l, 8);
    }
    assert(fields_end(d, q, l.take(0)) == Some(q));
    assert(l[0] == FieldKind::Word && l[1] == FieldKind::Word && l[2] == FieldKind::Word && l[3] == FieldKind::Word);
    assert(l[4] == FieldKind::Text && l[5] == FieldKind::Word && l[6] == FieldKind::Word && l[7] == FieldKind::Word);
    assert(l[8] == FieldKind::Word);
    let (name, e) = c_string_at(d, q + 16).unwrap();
    assert(fields_end(d, q, l.take(1)) == Some(q + 4));
    assert(fields_end(d, q, l.take(2)) == Some(q + 8));
    assert(fields_end(d, q, l.take(3)) == Some(q + 12));
    assert(fields_end(d, q, l.take(4)) == Some(q + 16));
    assert(fields_end(d, q, l.take(5)) == Some(e));
    assert(fields_end(d, q, l.take(6)) == Some(e + 4));
    assert(fields_end(d, q, l.take(7)) == Some(e + 8));
    assert(fields_end(d, q, l.take(8)) == Some(e + 12));
}

/// Where the player entries stored from a position end.
pub open spec fn player_ends(d: Seq<u8>) -> spec_fn(int) -> Option<int> {
    |q: int| fields_end(d, q, player_layout())
}

/// Where reading player entry `x` from a position ends, when it is stored there.
pub open spec fn player_reads(d: Seq<u8>) -> spec_fn(int, PlayerData) -> Option<int> {
    |q: int, x: PlayerData| if player_at(d, q, x) {
        fields_end(d, q, player_layout())
    } else {
        None
    }
}

impl PlayerData {
    /// Reads the entry at the cursor.
    pub fn read(reader: &mut BinaryReader) -> (res: Result<Self, ReadError>)
        requires
            old(reader).wf(),
        ensures
            final(reader).wf(),
            final(reader).contents() == old(reader).contents(),
            res is Ok <==> fields_end(old(reader).contents(), old(reader).position() as int, player_layout()) is Some,
            res is Ok ==> fields_end(old(reader).contents(), old(reader).position() as int, player_layout()) == Some(
                final(reader).position() as int,
            ),
            res matches Ok(x) ==> player_at(old(reader).contents(), old(reader).position() as int, x),
    {
        let ghost d = reader.contents();
        let ghost p = reader.position() as int;
        let ghost l = player_layout();
        assert(l.take(0) =~= Seq::<FieldKind>::empty());
        let player_id = match read_word(reader, Ghost(p), Ghost(l), Ghost(0int)) {
            Ok(v) => v as i32,
            Err(e) => {
                return Err(e);
            },
        };
        let player_type = match read_word(reader, Ghost(p), Ghost(l), Ghost(1int)) {
            Ok(v) => v as i32,
            Err(e) => {
                return Err(e);
            },
        };
        let player_race = match read_word(reader, Ghost(p), Ghost(l), Ghost(2int)) {
            Ok(v) => v as i32,
            Err(e) => {
                return Err(e);
            },
        };
        let fixed_position = match read_word(reader, Ghost(p), Ghost(l), Ghost(3int)) {
            Ok(v) => v as i32,
            Err(e) => {
                return Err(e);
            },
        };
        let player_name = match read_text(reader, Ghost(p), Ghost(l), Ghost(4int)) {
            Ok(v) => v,
            Err(e) => {
                return Err(e);
            },
        };
        let starting_pos_x = match read_word(reader, Ghost(p), Ghost(l), Ghost(5int)) {
            Ok(v) => v,
            Err(e) => {
                return Err(e);
            },
        };
        let starting_pos_y = match read_word(reader, Ghost(p), Ghost(l), Ghost(6int)) {
            Ok(v) => v,
            Err(e) => {
                return Err(e);
            },
        };
        let ally_low_priorities = match read_word(reader, Ghost(p), Ghost(l), Ghost(7int)) {
            Ok(v) => v as i32,
            Err(e) => {
                return Err(e);
            },
        };
        let ally_high_priorities = match read_word(reader, Ghost(p), Ghost(l), Ghost(8int)) {
            Ok(v) => v as i32,
            Err(e) => {
                return Err(e);
            },
        };
        assert(l.take(9int) =~= l);
        Ok(PlayerData { player_id, player_type, player_race, fixed_position, player_name, starting_pos_x, starting_pos_y, ally_low_priorities, ally_high_priorities })
    }
}

/// Reads `n` player entries.
fn read_player_list(reader: &mut BinaryReader, n: u32) -> (res: Result<Vec<PlayerData>, ReadError>)
    requires
        old(reader).wf(),
    ensures
        final(reader).wf(),
        final(reader).contents() == old(reader).contents(),
        ({
            let d = old(reader).contents();
            let p = old(reader).position() as int;
            &&& res is Ok <==> seq_end(p, n as nat, player_ends(d)) is Some
            &&& res is Ok ==> seq_end(p, n as nat, player_ends(d)) == Some(final(reader).position() as int)
            &&& res matches Ok(s) ==> s@.len() == n && seq_read(p, s@, player_reads(d)) == Some(
                final(reader).position() as int,
            )
        }),
{
    let ghost d = reader.contents();
    let ghost p0 = reader.position() as int;
    let mut items: Vec<PlayerData> = Vec::new();
    let mut k: u32 = 0;
    while k < n
        invariant
            reader.wf(),
            reader.contents() == d,
            d == old(reader).contents(),
            p0 == old(reader).position(),
            k <= n,
            items@.len() == k,
            seq_end(p0, k as nat, player_ends(d)) == Some(reader.position() as int),
            seq_read(p0, items@, player_reads(d)) == Some(reader.position() as int),
        decreases n - k,
    {
        let x = match PlayerData::read(reader) {
            Ok(x) => x,
            Err(e) => {
                proof {
                    assert(seq_end(p0, (k + 1) as nat, player_ends(d)) is None);
                    lemma_seq_end_none(p0, (k + 1) as nat, n as nat, player_ends(d));
                }
                return Err(e);
            },
        };
        let ghost before = items@;
        items.push(x);
        assert(items@.drop_last() == before);
        k = k + 1;
    }
    Ok(items)
}

/// A force (team) of the map.
#[derive(Debug)]
pub struct ForceData {
    pub force_flags: ForceFlags,
    pub player_mask: i32,
    pub name: String,
}

/// How a force entry is stored.
pub open spec fn force_layout() -> Seq<FieldKind> {
    seq![FieldKind::Word, FieldKind::Word, FieldKind::Text]
}

/// Whether `x` is the force entry stored at `q`.
pub open spec fn force_at(d: Seq<u8>, q: int, x: ForceData) -> bool {
    let l = force_layout();
    &&& fields_end(d, q, l) is Some
    &&& x.force_flags.raw_value == word_field(d, q, l, 0) as i32
    &&& x.player_mask == word_field(d, q, l, 1) as i32
    &&& x.name@ == text_field(d, q, l, 2)
}

/// The layout of a force entry in the info file: its flags and its player
/// mask as little-endian words at bytes 0 and 4, then its name as a
/// NUL-terminated UTF-8 text from byte 8.
pub proof fn law_force_layout(d: Seq<u8>, q: int, x: ForceData)
    requires
        force_at(d, q, x),
    ensures
        x.force_flags.raw_value == u32_at(d, q) as i32,
        x.player_mask == u32_at(d, q + 4) as i32,
        c_string_at(d, q + 8) matches Some((name, _)) && x.name@ == name,
{
    let l = force_layout();
    lemma_word_run(d, q, l, 0, 2);
    assert(l.take(0) =~= Seq::<FieldKind>::empty());
    lemma_field_step(d, q, l, 3);
}

/// Where the force entries stored from a position end.
pub open spec fn force_ends(d: Seq<u8>) -> spec_fn(int) -> Option<int> {
    |q: int| fields_end(d, q, force_layout())
}

/// Where reading force entry `x` from a position ends, when it is stored there.
pub open spec fn force_reads(d: Seq<u8>) -> spec_fn(int, ForceData) -> Option<int> {
    |q: int, x: ForceData| if force_at(d, q, x) {
        fields_end(d, q, force_layout())
    } else {
        None
    }
}

impl ForceData {
    /// Reads the entry at the cursor.
    pub fn read(reader: &mut BinaryReader) -> (res: Result<Self, ReadError>)
        requires
            old(reader).wf(),
        ensures
            final(reader).wf(),
            final(reader).contents() == old(reader).contents(),
            res is Ok <==> fields_end(old(reader).contents(), old(reader).position() as int, force_layout()) is Some,
            res is Ok ==> fields_end(old(reader).contents(), old(reader).position() as int, force_layout()) == Some(
                final(reader).position() as int,
            ),
            res matches Ok(x) ==> force_at(old(reader).contents(), old(reader).position() as int, x),
    {
        let ghost d = reader.contents();
        let ghost p = reader.position() as int;
        let ghost l = force_layout();
        assert(l.take(0) =~= Seq::<FieldKind>::empty());
        let force_flags = match read_word(reader, Ghost(p), Ghost(l), Ghost(0int)) {
            Ok(v) => ForceFlags::new(v as i32),
            Err(e) => {
                return Err(e);
            },
        };
        let player_mask = match read_word(reader, Ghost(p), Ghost(l), Ghost(1int)) {
            Ok(v) => v as i32,
            Err(e) => {
                return Err(e);
            },
        };
        let name = match read_text(reader, Ghost(p), Ghost(l), Ghost(2int)) {
            Ok(v) => v,
            Err(e) => {
                return Err(e);
            },
        };
        assert(l.take(3int) =~= l);
        Ok(ForceData { force_flags, player_mask, name })
    }
}

/// Reads `n` force entries.
fn read_force_list(reader: &mut BinaryReader, n: u32) -> (res: Result<Vec<ForceData>, ReadError>)
    requires
        old(reader).wf(),
    ensures
        final(reader).wf(),
        final(reader).contents() == old(reader).contents(),
        ({
            let d = old(reader).contents();
            let p = old(reader).position() as int;
            &&& res is Ok <==> seq_end(p, n as nat, force_ends(d)) is Some
            &&& res is Ok ==> seq_end(p, n as nat, force_ends(d)) == Some(final(reader).position() as int)
            &&& res matches Ok(s) ==> s@.len() == n && seq_read(p, s@, force_reads(d)) == Some(
                final(reader).position() as int,
            )
        }),
{
    let ghost d = reader.contents();
    let ghost p0 = reader.position() as int;
    let mut items: Vec<ForceData> = Vec::new();
    let mut k: u32 = 0;
    while k < n
        invariant
            reader.wf(),
            reader.contents() == d,
            d == old(reader).contents(),
            p0 == old(reader).position(),
            k <= n,
            items@.len() == k,
            seq_end(p0, k as nat, force_ends(d)) == Some(reader.position() as int),
            seq_read(p0, items@, force_reads(d)) == Some(reader.position() as int),
        decreases n - k,
    {
        let x = match ForceData::read(reader) {
            Ok(x) => x,
            Err(e) => {
                proof {
                    assert(seq_end(p0, (k + 1) as nat, force_ends(d)) is None);
                    lemma_seq_end_none(p0, (k + 1) as nat, n as nat, force_ends(d));
                }
                return Err(e);
            },
        };
        let ghost before = items@;
        items.push(x);
        assert(items@.drop_last() == before);
        k = k + 1;
    }
    Ok(items)
}

/// The availability of an upgrade level to some players.
#[derive(Debug)]
pub struct UpgradeAvailability {
    pub player_availability: i32,
    pub upgrade_id: String,
    pub upgrade_level: i32,
    pub availability: i32,
}

/// How a upgrade entry is stored.
pub open spec fn upgrade_layout() -> Seq<FieldKind> {
    seq![FieldKind::Word, FieldKind::Code, FieldKind::Word, FieldKind::Word]
}

/// Whether `x` is the upgrade entry stored at `q`.
pub open spec fn upgrade_at(d: Seq<u8>, q: int, x: UpgradeAvailability) -> bool {
    let l = upgrade_layout();
    &&& fields_end(d, q, l) is Some
    &&& x.player_availability == word_field(d, q, l, 0) as i32
    &&& x.upgrade_id@ == code_field(d, q, l, 1)
    &&& x.upgrade_level == word_field(d, q, l, 2) as i32
    &&& x.availability == word_field(d, q, l, 3) as i32
}

/// The layout of an upgrade availability entry in the info file: the
/// players it applies to as a little-endian word at byte 0, the upgrade code
/// in bytes 4 to 7, then its level and its availability as words at bytes 8
/// and 12.
pub proof fn law_upgrade_layout(d: Seq<u8>, q: int, x: UpgradeAvailability)
    requires
        upgrade_at(d, q, x),
    ensures
        x.player_availability == u32_at(d, q) as i32,
        x.upgrade_id@ == code_text(d, q + 4),
        x.upgrade_level == u32_at(d, q + 8) as i32,
        x.availability == u32_at(d, q + 12) as i32,
{
    let l = upgrade_layout();
    assert(l.take(0) =~= Seq::<FieldKind>::empty());
    lemma_field_step(d, q, l, 1);
    lemma_field_step(d, q, l, 2);
    lemma_word_run(d, q, l, 2, 2);
}

/// Where the upgrade entries stored from a position end.
pub open spec fn upgrade_ends(d: Seq<u8>) -> spec_fn(int) -> Option<int> {
    |q: int| fields_end(d, q, upgrade_layout())
}

/// Where reading upgrade entry `x` from a position ends, when it is stored there.
pub open spec fn upgrade_reads(d: Seq<u8>) -> spec_fn(int, UpgradeAvailability) -> Option<int> {
    |q: int, x: UpgradeAvailability| if upgrade_at(d, q, x) {
        fields_end(d, q, upgrade_layout())
    } else {
        None
    }
}

impl UpgradeAvailability {
    /// Reads the entry at the cursor.
    pub fn read(reader: &mut BinaryReader) -> (res: Result<Self, ReadError>)
        requires
            old(reader).wf(),
        ensures
            final(reader).wf(),
            final(reader).contents() == old(reader).contents(),
            res is Ok <==> fields_end(old(reader).contents(), old(reader).position() as int, upgrade_layout()) is Some,
            res is Ok ==> fields_end(old(reader).contents(), old(reader).position() as int, upgrade_layout()) == Some(
                final(reader).position() as int,
            ),
            res matches Ok(x) ==> upgrade_at(old(reader).contents(), old(reader).position() as int, x),
    {
        let ghost d = reader.contents();
        let ghost p = reader.position() as int;
        let ghost l = upgrade_layout();
        assert(l.take(0) =~= Seq::<FieldKind>::empty());
        let player_availability = match read_word(reader, Ghost(p), Ghost(l), Ghost(0int)) {
            Ok(v) => v as i32,
            Err(e) => {
                return Err(e);
            },
        };
        let upgrade_id = match read_code(reader, Ghost(p), Ghost(l), Ghost(1int)) {
            Ok(v) => v,
            Err(e) => {
                return Err(e);
            },
        };
        let upgrade_level = match read_word(reader, Ghost(p), Ghost(l), Ghost(2int)) {
            Ok(v) => v as i32,
            Err(e) => {
                return Err(e);
            },
        };
        let availability = match read_word(reader, Ghost(p), Ghost(l), Ghost(3int)) {
            Ok(v) => v as i32,
            Err(e) => {
                return Err(e);
            },
        };
        assert(l.take(4int) =~= l);
        Ok(UpgradeAvailability { player_availability, upgrade_id, upgrade_level, availability })
    }
}

/// Reads `n` upgrade entries.
fn read_upgrade_list(reader: &mut BinaryReader, n: u32) -> (res: Result<Vec<UpgradeAvailability>, ReadError>)
    requires
        old(reader).wf(),
    ensures
        final(reader).wf(),
        final(reader).contents() == old(reader).contents(),
        ({
            let d = old(reader).contents();
            let p = old(reader).position() as int;
            &&& res is Ok <==> seq_end(p, n as nat, upgrade_ends(d)) is Some
            &&& res is Ok ==> seq_end(p, n as nat, upgrade_ends(d)) == Some(final(reader).position() as int)
            &&& res matches Ok(s) ==> s@.len() == n && seq_read(p, s@, upgrade_reads(d)) == Some(
                final(reader).position() as int,
            )
        }),
{
    let ghost d = reader.contents();
    let ghost p0 = reader.position() as int;
    let mut items: Vec<UpgradeAvailability> = Vec::new();
    let mut k: u32 = 0;
    while k < n
        invariant
            reader.wf(),
            reader.contents() == d,
            d == old(reader).contents(),
            p0 == old(reader).position(),
            k <= n,
            items@.len() == k,
            seq_end(p0, k as nat, upgrade_ends(d)) == Some(reader.position() as int),
            seq_read(p0, items@, upgrade_reads(d)) == Some(reader.position() as int),
        decreases n - k,
    {
        let x = match UpgradeAvailability::read(reader) {
            Ok(x) => x,
            Err(e) => {
                proof {
                    assert(seq_end(p0, (k + 1) as nat, upgrade_ends(d)) is None);
                    lemma_seq_end_none(p0, (k + 1) as nat, n as nat, upgrade_ends(d));
                }
                return Err(e);
            },
        };
        let ghost before = items@;
        items.push(x);
        assert(items@.drop_last() == before);
        k = k + 1;
    }
    Ok(items)
}

/// The availability of a technology to some players.
#[derive(Debug)]
pub struct TechAvailability {
    pub player_availability: i32,
    pub tech_id: String,
}

/// How a tech entry is stored.
pub open spec fn tech_layout() -> Seq<FieldKind> {
    seq![FieldKind::Word, FieldKind::Code]
}

/// Whether `x` is the tech entry stored at `q`.
pub open spec fn tech_at(d: Seq<u8>, q: int, x: TechAvailability) -> bool {
    let l = tech_layout();
    &&& fields_end(d, q, l) is Some
    &&& x.player_availability == word_field(d, q, l, 0) as i32
    &&& x.tech_id@ == code_field(d, q, l, 1)
}

/// Where the tech entries stored from a position end.
pub open spec fn tech_ends(d: Seq<u8>) -> spec_fn(int) -> Option<int> {
    |q: int| fields_end(d, q, tech_layout())
}

/// Where reading tech entry `x` from a position ends, when it is stored there.
pub open spec fn tech_reads(d: Seq<u8>) -> spec_fn(int, TechAvailability) -> Option<int> {
    |q: int, x: TechAvailability| if tech_at(d, q, x) {
        fields_end(d, q, tech_layout())
    } else {
        None
    }
}

impl TechAvailability {
    /// Reads the entry at the cursor.
    pub fn read(reader: &mut BinaryReader) -> (res: Result<Self, ReadError>)
        requires
            old(reader).wf(),
        ensures
            final(reader).wf(),
            final(reader).contents() == old(reader).contents(),
            res is Ok <==> fields_end(old(reader).contents(), old(reader).position() as int, tech_layout()) is Some,
            res is Ok ==> fields_end(old(reader).contents(), old(reader).position() as int, tech_layout()) == Some(
                final(reader).position() as int,
            ),
            res matches Ok(x) ==> tech_at(old(reader).contents(), old(reader).position() as int, x),
    {
        let ghost d = reader.contents();
        let ghost p = reader.position() as int;
        let ghost l = tech_layout();
        assert(l.take(0) =~= Seq::<FieldKind>::empty());
        let player_availability = match read_word(reader, Ghost(p), Ghost(l), Ghost(0int)) {
            Ok(v) => v as i32,
            Err(e) => {
                return Err(e);
            },
        };
        let tech_id = match read_code(reader, Ghost(p), Ghost(l), Ghost(1int)) {
            Ok(v) => v,
            Err(e) => {
                return Err(e);
            },
        };
        assert(l.take(2int) =~= l);
        Ok(TechAvailability { player_availability, tech_id })
    }
}

/// Reads `n` tech entries.
fn read_tech_list(reader: &mut BinaryReader, n: u32) -> (res: Result<Vec<TechAvailability>, ReadError>)
    requires
        old(reader).wf(),
    ensures
        final(reader).wf(),
        final(reader).contents() == old(reader).contents(),
        ({
            let d = old(reader).contents();
            let p = old(reader).position() as int;
            &&& res is Ok <==> seq_end(p, n as nat, tech_ends(d)) is Some
            &&& res is Ok ==> seq_end(p, n as nat, tech_ends(d)) == Some(final(reader).position() as int)
            &&& res matches Ok(s) ==> s@.len() == n && seq_read(p, s@, tech_reads(d)) == Some(
                final(reader).position() as int,
            )
        }),
{
    let ghost d = reader.contents();
    let ghost p0 = reader.position() as int;
    let mut items: Vec<TechAvailability> = Vec::new();
    let mut k: u32 = 0;
    while k < n
        invariant
            reader.wf(),
            reader.contents() == d,
            d == old(reader).contents(),
            p0 == old(reader).position(),
            k <= n,
            items@.len() == k,
            seq_end(p0, k as nat, tech_ends(d)) == Some(reader.position() as int),
            seq_read(p0, items@, tech_reads(d)) == Some(reader.position() as int),
        decreases n - k,
    {
        let x = match TechAvailability::read(reader) {
            Ok(x) => x,
            Err(e) => {
                proof {
                    assert(seq_end(p0, (k + 1) as nat, tech_ends(d)) is None);
                    lemma_seq_end_none(p0, (k + 1) as nat, n as nat, tech_ends(d));
                }
                return Err(e);
            },
        };
        let ghost before = items@;
        items.push(x);
        assert(items@.drop_last() == before);
        k = k + 1;
    }
    Ok(items)
}


/// A line of a random unit table: its chance and one ID per column.
#[derive(Debug)]
pub struct RandomUnitSet {
    pub chance: u32,
    pub ids: Vec<String>,
}

/// A random unit table of the map: its index, name, column kinds and lines.
#[derive(Debug)]
pub struct RandomUnitTable {
    pub id: i32,
    pub name: String,
    pub position_types: Vec<RandomTablePositionType>,
    pub sets: Vec<RandomUnitSet>,
}

/// The code of position type `t`.
pub open spec fn position_code(t: RandomTablePositionType) -> u32 {
    match t {
        RandomTablePositionType::Unit => 0,
        RandomTablePositionType::Building => 1,
        RandomTablePositionType::Item => 2,
    }
}

/// Where the position types stored from a position end: each is a known
/// code.
pub open spec fn position_ends(d: Seq<u8>) -> spec_fn(int) -> Option<int> {
    |r: int| if has_bytes(d, r, 4) && u32_at(d, r) <= 2 {
        Some(r + 4)
    } else {
        None
    }
}

/// Where reading position type `t` from a position ends.
pub open spec fn position_reads(d: Seq<u8>) -> spec_fn(int, RandomTablePositionType) -> Option<int> {
    |r: int, t: RandomTablePositionType| if has_bytes(d, r, 4) && u32_at(d, r) <= 2 && position_code(t)
        == u32_at(d, r) {
        Some(r + 4)
    } else {
        None
    }
}

/// Where the four-byte codes stored from a position end.
pub open spec fn code_ends(d: Seq<u8>) -> spec_fn(int) -> Option<int> {
    |r: int| if code_at(d, r) {
        Some(r + 4)
    } else {
        None
    }
}

/// Where reading code `s` from a position ends.
pub open spec fn code_reads(d: Seq<u8>) -> spec_fn(int, String) -> Option<int> {
    |r: int, s: String| if code_at(d, r) && s@ == code_text(d, r) {
        Some(r + 4)
    } else {
        None
    }
}

/// Where the lines of a random unit table with `c` columns end: a chance,
/// then `c` codes.
pub open spec fn line_ends(d: Seq<u8>, c: nat) -> spec_fn(int) -> Option<int> {
    |r: int| if has_bytes(d, r, 4) {
        seq_end(r + 4, c, code_ends(d))
    } else {
        None
    }
}

/// Where reading line `x` of a table with `c` columns ends.
pub open spec fn line_reads(d: Seq<u8>, c: nat) -> spec_fn(int, RandomUnitSet) -> Option<int> {
    |r: int, x: RandomUnitSet| if has_bytes(d, r, 4) && x.chance == u32_at(d, r) && x.ids@.len()
        == c {
        seq_read(r + 4, x.ids@, code_reads(d))
    } else {
        None
    }
}

/// How the head of a random table is stored: index, name, count.
pub open spec fn table_head_layout() -> Seq<FieldKind> {
    seq![FieldKind::Word, FieldKind::Text, FieldKind::Word]
}

/// Where the random unit table stored at `q` ends, when it can be read: a
/// negative column count cannot be.
pub open spec fn unit_table_end(d: Seq<u8>, q: int) -> Option<int> {
    let l = table_head_layout();
    match fields_end(d, q, l) {
        None => None,
        Some(h) => {
            let c = word_field(d, q, l, 2) as i32;
            if c < 0 {
                None
            } else {
                match seq_end(h, c as nat, position_ends(d)) {
                    None => None,
                    Some(r) => if has_bytes(d, r, 4) {
                        seq_end(r + 4, u32_at(d, r) as nat, line_ends(d, c as nat))
                    } else {
                        None
                    },
                }
            }
        },
    }
}

/// Whether `x` is the random unit table stored at `q`.
pub open spec fn unit_table_at(d: Seq<u8>, q: int, x: RandomUnitTable) -> bool {
    let l = table_head_layout();
    let h = fields_end(d, q, l)->0;
    let c = word_field(d, q, l, 2) as i32;
    let r = seq_end(h, c as nat, position_ends(d))->0;
    &&& unit_table_end(d, q) is Some
    &&& x.id == word_field(d, q, l, 0) as i32
    &&& x.name@ == text_field(d, q, l, 1)
    &&& x.position_types@.len() == c
    &&& seq_read(h, x.position_types@, position_reads(d)) == Some(r)
    &&& x.sets@.len() == u32_at(d, r)
    &&& seq_read(r + 4, x.sets@, line_reads(d, c as nat)) == unit_table_end(d, q)
}

/// Reads `n` position types; an unknown code fails with
/// [`ReadError::Reason`].
fn read_positions(reader: &mut BinaryReader, n: u32) -> (res: Result<Vec<RandomTablePositionType>, ReadError>)
    requires
        old(reader).wf(),
    ensures
        final(reader).wf(),
        final(reader).contents() == old(reader).contents(),
        ({
            let d = old(reader).contents();
            let p = old(reader).position() as int;
            &&& res is Ok <==> seq_end(p, n as nat, position_ends(d)) is Some
            &&& res is Ok ==> seq_end(p, n as nat, position_ends(d)) == Some(final(reader).position() as int)
            &&& res matches Ok(s) ==> s@.len() == n && seq_read(p, s@, position_reads(d)) == Some(
                final(reader).position() as int,
            )
        }),
{
    let ghost d = reader.contents();
    let ghost p0 = reader.position() as int;
    let mut items: Vec<RandomTablePositionType> = Vec::new();
    let mut k: u32 = 0;
    while k < n
        invariant
            reader.wf(),
            reader.contents() == d,
            d == old(reader).contents(),
            p0 == old(reader).position(),
            k <= n,
            items@.len() == k,
            seq_end(p0, k as nat, position_ends(d)) == Some(reader.position() as int),
            seq_read(p0, items@, position_reads(d)) == Some(reader.position() as int),
        decreases n - k,
    {
        let code = match reader.read_u32() {
            Ok(v) => v,
            Err(e) => {
                proof {
                    assert(seq_end(p0, (k + 1) as nat, position_ends(d)) is None);
                    lemma_seq_end_none(p0, (k + 1) as nat, n as nat, position_ends(d));
                }
                return Err(e);
            },
        };
        let x = match RandomTablePositionType::from(code) {
            Ok(x) => x,
            Err(e) => {
                proof {
                    assert(seq_end(p0, (k + 1) as nat, position_ends(d)) is None);
                    lemma_seq_end_none(p0, (k + 1) as nat, n as nat, position_ends(d));
                }
                return Err(e);
            },
        };
        let ghost before = items@;
        items.push(x);
        assert(items@.drop_last() == before);
        k = k + 1;
    }
    Ok(items)
}

/// Reads `n` four-byte codes.
fn read_codes(reader: &mut BinaryReader, n: u32) -> (res: Result<Vec<String>, ReadError>)
    requires
        old(reader).wf(),
    ensures
        final(reader).wf(),
        final(reader).contents() == old(reader).contents(),
        ({
            let d = old(reader).contents();
            let p = old(reader).position() as int;
            &&& res is Ok <==> seq_end(p, n as nat, code_ends(d)) is Some
            &&& res is Ok ==> seq_end(p, n as nat, code_ends(d)) == Some(final(reader).position() as int)
            &&& res matches Ok(s) ==> s@.len() == n && seq_read(p, s@, code_reads(d)) == Some(
                final(reader).position() as int,
            )
        }),
{
    let ghost d = reader.contents();
    let ghost p0 = reader.position() as int;
    let mut items: Vec<String> = Vec::new();
    let mut k: u32 = 0;
    while k < n
        invariant
            reader.wf(),
            reader.contents() == d,
            d == old(reader).contents(),
            p0 == old(reader).position(),
            k <= n,
            items@.len() == k,
            seq_end(p0, k as nat, code_ends(d)) == Some(reader.position() as int),
            seq_read(p0, items@, code_reads(d)) == Some(reader.position() as int),
        decreases n - k,
    {
        let x = match reader.read_string_utf8(4) {
            Ok(x) => x,
            Err(e) => {
                proof {
                    assert(seq_end(p0, (k + 1) as nat, code_ends(d)) is None);
                    lemma_seq_end_none(p0, (k + 1) as nat, n as nat, code_ends(d));
                }
                return Err(e);
            },
        };
        let ghost before = items@;
        items.push(x);
        assert(items@.drop_last() == before);
        k = k + 1;
    }
    Ok(items)
}

/// Reads `n` lines of a random unit table with `c` columns.
fn read_lines(reader: &mut BinaryReader, n: u32, c: u32) -> (res: Result<Vec<RandomUnitSet>, ReadError>)
    requires
        old(reader).wf(),
    ensures
        final(reader).wf(),
        final(reader).contents() == old(reader).contents(),
        ({
            let d = old(reader).contents();
            let p = old(reader).position() as int;
            &&& res is Ok <==> seq_end(p, n as nat, line_ends(d, c as nat)) is Some
            &&& res is Ok ==> seq_end(p, n as nat, line_ends(d, c as nat)) == Some(
                final(reader).position() as int,
            )
            &&& res matches Ok(s) ==> s@.len() == n && seq_read(p, s@, line_reads(d, c as nat))
                == Some(final(reader).position() as int)
        }),
{
    let ghost d = reader.contents();
    let ghost p0 = reader.position() as int;
    let mut items: Vec<RandomUnitSet> = Vec::new();
    let mut k: u32 = 0;
    while k < n
        invariant
            reader.wf(),
            reader.contents() == d,
            d == old(reader).contents(),
            p0 == old(reader).position(),
            k <= n,
            items@.len() == k,
            seq_end(p0, k as nat, line_ends(d, c as nat)) == Some(reader.position() as int),
            seq_read(p0, items@, line_reads(d, c as nat)) == Some(reader.position() as int),
        decreases n - k,
    {
        let chance = match reader.read_u32() {
            Ok(x) => x,
            Err(e) => {
                proof {
                    assert(seq_end(p0, (k + 1) as nat, line_ends(d, c as nat)) is None);
                    lemma_seq_end_none(p0, (k + 1) as nat, n as nat, line_ends(d, c as nat));
                }
                return Err(e);
            },
        };
        let ids = match read_codes(reader, c) {
            Ok(x) => x,
            Err(e) => {
                proof {
                    assert(seq_end(p0, (k + 1) as nat, line_ends(d, c as nat)) is None);
                    lemma_seq_end_none(p0, (k + 1) as nat, n as nat, line_ends(d, c as nat));
                }
                return Err(e);
            },
        };
        let ghost before = items@;
        items.push(RandomUnitSet { chance, ids });
        assert(items@.drop_last() == before);
        k = k + 1;
    }
    Ok(items)
}

impl RandomUnitTable {
    /// Reads a random unit table. A negative column count asks for more
    /// entries than any buffer holds, and fails with [`ReadError::EOF`].
    pub fn read(reader: &mut BinaryReader) -> (res: Result<Self, ReadError>)
        requires
            old(reader).wf(),
        ensures
            final(reader).wf(),
            final(reader).contents() == old(reader).contents(),
            res is Ok <==> unit_table_end(old(reader).contents(), old(reader).position() as int) is Some,
            res is Ok ==> unit_table_end(old(reader).contents(), old(reader).position() as int) == Some(
                final(reader).position() as int,
            ),
            res matches Ok(x) ==> unit_table_at(old(reader).contents(), old(reader).position() as int, x),
    {
        let ghost d = reader.contents();
        let ghost p = reader.position() as int;
        let ghost l = table_head_layout();
        assert(l.take(0) =~= Seq::<FieldKind>::empty());
        let id = match read_word(reader, Ghost(p), Ghost(l), Ghost(0int)) {
            Ok(v) => v as i32,
            Err(e) => {
                return Err(e);
            },
        };
        let name = match read_text(reader, Ghost(p), Ghost(l), Ghost(1int)) {
            Ok(v) => v,
            Err(e) => {
                return Err(e);
            },
        };
        let count = match read_word(reader, Ghost(p), Ghost(l), Ghost(2int)) {
            Ok(v) => v as i32,
            Err(e) => {
                return Err(e);
            },
        };
        assert(l.take(3) =~= l);
        if count < 0 {
            return Err(ReadError::EOF);
        }
        let columns = count as u32;
        let position_types = match read_positions(reader, columns) {
            Ok(v) => v,
            Err(e) => {
                return Err(e);
            },
        };
        let lines = match reader.read_u32() {
            Ok(v) => v,
            Err(e) => {
                return Err(e);
            },
        };
        let sets = match read_lines(reader, lines, columns) {
            Ok(v) => v,
            Err(e) => {
                return Err(e);
            },
        };
        Ok(RandomUnitTable { id, name, position_types, sets })
    }
}

/// The number of items that the count `c` of an item set asks for: a
/// negative count asks for none.
pub open spec fn item_count(c: i32) -> nat {
    if c < 0 {
        0
    } else {
        c as nat
    }
}

/// Where the items of an item set stored from a position end: a chance and
/// a code each.
pub open spec fn entry_ends(d: Seq<u8>) -> spec_fn(int) -> Option<int> {
    |r: int| if has_bytes(d, r, 8) && code_at(d, r + 4) {
        Some(r + 8)
    } else {
        None
    }
}

/// Where reading item `e` of an item set from a position ends.
pub open spec fn entry_reads(d: Seq<u8>) -> spec_fn(int, (u32, String)) -> Option<int> {
    |r: int, e: (u32, String)| if has_bytes(d, r, 8) && code_at(d, r + 4) && e.0 == u32_at(d, r)
        && e.1@ == code_text(d, r + 4) {
        Some(r + 8)
    } else {
        None
    }
}

/// Where the item sets stored from a position end: a count, then items.
pub open spec fn item_set_ends(d: Seq<u8>) -> spec_fn(int) -> Option<int> {
    |q: int| if has_bytes(d, q, 4) {
        seq_end(q + 4, item_count(u32_at(d, q) as i32), entry_ends(d))
    } else {
        None
    }
}

/// Where reading item set `x` from a position ends.
pub open spec fn item_set_reads(d: Seq<u8>) -> spec_fn(int, RandomItemSet) -> Option<int> {
    |q: int, x: RandomItemSet| if has_bytes(d, q, 4) && x.items@.len() == item_count(
        u32_at(d, q) as i32,
    ) {
        seq_read(q + 4, x.items@, entry_reads(d))
    } else {
        None
    }
}

/// Where the random item table stored at `q` ends, when it can be read: a
/// negative set count cannot be.
pub open spec fn item_table_end(d: Seq<u8>, q: int) -> Option<int> {
    let l = table_head_layout();
    match fields_end(d, q, l) {
        None => None,
        Some(h) => {
            let c = word_field(d, q, l, 2) as i32;
            if c < 0 {
                None
            } else {
                seq_end(h, c as nat, item_set_ends(d))
            }
        },
    }
}

/// Whether `x` is the random item table stored at `q`.
pub open spec fn item_table_at(d: Seq<u8>, q: int, x: RandomItemTable) -> bool {
    let l = table_head_layout();
    let h = fields_end(d, q, l)->0;
    &&& item_table_end(d, q) is Some
    &&& x.id == word_field(d, q, l, 0) as i32
    &&& x.name@ == text_field(d, q, l, 1)
    &&& x.sets@.len() == word_field(d, q, l, 2) as i32
    &&& seq_read(h, x.sets@, item_set_reads(d)) == item_table_end(d, q)
}

/// The layout of the random tables of the info file: a table starts with
/// its number as a little-endian word at byte 0 and its name as a
/// NUL-terminated UTF-8 text from byte 4; right after the name's NUL comes,
/// for a unit table, its column count and then one position code per column
/// (0 unit, 1 building, 2 item), and for an item table, its set count; a
/// line of a unit table is its chance as a word, then one code per column.
pub proof fn law_random_table_layout(
    d: Seq<u8>,
    q: int,
    units: RandomUnitTable,
    items: RandomItemTable,
    r: int,
    c: nat,
    line: RandomUnitSet,
)
    ensures
        position_code(RandomTablePositionType::Unit) == 0,
        position_code(RandomTablePositionType::Building) == 1,
        position_code(RandomTablePositionType::Item) == 2,
        unit_table_at(d, q, units) ==> {
            &&& units.id == u32_at(d, q) as i32
            &&& c_string_at(d, q + 4) matches Some((name, e)) && {
                &&& units.name@ == name
                &&& units.position_types@.len() == u32_at(d, e) as i32
                &&& seq_read(e + 4, units.position_types@, position_reads(d)) is Some
            }
        },
        item_table_at(d, q, items) ==> {
            &&& items.id == u32_at(d, q) as i32
            &&& c_string_at(d, q + 4) matches Some((name, e)) && items.name@ == name && items.sets@.len()
                == u32_at(d, e) as i32
        },
        line_reads(d, c)(r, line) is Some ==> line.chance == u32_at(d, r) && line.ids@.len() == c,
{
    let l = table_head_layout();
    if unit_table_at(d, q, units) || item_table_at(d, q, items) {
        assert(fields_end(d, q, l) is Some);
        assert(l.take(0) =~= Seq::<FieldKind>::empty());
        lemma_field_step(d, q, l, 1);
        lemma_field_step(d, q, l, 2);
        lemma_field_step(d, q, l, 3);
        assert(fields_end(d, q, l.take(1)) == Some(q + 4));
    }
}

/// Reads `n` items of an item set.
fn read_entries(reader: &mut BinaryReader, n: u32) -> (res: Result<Vec<(u32, String)>, ReadError>)
    requires
        old(reader).wf(),
    ensures
        final(reader).wf(),
        final(reader).contents() == old(reader).contents(),
        ({
            let d = old(reader).contents();
            let p = old(reader).position() as int;
            &&& res is Ok <==> seq_end(p, n as nat, entry_ends(d)) is Some
            &&& res is Ok ==> seq_end(p, n as nat, entry_ends(d)) == Some(final(reader).position() as int)
            &&& res matches Ok(s) ==> s@.len() == n && seq_read(p, s@, entry_reads(d)) == Some(
                final(reader).position() as int,
            )
        }),
{
    let ghost d = reader.contents();
    let ghost p0 = reader.position() as int;
    let mut items: Vec<(u32, String)> = Vec::new();
    let mut k: u32 = 0;
    while k < n
        invariant
            reader.wf(),
            reader.contents() == d,
            d == old(reader).contents(),
            p0 == old(reader).position(),
            k <= n,
            items@.len() == k,
            seq_end(p0, k as nat, entry_ends(d)) == Some(reader.position() as int),
            seq_read(p0, items@, entry_reads(d)) == Some(reader.position() as int),
        decreases n - k,
    {
        let chance = match reader.read_u32() {
            Ok(x) => x,
            Err(e) => {
                proof {
                    assert(seq_end(p0, (k + 1) as nat, entry_ends(d)) is None);
                    lemma_seq_end_none(p0, (k + 1) as nat, n as nat, entry_ends(d));
                }
                return Err(e);
            },
        };
        let id = match reader.read_string_utf8(4) {
            Ok(x) => x,
            Err(e) => {
                proof {
                    assert(seq_end(p0, (k + 1) as nat, entry_ends(d)) is None);
                    lemma_seq_end_none(p0, (k + 1) as nat, n as nat, entry_ends(d));
                }
                return Err(e);
            },
        };
        let ghost before = items@;
        items.push((chance, id));
        assert(items@.drop_last() == before);
        k = k + 1;
    }
    Ok(items)
}

impl RandomItemSet {
    /// Reads an item set: a count (a negative one meaning none), then the
    /// chance and code of each item.
    pub fn read(reader: &mut BinaryReader) -> (res: Result<Self, ReadError>)
        requires
            old(reader).wf(),
        ensures
            final(reader).wf(),
            final(reader).contents() == old(reader).contents(),
            res is Ok <==> item_set_ends(old(reader).contents())(old(reader).position() as int) is Some,
            res is Ok ==> item_set_ends(old(reader).contents())(old(reader).position() as int) == Some(
                final(reader).position() as int,
            ),
            res matches Ok(x) ==> item_set_reads(old(reader).contents())(old(reader).position() as int, x)
                == Some(final(reader).position() as int),
    {
        let count = match reader.read_i32() {
            Ok(v) => v,
            Err(e) => {
                return Err(e);
            },
        };
        let n: u32 = if count < 0 {
            0
        } else {
            count as u32
        };
        match read_entries(reader, n) {
            Ok(items) => Ok(RandomItemSet { items }),
            Err(e) => Err(e),
        }
    }
}

/// Reads `n` item sets.
fn read_item_sets(reader: &mut BinaryReader, n: u32) -> (res: Result<Vec<RandomItemSet>, ReadError>)
    requires
        old(reader).wf(),
    ensures
        final(reader).wf(),
        final(reader).contents() == old(reader).contents(),
        ({
            let d = old(reader).contents();
            let p = old(reader).position() as int;
            &&& res is Ok <==> seq_end(p, n as nat, item_set_ends(d)) is Some
            &&& res is Ok ==> seq_end(p, n as nat, item_set_ends(d)) == Some(final(reader).position() as int)
            &&& res matches Ok(s) ==> s@.len() == n && seq_read(p, s@, item_set_reads(d)) == Some(
                final(reader).position() as int,
            )
        }),
{
    let ghost d = reader.contents();
    let ghost p0 = reader.position() as int;
    let mut items: Vec<RandomItemSet> = Vec::new();
    let mut k: u32 = 0;
    while k < n
        invariant
            reader.wf(),
            reader.contents() == d,
            d == old(reader).contents(),
            p0 == old(reader).position(),
            k <= n,
            items@.len() == k,
            seq_end(p0, k as nat, item_set_ends(d)) == Some(reader.position() as int),
            seq_read(p0, items@, item_set_reads(d)) == Some(reader.position() as int),
        decreases n - k,
    {
        let x = match RandomItemSet::read(reader) {
            Ok(x) => x,
            Err(e) => {
                proof {
                    assert(seq_end(p0, (k + 1) as nat, item_set_ends(d)) is None);
                    lemma_seq_end_none(p0, (k + 1) as nat, n as nat, item_set_ends(d));
                }
                return Err(e);
            },
        };
        let ghost before = items@;
        items.push(x);
        assert(items@.drop_last() == before);
        k = k + 1;
    }
    Ok(items)
}

impl RandomItemTable {
    /// Reads a random item table. A negative set count asks for more entries
    /// than any buffer holds, and fails with [`ReadError::EOF`].
    pub fn read(reader: &mut BinaryReader) -> (res: Result<Self, ReadError>)
        requires
            old(reader).wf(),
        ensures
            final(reader).wf(),
            final(reader).contents() == old(reader).contents(),
            res is Ok <==> item_table_end(old(reader).contents(), old(reader).position() as int) is Some,
            res is Ok ==> item_table_end(old(reader).contents(), old(reader).position() as int) == Some(
                final(reader).position() as int,
            ),
            res matches Ok(x) ==> item_table_at(old(reader).contents(), old(reader).position() as int, x),
    {
        let ghost d = reader.contents();
        let ghost p = reader.position() as int;
        let ghost l = table_head_layout();
        assert(l.take(0) =~= Seq::<FieldKind>::empty());
        let id = match read_word(reader, Ghost(p), Ghost(l), Ghost(0int)) {
            Ok(v) => v as i32,
            Err(e) => {
                return Err(e);
            },
        };
        let name = match read_text(reader, Ghost(p), Ghost(l), Ghost(1int)) {
            Ok(v) => v,
            Err(e) => {
                return Err(e);
            },
        };
        let count = match read_word(reader, Ghost(p), Ghost(l), Ghost(2int)) {
            Ok(v) => v as i32,
            Err(e) => {
                return Err(e);
            },
        };
        assert(l.take(3) =~= l);
        if count < 0 {
            return Err(ReadError::EOF);
        }
        match read_item_sets(reader, count as u32) {
            Ok(sets) => Ok(RandomItemTable { id, name, sets }),
            Err(e) => Err(e),
        }
    }
}

/// Where the random unit tables stored from a position end.
pub open spec fn unit_table_ends(d: Seq<u8>) -> spec_fn(int) -> Option<int> {
    |q: int| unit_table_end(d, q)
}

/// Where reading random unit table `x` from a position ends.
pub open spec fn unit_table_reads(d: Seq<u8>) -> spec_fn(int, RandomUnitTable) -> Option<int> {
    |q: int, x: RandomUnitTable| if unit_table_at(d, q, x) {
        unit_table_end(d, q)
    } else {
        None
    }
}

/// Where the random item tables stored from a position end.
pub open spec fn item_table_ends(d: Seq<u8>) -> spec_fn(int) -> Option<int> {
    |q: int| item_table_end(d, q)
}

/// Where reading random item table `x` from a position ends.
pub open spec fn item_table_reads(d: Seq<u8>) -> spec_fn(int, RandomItemTable) -> Option<int> {
    |q: int, x: RandomItemTable| if item_table_at(d, q, x) {
        item_table_end(d, q)
    } else {
        None
    }
}

/// Reads `n` random unit tables.
fn read_unit_tables(reader: &mut BinaryReader, n: u32) -> (res: Result<Vec<RandomUnitTable>, ReadError>)
    requires
        old(reader).wf(),
    ensures
        final(reader).wf(),
        final(reader).contents() == old(reader).contents(),
        ({
            let d = old(reader).contents();
            let p = old(reader).position() as int;
            &&& res is Ok <==> seq_end(p, n as nat, unit_table_ends(d)) is Some
            &&& res is Ok ==> seq_end(p, n as nat, unit_table_ends(d)) == Some(final(reader).position() as int)
            &&& res matches Ok(s) ==> s@.len() == n && seq_read(p, s@, unit_table_reads(d)) == Some(
                final(reader).position() as int,
            )
        }),
{
    let ghost d = reader.contents();
    let ghost p0 = reader.position() as int;
    let mut items: Vec<RandomUnitTable> = Vec::new();
    let mut k: u32 = 0;
    while k < n
        invariant
            reader.wf(),
            reader.contents() == d,
            d == old(reader).contents(),
            p0 == old(reader).position(),
            k <= n,
            items@.len() == k,
            seq_end(p0, k as nat, unit_table_ends(d)) == Some(reader.position() as int),
            seq_read(p0, items@, unit_table_reads(d)) == Some(reader.position() as int),
        decreases n - k,
    {
        let x = match RandomUnitTable::read(reader) {
            Ok(x) => x,
            Err(e) => {
                proof {
                    assert(seq_end(p0, (k + 1) as nat, unit_table_ends(d)) is None);
                    lemma_seq_end_none(p0, (k + 1) as nat, n as nat, unit_table_ends(d));
                }
                return Err(e);
            },
        };
        let ghost before = items@;
        items.push(x);
        assert(items@.drop_last() == before);
        k = k + 1;
    }
    Ok(items)
}

/// Reads `n` random item tables.
fn read_item_tables(reader: &mut BinaryReader, n: u32) -> (res: Result<Vec<RandomItemTable>, ReadError>)
    requires
        old(reader).wf(),
    ensures
        final(reader).wf(),
        final(reader).contents() == old(reader).contents(),
        ({
            let d = old(reader).contents();
            let p = old(reader).position() as int;
            &&& res is Ok <==> seq_end(p, n as nat, item_table_ends(d)) is Some
            &&& res is Ok ==> seq_end(p, n as nat, item_table_ends(d)) == Some(final(reader).position() as int)
            &&& res matches Ok(s) ==> s@.len() == n && seq_read(p, s@, item_table_reads(d)) == Some(
                final(reader).position() as int,
            )
        }),
{
    let ghost d = reader.contents();
    let ghost p0 = reader.position() as int;
    let mut items: Vec<RandomItemTable> = Vec::new();
    let mut k: u32 = 0;
    while k < n
        invariant
            reader.wf(),
            reader.contents() == d,
            d == old(reader).contents(),
            p0 == old(reader).position(),
            k <= n,
            items@.len() == k,
            seq_end(p0, k as nat, item_table_ends(d)) == Some(reader.position() as int),
            seq_read(p0, items@, item_table_reads(d)) == Some(reader.position() as int),
        decreases n - k,
    {
        let x = match RandomItemTable::read(reader) {
            Ok(x) => x,
            Err(e) => {
                proof {
                    assert(seq_end(p0, (k + 1) as nat, item_table_ends(d)) is None);
                    lemma_seq_end_none(p0, (k + 1) as nat, n as nat, item_table_ends(d));
                }
                return Err(e);
            },
        };
        let ghost before = items@;
        items.push(x);
        assert(items@.drop_last() == before);
        k = k + 1;
    }
    Ok(items)
}

/// How the fields after the version of an info file saved for version `v`
/// are stored, up to its lists.
pub open spec fn info_layout(v: GameVersion) -> Seq<FieldKind> {
    seq![FieldKind::Word, FieldKind::Word, FieldKind::Text, FieldKind::Text, FieldKind::Text, FieldKind::Text, FieldKind::Word, FieldKind::Word, FieldKind::Word, FieldKind::Word, FieldKind::Word, FieldKind::Word, FieldKind::Word, FieldKind::Word, FieldKind::Word, FieldKind::Word, FieldKind::Word, FieldKind::Word, FieldKind::Word, FieldKind::Word, FieldKind::Word, FieldKind::Byte] + if v == GameVersion::RoC {
        seq![FieldKind::Word, FieldKind::Text, FieldKind::Text, FieldKind::Text, FieldKind::Word, FieldKind::Text, FieldKind::Text, FieldKind::Text]
    } else {
        seq![FieldKind::Word, FieldKind::Text, FieldKind::Text, FieldKind::Text, FieldKind::Text, FieldKind::Word, FieldKind::Text, FieldKind::Text, FieldKind::Text, FieldKind::Text, FieldKind::Word, FieldKind::Word, FieldKind::Word, FieldKind::Word, FieldKind::Byte, FieldKind::Byte, FieldKind::Byte, FieldKind::Byte, FieldKind::Word, FieldKind::Text, FieldKind::Byte, FieldKind::Byte, FieldKind::Byte, FieldKind::Byte, FieldKind::Byte]
    }
}

/// The fields of an info file that every version stores first.
struct InfoHead {
    count_saves: i32,
    editor_version: i32,
    map_name: String,
    map_author: String,
    map_description: String,
    recommended_players: String,
    camera_bounds: Vec<u32>,
    camera_bounds_complements: Vec<i32>,
    map_playable_width: i32,
    map_playable_height: i32,
    header_flags: HeaderFlags,
    ground_type: char,
}

/// The loading screen, prologue, fog, weather and water fields.
struct InfoScreens {
    campaign_background: i32,
    custom_loading_screen_model_path: String,
    loading_screen_index: i32,
    loading_screen_text: String,
    loading_screen_title: String,
    loading_screen_subtitle: String,
    user_game_dataset: i32,
    prologue_screen_path: String,
    prologue_screen_text: String,
    prologue_screen_title: String,
    prologue_screen_subtitle: String,
    fog_style: i32,
    fog_z_height_start: u32,
    fog_z_height_end: u32,
    fog_density: u32,
    fog_red_tint: u8,
    fog_green_tint: u8,
    fog_blue_tint: u8,
    fog_alpha_value: u8,
    global_weather: i32,
    custom_sound_environment: String,
    custom_light_environment_id: char,
    custom_water_red_tint: u8,
    custom_water_green_tint: u8,
    custom_water_blue_tint: u8,
    custom_water_alpha_tint: u8,
}

/// Whether `x` holds the first fields of layout `l` stored from `q`.
spec fn head_at(d: Seq<u8>, q: int, l: Seq<FieldKind>, x: InfoHead) -> bool {
    &&& x.camera_bounds@.len() == 8
    &&& x.camera_bounds_complements@.len() == 4
    &&& x.count_saves == word_field(d, q, l, 0) as i32
    &&& x.editor_version == word_field(d, q, l, 1) as i32
    &&& x.map_name@ == text_field(d, q, l, 2)
    &&& x.map_author@ == text_field(d, q, l, 3)
    &&& x.map_description@ == text_field(d, q, l, 4)
    &&& x.recommended_players@ == text_field(d, q, l, 5)
    &&& x.camera_bounds@[0] == word_field(d, q, l, 6)
    &&& x.camera_bounds@[1] == word_field(d, q, l, 7)
    &&& x.camera_bounds@[2] == word_field(d, q, l, 8)
    &&& x.camera_bounds@[3] == word_field(d, q, l, 9)
    &&& x.camera_bounds@[4] == word_field(d, q, l, 10)
    &&& x.camera_bounds@[5] == word_field(d, q, l, 11)
    &&& x.camera_bounds@[6] == word_field(d, q, l, 12)
    &&& x.camera_bounds@[7] == word_field(d, q, l, 13)
    &&& x.camera_bounds_complements@[0] == word_field(d, q, l, 14) as i32
    &&& x.camera_bounds_complements@[1] == word_field(d, q, l, 15) as i32
    &&& x.camera_bounds_complements@[2] == word_field(d, q, l, 16) as i32
    &&& x.camera_bounds_complements@[3] == word_field(d, q, l, 17) as i32
    &&& x.map_playable_width == word_field(d, q, l, 18) as i32
    &&& x.map_playable_height == word_field(d, q, l, 19) as i32
    &&& x.header_flags.raw_value == word_field(d, q, l, 20) as i32
    &&& x.ground_type == byte_field(d, q, l, 21) as char
}

/// Reads the first fields of layout `l` stored from `p`.
#[verifier::rlimit(60)]
#[verifier::spinoff_prover]
fn read_head(reader: &mut BinaryReader, Ghost(p): Ghost<int>, Ghost(l): Ghost<Seq<FieldKind>>) -> (res: Result<InfoHead, ReadError>)
    requires
        old(reader).wf(),
        l == seq![FieldKind::Word, FieldKind::Word, FieldKind::Text, FieldKind::Text, FieldKind::Text, FieldKind::Text, FieldKind::Word, FieldKind::Word, FieldKind::Word, FieldKind::Word, FieldKind::Word, FieldKind::Word, FieldKind::Word, FieldKind::Word, FieldKind::Word, FieldKind::Word, FieldKind::Word, FieldKind::Word, FieldKind::Word, FieldKind::Word, FieldKind::Word, FieldKind::Byte],
        fields_end(old(reader).contents(), p, l.take(0)) == Some(old(reader).position() as int),
    ensures
        final(reader).wf(),
        final(reader).contents() == old(reader).contents(),
        res is Ok <==> fields_end(old(reader).contents(), p, l) is Some,
        res is Ok ==> fields_end(old(reader).contents(), p, l) == Some(final(reader).position() as int),
        res matches Ok(x) ==> head_at(old(reader).contents(), p, l, x),
        res is Err ==> fields_end(old(reader).contents(), p, l) is None,
{
    let ghost d = reader.contents();
    let ghost q = p;
    let mut camera_bounds: Vec<u32> = Vec::new();
    let mut camera_bounds_complements: Vec<i32> = Vec::new();
    let count_saves = match read_word(reader, Ghost(p), Ghost(l), Ghost(0int)) {
        Ok(v) => v as i32,
        Err(e) => {
            return Err(e);
        },
    };
    let editor_version = match read_word(reader, Ghost(p), Ghost(l), Ghost(1int)) {
        Ok(v) => v as i32,
        Err(e) => {
            return Err(e);
        },
    };
    let map_name = match read_text(reader, Ghost(p), Ghost(l), Ghost(2int)) {
        Ok(v) => v,
        Err(e) => {
            return Err(e);
        },
    };
    let map_author = match read_text(reader, Ghost(p), Ghost(l), Ghost(3int)) {
        Ok(v) => v,
        Err(e) => {
            return Err(e);
        },
    };
    let map_description = match read_text(reader, Ghost(p), Ghost(l), Ghost(4int)) {
        Ok(v) => v,
        Err(e) => {
            return Err(e);
        },
    };
    let recommended_players = match read_text(reader, Ghost(p), Ghost(l), Ghost(5int)) {
        Ok(v) => v,
        Err(e) => {
            return Err(e);
        },
    };
    match read_word(reader, Ghost(p), Ghost(l), Ghost(6int)) {
        Ok(v) => camera_bounds.push(v),
        Err(e) => {
            return Err(e);
        },
    }
    match read_word(reader, Ghost(p), Ghost(l), Ghost(7int)) {
        Ok(v) => camera_bounds.push(v),
        Err(e) => {
            return Err(e);
        },
    }
    match read_word(reader, Ghost(p), Ghost(l), Ghost(8int)) {
        Ok(v) => camera_bounds.push(v),
        Err(e) => {
            return Err(e);
        },
    }
    match read_word(reader, Ghost(p), Ghost(l), Ghost(9int)) {
        Ok(v) => camera_bounds.push(v),
        Err(e) => {
            return Err(e);
        },
    }
    match read_word(reader, Ghost(p), Ghost(l), Ghost(10int)) {
        Ok(v) => camera_bounds.push(v),
        Err(e) => {
            return Err(e);
        },
    }
    match read_word(reader, Ghost(p), Ghost(l), Ghost(11int)) {
        Ok(v) => camera_bounds.push(v),
        Err(e) => {
            return Err(e);
        },
    }
    match read_word(reader, Ghost(p), Ghost(l), Ghost(12int)) {
        Ok(v) => camera_bounds.push(v),
        Err(e) => {
            return Err(e);
        },
    }
    match read_word(reader, Ghost(p), Ghost(l), Ghost(13int)) {
        Ok(v) => camera_bounds.push(v),
        Err(e) => {
            return Err(e);
        },
    }
    match read_word(reader, Ghost(p), Ghost(l), Ghost(14int)) {
        Ok(v) => camera_bounds_complements.push(v as i32),
        Err(e) => {
            return Err(e);
        },
    }
    match read_word(reader, Ghost(p), Ghost(l), Ghost(15int)) {
        Ok(v) => camera_bounds_complements.push(v as i32),
        Err(e) => {
            return Err(e);
        },
    }
    match read_word(reader, Ghost(p), Ghost(l), Ghost(16int)) {
        Ok(v) => camera_bounds_complements.push(v as i32),
        Err(e) => {
            return Err(e);
        },
    }
    match read_word(reader, Ghost(p), Ghost(l), Ghost(17int)) {
        Ok(v) => camera_bounds_complements.push(v as i32),
        Err(e) => {
            return Err(e);
        },
    }
    let map_playable_width = match read_word(reader, Ghost(p), Ghost(l), Ghost(18int)) {
        Ok(v) => v as i32,
        Err(e) => {
            return Err(e);
        },
    };
    let map_playable_height = match read_word(reader, Ghost(p), Ghost(l), Ghost(19int)) {
        Ok(v) => v as i32,
        Err(e) => {
            return Err(e);
        },
    };
    let header_flags = match read_word(reader, Ghost(p), Ghost(l), Ghost(20int)) {
        Ok(v) => HeaderFlags::new(v as i32),
        Err(e) => {
            return Err(e);
        },
    };
    let ground_type = match read_byte(reader, Ghost(p), Ghost(l), Ghost(21int)) {
        Ok(v) => v as char,
        Err(e) => {
            return Err(e);
        },
    };
    assert(l.take(22int) =~= l);
    Ok(InfoHead { count_saves, editor_version, map_name, map_author, map_description, recommended_players, camera_bounds, camera_bounds_complements, map_playable_width, map_playable_height, header_flags, ground_type })
}

/// Whether `x` holds the Reign of Chaos fields of layout `l` stored from `q`, and defaults for the others.
spec fn roc_screens_at(d: Seq<u8>, q: int, l: Seq<FieldKind>, x: InfoScreens) -> bool {
    &&& x.campaign_background == word_field(d, q, l, 22) as i32
    &&& x.loading_screen_text@ == text_field(d, q, l, 23)
    &&& x.loading_screen_title@ == text_field(d, q, l, 24)
    &&& x.loading_screen_subtitle@ == text_field(d, q, l, 25)
    &&& x.loading_screen_index == word_field(d, q, l, 26) as i32
    &&& x.prologue_screen_text@ == text_field(d, q, l, 27)
    &&& x.prologue_screen_title@ == text_field(d, q, l, 28)
    &&& x.prologue_screen_subtitle@ == text_field(d, q, l, 29)
    &&& x.custom_loading_screen_model_path@ == Seq::<char>::empty()
    &&& x.user_game_dataset == 0
    &&& x.prologue_screen_path@ == Seq::<char>::empty()
    &&& x.fog_style == 0
    &&& x.fog_z_height_start == 0
    &&& x.fog_z_height_end == 0
    &&& x.fog_density == 0
    &&& x.fog_red_tint == 0
    &&& x.fog_green_tint == 0
    &&& x.fog_blue_tint == 0
    &&& x.fog_alpha_value == 0
    &&& x.global_weather == 0
    &&& x.custom_sound_environment@ == Seq::<char>::empty()
    &&& x.custom_light_environment_id == '\0'
    &&& x.custom_water_red_tint == 0
    &&& x.custom_water_green_tint == 0
    &&& x.custom_water_blue_tint == 0
    &&& x.custom_water_alpha_tint == 0
}

/// Reads the version-specific fields of layout `l` stored from `p`.
#[verifier::rlimit(60)]
#[verifier::spinoff_prover]
fn read_roc_screens(reader: &mut BinaryReader, Ghost(p): Ghost<int>, Ghost(l): Ghost<Seq<FieldKind>>) -> (res: Result<InfoScreens, ReadError>)
    requires
        old(reader).wf(),
        l.len() == 30,
        l.subrange(22, 30) == seq![FieldKind::Word, FieldKind::Text, FieldKind::Text, FieldKind::Text, FieldKind::Word, FieldKind::Text, FieldKind::Text, FieldKind::Text],
        fields_end(old(reader).contents(), p, l.take(22)) == Some(old(reader).position() as int),
    ensures
        final(reader).wf(),
        final(reader).contents() == old(reader).contents(),
        res is Ok <==> fields_end(old(reader).contents(), p, l) is Some,
        res is Ok ==> fields_end(old(reader).contents(), p, l) == Some(final(reader).position() as int),
        res matches Ok(x) ==> roc_screens_at(old(reader).contents(), p, l, x),
{
    let ghost d = reader.contents();
    let ghost q = p;
    proof {
        assert(l[22] == l.subrange(22, 30)[0]);
    }
    let campaign_background = match read_word(reader, Ghost(p), Ghost(l), Ghost(22int)) {
        Ok(v) => v as i32,
        Err(e) => {
            return Err(e);
        },
    };
    proof {
        assert(l[23] == l.subrange(22, 30)[1]);
    }
    let loading_screen_text = match read_text(reader, Ghost(p), Ghost(l), Ghost(23int)) {
        Ok(v) => v,
        Err(e) => {
            return Err(e);
        },
    };
    proof {
        assert(l[24] == l.subrange(22, 30)[2]);
    }
    let loading_screen_title = match read_text(reader, Ghost(p), Ghost(l), Ghost(24int)) {
        Ok(v) => v,
        Err(e) => {
            return Err(e);
        },
    };
    proof {
        assert(l[25] == l.subrange(22, 30)[3]);
    }
    let loading_screen_subtitle = match read_text(reader, Ghost(p), Ghost(l), Ghost(25int)) {
        Ok(v) => v,
        Err(e) => {
            return Err(e);
        },
    };
    proof {
        assert(l[26] == l.subrange(22, 30)[4]);
    }
    let loading_screen_index = match read_word(reader, Ghost(p), Ghost(l), Ghost(26int)) {
        Ok(v) => v as i32,
        Err(e) => {
            return Err(e);
        },
    };
    proof {
        assert(l[27] == l.subrange(22, 30)[5]);
    }
    let prologue_screen_text = match read_text(reader, Ghost(p), Ghost(l), Ghost(27int)) {
        Ok(v) => v,
        Err(e) => {
            return Err(e);
        },
    };
    proof {
        assert(l[28] == l.subrange(22, 30)[6]);
    }
    let prologue_screen_title = match read_text(reader, Ghost(p), Ghost(l), Ghost(28int)) {
        Ok(v) => v,
        Err(e) => {
            return Err(e);
        },
    };
    proof {
        assert(l[29] == l.subrange(22, 30)[7]);
    }
    let prologue_screen_subtitle = match read_text(reader, Ghost(p), Ghost(l), Ghost(29int)) {
        Ok(v) => v,
        Err(e) => {
            return Err(e);
        },
    };
    let custom_loading_screen_model_path: String = String::new();
    let user_game_dataset: i32 = 0;
    let prologue_screen_path: String = String::new();
    let fog_style: i32 = 0;
    let fog_z_height_start: u32 = 0;
    let fog_z_height_end: u32 = 0;
    let fog_density: u32 = 0;
    let fog_red_tint: u8 = 0;
    let fog_green_tint: u8 = 0;
    let fog_blue_tint: u8 = 0;
    let fog_alpha_value: u8 = 0;
    let global_weather: i32 = 0;
    let custom_sound_environment: String = String::new();
    let custom_light_environment_id: char = '\0';
    let custom_water_red_tint: u8 = 0;
    let custom_water_green_tint: u8 = 0;
    let custom_water_blue_tint: u8 = 0;
    let custom_water_alpha_tint: u8 = 0;
    assert(l.take(30int) =~= l);
    Ok(InfoScreens { campaign_background, custom_loading_screen_model_path, loading_screen_index, loading_screen_text, loading_screen_title, loading_screen_subtitle, user_game_dataset, prologue_screen_path, prologue_screen_text, prologue_screen_title, prologue_screen_subtitle, fog_style, fog_z_height_start, fog_z_height_end, fog_density, fog_red_tint, fog_green_tint, fog_blue_tint, fog_alpha_value, global_weather, custom_sound_environment, custom_light_environment_id, custom_water_red_tint, custom_water_green_tint, custom_water_blue_tint, custom_water_alpha_tint })
}

/// Whether `x` holds The Frozen Throne fields of layout `l` stored from `q`, and defaults for the others.
spec fn tft_screens_at(d: Seq<u8>, q: int, l: Seq<FieldKind>, x: InfoScreens) -> bool {
    &&& x.loading_screen_index == word_field(d, q, l, 22) as i32
    &&& x.custom_loading_screen_model_path@ == text_field(d, q, l, 23)
    &&& x.loading_screen_text@ == text_field(d, q, l, 24)
    &&& x.loading_screen_title@ == text_field(d, q, l, 25)
    &&& x.loading_screen_subtitle@ == text_field(d, q, l, 26)
    &&& x.user_game_dataset == word_field(d, q, l, 27) as i32
    &&& x.prologue_screen_path@ == text_field(d, q, l, 28)
    &&& x.prologue_screen_text@ == text_field(d, q, l, 29)
    &&& x.prologue_screen_title@ == text_field(d, q, l, 30)
    &&& x.prologue_screen_subtitle@ == text_field(d, q, l, 31)
    &&& x.fog_style == word_field(d, q, l, 32) as i32
    &&& x.fog_z_height_start == word_field(d, q, l, 33)
    &&& x.fog_z_height_end == word_field(d, q, l, 34)
    &&& x.fog_density == word_field(d, q, l, 35)
    &&& x.fog_red_tint == byte_field(d, q, l, 36)
    &&& x.fog_green_tint == byte_field(d, q, l, 37)
    &&& x.fog_blue_tint == byte_field(d, q, l, 38)
    &&& x.fog_alpha_value == byte_field(d, q, l, 39)
    &&& x.global_weather == word_field(d, q, l, 40) as i32
    &&& x.custom_sound_environment@ == text_field(d, q, l, 41)
    &&& x.custom_light_environment_id == byte_field(d, q, l, 42) as char
    &&& x.custom_water_red_tint == byte_field(d, q, l, 43)
    &&& x.custom_water_green_tint == byte_field(d, q, l, 44)
    &&& x.custom_water_blue_tint == byte_field(d, q, l, 45)
    &&& x.custom_water_alpha_tint == byte_field(d, q, l, 46)
    &&& x.campaign_background == 0
}

/// Reads the version-specific fields of layout `l` stored from `p`.
#[verifier::rlimit(60)]
#[verifier::spinoff_prover]
fn read_tft_screens(reader: &mut BinaryReader, Ghost(p): Ghost<int>, Ghost(l): Ghost<Seq<FieldKind>>) -> (res: Result<InfoScreens, ReadError>)
    requires
        old(reader).wf(),
        l.len() == 47,
        l.subrange(22, 47) == seq![FieldKind::Word, FieldKind::Text, FieldKind::Text, FieldKind::Text, FieldKind::Text, FieldKind::Word, FieldKind::Text, FieldKind::Text, FieldKind::Text, FieldKind::Text, FieldKind::Word, FieldKind::Word, FieldKind::Word, FieldKind::Word, FieldKind::Byte, FieldKind::Byte, FieldKind::Byte, FieldKind::Byte, FieldKind::Word, FieldKind::Text, FieldKind::Byte, FieldKind::Byte, FieldKind::Byte, FieldKind::Byte, FieldKind::Byte],
        fields_end(old(reader).contents(), p, l.take(22)) == Some(old(reader).position() as int),
    ensures
        final(reader).wf(),
        final(reader).contents() == old(reader).contents(),
        res is Ok <==> fields_end(old(reader).contents(), p, l) is Some,
        res is Ok ==> fields_end(old(reader).contents(), p, l) == Some(final(reader).position() as int),
        res matches Ok(x) ==> tft_screens_at(old(reader).contents(), p, l, x),
{
    let ghost d = reader.contents();
    let ghost q = p;
    proof {
        assert(l[22] == l.subrange(22, 47)[0]);
    }
    let loading_screen_index = match read_word(reader, Ghost(p), Ghost(l), Ghost(22int)) {
        Ok(v) => v as i32,
        Err(e) => {
            return Err(e);
        },
    };
    proof {
        assert(l[23] == l.subrange(22, 47)[1]);
    }
    let custom_loading_screen_model_path = match read_text(reader, Ghost(p), Ghost(l), Ghost(23int)) {
        Ok(v) => v,
        Err(e) => {
            return Err(e);
        },
    };
    proof {
        assert(l[24] == l.subrange(22, 47)[2]);
    }
    let loading_screen_text = match read_text(reader, Ghost(p), Ghost(l), Ghost(24int)) {
        Ok(v) => v,
        Err(e) => {
            return Err(e);
        },
    };
    proof {
        assert(l[25] == l.subrange(22, 47)[3]);
    }
    let loading_screen_title = match read_text(reader, Ghost(p), Ghost(l), Ghost(25int)) {
        Ok(v) => v,
        Err(e) => {
            return Err(e);
        },
    };
    proof {
        assert(l[26] == l.subrange(22, 47)[4]);
    }
    let loading_screen_subtitle = match read_text(reader, Ghost(p), Ghost(l), Ghost(26int)) {
        Ok(v) => v,
        Err(e) => {
            return Err(e);
        },
    };
    proof {
        assert(l[27] == l.subrange(22, 47)[5]);
    }
    let user_game_dataset = match read_word(reader, Ghost(p), Ghost(l), Ghost(27int)) {
        Ok(v) => v as i32,
        Err(e) => {
            return Err(e);
        },
    };
    proof {
        assert(l[28] == l.subrange(22, 47)[6]);
    }
    let prologue_screen_path = match read_text(reader, Ghost(p), Ghost(l), Ghost(28int)) {
        Ok(v) => v,
        Err(e) => {
            return Err(e);
        },
    };
    proof {
        assert(l[29] == l.subrange(22, 47)[7]);
    }
    let prologue_screen_text = match read_text(reader, Ghost(p), Ghost(l), Ghost(29int)) {
        Ok(v) => v,
        Err(e) => {
            return Err(e);
        },
    };
    proof {
        assert(l[30] == l.subrange(22, 47)[8]);
    }
    let prologue_screen_title = match read_text(reader, Ghost(p), Ghost(l), Ghost(30int)) {
        Ok(v) => v,
        Err(e) => {
            return Err(e);
        },
    };
    proof {
        assert(l[31] == l.subrange(22, 47)[9]);
    }
    let prologue_screen_subtitle = match read_text(reader, Ghost(p), Ghost(l), Ghost(31int)) {
        Ok(v) => v,
        Err(e) => {
            return Err(e);
        },
    };
    proof {
        assert(l[32] == l.subrange(22, 47)[10]);
    }
    let fog_style = match read_word(reader, Ghost(p), Ghost(l), Ghost(32int)) {
        Ok(v) => v as i32,
        Err(e) => {
            return Err(e);
        },
    };
    proof {
        assert(l[33] == l.subrange(22, 47)[11]);
    }
    let fog_z_height_start = match read_word(reader, Ghost(p), Ghost(l), Ghost(33int)) {
        Ok(v) => v,
        Err(e) => {
            return Err(e);
        },
    };
    proof {
        assert(l[34] == l.subrange(22, 47)[12]);
    }
    let fog_z_height_end = match read_word(reader, Ghost(p), Ghost(l), Ghost(34int)) {
        Ok(v) => v,
        Err(e) => {
            return Err(e);
        },
    };
    proof {
        assert(l[35] == l.subrange(22, 47)[13]);
    }
    let fog_density = match read_word(reader, Ghost(p), Ghost(l), Ghost(35int)) {
        Ok(v) => v,
        Err(e) => {
            return Err(e);
        },
    };
    proof {
        assert(l[36] == l.subrange(22, 47)[14]);
    }
    let fog_red_tint = match read_byte(reader, Ghost(p), Ghost(l), Ghost(36int)) {
        Ok(v) => v,
        Err(e) => {
            return Err(e);
        },
    };
    proof {
        assert(l[37] == l.subrange(22, 47)[15]);
    }
    let fog_green_tint = match read_byte(reader, Ghost(p), Ghost(l), Ghost(37int)) {
        Ok(v) => v,
        Err(e) => {
            return Err(e);
        },
    };
    proof {
        assert(l[38] == l.subrange(22, 47)[16]);
    }
    let fog_blue_tint = match read_byte(reader, Ghost(p), Ghost(l), Ghost(38int)) {
        Ok(v) => v,
        Err(e) => {
            return Err(e);
        },
    };
    proof {
        assert(l[39] == l.subrange(22, 47)[17]);
    }
    let fog_alpha_value = match read_byte(reader, Ghost(p), Ghost(l), Ghost(39int)) {
        Ok(v) => v,
        Err(e) => {
            return Err(e);
        },
    };
    proof {
        assert(l[40] == l.subrange(22, 47)[18]);
    }
    let global_weather = match read_word(reader, Ghost(p), Ghost(l), Ghost(40int)) {
        Ok(v) => v as i32,
        Err(e) => {
            return Err(e);
        },
    };
    proof {
        assert(l[41] == l.subrange(22, 47)[19]);
    }
    let custom_sound_environment = match read_text(reader, Ghost(p), Ghost(l), Ghost(41int)) {
        Ok(v) => v,
        Err(e) => {
            return Err(e);
        },
    };
    proof {
        assert(l[42] == l.subrange(22, 47)[20]);
    }
    let custom_light_environment_id = match read_byte(reader, Ghost(p), Ghost(l), Ghost(42int)) {
        Ok(v) => v as char,
        Err(e) => {
            return Err(e);
        },
    };
    proof {
        assert(l[43] == l.subrange(22, 47)[21]);
    }
    let custom_water_red_tint = match read_byte(reader, Ghost(p), Ghost(l), Ghost(43int)) {
        Ok(v) => v,
        Err(e) => {
            return Err(e);
        },
    };
    proof {
        assert(l[44] == l.subrange(22, 47)[22]);
    }
    let custom_water_green_tint = match read_byte(reader, Ghost(p), Ghost(l), Ghost(44int)) {
        Ok(v) => v,
        Err(e) => {
            return Err(e);
        },
    };
    proof {
        assert(l[45] == l.subrange(22, 47)[23]);
    }
    let custom_water_blue_tint = match read_byte(reader, Ghost(p), Ghost(l), Ghost(45int)) {
        Ok(v) => v,
        Err(e) => {
            return Err(e);
        },
    };
    proof {
        assert(l[46] == l.subrange(22, 47)[24]);
    }
    let custom_water_alpha_tint = match read_byte(reader, Ghost(p), Ghost(l), Ghost(46int)) {
        Ok(v) => v,
        Err(e) => {
            return Err(e);
        },
    };
    let campaign_background: i32 = 0;
    assert(l.take(47int) =~= l);
    Ok(InfoScreens { campaign_background, custom_loading_screen_model_path, loading_screen_index, loading_screen_text, loading_screen_title, loading_screen_subtitle, user_game_dataset, prologue_screen_path, prologue_screen_text, prologue_screen_title, prologue_screen_subtitle, fog_style, fog_z_height_start, fog_z_height_end, fog_density, fog_red_tint, fog_green_tint, fog_blue_tint, fog_alpha_value, global_weather, custom_sound_environment, custom_light_environment_id, custom_water_red_tint, custom_water_green_tint, custom_water_blue_tint, custom_water_alpha_tint })
}

/// The version that the info file stores as `code`.
pub open spec fn w3i_version(code: u32) -> Option<GameVersion> {
    if code == 18 {
        Some(GameVersion::RoC)
    } else if code == 25 {
        Some(GameVersion::TFT)
    } else if code == 28 {
        Some(GameVersion::Reforged)
    } else {
        None
    }
}

/// The info file stores Reign of Chaos as version 18, The Frozen Throne as
/// 25 and Reforged as 28, and knows no other.
pub proof fn law_info_versions(code: u32)
    ensures
        w3i_version(code) == if code == 18 {
            Some(GameVersion::RoC)
        } else if code == 25 {
            Some(GameVersion::TFT)
        } else if code == 28 {
            Some(GameVersion::Reforged)
        } else {
            None::<GameVersion>
        },
{
}

/// How the fields that every version stores first are stored.
pub open spec fn info_head_layout() -> Seq<FieldKind> {
    seq![FieldKind::Word, FieldKind::Word, FieldKind::Text, FieldKind::Text, FieldKind::Text, FieldKind::Text, FieldKind::Word, FieldKind::Word, FieldKind::Word, FieldKind::Word, FieldKind::Word, FieldKind::Word, FieldKind::Word, FieldKind::Word, FieldKind::Word, FieldKind::Word, FieldKind::Word, FieldKind::Word, FieldKind::Word, FieldKind::Word, FieldKind::Word, FieldKind::Byte]
}

/// Where a count stored at `q`, then that many entries, end.
pub open spec fn counted_end(d: Seq<u8>, q: int, f: spec_fn(int) -> Option<int>) -> Option<int> {
    if has_bytes(d, q, 4) {
        seq_end(q + 4, u32_at(d, q) as nat, f)
    } else {
        None
    }
}

/// Where reading the count of `s` at `q`, then the entries `s`, ends.
pub open spec fn counted_read<T>(d: Seq<u8>, q: int, s: Seq<T>, f: spec_fn(int, T) -> Option<int>) -> Option<int> {
    if has_bytes(d, q, 4) && s.len() == u32_at(d, q) {
        seq_read(q + 4, s, f)
    } else {
        None
    }
}

/// Where the lists of an info file saved for version `v`, stored from `q`,
/// end: players, forces, upgrades, technologies, random unit tables and,
/// past Reign of Chaos, random item tables, each after its count.
pub open spec fn lists_end(d: Seq<u8>, q: int, v: GameVersion) -> Option<int> {
    match counted_end(d, q, player_ends(d)) {
        None => None,
        Some(q1) => match counted_end(d, q1, force_ends(d)) {
            None => None,
            Some(q2) => match counted_end(d, q2, upgrade_ends(d)) {
                None => None,
                Some(q3) => match counted_end(d, q3, tech_ends(d)) {
                    None => None,
                    Some(q4) => match counted_end(d, q4, unit_table_ends(d)) {
                        None => None,
                        Some(q5) => if v == GameVersion::RoC {
                            Some(q5)
                        } else {
                            counted_end(d, q5, item_table_ends(d))
                        },
                    },
                },
            },
        },
    }
}

/// Whether these are the lists of an info file saved for version `v`,
/// stored from `q`.
pub open spec fn lists_at(
    d: Seq<u8>,
    q: int,
    v: GameVersion,
    players: Seq<PlayerData>,
    forces: Seq<ForceData>,
    upgrades: Seq<UpgradeAvailability>,
    techs: Seq<TechAvailability>,
    unit_tables: Seq<RandomUnitTable>,
    item_tables: Seq<RandomItemTable>,
) -> bool {
    let q1 = counted_end(d, q, player_ends(d))->0;
    let q2 = counted_end(d, q1, force_ends(d))->0;
    let q3 = counted_end(d, q2, upgrade_ends(d))->0;
    let q4 = counted_end(d, q3, tech_ends(d))->0;
    let q5 = counted_end(d, q4, unit_table_ends(d))->0;
    &&& lists_end(d, q, v) is Some
    &&& counted_read(d, q, players, player_reads(d)) == Some(q1)
    &&& counted_read(d, q1, forces, force_reads(d)) == Some(q2)
    &&& counted_read(d, q2, upgrades, upgrade_reads(d)) == Some(q3)
    &&& counted_read(d, q3, techs, tech_reads(d)) == Some(q4)
    &&& counted_read(d, q4, unit_tables, unit_table_reads(d)) == Some(q5)
    &&& if v == GameVersion::RoC {
        item_tables.len() == 0
    } else {
        counted_read(d, q5, item_tables, item_table_reads(d)) == lists_end(d, q, v)
    }
}

/// Where the info file stored at `p` ends, when it can be read: a known
/// version, the fields of its layout, then its lists.
pub open spec fn w3i_end(d: Seq<u8>, p: int) -> Option<int> {
    if !has_bytes(d, p, 4) {
        None
    } else {
        match w3i_version(u32_at(d, p)) {
            None => None,
            Some(v) => match fields_end(d, p + 4, info_layout(v)) {
                None => None,
                Some(q) => lists_end(d, q, v),
            },
        }
    }
}

/// When the fields of an info file can be read, those of its head can.
proof fn lemma_info_head_readable(d: Seq<u8>, q: int, v: GameVersion)
    requires
        fields_end(d, q, info_layout(v)) is Some,
    ensures
        fields_end(d, q, info_head_layout()) is Some,
{
    let full = info_layout(v);
    assert(info_head_layout() =~= full.take(22));
    if fields_end(d, q, full.take(22)) is None {
        lemma_fields_end_none(d, q, full, 22);
    }
}

/// Where the fields of the info file head stored from `q` are.
proof fn lemma_info_head_fields(d: Seq<u8>, q: int, h: Seq<FieldKind>)
    requires
        h == info_head_layout(),
        fields_end(d, q, h) is Some,
    ensures
        word_field(d, q, h, 0) == u32_at(d, q),
        word_field(d, q, h, 1) == u32_at(d, q + 4),
        c_string_at(d, q + 8) matches Some((name, e1)) && {
            &&& text_field(d, q, h, 2) == name
            &&& c_string_at(d, e1) matches Some((author, e2)) && {
                &&& text_field(d, q, h, 3) == author
                &&& c_string_at(d, e2) matches Some((description, e3)) && {
                    &&& text_field(d, q, h, 4) == description
                    &&& c_string_at(d, e3) matches Some((players, e)) && {
                        &&& text_field(d, q, h, 5) == players
                        &&& word_field(d, q, h, 6) == u32_at(d, e)
                        &&& word_field(d, q, h, 7) == u32_at(d, e + 4)
                        &&& word_field(d, q, h, 8) == u32_at(d, e + 8)
                        &&& word_field(d, q, h, 9) == u32_at(d, e + 12)
                        &&& word_field(d, q, h, 10) == u32_at(d, e + 16)
                        &&& word_field(d, q, h, 11) == u32_at(d, e + 20)
                        &&& word_field(d, q, h, 12) == u32_at(d, e + 24)
                        &&& word_field(d, q, h, 13) == u32_at(d, e + 28)
                        &&& word_field(d, q, h, 14) == u32_at(d, e + 32)
                        &&& word_field(d, q, h, 15) == u32_at(d, e + 36)
                        &&& word_field(d, q, h, 16) == u32_at(d, e + 40)
                        &&& word_field(d, q, h, 17) == u32_at(d, e + 44)
                        &&& word_field(d, q, h, 18) == u32_at(d, e + 48)
                        &&& word_field(d, q, h, 19) == u32_at(d, e + 52)
                        &&& word_field(d, q, h, 20) == u32_at(d, e + 56)
                        &&& byte_field(d, q, h, 21) == d[e + 60]
                    }
                }
            }
        },
{
    assert(h.take(0) =~= Seq::<FieldKind>::empty());
    lemma_word_run(d, q, h, 0, 2);
    assert(fields_end(d, q, h.take(1)) == Some(q + 4));
    assert(fields_end(d, q, h.take(2)) == Some(q + 8));
    lemma_field_step(d, q, h, 3);
    lemma_field_step(d, q, h, 4);
    lemma_field_step(d, q, h, 5);
    lemma_field_step(d, q, h, 6);
    lemma_word_run(d, q, h, 6, 15);
    lemma_field_step(d, q, h, 22);
    let e = fields_end(d, q, h.take(6))->0;
    assert(fields_end(d, q, h.take(7)) == Some(e + 4));
    assert(fields_end(d, q, h.take(8)) == Some(e + 8));
    assert(fields_end(d, q, h.take(9)) == Some(e + 12));
    assert(fields_end(d, q, h.take(10)) == Some(e + 16));
    assert(fields_end(d, q, h.take(11)) == Some(e + 20));
    assert(fields_end(d, q, h.take(12)) == Some(e + 24));
    assert(fields_end(d, q, h.take(13)) == Some(e + 28));
    assert(fields_end(d, q, h.take(14)) == Some(e + 32));
    assert(fields_end(d, q, h.take(15)) == Some(e + 36));
    assert(fields_end(d, q, h.take(16)) == Some(e + 40));
    assert(fields_end(d, q, h.take(17)) == Some(e + 44));
    assert(fields_end(d, q, h.take(18)) == Some(e + 48));
    assert(fields_end(d, q, h.take(19)) == Some(e + 52));
    assert(fields_end(d, q, h.take(20)) == Some(e + 56));
    assert(fields_end(d, q, h.take(21)) == Some(e + 60));
}

/// The layout of the head of the info file: the format version as a
/// little-endian word at byte 0, the number of saves and the editor version
/// as words at bytes 4 and 8; the map name, author, description and
/// recommended players as NUL-terminated UTF-8 texts one after the other
/// from byte 12; right after the last NUL, the eight camera bounds, the four
/// camera bound complements, the playable width and height and the header
/// flags as words, then the ground type as one byte.
#[verifier::rlimit(100)]
#[verifier::spinoff_prover]
pub proof fn law_info_head_layout(d: Seq<u8>, p: int, x: W3iFile)
    requires
        w3i_at(d, p, x),
    ensures
        w3i_version(u32_at(d, p)) == Some(x.version),
        x.count_saves == u32_at(d, p + 4) as i32,
        x.editor_version == u32_at(d, p + 8) as i32,
        c_string_at(d, p + 12) matches Some((name, e1)) && {
            &&& x.map_name@ == name
            &&& c_string_at(d, e1) matches Some((author, e2)) && {
                &&& x.map_author@ == author
                &&& c_string_at(d, e2) matches Some((description, e3)) && {
                    &&& x.map_description@ == description
                    &&& c_string_at(d, e3) matches Some((players, e)) && {
                        &&& x.recommended_players@ == players
                        &&& x.camera_bounds@[0] == u32_at(d, e)
                        &&& x.camera_bounds@[1] == u32_at(d, e + 4)
                        &&& x.camera_bounds@[2] == u32_at(d, e + 8)
                        &&& x.camera_bounds@[3] == u32_at(d, e + 12)
                        &&& x.camera_bounds@[4] == u32_at(d, e + 16)
                        &&& x.camera_bounds@[5] == u32_at(d, e + 20)
                        &&& x.camera_bounds@[6] == u32_at(d, e + 24)
                        &&& x.camera_bounds@[7] == u32_at(d, e + 28)
                        &&& x.camera_bounds_complements@[0] == u32_at(d, e + 32) as i32
                        &&& x.camera_bounds_complements@[1] == u32_at(d, e + 36) as i32
                        &&& x.camera_bounds_complements@[2] == u32_at(d, e + 40) as i32
                        &&& x.camera_bounds_complements@[3] == u32_at(d, e + 44) as i32
                        &&& x.map_playable_width == u32_at(d, e + 48) as i32
                        &&& x.map_playable_height == u32_at(d, e + 52) as i32
                        &&& x.header_flags.raw_value == u32_at(d, e + 56) as i32
                        &&& x.ground_type == d[e + 60] as char
                    }
                }
            }
        },
{
    let q = p + 4;
    assert(fields_end(d, q, info_layout(x.version)) is Some);
    lemma_info_head_readable(d, q, x.version);
    lemma_info_head_fields(d, q, info_head_layout());
}

/// The map info file (`war3map.w3i`). Real numbers are held as the bits
/// of their IEEE 754 single precision encoding, which is how the file stores
/// them.
#[derive(Debug)]
pub struct W3iFile {
    pub version: GameVersion,
    pub count_saves: i32,
    pub editor_version: i32,
    pub map_name: String,
    pub map_author: String,
    pub map_description: String,
    pub recommended_players: String,
    pub camera_bounds: Vec<u32>,
    pub camera_bounds_complements: Vec<i32>,
    pub map_playable_width: i32,
    pub map_playable_height: i32,
    pub header_flags: HeaderFlags,
    pub ground_type: char,
    pub campaign_background: i32,
    pub custom_loading_screen_model_path: String,
    pub loading_screen_index: i32,
    pub loading_screen_text: String,
    pub loading_screen_title: String,
    pub loading_screen_subtitle: String,
    pub user_game_dataset: i32,
    pub prologue_screen_path: String,
    pub prologue_screen_text: String,
    pub prologue_screen_title: String,
    pub prologue_screen_subtitle: String,
    pub fog_style: i32,
    pub fog_z_height_start: u32,
    pub fog_z_height_end: u32,
    pub fog_density: u32,
    pub fog_red_tint: u8,
    pub fog_green_tint: u8,
    pub fog_blue_tint: u8,
    pub fog_alpha_value: u8,
    pub global_weather: i32,
    pub custom_sound_environment: String,
    pub custom_light_environment_id: char,
    pub custom_water_red_tint: u8,
    pub custom_water_green_tint: u8,
    pub custom_water_blue_tint: u8,
    pub custom_water_alpha_tint: u8,
    pub players: Vec<PlayerData>,
    pub forces: Vec<ForceData>,
    pub upgrades: Vec<UpgradeAvailability>,
    pub techs: Vec<TechAvailability>,
    pub random_unit_tables: Vec<RandomUnitTable>,
    pub random_item_tables: Vec<RandomItemTable>,
}

/// Whether `x` is the info file stored at `p`; the fields that its version
/// does not store are zero or empty.
pub open spec fn w3i_at(d: Seq<u8>, p: int, x: W3iFile) -> bool {
    let v = x.version;
    let q = p + 4;
    let h = info_head_layout();
    &&& w3i_end(d, p) is Some
    &&& w3i_version(u32_at(d, p)) == Some(v)
    &&& x.camera_bounds@.len() == 8
    &&& x.camera_bounds_complements@.len() == 4
    &&& x.count_saves == word_field(d, q, h, 0) as i32
    &&& x.editor_version == word_field(d, q, h, 1) as i32
    &&& x.map_name@ == text_field(d, q, h, 2)
    &&& x.map_author@ == text_field(d, q, h, 3)
    &&& x.map_description@ == text_field(d, q, h, 4)
    &&& x.recommended_players@ == text_field(d, q, h, 5)
    &&& x.camera_bounds@[0] == word_field(d, q, h, 6)
    &&& x.camera_bounds@[1] == word_field(d, q, h, 7)
    &&& x.camera_bounds@[2] == word_field(d, q, h, 8)
    &&& x.camera_bounds@[3] == word_field(d, q, h, 9)
    &&& x.camera_bounds@[4] == word_field(d, q, h, 10)
    &&& x.camera_bounds@[5] == word_field(d, q, h, 11)
    &&& x.camera_bounds@[6] == word_field(d, q, h, 12)
    &&& x.camera_bounds@[7] == word_field(d, q, h, 13)
    &&& x.camera_bounds_complements@[0] == word_field(d, q, h, 14) as i32
    &&& x.camera_bounds_complements@[1] == word_field(d, q, h, 15) as i32
    &&& x.camera_bounds_complements@[2] == word_field(d, q, h, 16) as i32
    &&& x.camera_bounds_complements@[3] == word_field(d, q, h, 17) as i32
    &&& x.map_playable_width == word_field(d, q, h, 18) as i32
    &&& x.map_playable_height == word_field(d, q, h, 19) as i32
    &&& x.header_flags.raw_value == word_field(d, q, h, 20) as i32
    &&& x.ground_type == byte_field(d, q, h, 21) as char
    &&& if v == GameVersion::RoC {
        let l = info_layout(GameVersion::RoC);
        x.campaign_background == word_field(d, q, l, 22) as i32
            && x.loading_screen_text@ == text_field(d, q, l, 23)
            && x.loading_screen_title@ == text_field(d, q, l, 24)
            && x.loading_screen_subtitle@ == text_field(d, q, l, 25)
            && x.loading_screen_index == word_field(d, q, l, 26) as i32
            && x.prologue_screen_text@ == text_field(d, q, l, 27)
            && x.prologue_screen_title@ == text_field(d, q, l, 28)
            && x.prologue_screen_subtitle@ == text_field(d, q, l, 29)
            && x.custom_loading_screen_model_path@ == Seq::<char>::empty()
            && x.user_game_dataset == 0
            && x.prologue_screen_path@ == Seq::<char>::empty()
            && x.fog_style == 0
            && x.fog_z_height_start == 0
            && x.fog_z_height_end == 0
            && x.fog_density == 0
            && x.fog_red_tint == 0
            && x.fog_green_tint == 0
            && x.fog_blue_tint == 0
            && x.fog_alpha_value == 0
            && x.global_weather == 0
            && x.custom_sound_environment@ == Seq::<char>::empty()
            && x.custom_light_environment_id == '\0'
            && x.custom_water_red_tint == 0
            && x.custom_water_green_tint == 0
            && x.custom_water_blue_tint == 0
            && x.custom_water_alpha_tint == 0
    } else {
        let l = info_layout(v);
        x.loading_screen_index == word_field(d, q, l, 22) as i32
            && x.custom_loading_screen_model_path@ == text_field(d, q, l, 23)
            && x.loading_screen_text@ == text_field(d, q, l, 24)
            && x.loading_screen_title@ == text_field(d, q, l, 25)
            && x.loading_screen_subtitle@ == text_field(d, q, l, 26)
            && x.user_game_dataset == word_field(d, q, l, 27) as i32
            && x.prologue_screen_path@ == text_field(d, q, l, 28)
            && x.prologue_screen_text@ == text_field(d, q, l, 29)
            && x.prologue_screen_title@ == text_field(d, q, l, 30)
            && x.prologue_screen_subtitle@ == text_field(d, q, l, 31)
            && x.fog_style == word_field(d, q, l, 32) as i32
            && x.fog_z_height_start == word_field(d, q, l, 33)
            && x.fog_z_height_end == word_field(d, q, l, 34)
            && x.fog_density == word_field(d, q, l, 35)
            && x.fog_red_tint == byte_field(d, q, l, 36)
            && x.fog_green_tint == byte_field(d, q, l, 37)
            && x.fog_blue_tint == byte_field(d, q, l, 38)
            && x.fog_alpha_value == byte_field(d, q, l, 39)
            && x.global_weather == word_field(d, q, l, 40) as i32
            && x.custom_sound_environment@ == text_field(d, q, l, 41)
            && x.custom_light_environment_id == byte_field(d, q, l, 42) as char
            && x.custom_water_red_tint == byte_field(d, q, l, 43)
            && x.custom_water_green_tint == byte_field(d, q, l, 44)
            && x.custom_water_blue_tint == byte_field(d, q, l, 45)
            && x.custom_water_alpha_tint == byte_field(d, q, l, 46)
            && x.campaign_background == 0
    }
    &&& lists_at(
        d,
        fields_end(d, q, info_layout(v))->0,
        v,
        x.players@,
        x.forces@,
        x.upgrades@,
        x.techs@,
        x.random_unit_tables@,
        x.random_item_tables@,
    )
}



/// The lists of an info file.
struct InfoLists {
    players: Vec<PlayerData>,
    forces: Vec<ForceData>,
    upgrades: Vec<UpgradeAvailability>,
    techs: Vec<TechAvailability>,
    random_unit_tables: Vec<RandomUnitTable>,
    random_item_tables: Vec<RandomItemTable>,
}

/// Reads the lists of an info file saved for version `game_version`.
#[verifier::rlimit(60)]
#[verifier::spinoff_prover]
fn read_lists(reader: &mut BinaryReader, game_version: &GameVersion) -> (res: Result<InfoLists, ReadError>)
    requires
        old(reader).wf(),
    ensures
        final(reader).wf(),
        final(reader).contents() == old(reader).contents(),
        ({
            let d = old(reader).contents();
            let q = old(reader).position() as int;
            let v = *game_version;
            &&& res is Ok <==> lists_end(d, q, v) is Some
            &&& res is Ok ==> lists_end(d, q, v) == Some(final(reader).position() as int)
            &&& res matches Ok(x) ==> lists_at(
                d,
                q,
                v,
                x.players@,
                x.forces@,
                x.upgrades@,
                x.techs@,
                x.random_unit_tables@,
                x.random_item_tables@,
            )
        }),
{
    let n = match reader.read_u32() {
        Ok(v) => v,
        Err(e) => {
            return Err(e);
        },
    };
    let players = match read_player_list(reader, n) {
        Ok(v) => v,
        Err(e) => {
            return Err(e);
        },
    };
    let n = match reader.read_u32() {
        Ok(v) => v,
        Err(e) => {
            return Err(e);
        },
    };
    let forces = match read_force_list(reader, n) {
        Ok(v) => v,
        Err(e) => {
            return Err(e);
        },
    };
    let n = match reader.read_u32() {
        Ok(v) => v,
        Err(e) => {
            return Err(e);
        },
    };
    let upgrades = match read_upgrade_list(reader, n) {
        Ok(v) => v,
        Err(e) => {
            return Err(e);
        },
    };
    let n = match reader.read_u32() {
        Ok(v) => v,
        Err(e) => {
            return Err(e);
        },
    };
    let techs = match read_tech_list(reader, n) {
        Ok(v) => v,
        Err(e) => {
            return Err(e);
        },
    };
    let n = match reader.read_u32() {
        Ok(v) => v,
        Err(e) => {
            return Err(e);
        },
    };
    let random_unit_tables = match read_unit_tables(reader, n) {
        Ok(v) => v,
        Err(e) => {
            return Err(e);
        },
    };
    let random_item_tables = if game_version.is_tft() {
        let n = match reader.read_u32() {
            Ok(v) => v,
            Err(e) => {
                return Err(e);
            },
        };
        match read_item_tables(reader, n) {
            Ok(v) => v,
            Err(e) => {
                return Err(e);
            },
        }
    } else {
        Vec::new()
    };
    Ok(InfoLists { players, forces, upgrades, techs, random_unit_tables, random_item_tables })
}

/// The version that the info file stores as `value`: 18 for Reign of Chaos,
/// 25 for The Frozen Throne, 28 for Reforged.
fn to_game_version(value: u32) -> (res: Result<GameVersion, String>)
    ensures
        res is Ok <==> w3i_version(value) is Some,
        res matches Ok(v) ==> w3i_version(value) == Some(v),
        res matches Err(m) ==> m@ == unknown_version(value),
{
    if value == 18 {
        Ok(GameVersion::RoC)
    } else if value == 25 {
        Ok(GameVersion::TFT)
    } else if value == 28 {
        Ok(GameVersion::Reforged)
    } else {
        let mut m = text_with_number("Unknown or unsupported game version '", value as u64);
        m.append("'");
        Err(m)
    }
}

/// Errors of the info file.
#[derive(Debug)]
pub enum InfoError {
    MpqError(MpqError),
    InitReader(ReadError),
    Parsing(ReadError),
}

impl W3iFile {
    /// Name of the file in the map archive.
    pub const FILE_NAME: &'static str = "war3map.w3i";

    /// The game version the map was saved for.
    pub fn game_version(&self) -> (res: GameVersion)
        ensures
            res == self.version,
    {
        self.version
    }

    /// Reads the info file at the cursor and leaves the cursor after it. An
    /// unknown version fails with [`ReadError::Reason`], text that is not
    /// UTF-8 with [`ReadError::InvalidCString`].
    #[verifier::rlimit(60)]
    #[verifier::spinoff_prover]
    pub fn read_fields(reader: &mut BinaryReader) -> (res: Result<Self, ReadError>)
        requires
            old(reader).wf(),
        ensures
            final(reader).wf(),
            final(reader).contents() == old(reader).contents(),
            ({
                let d = old(reader).contents();
                let p = old(reader).position() as int;
                &&& res is Ok <==> w3i_end(d, p) is Some
                &&& res is Ok ==> w3i_end(d, p) == Some(final(reader).position() as int)
                &&& res matches Ok(x) ==> w3i_at(d, p, x)
                &&& (has_bytes(d, p, 4) && w3i_version(u32_at(d, p)) is None) ==> (res matches Err(
                    ReadError::Reason(m),
                ) && m@ == unknown_version(u32_at(d, p)))
            }),
    {
        let ghost d = reader.contents();
        let ghost p = reader.position() as int;
        let code = match reader.read_u32() {
            Ok(v) => v,
            Err(e) => {
                return Err(e);
            },
        };
        let version = match to_game_version(code) {
            Ok(v) => v,
            Err(reason) => {
                return Err(ReadError::Reason(reason));
            },
        };
        let ghost q = p + 4;
        let ghost h = info_head_layout();
        let ghost l = info_layout(version);
        assert(h.take(0) =~= Seq::<FieldKind>::empty());
        let head = match read_head(reader, Ghost(q), Ghost(h)) {
            Ok(v) => v,
            Err(e) => {
                proof {
                    assert(l.take(22) =~= h);
                    lemma_fields_end_none(d, q, l, 22);
                }
                return Err(e);
            },
        };
        assert(l.take(22) =~= h);
        let screens = if version.is_roc() {
            assert(l.subrange(22, 30) =~= seq![
                FieldKind::Word,
                FieldKind::Text,
                FieldKind::Text,
                FieldKind::Text,
                FieldKind::Word,
                FieldKind::Text,
                FieldKind::Text,
                FieldKind::Text,
            ]);
            read_roc_screens(reader, Ghost(q), Ghost(l))
        } else {
            assert(l.subrange(22, 47) =~= seq![
                FieldKind::Word,
                FieldKind::Text,
                FieldKind::Text,
                FieldKind::Text,
                FieldKind::Text,
                FieldKind::Word,
                FieldKind::Text,
                FieldKind::Text,
                FieldKind::Text,
                FieldKind::Text,
                FieldKind::Word,
                FieldKind::Word,
                FieldKind::Word,
                FieldKind::Word,
                FieldKind::Byte,
                FieldKind::Byte,
                FieldKind::Byte,
                FieldKind::Byte,
                FieldKind::Word,
                FieldKind::Text,
                FieldKind::Byte,
                FieldKind::Byte,
                FieldKind::Byte,
                FieldKind::Byte,
                FieldKind::Byte,
            ]);
            read_tft_screens(reader, Ghost(q), Ghost(l))
        };
        let screens = match screens {
            Ok(v) => v,
            Err(e) => {
                return Err(e);
            },
        };
        let lists = match read_lists(reader, &version) {
            Ok(v) => v,
            Err(e) => {
                return Err(e);
            },
        };
        Ok(W3iFile {
            version,
            count_saves: head.count_saves,
            editor_version: head.editor_version,
            map_name: head.map_name,
            map_author: head.map_author,
            map_description: head.map_description,
            recommended_players: head.recommended_players,
            camera_bounds: head.camera_bounds,
            camera_bounds_complements: head.camera_bounds_complements,
            map_playable_width: head.map_playable_width,
            map_playable_height: head.map_playable_height,
            header_flags: head.header_flags,
            ground_type: head.ground_type,
            campaign_background: screens.campaign_background,
            custom_loading_screen_model_path: screens.custom_loading_screen_model_path,
            loading_screen_index: screens.loading_screen_index,
            loading_screen_text: screens.loading_screen_text,
            loading_screen_title: screens.loading_screen_title,
            loading_screen_subtitle: screens.loading_screen_subtitle,
            user_game_dataset: screens.user_game_dataset,
            prologue_screen_path: screens.prologue_screen_path,
            prologue_screen_text: screens.prologue_screen_text,
            prologue_screen_title: screens.prologue_screen_title,
            prologue_screen_subtitle: screens.prologue_screen_subtitle,
            fog_style: screens.fog_style,
            fog_z_height_start: screens.fog_z_height_start,
            fog_z_height_end: screens.fog_z_height_end,
            fog_density: screens.fog_density,
            fog_red_tint: screens.fog_red_tint,
            fog_green_tint: screens.fog_green_tint,
            fog_blue_tint: screens.fog_blue_tint,
            fog_alpha_value: screens.fog_alpha_value,
            global_weather: screens.global_weather,
            custom_sound_environment: screens.custom_sound_environment,
            custom_light_environment_id: screens.custom_light_environment_id,
            custom_water_red_tint: screens.custom_water_red_tint,
            custom_water_green_tint: screens.custom_water_green_tint,
            custom_water_blue_tint: screens.custom_water_blue_tint,
            custom_water_alpha_tint: screens.custom_water_alpha_tint,
            players: lists.players,
            forces: lists.forces,
            upgrades: lists.upgrades,
            techs: lists.techs,
            random_unit_tables: lists.random_unit_tables,
            random_item_tables: lists.random_item_tables,
        })
    }

    /// Reads the info file, which fills the buffer from the cursor to its
    /// end.
    pub fn read(reader: &mut BinaryReader) -> (res: Result<Self, ReadError>)
        requires
            old(reader).wf(),
            w3i_end(old(reader).contents(), old(reader).position() as int) matches Some(q) ==> q
                == old(reader).contents().len(),
        ensures
            final(reader).wf(),
            final(reader).contents() == old(reader).contents(),
            ({
                let d = old(reader).contents();
                let p = old(reader).position() as int;
                &&& res is Ok <==> w3i_end(d, p) is Some
                &&& res matches Ok(x) ==> w3i_at(d, p, x) && final(reader).position() == d.len()
            }),
    {
        Self::read_fields(reader)
    }
}

} // verus!
