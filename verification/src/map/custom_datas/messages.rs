//! Texts of the errors of the custom object tables: they name the object
//! (as its debug form writes it) and the meta field.

use vstd::prelude::*;

use crate::formats::{decimal_text, GameVersion};
use crate::map::chars::{append_decimal, append_str};
use crate::map::custom_datas::{ObjectId, ObjectIdCode};
use crate::slkparser::text::{utf8_lossy, utf8_lossy_string};

verus! {

/// The decimal spelling of `n`, with a minus sign when it is negative.
pub open spec fn signed_text(n: int) -> Seq<char> {
    if n < 0 {
        seq!['-'] + decimal_text((-n) as nat)
    } else {
        decimal_text(n as nat)
    }
}

/// The debug form of the four-byte code `c`.
pub open spec fn code_debug(c: Seq<u8>) -> Seq<char> {
    "ObjectIdCode(["@ + decimal_text(c[0] as nat) + ", "@ + decimal_text(c[1] as nat) + ", "@
        + decimal_text(c[2] as nat) + ", "@ + decimal_text(c[3] as nat) + "])"@
}

/// The debug form of object `id`.
pub open spec fn object_id_debug(id: ObjectId) -> Seq<char> {
    match id {
        ObjectId::Original(c) => "Original("@ + code_debug(c.0@) + ")"@,
        ObjectId::Custom(o, c) => "Custom("@ + code_debug(o.0@) + ", "@ + code_debug(c.0@) + ")"@,
    }
}

/// The debug form of game version `v`.
pub open spec fn version_debug(v: GameVersion) -> Seq<char> {
    match v {
        GameVersion::RoC => "RoC"@,
        GameVersion::TFT => "TFT"@,
        GameVersion::Reforged => "Reforged"@,
    }
}

/// The text of a failure to read a modification of type `t` that the table
/// cannot hold, for object `id` and meta field `meta`.
pub open spec fn unsupported_read_text(t: i32, id: ObjectId, meta: Seq<u8>) -> Seq<char> {
    "Unsupported vtype '"@ + signed_text(t as int) + "' for object "@ + object_id_debug(id) + " on meta '"@
        + utf8_lossy(meta) + "'"@
}

/// The text of a failure to write a modification of type `t` that the table
/// cannot hold, for object `id` and meta field `meta`, naming the version
/// `v` when there is one.
pub open spec fn unsupported_write_text(t: i32, id: ObjectId, meta: Seq<u8>, v: Option<GameVersion>) -> Seq<
    char,
> {
    "Unsupported vtype '"@ + signed_text(t as int) + "' for object "@ + object_id_debug(id) + " on meta '"@
        + utf8_lossy(meta) + match v {
        Some(g) => "' version '"@ + version_debug(g) + "'"@,
        None => "'"@,
    }
}

/// The text of a modification of a table without level data whose text is
/// not UTF-8.
pub open spec fn invalid_meta_text(id: ObjectId, meta: Seq<u8>) -> Seq<char> {
    "Invalid object '"@ + object_id_debug(id) + "' of meta '"@ + utf8_lossy(meta)
        + "'. Reason 'C string contained non-utf8 bytes"@
}

/// The text of a modification of a table with level data whose text is not
/// UTF-8; `pos` is the position after the text's NUL.
pub open spec fn cstring_fail_text(id: ObjectId, meta: Seq<u8>, pos: nat) -> Seq<char> {
    "Failed to read cstring for object '"@ + object_id_debug(id) + "' of meta '"@ + utf8_lossy(meta)
        + "' (byte position "@ + decimal_text(pos) + ")"@
}

fn append_signed(s: &mut String, n: i32)
    ensures
        final(s)@ == old(s)@ + signed_text(n as int),
{
    if n < 0 {
        append_str(s, "-");
        proof {
            reveal_strlit("-");
        }
        let m = (0i64 - n as i64) as u64;
        append_decimal(s, m);
    } else {
        append_decimal(s, n as u64);
    }
}

fn append_code(s: &mut String, c: &ObjectIdCode)
    ensures
        final(s)@ == old(s)@ + code_debug(c.0@),
{
    append_str(s, "ObjectIdCode([");
    append_decimal(s, c.0[0] as u64);
    append_str(s, ", ");
    append_decimal(s, c.0[1] as u64);
    append_str(s, ", ");
    append_decimal(s, c.0[2] as u64);
    append_str(s, ", ");
    append_decimal(s, c.0[3] as u64);
    append_str(s, "])");
}

fn append_object_id(s: &mut String, id: &ObjectId)
    ensures
        final(s)@ == old(s)@ + object_id_debug(*id),
{
    match id {
        ObjectId::Original(c) => {
            append_str(s, "Original(");
            append_code(s, c);
            append_str(s, ")");
        },
        ObjectId::Custom(o, c) => {
            append_str(s, "Custom(");
            append_code(s, o);
            append_str(s, ", ");
            append_code(s, c);
            append_str(s, ")");
        },
    }
}

fn append_meta(s: &mut String, meta: &[u8])
    ensures
        final(s)@ == old(s)@ + utf8_lossy(meta@),
{
    let text = utf8_lossy_string(meta);
    append_str(s, text.as_str());
}

/// [`unsupported_read_text`].
pub fn unsupported_read_message(t: i32, id: &ObjectId, meta: &[u8]) -> (res: String)
    ensures
        res@ == unsupported_read_text(t, *id, meta@),
{
    let mut s = String::new();
    append_str(&mut s, "Unsupported vtype '");
    append_signed(&mut s, t);
    append_str(&mut s, "' for object ");
    append_object_id(&mut s, id);
    append_str(&mut s, " on meta '");
    append_meta(&mut s, meta);
    append_str(&mut s, "'");
    s
}

/// [`unsupported_write_text`].
pub fn unsupported_write_message(t: i32, id: &ObjectId, meta: &[u8], v: Option<GameVersion>) -> (res: String)
    ensures
        res@ == unsupported_write_text(t, *id, meta@, v),
{
    let mut s = String::new();
    append_str(&mut s, "Unsupported vtype '");
    append_signed(&mut s, t);
    append_str(&mut s, "' for object ");
    append_object_id(&mut s, id);
    append_str(&mut s, " on meta '");
    append_meta(&mut s, meta);
    match v {
        Some(g) => {
            append_str(&mut s, "' version '");
            match g {
                GameVersion::RoC => append_str(&mut s, "RoC"),
                GameVersion::TFT => append_str(&mut s, "TFT"),
                GameVersion::Reforged => append_str(&mut s, "Reforged"),
            }
            append_str(&mut s, "'");
        },
        None => append_str(&mut s, "'"),
    }
    s
}

/// [`invalid_meta_text`].
pub fn invalid_meta_message(id: &ObjectId, meta: &[u8]) -> (res: String)
    ensures
        res@ == invalid_meta_text(*id, meta@),
{
    let mut s = String::new();
    append_str(&mut s, "Invalid object '");
    append_object_id(&mut s, id);
    append_str(&mut s, "' of meta '");
    append_meta(&mut s, meta);
    append_str(&mut s, "'. Reason 'C string contained non-utf8 bytes");
    s
}

/// [`cstring_fail_text`].
pub fn cstring_fail_message(id: &ObjectId, meta: &[u8], pos: u64) -> (res: String)
    ensures
        res@ == cstring_fail_text(*id, meta@, pos as nat),
{
    let mut s = String::new();
    append_str(&mut s, "Failed to read cstring for object '");
    append_object_id(&mut s, id);
    append_str(&mut s, "' of meta '");
    append_meta(&mut s, meta);
    append_str(&mut s, "' (byte position ");
    append_decimal(&mut s, pos);
    append_str(&mut s, ")");
    s
}

} // verus!
