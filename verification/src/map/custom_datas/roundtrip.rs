//! Reading back what the custom object tables write.

use vstd::prelude::*;
use vstd::utf8::encode_utf8;

use crate::formats::binary_reader::{c_string_bytes, u32_at};
use crate::formats::encoding::le_bytes_u32;
use crate::formats::GameVersion;
use crate::map::custom_datas::{
    meta_at, meta_bytes, meta_end, metas_at, metas_bytes, metas_end, no_code, object_at,
    object_bytes, object_end, object_id_at, object_id_bytes, objects_at, objects_bytes, objects_end, table_at,
    table_bytes, table_end, text_tag, value_at, value_bytes, value_end, value_tag, value_text,
    value_text_ok, value_writable, MetaModification, ObjectDefinition, ObjectId, VariableValue,
};
use crate::map::trigger_jass_file::{lemma_c_string_in, lemma_u32_in};

verus! {

/// What a value is, as far as the table stores it: its type, its text and
/// its number.
pub open spec fn value_view(x: VariableValue) -> (i32, Option<Seq<char>>, u32) {
    (
        value_tag(x),
        value_text(x),
        match x {
            VariableValue::Integer(i) => i as u32,
            VariableValue::Real(b) => b,
            VariableValue::Unreal(b) => b,
            VariableValue::Bool(b) => if b {
                1u32
            } else {
                0u32
            },
            VariableValue::Char(c) => c as u32,
            _ => 0u32,
        },
    )
}

/// Whether the table can store `x` so that reading gives it back: its text
/// holds no NUL, and a character, stored by its low byte, has a code below
/// 256.
pub open spec fn value_round_ok(x: VariableValue) -> bool {
    &&& value_text_ok(x)
    &&& x matches VariableValue::Char(c) ==> (c as u32) < 256
}

/// What a modification is, as far as the table stores it.
pub open spec fn meta_view(m: MetaModification) -> (Seq<u8>, (i32, Option<Seq<char>>, u32), i32, i32) {
    (m.id.0@, value_view(m.value), m.level, m.data_pointer)
}

/// What reading gives back of modification `m`: a table without level data
/// stores neither level nor data pointer, which read as zero.
pub open spec fn stored_meta_view(m: MetaModification, level: bool) -> (
    Seq<u8>,
    (i32, Option<Seq<char>>, u32),
    i32,
    i32,
) {
    if level {
        meta_view(m)
    } else {
        (m.id.0@, value_view(m.value), 0, 0)
    }
}

/// The codes of an object: the original one and the custom one (zero for
/// an original object).
pub open spec fn id_view(id: ObjectId) -> (Seq<u8>, Seq<u8>) {
    match id {
        ObjectId::Original(o) => (o.0@, no_code()),
        ObjectId::Custom(o, c) => (o.0@, c.0@),
    }
}

/// What an object is, as far as the table stores it.
pub open spec fn object_view(x: ObjectDefinition) -> (
    (Seq<u8>, Seq<u8>),
    Seq<(Seq<u8>, (i32, Option<Seq<char>>, u32), i32, i32)>,
) {
    (id_view(x.id), x.modified_datas@.map_values(|m: MetaModification| meta_view(m)))
}

/// What reading gives back of object `x`.
pub open spec fn stored_object_view(x: ObjectDefinition, level: bool) -> (
    (Seq<u8>, Seq<u8>),
    Seq<(Seq<u8>, (i32, Option<Seq<char>>, u32), i32, i32)>,
) {
    (id_view(x.id), x.modified_datas@.map_values(|m: MetaModification| stored_meta_view(m, level)))
}

/// Whether the modifications `s` can be written and read back.
pub open spec fn metas_round_ok(s: Seq<MetaModification>, v: GameVersion, level: bool) -> bool {
    forall|i: int|
        0 <= i < s.len() ==> value_writable(#[trigger] s[i].value, v, level) && value_round_ok(
            s[i].value,
        )
}

/// Whether the object `x` can be written and read back: a custom object
/// has a custom code that is not zero, and it has at most `u32::MAX`
/// modifications.
pub open spec fn object_round_ok(x: ObjectDefinition, v: GameVersion, level: bool) -> bool {
    &&& x.id matches ObjectId::Custom(_, c) ==> c.0@ != no_code()
    &&& x.modified_datas@.len() <= u32::MAX
    &&& metas_round_ok(x.modified_datas@, v, level)
}

/// Whether the objects `s` can be written and read back.
pub open spec fn objects_round_ok(s: Seq<ObjectDefinition>, v: GameVersion, level: bool) -> bool {
    &&& s.len() <= u32::MAX
    &&& forall|i: int| 0 <= i < s.len() ==> object_round_ok(#[trigger] s[i], v, level)
}

proof fn lemma_sub(d: Seq<u8>, p: int, a: Seq<u8>, i: int, b: Seq<u8>)
    requires
        0 <= p,
        0 <= i,
        p + a.len() <= d.len(),
        d.subrange(p, p + a.len()) == a,
        i + b.len() <= a.len(),
        a.subrange(i, i + b.len()) == b,
    ensures
        d.subrange(p + i, p + i + b.len()) == b,
{
    assert(d.subrange(p + i, p + i + b.len()) =~= a.subrange(i, i + b.len()));
}

proof fn lemma_value_in(d: Seq<u8>, q: int, x: VariableValue)
    requires
        0 <= q,
        q + value_bytes(x).len() <= d.len(),
        d.subrange(q, q + value_bytes(x).len()) == value_bytes(x),
        value_round_ok(x),
    ensures
        value_end(d, q, value_tag(x)) == Some(q + value_bytes(x).len()),
        forall|y: VariableValue| value_at(d, q, value_tag(x), y) ==> value_view(y) == value_view(x),
{
    let b = value_bytes(x);
    match x {
        VariableValue::Integer(i) => {
            lemma_u32_in(d, q, i as u32);
            let k = i as u32;
            assert((k as i32) as u32 == k) by (bit_vector);
        },
        VariableValue::Real(k) => {
            lemma_u32_in(d, q, k);
        },
        VariableValue::Unreal(k) => {
            lemma_u32_in(d, q, k);
        },
        VariableValue::Bool(_) => {
            assert(d[q] == b[0]);
        },
        VariableValue::Char(c) => {
            assert(d[q] == b[0]);
            assert(d[q] as u32 == c as u32);
        },
        _ => {
            let s = value_text(x)->0;
            assert(b == c_string_bytes(s));
            lemma_c_string_in(d, q, s);
        },
    }
}

proof fn lemma_meta_in(d: Seq<u8>, p: int, m: MetaModification, v: GameVersion, level: bool)
    requires
        0 <= p,
        p + meta_bytes(m, level).len() <= d.len(),
        d.subrange(p, p + meta_bytes(m, level).len()) == meta_bytes(m, level),
        value_writable(m.value, v, level),
        value_round_ok(m.value),
    ensures
        meta_end(d, p, v, level) == Some(p + meta_bytes(m, level).len()),
        forall|y: MetaModification|
            meta_at(d, p, v, level, y) ==> meta_view(y) == stored_meta_view(m, level),
{
    let mb = meta_bytes(m, level);
    let id = m.id.0@;
    let t = le_bytes_u32(value_tag(m.value) as u32);
    let vb = value_bytes(m.value);
    let z = le_bytes_u32(0);
    assert(id.len() == 4);
    let tag = value_tag(m.value);
    assert((tag as u32) as i32 == tag) by (bit_vector);
    if level {
        let l = le_bytes_u32(m.level as u32);
        let dp = le_bytes_u32(m.data_pointer as u32);
        assert(mb == id + t + l + dp + vb + z);
        assert(mb.subrange(0, 4) =~= id);
        assert(mb.subrange(4, 8) =~= t);
        assert(mb.subrange(8, 12) =~= l);
        assert(mb.subrange(12, 16) =~= dp);
        assert(mb.subrange(16, 16 + vb.len() as int) =~= vb);
        lemma_sub(d, p, mb, 0, id);
        lemma_sub(d, p, mb, 4, t);
        lemma_sub(d, p, mb, 8, l);
        lemma_sub(d, p, mb, 12, dp);
        lemma_sub(d, p, mb, 16, vb);
        lemma_u32_in(d, p + 4, tag as u32);
        lemma_u32_in(d, p + 8, m.level as u32);
        lemma_u32_in(d, p + 12, m.data_pointer as u32);
        let lv = m.level;
        let dv = m.data_pointer;
        assert((lv as u32) as i32 == lv) by (bit_vector);
        assert((dv as u32) as i32 == dv) by (bit_vector);
        lemma_value_in(d, p + 16, m.value);
    } else {
        assert(mb == id + t + vb + z);
        assert(mb.subrange(0, 4) =~= id);
        assert(mb.subrange(4, 8) =~= t);
        assert(mb.subrange(8, 8 + vb.len() as int) =~= vb);
        lemma_sub(d, p, mb, 0, id);
        lemma_sub(d, p, mb, 4, t);
        lemma_sub(d, p, mb, 8, vb);
        lemma_u32_in(d, p + 4, tag as u32);
        lemma_value_in(d, p + 8, m.value);
    }
}

proof fn lemma_metas_in(d: Seq<u8>, p: int, s: Seq<MetaModification>, v: GameVersion, level: bool)
    requires
        0 <= p,
        p + metas_bytes(s, level).len() <= d.len(),
        d.subrange(p, p + metas_bytes(s, level).len()) == metas_bytes(s, level),
        metas_round_ok(s, v, level),
    ensures
        metas_end(d, p, v, level, s.len()) == Some(p + metas_bytes(s, level).len()),
        forall|y: Seq<MetaModification>|
            y.len() == s.len() && metas_at(d, p, v, level, y) ==> y.map_values(
                |m: MetaModification| meta_view(m),
            ) == s.map_values(|m: MetaModification| stored_meta_view(m, level)),
    decreases s.len(),
{
    if s.len() > 0 {
        let t = s.drop_last();
        let a = metas_bytes(t, level);
        let b = meta_bytes(s.last(), level);
        assert(metas_bytes(s, level) == a + b);
        assert((a + b).subrange(0, a.len() as int) =~= a);
        lemma_sub(d, p, a + b, 0, a);
        assert((a + b).subrange(a.len() as int, (a.len() + b.len()) as int) =~= b);
        lemma_sub(d, p, a + b, a.len() as int, b);
        assert forall|i: int| 0 <= i < t.len() implies value_writable(#[trigger] t[i].value, v, level)
            && value_round_ok(t[i].value) by {
            assert(t[i] == s[i]);
        }
        lemma_metas_in(d, p, t, v, level);
        assert(value_writable(s[s.len() - 1].value, v, level));
        lemma_meta_in(d, p + a.len(), s.last(), v, level);
        assert forall|y: Seq<MetaModification>|
            y.len() == s.len() && metas_at(d, p, v, level, y) implies y.map_values(
            |m: MetaModification| meta_view(m),
        ) == s.map_values(|m: MetaModification| stored_meta_view(m, level)) by {
            let yt = y.drop_last();
            assert(metas_at(d, p, v, level, yt));
            assert(yt.map_values(|m: MetaModification| meta_view(m)) == t.map_values(
                |m: MetaModification| stored_meta_view(m, level),
            ));
            assert(meta_at(d, p + a.len(), v, level, y.last()));
            assert forall|i: int| 0 <= i < y.len() implies #[trigger] meta_view(y[i])
                == stored_meta_view(s[i], level) by {
                if i < y.len() - 1 {
                    assert(yt[i] == y[i]);
                    assert(t[i] == s[i]);
                    assert(yt.map_values(|m: MetaModification| meta_view(m))[i] == t.map_values(
                        |m: MetaModification| stored_meta_view(m, level),
                    )[i]);
                }
            }
            assert(y.map_values(|m: MetaModification| meta_view(m)) =~= s.map_values(
                |m: MetaModification| stored_meta_view(m, level),
            ));
        }
    } else {
        assert forall|y: Seq<MetaModification>|
            y.len() == s.len() && metas_at(d, p, v, level, y) implies y.map_values(
            |m: MetaModification| meta_view(m),
        ) == s.map_values(|m: MetaModification| stored_meta_view(m, level)) by {
            assert(y.map_values(|m: MetaModification| meta_view(m)) =~= s.map_values(
                |m: MetaModification| stored_meta_view(m, level),
            ));
        }
    }
}

proof fn lemma_object_in(d: Seq<u8>, p: int, x: ObjectDefinition, v: GameVersion, level: bool)
    requires
        0 <= p,
        p + object_bytes(x, level).len() <= d.len(),
        d.subrange(p, p + object_bytes(x, level).len()) == object_bytes(x, level),
        object_round_ok(x, v, level),
    ensures
        object_end(d, p, v, level) == Some(p + object_bytes(x, level).len()),
        forall|y: ObjectDefinition|
            object_at(d, p, v, level, y) ==> object_view(y) == stored_object_view(x, level),
{
    let ob = object_bytes(x, level);
    let ib = object_id_bytes(x.id);
    let s = x.modified_datas@;
    let nb = le_bytes_u32(s.len() as u32);
    let mb = metas_bytes(s, level);
    assert(ob == ib + nb + mb);
    assert(ib.len() == 8);
    assert(ob.subrange(0, 8) =~= ib);
    assert(ob.subrange(8, 12) =~= nb);
    assert(ob.subrange(12, 12 + mb.len() as int) =~= mb);
    lemma_sub(d, p, ob, 0, ib);
    lemma_sub(d, p, ob, 8, nb);
    lemma_sub(d, p, ob, 12, mb);
    lemma_u32_in(d, p + 8, s.len() as u32);
    lemma_metas_in(d, p + 12, s, v, level);
    match x.id {
        ObjectId::Original(o) => {
            assert(ib.subrange(0, 4) =~= o.0@);
            assert(ib.subrange(4, 8) =~= no_code());
            lemma_sub(d, p, ib, 0, o.0@);
            lemma_sub(d, p, ib, 4, no_code());
        },
        ObjectId::Custom(o, c) => {
            assert(ib.subrange(0, 4) =~= o.0@);
            assert(ib.subrange(4, 8) =~= c.0@);
            lemma_sub(d, p, ib, 0, o.0@);
            lemma_sub(d, p, ib, 4, c.0@);
        },
    }
}

proof fn lemma_objects_in(d: Seq<u8>, p: int, s: Seq<ObjectDefinition>, v: GameVersion, level: bool)
    requires
        0 <= p,
        p + objects_bytes(s, level).len() <= d.len(),
        d.subrange(p, p + objects_bytes(s, level).len()) == objects_bytes(s, level),
        forall|i: int| 0 <= i < s.len() ==> object_round_ok(#[trigger] s[i], v, level),
    ensures
        objects_end(d, p, v, level, s.len()) == Some(p + objects_bytes(s, level).len()),
        forall|y: Seq<ObjectDefinition>|
            y.len() == s.len() && objects_at(d, p, v, level, y) ==> y.map_values(
                |x: ObjectDefinition| object_view(x),
            ) == s.map_values(|x: ObjectDefinition| stored_object_view(x, level)),
    decreases s.len(),
{
    if s.len() > 0 {
        let t = s.drop_last();
        let a = objects_bytes(t, level);
        let b = object_bytes(s.last(), level);
        assert(objects_bytes(s, level) == a + b);
        assert((a + b).subrange(0, a.len() as int) =~= a);
        lemma_sub(d, p, a + b, 0, a);
        assert((a + b).subrange(a.len() as int, (a.len() + b.len()) as int) =~= b);
        lemma_sub(d, p, a + b, a.len() as int, b);
        assert forall|i: int| 0 <= i < t.len() implies object_round_ok(#[trigger] t[i], v, level) by {
            assert(t[i] == s[i]);
        }
        lemma_objects_in(d, p, t, v, level);
        assert(object_round_ok(s[s.len() - 1], v, level));
        lemma_object_in(d, p + a.len(), s.last(), v, level);
        assert forall|y: Seq<ObjectDefinition>|
            y.len() == s.len() && objects_at(d, p, v, level, y) implies y.map_values(
            |x: ObjectDefinition| object_view(x),
        ) == s.map_values(|x: ObjectDefinition| stored_object_view(x, level)) by {
            let yt = y.drop_last();
            assert(objects_at(d, p, v, level, yt));
            assert(yt.map_values(|x: ObjectDefinition| object_view(x)) == t.map_values(
                |x: ObjectDefinition| stored_object_view(x, level),
            ));
            assert(object_at(d, p + a.len(), v, level, y.last()));
            assert forall|i: int| 0 <= i < y.len() implies #[trigger] object_view(y[i])
                == stored_object_view(s[i], level) by {
                if i < y.len() - 1 {
                    assert(yt[i] == y[i]);
                    assert(t[i] == s[i]);
                    assert(yt.map_values(|x: ObjectDefinition| object_view(x))[i] == t.map_values(
                        |x: ObjectDefinition| stored_object_view(x, level),
                    )[i]);
                }
            }
            assert(y.map_values(|x: ObjectDefinition| object_view(x)) =~= s.map_values(
                |x: ObjectDefinition| stored_object_view(x, level),
            ));
        }
    } else {
        assert forall|y: Seq<ObjectDefinition>|
            y.len() == s.len() && objects_at(d, p, v, level, y) implies y.map_values(
            |x: ObjectDefinition| object_view(x),
        ) == s.map_values(|x: ObjectDefinition| stored_object_view(x, level)) by {
            assert(y.map_values(|x: ObjectDefinition| object_view(x)) =~= s.map_values(
                |x: ObjectDefinition| stored_object_view(x, level),
            ));
        }
    }
}

proof fn lemma_metas_writable(s: Seq<MetaModification>, v: GameVersion, level: bool)
    requires
        metas_round_ok(s, v, level),
    ensures
        crate::map::custom_datas::metas_writable(s, v, level),
    decreases s.len(),
{
    if s.len() > 0 {
        assert(metas_round_ok(s.drop_last(), v, level)) by {
            assert forall|i: int| 0 <= i < s.drop_last().len() implies value_writable(
                #[trigger] s.drop_last()[i].value,
                v,
                level,
            ) && value_round_ok(s.drop_last()[i].value) by {
                assert(s.drop_last()[i] == s[i]);
            }
        }
        lemma_metas_writable(s.drop_last(), v, level);
        assert(value_writable(s[s.len() - 1].value, v, level));
    }
}

proof fn lemma_objects_writable(s: Seq<ObjectDefinition>, v: GameVersion, level: bool)
    requires
        forall|i: int| 0 <= i < s.len() ==> object_round_ok(#[trigger] s[i], v, level),
    ensures
        crate::map::custom_datas::objects_writable(s, v, level),
    decreases s.len(),
{
    if s.len() > 0 {
        assert forall|i: int| 0 <= i < s.drop_last().len() implies object_round_ok(
            #[trigger] s.drop_last()[i],
            v,
            level,
        ) by {
            assert(s.drop_last()[i] == s[i]);
        }
        lemma_objects_writable(s.drop_last(), v, level);
        assert(object_round_ok(s[s.len() - 1], v, level));
        lemma_metas_writable(s.last().modified_datas@, v, level);
    }
}

/// A custom object table that has objects, whose custom objects have a
/// custom code that is not zero, whose counts fit in a `u32`, and whose
/// values can be stored (a type the layout holds, text without NUL, a
/// character below 256), is written without failure, and reading its bytes
/// back goes to their end and gives the same version and the same objects,
/// except for the level and data pointer that a table without level data
/// does not store.
#[verifier::rlimit(60)]
#[verifier::spinoff_prover]
pub proof fn law_table_write_read(
    version: u32,
    orig: Seq<ObjectDefinition>,
    custom: Seq<ObjectDefinition>,
    v: GameVersion,
    level: bool,
)
    requires
        orig.len() > 0 || custom.len() > 0,
        objects_round_ok(orig, v, level),
        objects_round_ok(custom, v, level),
    ensures
        crate::map::custom_datas::objects_writable(orig, v, level),
        crate::map::custom_datas::objects_writable(custom, v, level),
        ({
            let d = table_bytes(version, orig, custom, level);
            &&& table_end(d, 0, v, level) == Some(d.len() as int)
            &&& forall|version2: u32, orig2: Seq<ObjectDefinition>, custom2: Seq<ObjectDefinition>|
                table_at(d, 0, v, level, version2, orig2, custom2) ==> {
                    &&& version2 == version
                    &&& orig2.map_values(|x: ObjectDefinition| object_view(x)) == orig.map_values(
                        |x: ObjectDefinition| stored_object_view(x, level),
                    )
                    &&& custom2.map_values(|x: ObjectDefinition| object_view(x))
                        == custom.map_values(|x: ObjectDefinition| stored_object_view(x, level))
                }
        }),
{
    lemma_objects_writable(orig, v, level);
    lemma_objects_writable(custom, v, level);
    let d = table_bytes(version, orig, custom, level);
    let a = le_bytes_u32(version);
    let b = le_bytes_u32(orig.len() as u32);
    let c = objects_bytes(orig, level);
    let e = le_bytes_u32(custom.len() as u32);
    let f = objects_bytes(custom, level);
    assert(d == a + b + c + e + f);
    assert(d.subrange(0, 4) =~= a);
    assert(d.subrange(4, 8) =~= b);
    assert(d.subrange(8, 8 + c.len() as int) =~= c);
    let q: int = 8 + c.len() as int;
    assert(d.subrange(q, q + 4) =~= e);
    assert(d.subrange(q + 4, q + 4 + f.len() as int) =~= f);
    lemma_u32_in(d, 0, version);
    lemma_u32_in(d, 4, orig.len() as u32);
    lemma_objects_in(d, 8, orig, v, level);
    lemma_u32_in(d, q, custom.len() as u32);
    lemma_objects_in(d, q + 4, custom, v, level);
}

} // verus!
