//! Reading back fields and lists written one after the other: the lemmas
//! that the write-then-read laws of the map files rest on.

use vstd::prelude::*;
use vstd::utf8::encode_utf8;

use crate::formats::binary_reader::c_string_bytes;
use crate::formats::encoding::le_bytes_u32;
use crate::map::trigger_jass_file::{lemma_c_string_in, lemma_u32_in};
use crate::map::triggers::trigger_data::c_text_ok;
use crate::map::unit_map::{code_text, seq_bytes, seq_end, seq_read};
use crate::map::w3i_file::{byte_field, code_field, field_pos, fields_end, text_field, word_field, FieldKind};

verus! {

/// A field value: its kind, its number (a word, or a byte) and its text (a
/// C string, or a four-byte code).
pub type FieldValue = (FieldKind, u32, Seq<char>);

/// The bytes that store field value `v`.
pub open spec fn value_bytes(v: FieldValue) -> Seq<u8> {
    match v.0 {
        FieldKind::Word => le_bytes_u32(v.1),
        FieldKind::Byte => seq![v.1 as u8],
        FieldKind::Text => c_string_bytes(v.2),
        FieldKind::Code => encode_utf8(v.2),
    }
}

/// Whether field value `v` reads back as written: a byte below 256, a
/// text without NUL, a code of four bytes.
pub open spec fn value_ok(v: FieldValue) -> bool {
    match v.0 {
        FieldKind::Word => true,
        FieldKind::Byte => v.1 < 256,
        FieldKind::Text => c_text_ok(v.2),
        FieldKind::Code => encode_utf8(v.2).len() == 4,
    }
}

/// The bytes that store the field values `vs`, one after the other.
pub open spec fn values_bytes(vs: Seq<FieldValue>) -> Seq<u8>
    decreases vs.len(),
{
    if vs.len() == 0 {
        Seq::empty()
    } else {
        values_bytes(vs.drop_last()) + value_bytes(vs.last())
    }
}

/// The layout of the field values `vs`.
pub open spec fn kinds(vs: Seq<FieldValue>) -> Seq<FieldKind> {
    vs.map_values(|v: FieldValue| v.0)
}

/// Whether field `i` of layout `l` stored at `q` reads as `v`.
pub open spec fn field_reads(d: Seq<u8>, q: int, l: Seq<FieldKind>, i: int, v: FieldValue) -> bool {
    match v.0 {
        FieldKind::Word => word_field(d, q, l, i) == v.1,
        FieldKind::Byte => byte_field(d, q, l, i) as u32 == v.1,
        FieldKind::Text => text_field(d, q, l, i) == v.2,
        FieldKind::Code => code_field(d, q, l, i) == v.2,
    }
}

proof fn lemma_value_in(d: Seq<u8>, q: int, v: FieldValue)
    requires
        0 <= q,
        q + value_bytes(v).len() <= d.len(),
        d.subrange(q, q + value_bytes(v).len()) == value_bytes(v),
        value_ok(v),
    ensures
        crate::map::w3i_file::field_end(d, q, v.0) == Some(q + value_bytes(v).len()),
        v.0 is Word ==> crate::formats::binary_reader::u32_at(d, q) == v.1,
        v.0 is Byte ==> d[q] as u32 == v.1,
        v.0 is Text ==> crate::map::triggers::trigger_data::c_string_at(d, q) == Some(
            (v.2, q + value_bytes(v).len()),
        ),
        v.0 is Code ==> code_text(d, q) == v.2,
{
    broadcast use vstd::utf8::encode_utf8_valid_utf8, vstd::utf8::encode_utf8_decode_utf8;

    match v.0 {
        FieldKind::Word => {
            lemma_u32_in(d, q, v.1);
        },
        FieldKind::Byte => {
            assert(d[q] == d.subrange(q, q + 1)[0]);
        },
        FieldKind::Text => {
            lemma_c_string_in(d, q, v.2);
        },
        FieldKind::Code => {
            assert(d.subrange(q, q + 4) == encode_utf8(v.2));
        },
    }
}

/// Field values written one after the other read back: the layout goes to
/// their end, and each field reads as written.
pub proof fn lemma_fields_in(d: Seq<u8>, q: int, vs: Seq<FieldValue>)
    requires
        0 <= q,
        q + values_bytes(vs).len() <= d.len(),
        d.subrange(q, q + values_bytes(vs).len()) == values_bytes(vs),
        forall|i: int| 0 <= i < vs.len() ==> value_ok(#[trigger] vs[i]),
    ensures
        fields_end(d, q, kinds(vs)) == Some(q + values_bytes(vs).len()),
        forall|i: int| 0 <= i < vs.len() ==> field_reads(d, q, kinds(vs), i, #[trigger] vs[i]),
    decreases vs.len(),
{
    if vs.len() > 0 {
        let init = vs.drop_last();
        let a = values_bytes(init);
        let b = value_bytes(vs.last());
        assert(d.subrange(q, q + a.len()) =~= a) by {
            assert(d.subrange(q, q + a.len()) =~= d.subrange(q, q + (a + b).len()).subrange(0, a.len() as int));
        }
        assert(d.subrange(q + a.len(), q + a.len() + b.len()) =~= b) by {
            assert(d.subrange(q + a.len(), q + a.len() + b.len()) =~= d.subrange(q, q + (a + b).len()).subrange(
                a.len() as int,
                (a + b).len() as int,
            ));
        }
        assert forall|i: int| 0 <= i < init.len() implies value_ok(#[trigger] init[i]) by {
            assert(init[i] == vs[i]);
        }
        lemma_fields_in(d, q, init);
        assert(kinds(vs).drop_last() =~= kinds(init));
        assert(vs.last() == vs[vs.len() - 1]);
        lemma_value_in(d, q + a.len(), vs.last());
        assert forall|i: int| 0 <= i < vs.len() implies field_reads(d, q, kinds(vs), i, #[trigger] vs[i]) by {
            assert(kinds(vs).take(i) =~= kinds(init).take(i)) by {
                if i < init.len() {
                } else {
                    assert(kinds(vs).take(i) =~= kinds(init));
                    assert(kinds(init).take(i) =~= kinds(init));
                }
            }
            if i < init.len() {
                assert(init[i] == vs[i]);
                assert(field_reads(d, q, kinds(init), i, init[i]));
            } else {
                assert(kinds(init).take(i) =~= kinds(init));
            }
        }
    }
}

/// Entries written one after the other read back, when each entry does:
/// the list goes to its end, and any list read there has entries that are
/// `same` as the ones written.
pub proof fn lemma_seq_in<T>(
    d: Seq<u8>,
    p: int,
    s: Seq<T>,
    bytes_of: spec_fn(T) -> Seq<u8>,
    ends: spec_fn(int) -> Option<int>,
    reads: spec_fn(int, T) -> Option<int>,
    same: spec_fn(T, T) -> bool,
)
    requires
        0 <= p,
        p + seq_bytes(s, bytes_of).len() <= d.len(),
        d.subrange(p, p + seq_bytes(s, bytes_of).len()) == seq_bytes(s, bytes_of),
        forall|i: int, q: int|
            0 <= i < s.len() && 0 <= q && q + bytes_of(s[i]).len() <= d.len() && #[trigger] d.subrange(
                q,
                q + bytes_of(#[trigger] s[i]).len(),
            ) == bytes_of(s[i]) ==> {
                &&& ends(q) == Some(q + bytes_of(s[i]).len())
                &&& forall|y: T| #[trigger] reads(q, y) is Some ==> reads(q, y) == Some(q + bytes_of(s[i]).len())
                    && same(y, s[i])
            },
    ensures
        seq_end(p, s.len(), ends) == Some(p + seq_bytes(s, bytes_of).len()),
        forall|s2: Seq<T>|
            s2.len() == s.len() && #[trigger] seq_read(p, s2, reads) is Some ==> seq_read(p, s2, reads) == Some(
                p + seq_bytes(s, bytes_of).len(),
            ) && forall|i: int| 0 <= i < s.len() ==> same(#[trigger] s2[i], s[i]),
    decreases s.len(),
{
    if s.len() > 0 {
        let init = s.drop_last();
        let a = seq_bytes(init, bytes_of);
        let b = bytes_of(s.last());
        assert(seq_bytes(s, bytes_of) == a + b);
        assert(d.subrange(p, p + a.len()) =~= a) by {
            assert(d.subrange(p, p + a.len()) =~= d.subrange(p, p + (a + b).len()).subrange(0, a.len() as int));
        }
        assert(d.subrange(p + a.len(), p + a.len() + b.len()) =~= b) by {
            assert(d.subrange(p + a.len(), p + a.len() + b.len()) =~= d.subrange(p, p + (a + b).len()).subrange(
                a.len() as int,
                (a + b).len() as int,
            ));
        }
        assert forall|i: int, q: int|
            0 <= i < init.len() && 0 <= q && q + bytes_of(init[i]).len() <= d.len() && #[trigger] d.subrange(
                q,
                q + bytes_of(#[trigger] init[i]).len(),
            ) == bytes_of(init[i]) implies {
                &&& ends(q) == Some(q + bytes_of(init[i]).len())
                &&& forall|y: T| #[trigger] reads(q, y) is Some ==> reads(q, y) == Some(q + bytes_of(init[i]).len())
                    && same(y, init[i])
            } by {
            assert(init[i] == s[i]);
        }
        lemma_seq_in(d, p, init, bytes_of, ends, reads, same);
        let q = p + a.len();
        assert(s.last() == s[s.len() - 1]);
        assert(d.subrange(q, q + bytes_of(s[s.len() - 1]).len()) == bytes_of(s[s.len() - 1]));
        assert forall|s2: Seq<T>|
            s2.len() == s.len() && #[trigger] seq_read(p, s2, reads) is Some implies seq_read(p, s2, reads)
            == Some(p + seq_bytes(s, bytes_of).len()) && forall|i: int| 0 <= i < s.len() ==> same(
                #[trigger] s2[i],
                s[i],
            ) by {
            let t2 = s2.drop_last();
            assert(seq_read(p, t2, reads) is Some);
            assert(seq_read(p, t2, reads) == Some(q));
            assert(reads(q, s2.last()) is Some);
            assert forall|i: int| 0 <= i < s.len() implies same(#[trigger] s2[i], s[i]) by {
                if i < init.len() {
                    assert(t2[i] == s2[i]);
                    assert(init[i] == s[i]);
                }
            }
        }
    }
}


/// Entries whose stored forms all have `n` bytes are stored `n` bytes
/// apart.
pub proof fn lemma_fixed_seq_bytes<T>(s: Seq<T>, f: spec_fn(T) -> Seq<u8>, n: int)
    requires
        0 <= n,
        forall|i: int| 0 <= i < s.len() ==> f(#[trigger] s[i]).len() == n,
    ensures
        seq_bytes(s, f).len() == n * s.len(),
        forall|i: int| 0 <= i < s.len() ==> seq_bytes(s, f).subrange(n * i, n * i + n) == f(#[trigger] s[i]),
    decreases s.len(),
{
    if s.len() > 0 {
        let init = s.drop_last();
        assert forall|i: int| 0 <= i < init.len() implies f(#[trigger] init[i]).len() == n by {
            assert(init[i] == s[i]);
        }
        lemma_fixed_seq_bytes(init, f, n);
        let a = seq_bytes(init, f);
        let b = f(s.last());
        assert(s.last() == s[s.len() - 1]);
        assert(seq_bytes(s, f) == a + b);
        assert(n * s.len() == n * init.len() + n) by (nonlinear_arith)
            requires
                s.len() == init.len() + 1,
        ;
        assert forall|i: int| 0 <= i < s.len() implies seq_bytes(s, f).subrange(n * i, n * i + n) == f(
            #[trigger] s[i],
        ) by {
            if i < init.len() {
                assert(init[i] == s[i]);
                assert(n * i + n <= n * init.len()) by (nonlinear_arith)
                    requires
                        i < init.len(),
                        0 <= n,
                ;
                assert(0 <= n * i) by (nonlinear_arith)
                    requires
                        0 <= i,
                        0 <= n,
                ;
                assert(seq_bytes(s, f).subrange(n * i, n * i + n) =~= a.subrange(n * i, n * i + n));
            } else {
                assert(seq_bytes(s, f).subrange(n * i, n * i + n) =~= b);
            }
        }
    }
}

} // verus!
