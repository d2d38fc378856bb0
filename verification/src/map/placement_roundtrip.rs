//! Reading back placed objects: the drops of placed units and destructables,
//! and the doodads file.

use vstd::prelude::*;
use vstd::utf8::{decode_utf8, encode_utf8};

use crate::formats::binary_reader::u32_at;
use crate::formats::encoding::le_bytes_u32;
use crate::formats::GameVersion;
use crate::map::doodad_map::{
    destructable_at, destructable_bytes, destructable_bytes_of, destructable_ends, destructable_reads,
    doodad_map_at, doodad_map_bytes, doodad_map_end, special_bytes, special_bytes_of, special_ends,
    special_reads, Destructable, DoodadMap, SpecialDoodad,
};
use crate::map::field_roundtrip::lemma_seq_in;
use crate::map::trigger_jass_file::lemma_u32_in;
use crate::map::unit_map::{
    ability_bytes, ability_bytes_of, ability_ends, ability_read, ability_reads, code_text, drop_item_bytes,
    drop_item_read, drop_items_bytes, inventory_item_read, random_unit_read,
    drop_items_end, drop_items_read, drops_bytes, drops_end, drops_read, flag_bytes, flag_end, flag_read,
    inventory_item_bytes, inventory_item_bytes_of, inventory_item_ends, inventory_item_reads, item_set_bytes,
    item_sets_bytes, item_sets_end, item_sets_read, random_unit_bytes, random_unit_bytes_of, random_unit_ends,
    random_unit_reads, seq_bytes, seq_end, seq_read, unit_at, unit_bytes, unit_bytes_of, unit_end,
    unit_ends, unit_head_bytes, unit_map_bytes, unit_map_end, unit_map_version, unit_map_version_code,
    unit_mid_bytes, unit_reads, unit_tail_bytes, code_at, inventory_pos, AbilityModification, DropItem,
    DropItemSet, Drops, InventoryItem, RandomUnit, RandomUnitItemFlag, UnitItem, UnitItemMap,
};

verus! {

/// Whether the code `t` is stored in four bytes.
pub open spec fn code_ok(t: Seq<char>) -> bool {
    encode_utf8(t).len() == 4
}

/// Whether the items `s` read back as written: each ID a four-byte code.
pub open spec fn items_round_ok(s: Seq<DropItem>) -> bool {
    forall|j: int| 0 <= j < s.len() ==> code_ok(#[trigger] s[j].0@)
}

/// Whether the item sets `s` read back as written: at most `u32::MAX`
/// items in each, each ID a four-byte code.
pub open spec fn sets_round_ok(s: Seq<DropItemSet>) -> bool {
    forall|i: int| 0 <= i < s.len() ==> (#[trigger] s[i]).0@.len() <= u32::MAX && items_round_ok(s[i].0@)
}

/// Whether the items `a` have the IDs and rates of the items `b`.
pub open spec fn same_items(a: Seq<DropItem>, b: Seq<DropItem>) -> bool {
    &&& a.len() == b.len()
    &&& forall|j: int| 0 <= j < a.len() ==> (#[trigger] a[j]).0@ == b[j].0@ && a[j].1 == b[j].1
}

/// Whether the item sets `a` hold the items of the item sets `b`.
pub open spec fn same_sets(a: Seq<DropItemSet>, b: Seq<DropItemSet>) -> bool {
    &&& a.len() == b.len()
    &&& forall|i: int| 0 <= i < a.len() ==> same_items((#[trigger] a[i]).0@, b[i].0@)
}

/// Whether the drops `x` read back as written for version `v`: a table
/// index that is not negative (and none in Reign of Chaos), or from one to
/// `u32::MAX` item sets that read back.
pub open spec fn drops_round_ok(x: Drops, v: GameVersion) -> bool {
    match x {
        Drops::Empty => true,
        Drops::PresetTable(pointer) => v != GameVersion::RoC && pointer >= 0,
        Drops::EmbeddedTable(sets) => 0 < sets@.len() <= u32::MAX && sets_round_ok(sets@),
    }
}

/// Whether the drops `a` are the drops `b`: none, the same table index, or
/// item sets holding the same items.
pub open spec fn same_drops(a: Drops, b: Drops) -> bool {
    match a {
        Drops::Empty => b is Empty,
        Drops::PresetTable(x) => b matches Drops::PresetTable(y) && x == y,
        Drops::EmbeddedTable(s) => b matches Drops::EmbeddedTable(t) && same_sets(s@, t@),
    }
}

/// Bytes `a + b` stored at `q` hold `a` at `q` and `b` right after it.
pub proof fn lemma_split(d: Seq<u8>, q: int, a: Seq<u8>, b: Seq<u8>)
    requires
        0 <= q,
        q + a.len() + b.len() <= d.len(),
        d.subrange(q, q + a.len() + b.len()) == a + b,
    ensures
        d.subrange(q, q + a.len()) == a,
        d.subrange(q + a.len(), q + a.len() + b.len()) == b,
{
    assert(d.subrange(q, q + a.len()) =~= d.subrange(q, q + a.len() + b.len()).subrange(0, a.len() as int));
    assert(d.subrange(q + a.len(), q + a.len() + b.len()) =~= d.subrange(q, q + a.len() + b.len()).subrange(
        a.len() as int,
        (a.len() + b.len()) as int,
    ));
}

proof fn lemma_items_in(d: Seq<u8>, p: int, s: Seq<DropItem>)
    requires
        0 <= p,
        p + drop_items_bytes(s).len() <= d.len(),
        d.subrange(p, p + drop_items_bytes(s).len()) == drop_items_bytes(s),
        items_round_ok(s),
    ensures
        drop_items_end(d, p, s.len()) == Some(p + drop_items_bytes(s).len()),
        forall|t: Seq<DropItem>|
            t.len() == s.len() && #[trigger] drop_items_read(d, p, t) is Some ==> drop_items_read(d, p, t) == Some(
                p + drop_items_bytes(s).len(),
            ) && same_items(t, s),
    decreases s.len(),
{
    broadcast use vstd::utf8::encode_utf8_valid_utf8, vstd::utf8::encode_utf8_decode_utf8;

    if s.len() > 0 {
        let init = s.drop_last();
        let x = s.last();
        let a = drop_items_bytes(init);
        let b = drop_item_bytes(x);
        assert(x == s[s.len() - 1]);
        assert(code_ok(x.0@));
        lemma_split(d, p, a, b);
        assert forall|j: int| 0 <= j < init.len() implies code_ok(#[trigger] init[j].0@) by {
            assert(init[j] == s[j]);
        }
        lemma_items_in(d, p, init);
        let q = p + a.len();
        lemma_split(d, q, encode_utf8(x.0@), le_bytes_u32(x.1));
        lemma_u32_in(d, q + 4, x.1);
        assert((s.len() - 1) as nat == init.len());
        assert forall|t: Seq<DropItem>|
            t.len() == s.len() && #[trigger] drop_items_read(d, p, t) is Some implies drop_items_read(d, p, t)
            == Some(p + drop_items_bytes(s).len()) && same_items(t, s) by {
            let t0 = t.drop_last();
            assert(drop_items_read(d, p, t0) is Some);
            assert(same_items(t0, init));
            assert forall|j: int| 0 <= j < t.len() implies (#[trigger] t[j]).0@ == s[j].0@ && t[j].1 == s[j].1 by {
                if j < init.len() {
                    assert(t0[j] == t[j]);
                    assert(init[j] == s[j]);
                } else {
                    assert(t.last() == t[j]);
                }
            }
        }
    }
}

proof fn lemma_sets_in(d: Seq<u8>, p: int, s: Seq<DropItemSet>)
    requires
        0 <= p,
        p + item_sets_bytes(s).len() <= d.len(),
        d.subrange(p, p + item_sets_bytes(s).len()) == item_sets_bytes(s),
        sets_round_ok(s),
    ensures
        item_sets_end(d, p, s.len()) == Some(p + item_sets_bytes(s).len()),
        forall|t: Seq<DropItemSet>|
            t.len() == s.len() && #[trigger] item_sets_read(d, p, t) is Some ==> item_sets_read(d, p, t) == Some(
                p + item_sets_bytes(s).len(),
            ) && same_sets(t, s),
    decreases s.len(),
{
    if s.len() > 0 {
        let init = s.drop_last();
        let x = s.last();
        let a = item_sets_bytes(init);
        let b = item_set_bytes(x);
        assert(x == s[s.len() - 1]);
        lemma_split(d, p, a, b);
        assert forall|i: int| 0 <= i < init.len() implies (#[trigger] init[i]).0@.len() <= u32::MAX
            && items_round_ok(init[i].0@) by {
            assert(init[i] == s[i]);
        }
        lemma_sets_in(d, p, init);
        let q = p + a.len();
        lemma_split(d, q, le_bytes_u32(x.0@.len() as u32), drop_items_bytes(x.0@));
        lemma_u32_in(d, q, x.0@.len() as u32);
        lemma_items_in(d, q + 4, x.0@);
        assert((s.len() - 1) as nat == init.len());
        assert forall|t: Seq<DropItemSet>|
            t.len() == s.len() && #[trigger] item_sets_read(d, p, t) is Some implies item_sets_read(d, p, t)
            == Some(p + item_sets_bytes(s).len()) && same_sets(t, s) by {
            let t0 = t.drop_last();
            assert(item_sets_read(d, p, t0) is Some);
            assert(same_sets(t0, init));
            assert(drop_items_read(d, q + 4, t.last().0@) is Some);
            assert forall|i: int| 0 <= i < t.len() implies same_items((#[trigger] t[i]).0@, s[i].0@) by {
                if i < init.len() {
                    assert(t0[i] == t[i]);
                    assert(init[i] == s[i]);
                } else {
                    assert(t.last() == t[i]);
                }
            }
        }
    }
}

/// Drops written for version `v` read back: when they read back as
/// written, the stored drops go to the end of their bytes, and any drops
/// read there are the drops written.
pub proof fn lemma_drops_in(d: Seq<u8>, p: int, x: Drops, v: GameVersion)
    requires
        0 <= p,
        p + drops_bytes(x, v).len() <= d.len(),
        d.subrange(p, p + drops_bytes(x, v).len()) == drops_bytes(x, v),
        drops_round_ok(x, v),
    ensures
        drops_end(d, p, v) == Some(p + drops_bytes(x, v).len()),
        forall|y: Drops| #[trigger] drops_read(d, p, v, y) is Some ==> drops_read(d, p, v, y) == Some(
            p + drops_bytes(x, v).len(),
        ) && same_drops(y, x),
{
    let none = -1i32 as u32;
    assert(-1i32 as u32 == 0xffff_ffffu32) by (bit_vector);
    assert(0xffff_ffffu32 as i32 == -1i32) by (bit_vector);
    if v == GameVersion::RoC {
        match x {
            Drops::EmbeddedTable(sets) => {
                lemma_split(d, p, le_bytes_u32(sets@.len() as u32), item_sets_bytes(sets@));
                lemma_u32_in(d, p, sets@.len() as u32);
                lemma_sets_in(d, p + 4, sets@);
            },
            _ => {
                assert(d.subrange(p, p + 4) == le_bytes_u32(0));
                lemma_u32_in(d, p, 0);
            },
        }
    } else {
        match x {
            Drops::Empty => {
                lemma_split(d, p, le_bytes_u32(none), le_bytes_u32(0));
                lemma_u32_in(d, p, none);
                lemma_u32_in(d, p + 4, 0);
            },
            Drops::PresetTable(pointer) => {
                lemma_split(d, p, le_bytes_u32(pointer as u32), le_bytes_u32(0));
                lemma_u32_in(d, p, pointer as u32);
                lemma_u32_in(d, p + 4, 0);
                assert((pointer as u32) as i32 == pointer) by (bit_vector)
                    requires
                        pointer >= 0,
                ;
            },
            Drops::EmbeddedTable(sets) => {
                let head = le_bytes_u32(none) + le_bytes_u32(sets@.len() as u32);
                lemma_split(d, p, head, item_sets_bytes(sets@));
                lemma_split(d, p, le_bytes_u32(none), le_bytes_u32(sets@.len() as u32));
                lemma_u32_in(d, p, none);
                lemma_u32_in(d, p + 4, sets@.len() as u32);
                lemma_sets_in(d, p + 8, sets@);
            },
        }
    }
}

/// Whether destructable `x` reads back as written for version `v`: a
/// four-byte model code, and drops that read back (Reign of Chaos stores
/// none).
pub open spec fn destructable_round_ok(x: Destructable, v: GameVersion) -> bool {
    &&& code_ok(x.model_id@)
    &&& v != GameVersion::RoC ==> drops_round_ok(x.drops, v)
}

/// Whether destructable `a`, as read for version `v`, holds what
/// destructable `b` stores: all its fields, and its drops, which in Reign
/// of Chaos read as none.
pub open spec fn same_destructable(a: Destructable, b: Destructable, v: GameVersion) -> bool {
    &&& a.model_id@ == b.model_id@ && a.variation == b.variation
    &&& a.coord_x == b.coord_x && a.coord_y == b.coord_y && a.coord_z == b.coord_z && a.angle == b.angle
    &&& a.scale_x == b.scale_x && a.scale_y == b.scale_y && a.scale_z == b.scale_z
    &&& a.flags == b.flags && a.life == b.life && a.creation_id == b.creation_id
    &&& if v == GameVersion::RoC {
        a.drops is Empty
    } else {
        same_drops(a.drops, b.drops)
    }
}

/// Whether special doodad `a` holds the code and position of special
/// doodad `b`.
pub open spec fn same_special(a: SpecialDoodad, b: SpecialDoodad) -> bool {
    a.model_id@ == b.model_id@ && a.coord_x == b.coord_x && a.coord_y == b.coord_y && a.coord_z == b.coord_z
}

proof fn lemma_destructable_in(d: Seq<u8>, q: int, x: Destructable, v: GameVersion)
    requires
        0 <= q,
        q + destructable_bytes(x, v).len() <= d.len(),
        d.subrange(q, q + destructable_bytes(x, v).len()) == destructable_bytes(x, v),
        destructable_round_ok(x, v),
    ensures
        destructable_ends(d, v)(q) == Some(q + destructable_bytes(x, v).len()),
        forall|y: Destructable| #[trigger] destructable_reads(d, v)(q, y) is Some ==> destructable_reads(d, v)(
            q,
            y,
        ) == Some(q + destructable_bytes(x, v).len()) && same_destructable(y, x, v),
{
    broadcast use vstd::utf8::encode_utf8_valid_utf8, vstd::utf8::encode_utf8_decode_utf8;

    let dp = if v == GameVersion::RoC {
        Seq::<u8>::empty()
    } else {
        drops_bytes(x.drops, v)
    };
    let s0 = encode_utf8(x.model_id@);
    let s1 = s0 + le_bytes_u32(x.variation);
    let s2 = s1 + le_bytes_u32(x.coord_x);
    let s3 = s2 + le_bytes_u32(x.coord_y);
    let s4 = s3 + le_bytes_u32(x.coord_z);
    let s5 = s4 + le_bytes_u32(x.angle);
    let s6 = s5 + le_bytes_u32(x.scale_x);
    let s7 = s6 + le_bytes_u32(x.scale_y);
    let s8 = s7 + le_bytes_u32(x.scale_z);
    let s9 = s8 + seq![x.flags];
    let s10 = s9 + seq![x.life];
    let s11 = s10 + dp;
    assert(destructable_bytes(x, v) == s11 + le_bytes_u32(x.creation_id));
    lemma_split(d, q, s11, le_bytes_u32(x.creation_id));
    lemma_split(d, q, s10, dp);
    lemma_split(d, q, s9, seq![x.life]);
    lemma_split(d, q, s8, seq![x.flags]);
    lemma_split(d, q, s7, le_bytes_u32(x.scale_z));
    lemma_split(d, q, s6, le_bytes_u32(x.scale_y));
    lemma_split(d, q, s5, le_bytes_u32(x.scale_x));
    lemma_split(d, q, s4, le_bytes_u32(x.angle));
    lemma_split(d, q, s3, le_bytes_u32(x.coord_z));
    lemma_split(d, q, s2, le_bytes_u32(x.coord_y));
    lemma_split(d, q, s1, le_bytes_u32(x.coord_x));
    lemma_split(d, q, s0, le_bytes_u32(x.variation));
    lemma_u32_in(d, q + 4, x.variation);
    lemma_u32_in(d, q + 8, x.coord_x);
    lemma_u32_in(d, q + 12, x.coord_y);
    lemma_u32_in(d, q + 16, x.coord_z);
    lemma_u32_in(d, q + 20, x.angle);
    lemma_u32_in(d, q + 24, x.scale_x);
    lemma_u32_in(d, q + 28, x.scale_y);
    lemma_u32_in(d, q + 32, x.scale_z);
    assert(d[q + 36] == d.subrange(q + 36, q + 37)[0]);
    assert(d[q + 37] == d.subrange(q + 37, q + 38)[0]);
    let qd = q + 38 + dp.len();
    lemma_u32_in(d, qd, x.creation_id);
    if v != GameVersion::RoC {
        lemma_drops_in(d, q + 38, x.drops, v);
    }
    assert forall|y: Destructable| #[trigger] destructable_reads(d, v)(q, y) is Some implies destructable_reads(
        d,
        v,
    )(q, y) == Some(q + destructable_bytes(x, v).len()) && same_destructable(y, x, v) by {
        assert(destructable_at(d, q, v, y));
        if v != GameVersion::RoC {
            assert(drops_read(d, q + 38, v, y.drops) is Some);
        }
    }
}

proof fn lemma_special_in(d: Seq<u8>, q: int, x: SpecialDoodad)
    requires
        0 <= q,
        q + special_bytes(x).len() <= d.len(),
        d.subrange(q, q + special_bytes(x).len()) == special_bytes(x),
        code_ok(x.model_id@),
    ensures
        special_ends(d)(q) == Some(q + special_bytes(x).len()),
        forall|y: SpecialDoodad| #[trigger] special_reads(d)(q, y) is Some ==> special_reads(d)(q, y) == Some(
            q + special_bytes(x).len(),
        ) && same_special(y, x),
{
    broadcast use vstd::utf8::encode_utf8_valid_utf8, vstd::utf8::encode_utf8_decode_utf8;

    let s0 = encode_utf8(x.model_id@);
    let s1 = s0 + le_bytes_u32(x.coord_x);
    let s2 = s1 + le_bytes_u32(x.coord_y);
    lemma_split(d, q, s2, le_bytes_u32(x.coord_z));
    lemma_split(d, q, s1, le_bytes_u32(x.coord_y));
    lemma_split(d, q, s0, le_bytes_u32(x.coord_x));
    lemma_u32_in(d, q + 4, x.coord_x);
    lemma_u32_in(d, q + 8, x.coord_y);
    lemma_u32_in(d, q + 12, x.coord_z);
}

/// Whether the doodads file `x` reads back as written: a four-byte ID, a
/// version of the classic game, at most `u32::MAX` destructables and
/// special doodads, each of which reads back.
pub open spec fn doodad_map_round_ok(x: DoodadMap) -> bool {
    &&& code_ok(x.id@)
    &&& x.version != GameVersion::Reforged
    &&& x.destructables@.len() <= u32::MAX
    &&& x.special_doodads@.len() <= u32::MAX
    &&& forall|i: int| 0 <= i < x.destructables@.len() ==> destructable_round_ok(#[trigger] x.destructables@[i], x.version)
    &&& forall|i: int| 0 <= i < x.special_doodads@.len() ==> code_ok((#[trigger] x.special_doodads@[i]).model_id@)
}

/// Whether the doodads file `a`, as read, holds what the doodads file `b`
/// stores.
pub open spec fn same_doodad_map(a: DoodadMap, b: DoodadMap) -> bool {
    &&& a.id@ == b.id@ && a.version == b.version && a.subversion == b.subversion
    &&& a.special_doodad_version == b.special_doodad_version
    &&& a.destructables@.len() == b.destructables@.len()
    &&& forall|i: int| 0 <= i < a.destructables@.len() ==> same_destructable(
        #[trigger] a.destructables@[i],
        b.destructables@[i],
        b.version,
    )
    &&& a.special_doodads@.len() == b.special_doodads@.len()
    &&& forall|i: int| 0 <= i < a.special_doodads@.len() ==> same_special(
        #[trigger] a.special_doodads@[i],
        b.special_doodads@[i],
    )
}

/// A doodads file that reads back as written is written so that reading
/// its bytes goes to their end and gives back what it holds: its ID,
/// versions, destructables (without drops in Reign of Chaos) and special
/// doodads.
#[verifier::rlimit(40)]
pub proof fn law_doodad_map_write_read(x: DoodadMap)
    requires
        doodad_map_round_ok(x),
    ensures
        doodad_map_end(doodad_map_bytes(x), 0) == Some(doodad_map_bytes(x).len() as int),
        forall|y: DoodadMap| #[trigger] doodad_map_at(doodad_map_bytes(x), 0, y) ==> same_doodad_map(y, x),
{
    broadcast use vstd::utf8::encode_utf8_valid_utf8, vstd::utf8::encode_utf8_decode_utf8;

    let d = doodad_map_bytes(x);
    let v = x.version;
    let ds = x.destructables@;
    let ss = x.special_doodads@;
    let db = seq_bytes(ds, destructable_bytes_of(v));
    let sb = seq_bytes(ss, special_bytes_of());
    let h0 = encode_utf8(x.id@);
    let h1 = h0 + le_bytes_u32(unit_map_version_code(v));
    let h2 = h1 + le_bytes_u32(x.subversion);
    let h3 = h2 + le_bytes_u32(ds.len() as u32);
    let h4 = h3 + db;
    let h5 = h4 + le_bytes_u32(x.special_doodad_version);
    let h6 = h5 + le_bytes_u32(ss.len() as u32);
    assert(d == h6 + sb);
    assert(d.subrange(0, d.len() as int) =~= d);
    lemma_split(d, 0, h6, sb);
    lemma_split(d, 0, h5, le_bytes_u32(ss.len() as u32));
    lemma_split(d, 0, h4, le_bytes_u32(x.special_doodad_version));
    lemma_split(d, 0, h3, db);
    lemma_split(d, 0, h2, le_bytes_u32(ds.len() as u32));
    lemma_split(d, 0, h1, le_bytes_u32(x.subversion));
    lemma_split(d, 0, h0, le_bytes_u32(unit_map_version_code(v)));
    lemma_u32_in(d, 4, unit_map_version_code(v));
    lemma_u32_in(d, 8, x.subversion);
    lemma_u32_in(d, 12, ds.len() as u32);
    let q = 16 + db.len() as int;
    lemma_u32_in(d, q, x.special_doodad_version);
    lemma_u32_in(d, q + 4, ss.len() as u32);
    assert(unit_map_version(u32_at(d, 4)) == Some(v));
    assert(code_text(d, 0) == x.id@);
    let same_d = |a: Destructable, b: Destructable| same_destructable(a, b, v);
    assert forall|i: int, p: int|
        0 <= i < ds.len() && 0 <= p && p + destructable_bytes_of(v)(ds[i]).len() <= d.len() && #[trigger] d.subrange(
            p,
            p + destructable_bytes_of(v)(#[trigger] ds[i]).len(),
        ) == destructable_bytes_of(v)(ds[i]) implies {
            &&& destructable_ends(d, v)(p) == Some(p + destructable_bytes_of(v)(ds[i]).len())
            &&& forall|y: Destructable| #[trigger] destructable_reads(d, v)(p, y) is Some ==> destructable_reads(
                d,
                v,
            )(p, y) == Some(p + destructable_bytes_of(v)(ds[i]).len()) && same_d(y, ds[i])
        } by {
        lemma_destructable_in(d, p, ds[i], v);
    }
    lemma_seq_in(d, 16, ds, destructable_bytes_of(v), destructable_ends(d, v), destructable_reads(d, v), same_d);
    let same_s = |a: SpecialDoodad, b: SpecialDoodad| same_special(a, b);
    assert forall|i: int, p: int|
        0 <= i < ss.len() && 0 <= p && p + special_bytes_of()(ss[i]).len() <= d.len() && #[trigger] d.subrange(
            p,
            p + special_bytes_of()(#[trigger] ss[i]).len(),
        ) == special_bytes_of()(ss[i]) implies {
            &&& special_ends(d)(p) == Some(p + special_bytes_of()(ss[i]).len())
            &&& forall|y: SpecialDoodad| #[trigger] special_reads(d)(p, y) is Some ==> special_reads(d)(p, y)
                == Some(p + special_bytes_of()(ss[i]).len()) && same_s(y, ss[i])
        } by {
        lemma_special_in(d, p, ss[i]);
    }
    lemma_seq_in(d, q + 8, ss, special_bytes_of(), special_ends(d), special_reads(d), same_s);
    assert forall|y: DoodadMap| #[trigger] doodad_map_at(d, 0, y) implies same_doodad_map(y, x) by {
        assert(y.version == v);
        assert(seq_end(16, u32_at(d, 12) as nat, destructable_ends(d, v)) == Some(q));
    }
}

/// Whether the random units `s` read back as written: at most
/// `u32::MAX`, each ID a four-byte code.
pub open spec fn random_units_round_ok(s: Seq<RandomUnit>) -> bool {
    s.len() <= u32::MAX && forall|i: int| 0 <= i < s.len() ==> code_ok((#[trigger] s[i]).0@)
}

/// Whether the random choice `x` reads back as written: a level that fits
/// in 24 bits, or a custom list that reads back.
pub open spec fn flag_round_ok(x: RandomUnitItemFlag) -> bool {
    match x {
        RandomUnitItemFlag::Neutral(level, _) => level <= 0x00FF_FFFFu32,
        RandomUnitItemFlag::RandomFromCustomTable(units) => random_units_round_ok(units@),
        _ => true,
    }
}

/// Whether random choice `a` is random choice `b`.
pub open spec fn same_flag(a: RandomUnitItemFlag, b: RandomUnitItemFlag) -> bool {
    match a {
        RandomUnitItemFlag::Neutral(l, c) => b matches RandomUnitItemFlag::Neutral(m, e) && l == m && c == e,
        RandomUnitItemFlag::RandomFromTableGroup(g, c) => b matches RandomUnitItemFlag::RandomFromTableGroup(
            h,
            e,
        ) && g == h && c == e,
        RandomUnitItemFlag::RandomFromCustomTable(s) => b matches RandomUnitItemFlag::RandomFromCustomTable(t)
            && s@.len() == t@.len() && forall|i: int|
            0 <= i < s@.len() ==> (#[trigger] s@[i]).0@ == t@[i].0@ && s@[i].1 == t@[i].1,
        RandomUnitItemFlag::NotRandom => b is NotRandom,
    }
}

proof fn lemma_inventory_item_in(d: Seq<u8>, q: int, x: InventoryItem)
    requires
        0 <= q,
        q + inventory_item_bytes(x).len() <= d.len(),
        d.subrange(q, q + inventory_item_bytes(x).len()) == inventory_item_bytes(x),
        code_ok(x.1@),
    ensures
        inventory_item_ends(d)(q) == Some(q + inventory_item_bytes(x).len()),
        forall|y: InventoryItem| #[trigger] inventory_item_reads(d)(q, y) is Some ==> inventory_item_reads(d)(
            q,
            y,
        ) == Some(q + inventory_item_bytes(x).len()) && y.0 == x.0 && y.1@ == x.1@,
{
    broadcast use vstd::utf8::encode_utf8_valid_utf8, vstd::utf8::encode_utf8_decode_utf8;

    lemma_split(d, q, le_bytes_u32(x.0 as u32), encode_utf8(x.1@));
    lemma_u32_in(d, q, x.0 as u32);
    let slot = x.0;
    assert((slot as u32) as i32 == slot) by (bit_vector);
}

proof fn lemma_ability_in(d: Seq<u8>, q: int, x: AbilityModification)
    requires
        0 <= q,
        q + ability_bytes(x).len() <= d.len(),
        d.subrange(q, q + ability_bytes(x).len()) == ability_bytes(x),
        code_ok(x.ability_id@),
    ensures
        ability_ends(d)(q) == Some(q + ability_bytes(x).len()),
        forall|y: AbilityModification| #[trigger] ability_reads(d)(q, y) is Some ==> ability_reads(d)(q, y)
            == Some(q + ability_bytes(x).len()) && y.ability_id@ == x.ability_id@ && y.autocast == x.autocast
            && y.level == x.level,
{
    broadcast use vstd::utf8::encode_utf8_valid_utf8, vstd::utf8::encode_utf8_decode_utf8;

    let flag: u32 = if x.autocast {
        1
    } else {
        0
    };
    let a = encode_utf8(x.ability_id@);
    lemma_split(d, q, a + le_bytes_u32(flag), le_bytes_u32(x.level));
    lemma_split(d, q, a, le_bytes_u32(flag));
    lemma_u32_in(d, q + 4, flag);
    lemma_u32_in(d, q + 8, x.level);
}

proof fn lemma_random_unit_in(d: Seq<u8>, q: int, x: RandomUnit)
    requires
        0 <= q,
        q + random_unit_bytes(x).len() <= d.len(),
        d.subrange(q, q + random_unit_bytes(x).len()) == random_unit_bytes(x),
        code_ok(x.0@),
    ensures
        random_unit_ends(d)(q) == Some(q + random_unit_bytes(x).len()),
        forall|y: RandomUnit| #[trigger] random_unit_reads(d)(q, y) is Some ==> random_unit_reads(d)(q, y)
            == Some(q + random_unit_bytes(x).len()) && y.0@ == x.0@ && y.1 == x.1,
{
    broadcast use vstd::utf8::encode_utf8_valid_utf8, vstd::utf8::encode_utf8_decode_utf8;

    lemma_split(d, q, encode_utf8(x.0@), le_bytes_u32(x.1));
    lemma_u32_in(d, q + 4, x.1);
}

/// A random choice that reads back as written is stored so that it goes
/// to the end of its bytes, and any choice read there is the one written.
pub proof fn lemma_flag_in(d: Seq<u8>, q: int, x: RandomUnitItemFlag)
    requires
        0 <= q,
        q + flag_bytes(x).len() <= d.len(),
        d.subrange(q, q + flag_bytes(x).len()) == flag_bytes(x),
        flag_round_ok(x),
    ensures
        flag_end(d, q) == Some(q + flag_bytes(x).len()),
        forall|y: RandomUnitItemFlag| #[trigger] flag_read(d, q, y) is Some ==> flag_read(d, q, y) == Some(
            q + flag_bytes(x).len(),
        ) && same_flag(y, x),
{
    match x {
        RandomUnitItemFlag::Neutral(level, class) => {
            let value = level | ((class as u32) << 24u32);
            lemma_split(d, q, le_bytes_u32(0), le_bytes_u32(value));
            lemma_u32_in(d, q, 0);
            lemma_u32_in(d, q + 4, value);
            assert(value & 0x00FF_FFFFu32 == level && ((value & 0xFF00_0000u32) >> 24u32) as u8 == class)
                by (bit_vector)
                requires
                    value == level | ((class as u32) << 24u32),
                    level <= 0x00FF_FFFFu32,
            ;
        },
        RandomUnitItemFlag::RandomFromTableGroup(group, column) => {
            let a = le_bytes_u32(1);
            lemma_split(d, q, a + le_bytes_u32(group as u32), le_bytes_u32(column));
            lemma_split(d, q, a, le_bytes_u32(group as u32));
            lemma_u32_in(d, q, 1);
            lemma_u32_in(d, q + 4, group as u32);
            lemma_u32_in(d, q + 8, column);
            assert((group as u32) as i32 == group) by (bit_vector);
        },
        RandomUnitItemFlag::RandomFromCustomTable(units) => {
            let s = units@;
            let a = le_bytes_u32(2);
            let b = le_bytes_u32(s.len() as u32);
            let c = seq_bytes(s, random_unit_bytes_of());
            lemma_split(d, q, a + b, c);
            lemma_split(d, q, a, b);
            lemma_u32_in(d, q, 2);
            lemma_u32_in(d, q + 4, s.len() as u32);
            let same = |u: RandomUnit, w: RandomUnit| u.0@ == w.0@ && u.1 == w.1;
            assert forall|i: int, p: int|
                0 <= i < s.len() && 0 <= p && p + random_unit_bytes_of()(s[i]).len() <= d.len()
                    && #[trigger] d.subrange(p, p + random_unit_bytes_of()(#[trigger] s[i]).len())
                    == random_unit_bytes_of()(s[i]) implies {
                    &&& random_unit_ends(d)(p) == Some(p + random_unit_bytes_of()(s[i]).len())
                    &&& forall|y: RandomUnit| #[trigger] random_unit_reads(d)(p, y) is Some ==> random_unit_reads(
                        d,
                    )(p, y) == Some(p + random_unit_bytes_of()(s[i]).len()) && same(y, s[i])
                } by {
                lemma_random_unit_in(d, p, s[i]);
            }
            lemma_seq_in(d, q + 8, s, random_unit_bytes_of(), random_unit_ends(d), random_unit_reads(d), same);
        },
        RandomUnitItemFlag::NotRandom => {
            lemma_u32_in(d, q, -1i32 as u32);
            assert((-1i32 as u32) as i32 == -1i32) by (bit_vector);
        },
    }
}

/// Whether unit `x` reads back as written for version `v`: a four-byte
/// model code, drops that read back, at most `u32::MAX` inventory items and
/// abilities with four-byte codes, and a random choice that reads back.
pub open spec fn unit_round_ok(x: UnitItem, v: GameVersion) -> bool {
    &&& code_ok(x.model_id@)
    &&& drops_round_ok(x.drops, v)
    &&& x.inventory@.len() <= u32::MAX
    &&& forall|i: int| 0 <= i < x.inventory@.len() ==> code_ok((#[trigger] x.inventory@[i]).1@)
    &&& x.abilities@.len() <= u32::MAX
    &&& forall|i: int| 0 <= i < x.abilities@.len() ==> code_ok((#[trigger] x.abilities@[i]).ability_id@)
    &&& flag_round_ok(x.random_type)
}

/// Whether unit `a`, as read for version `v`, holds what unit `b` stores:
/// all its fields, its attributes reading as zero in Reign of Chaos.
pub open spec fn same_unit(a: UnitItem, b: UnitItem, v: GameVersion) -> bool {
    &&& a.model_id@ == b.model_id@ && a.variation == b.variation
    &&& a.coord_x == b.coord_x && a.coord_y == b.coord_y && a.coord_z == b.coord_z && a.angle == b.angle
    &&& a.scale_x == b.scale_x && a.scale_y == b.scale_y && a.scale_z == b.scale_z
    &&& a.flags == b.flags && a.player_owner == b.player_owner && a.unk1 == b.unk1 && a.unk2 == b.unk2
    &&& a.hp == b.hp && a.mana == b.mana && same_drops(a.drops, b.drops)
    &&& a.gold_amount == b.gold_amount && a.acquisition_range == b.acquisition_range && a.level == b.level
    &&& if v == GameVersion::RoC {
        a.strength == 0 && a.agility == 0 && a.intelligence == 0
    } else {
        a.strength == b.strength && a.agility == b.agility && a.intelligence == b.intelligence
    }
    &&& a.inventory@.len() == b.inventory@.len()
    &&& forall|i: int| 0 <= i < a.inventory@.len() ==> (#[trigger] a.inventory@[i]).0 == b.inventory@[i].0
        && a.inventory@[i].1@ == b.inventory@[i].1@
    &&& a.abilities@.len() == b.abilities@.len()
    &&& forall|i: int| 0 <= i < a.abilities@.len() ==> (#[trigger] a.abilities@[i]).ability_id@
        == b.abilities@[i].ability_id@ && a.abilities@[i].autocast == b.abilities@[i].autocast
        && a.abilities@[i].level == b.abilities@[i].level
    &&& same_flag(a.random_type, b.random_type)
    &&& a.color == b.color && a.waygate_region_id == b.waygate_region_id && a.creation_id == b.creation_id
}

#[verifier::rlimit(40)]
proof fn lemma_unit_head_in(d: Seq<u8>, p: int, x: UnitItem)
    requires
        0 <= p,
        p + unit_head_bytes(x).len() <= d.len(),
        d.subrange(p, p + unit_head_bytes(x).len()) == unit_head_bytes(x),
        code_ok(x.model_id@),
    ensures
        unit_head_bytes(x).len() == 51,
        code_at(d, p),
        code_text(d, p) == x.model_id@,
        u32_at(d, p + 4) == x.variation,
        u32_at(d, p + 8) == x.coord_x,
        u32_at(d, p + 12) == x.coord_y,
        u32_at(d, p + 16) == x.coord_z,
        u32_at(d, p + 20) == x.angle,
        u32_at(d, p + 24) == x.scale_x,
        u32_at(d, p + 28) == x.scale_y,
        u32_at(d, p + 32) == x.scale_z,
        d[p + 36] == x.flags,
        u32_at(d, p + 37) == x.player_owner,
        d[p + 41] == x.unk1,
        d[p + 42] == x.unk2,
        u32_at(d, p + 43) as i32 == x.hp,
        u32_at(d, p + 47) as i32 == x.mana,
{
    broadcast use vstd::utf8::encode_utf8_valid_utf8, vstd::utf8::encode_utf8_decode_utf8;

    let s0 = encode_utf8(x.model_id@);
    let s1 = s0 + le_bytes_u32(x.variation);
    let s2 = s1 + le_bytes_u32(x.coord_x);
    let s3 = s2 + le_bytes_u32(x.coord_y);
    let s4 = s3 + le_bytes_u32(x.coord_z);
    let s5 = s4 + le_bytes_u32(x.angle);
    let s6 = s5 + le_bytes_u32(x.scale_x);
    let s7 = s6 + le_bytes_u32(x.scale_y);
    let s8 = s7 + le_bytes_u32(x.scale_z);
    let s9 = s8 + seq![x.flags];
    let s10 = s9 + le_bytes_u32(x.player_owner);
    let s11 = s10 + seq![x.unk1];
    let s12 = s11 + seq![x.unk2];
    let s13 = s12 + le_bytes_u32(x.hp as u32);
    assert(unit_head_bytes(x) == s13 + le_bytes_u32(x.mana as u32));
    lemma_split(d, p, s13, le_bytes_u32(x.mana as u32));
    lemma_split(d, p, s12, le_bytes_u32(x.hp as u32));
    lemma_split(d, p, s11, seq![x.unk2]);
    lemma_split(d, p, s10, seq![x.unk1]);
    lemma_split(d, p, s9, le_bytes_u32(x.player_owner));
    lemma_split(d, p, s8, seq![x.flags]);
    lemma_split(d, p, s7, le_bytes_u32(x.scale_z));
    lemma_split(d, p, s6, le_bytes_u32(x.scale_y));
    lemma_split(d, p, s5, le_bytes_u32(x.scale_x));
    lemma_split(d, p, s4, le_bytes_u32(x.angle));
    lemma_split(d, p, s3, le_bytes_u32(x.coord_z));
    lemma_split(d, p, s2, le_bytes_u32(x.coord_y));
    lemma_split(d, p, s1, le_bytes_u32(x.coord_x));
    lemma_split(d, p, s0, le_bytes_u32(x.variation));
    lemma_u32_in(d, p + 4, x.variation);
    lemma_u32_in(d, p + 8, x.coord_x);
    lemma_u32_in(d, p + 12, x.coord_y);
    lemma_u32_in(d, p + 16, x.coord_z);
    lemma_u32_in(d, p + 20, x.angle);
    lemma_u32_in(d, p + 24, x.scale_x);
    lemma_u32_in(d, p + 28, x.scale_y);
    lemma_u32_in(d, p + 32, x.scale_z);
    lemma_u32_in(d, p + 37, x.player_owner);
    lemma_u32_in(d, p + 43, x.hp as u32);
    lemma_u32_in(d, p + 47, x.mana as u32);
    assert(d[p + 36] == d.subrange(p + 36, p + 37)[0]);
    assert(d[p + 41] == d.subrange(p + 41, p + 42)[0]);
    assert(d[p + 42] == d.subrange(p + 42, p + 43)[0]);
    let hp = x.hp;
    let mana = x.mana;
    assert((hp as u32) as i32 == hp) by (bit_vector);
    assert((mana as u32) as i32 == mana) by (bit_vector);
}

#[verifier::rlimit(40)]
proof fn lemma_unit_mid_in(d: Seq<u8>, r: int, x: UnitItem, v: GameVersion)
    requires
        0 <= r,
        r + unit_mid_bytes(x, v).len() <= d.len(),
        d.subrange(r, r + unit_mid_bytes(x, v).len()) == unit_mid_bytes(x, v),
        drops_round_ok(x.drops, v),
    ensures
        ({
            let q = r + drops_bytes(x.drops, v).len();
            &&& drops_end(d, r, v) == Some(q)
            &&& forall|y: Drops| #[trigger] drops_read(d, r, v, y) is Some ==> drops_read(d, r, v, y) == Some(q)
                && same_drops(y, x.drops)
            &&& u32_at(d, q) as i32 == x.gold_amount
            &&& u32_at(d, q + 4) == x.acquisition_range
            &&& u32_at(d, q + 8) == x.level
            &&& v != GameVersion::RoC ==> u32_at(d, q + 12) as i32 == x.strength && u32_at(d, q + 16) as i32
                == x.agility && u32_at(d, q + 20) as i32 == x.intelligence
            &&& r + unit_mid_bytes(x, v).len() == inventory_pos(q, v)
        }),
{
    let dp = drops_bytes(x.drops, v);
    let attrs = if v == GameVersion::RoC {
        Seq::<u8>::empty()
    } else {
        le_bytes_u32(x.strength as u32) + le_bytes_u32(x.agility as u32) + le_bytes_u32(x.intelligence as u32)
    };
    let m1 = dp + le_bytes_u32(x.gold_amount as u32);
    let m2 = m1 + le_bytes_u32(x.acquisition_range);
    let m3 = m2 + le_bytes_u32(x.level);
    assert(unit_mid_bytes(x, v) == m3 + attrs);
    lemma_split(d, r, m3, attrs);
    lemma_split(d, r, m2, le_bytes_u32(x.level));
    lemma_split(d, r, m1, le_bytes_u32(x.acquisition_range));
    lemma_split(d, r, dp, le_bytes_u32(x.gold_amount as u32));
    lemma_drops_in(d, r, x.drops, v);
    let q = r + dp.len();
    lemma_u32_in(d, q, x.gold_amount as u32);
    lemma_u32_in(d, q + 4, x.acquisition_range);
    lemma_u32_in(d, q + 8, x.level);
    let gold = x.gold_amount;
    assert((gold as u32) as i32 == gold) by (bit_vector);
    if v != GameVersion::RoC {
        let a0 = le_bytes_u32(x.strength as u32);
        let a1 = a0 + le_bytes_u32(x.agility as u32);
        lemma_split(d, q + 12, a1, le_bytes_u32(x.intelligence as u32));
        lemma_split(d, q + 12, a0, le_bytes_u32(x.agility as u32));
        lemma_u32_in(d, q + 12, x.strength as u32);
        lemma_u32_in(d, q + 16, x.agility as u32);
        lemma_u32_in(d, q + 20, x.intelligence as u32);
        let st = x.strength;
        let ag = x.agility;
        let it = x.intelligence;
        assert((st as u32) as i32 == st) by (bit_vector);
        assert((ag as u32) as i32 == ag) by (bit_vector);
        assert((it as u32) as i32 == it) by (bit_vector);
    }
}

/// Where the inventory of unit `x` stored at `s` ends.
pub open spec fn inventory_stop(s: int, x: UnitItem) -> int {
    s + 4 + seq_bytes(x.inventory@, inventory_item_bytes_of()).len()
}

/// Where the abilities of unit `x` whose inventory ends at `t` end.
pub open spec fn abilities_stop(t: int, x: UnitItem) -> int {
    t + 4 + seq_bytes(x.abilities@, ability_bytes_of()).len()
}

#[verifier::rlimit(60)]
proof fn lemma_unit_tail_in(d: Seq<u8>, s: int, x: UnitItem)
    requires
        0 <= s,
        s + unit_tail_bytes(x).len() <= d.len(),
        d.subrange(s, s + unit_tail_bytes(x).len()) == unit_tail_bytes(x),
        x.inventory@.len() <= u32::MAX,
        forall|i: int| 0 <= i < x.inventory@.len() ==> code_ok((#[trigger] x.inventory@[i]).1@),
        x.abilities@.len() <= u32::MAX,
        forall|i: int| 0 <= i < x.abilities@.len() ==> code_ok((#[trigger] x.abilities@[i]).ability_id@),
        flag_round_ok(x.random_type),
    ensures
        ({
            let t = inventory_stop(s, x);
            let w = abilities_stop(t, x);
            let z = w + flag_bytes(x.random_type).len();
            &&& u32_at(d, s) == x.inventory@.len()
            &&& seq_end(s + 4, x.inventory@.len(), inventory_item_ends(d)) == Some(t)
            &&& forall|s2: Seq<InventoryItem>|
                s2.len() == x.inventory@.len() && #[trigger] seq_read(s + 4, s2, inventory_item_reads(d)) is Some
                    ==> seq_read(s + 4, s2, inventory_item_reads(d)) == Some(t) && forall|i: int|
                    0 <= i < s2.len() ==> (#[trigger] s2[i]).0 == x.inventory@[i].0 && s2[i].1@
                        == x.inventory@[i].1@
            &&& u32_at(d, t) == x.abilities@.len()
            &&& seq_end(t + 4, x.abilities@.len(), ability_ends(d)) == Some(w)
            &&& forall|s2: Seq<AbilityModification>|
                s2.len() == x.abilities@.len() && #[trigger] seq_read(t + 4, s2, ability_reads(d)) is Some
                    ==> seq_read(t + 4, s2, ability_reads(d)) == Some(w) && forall|i: int|
                    0 <= i < s2.len() ==> (#[trigger] s2[i]).ability_id@ == x.abilities@[i].ability_id@
                        && s2[i].autocast == x.abilities@[i].autocast && s2[i].level == x.abilities@[i].level
            &&& flag_end(d, w) == Some(z)
            &&& forall|y: RandomUnitItemFlag| #[trigger] flag_read(d, w, y) is Some ==> flag_read(d, w, y) == Some(
                z,
            ) && same_flag(y, x.random_type)
            &&& u32_at(d, z) as i32 == x.color
            &&& u32_at(d, z + 4) as i32 == x.waygate_region_id
            &&& u32_at(d, z + 8) == x.creation_id
            &&& s + unit_tail_bytes(x).len() == z + 12
        }),
{
    let inv = x.inventory@;
    let abl = x.abilities@;
    let ib = seq_bytes(inv, inventory_item_bytes_of());
    let ab = seq_bytes(abl, ability_bytes_of());
    let fb = flag_bytes(x.random_type);
    let t0 = le_bytes_u32(inv.len() as u32);
    let t1 = t0 + ib;
    let t2 = t1 + le_bytes_u32(abl.len() as u32);
    let t3 = t2 + ab;
    let t4 = t3 + fb;
    let t5 = t4 + le_bytes_u32(x.color as u32);
    let t6 = t5 + le_bytes_u32(x.waygate_region_id as u32);
    assert(unit_tail_bytes(x) == t6 + le_bytes_u32(x.creation_id));
    lemma_split(d, s, t6, le_bytes_u32(x.creation_id));
    lemma_split(d, s, t5, le_bytes_u32(x.waygate_region_id as u32));
    lemma_split(d, s, t4, le_bytes_u32(x.color as u32));
    lemma_split(d, s, t3, fb);
    lemma_split(d, s, t2, ab);
    lemma_split(d, s, t1, le_bytes_u32(abl.len() as u32));
    lemma_split(d, s, t0, ib);
    lemma_u32_in(d, s, inv.len() as u32);
    let t = s + 4 + ib.len();
    let w = t + 4 + ab.len();
    let z = w + fb.len();
    lemma_u32_in(d, t, abl.len() as u32);
    lemma_u32_in(d, z, x.color as u32);
    lemma_u32_in(d, z + 4, x.waygate_region_id as u32);
    lemma_u32_in(d, z + 8, x.creation_id);
    let color = x.color;
    let way = x.waygate_region_id;
    assert((color as u32) as i32 == color) by (bit_vector);
    assert((way as u32) as i32 == way) by (bit_vector);
    let same_i = |u: InventoryItem, e: InventoryItem| u.0 == e.0 && u.1@ == e.1@;
    assert forall|i: int, p: int|
        0 <= i < inv.len() && 0 <= p && p + inventory_item_bytes_of()(inv[i]).len() <= d.len() && #[trigger] d.subrange(
            p,
            p + inventory_item_bytes_of()(#[trigger] inv[i]).len(),
        ) == inventory_item_bytes_of()(inv[i]) implies {
            &&& inventory_item_ends(d)(p) == Some(p + inventory_item_bytes_of()(inv[i]).len())
            &&& forall|y: InventoryItem| #[trigger] inventory_item_reads(d)(p, y) is Some ==> inventory_item_reads(
                d,
            )(p, y) == Some(p + inventory_item_bytes_of()(inv[i]).len()) && same_i(y, inv[i])
        } by {
        lemma_inventory_item_in(d, p, inv[i]);
    }
    lemma_seq_in(d, s + 4, inv, inventory_item_bytes_of(), inventory_item_ends(d), inventory_item_reads(d), same_i);
    let same_a = |u: AbilityModification, e: AbilityModification| u.ability_id@ == e.ability_id@ && u.autocast
        == e.autocast && u.level == e.level;
    assert forall|i: int, p: int|
        0 <= i < abl.len() && 0 <= p && p + ability_bytes_of()(abl[i]).len() <= d.len() && #[trigger] d.subrange(
            p,
            p + ability_bytes_of()(#[trigger] abl[i]).len(),
        ) == ability_bytes_of()(abl[i]) implies {
            &&& ability_ends(d)(p) == Some(p + ability_bytes_of()(abl[i]).len())
            &&& forall|y: AbilityModification| #[trigger] ability_reads(d)(p, y) is Some ==> ability_reads(d)(p, y)
                == Some(p + ability_bytes_of()(abl[i]).len()) && same_a(y, abl[i])
        } by {
        lemma_ability_in(d, p, abl[i]);
    }
    lemma_seq_in(d, t + 4, abl, ability_bytes_of(), ability_ends(d), ability_reads(d), same_a);
    lemma_flag_in(d, w, x.random_type);
}

/// A unit that reads back as written for version `v` is stored so that it
/// goes to the end of its bytes, and any unit read there holds what it
/// stores.
#[verifier::rlimit(60)]
pub proof fn lemma_unit_in(d: Seq<u8>, p: int, x: UnitItem, v: GameVersion)
    requires
        0 <= p,
        p + unit_bytes(x, v).len() <= d.len(),
        d.subrange(p, p + unit_bytes(x, v).len()) == unit_bytes(x, v),
        unit_round_ok(x, v),
    ensures
        unit_ends(d, v)(p) == Some(p + unit_bytes(x, v).len()),
        forall|y: UnitItem| #[trigger] unit_reads(d, v)(p, y) is Some ==> unit_reads(d, v)(p, y) == Some(
            p + unit_bytes(x, v).len(),
        ) && same_unit(y, x, v),
{
    let h = unit_head_bytes(x);
    let m = unit_mid_bytes(x, v);
    let tl = unit_tail_bytes(x);
    assert(unit_bytes(x, v) == h + m + tl);
    lemma_split(d, p, h + m, tl);
    lemma_split(d, p, h, m);
    lemma_unit_head_in(d, p, x);
    lemma_unit_mid_in(d, p + 51, x, v);
    let q = p + 51 + drops_bytes(x.drops, v).len();
    let s = inventory_pos(q, v);
    assert(s == p + 51 + m.len());
    lemma_unit_tail_in(d, s, x);
    let t = inventory_stop(s, x);
    let w = abilities_stop(t, x);
    let z = w + flag_bytes(x.random_type).len();
    assert(u32_at(d, s) as nat == x.inventory@.len());
    assert(u32_at(d, t) as nat == x.abilities@.len());
    assert(unit_end(d, p, v) == Some(z + 12));
    assert forall|y: UnitItem| #[trigger] unit_reads(d, v)(p, y) is Some implies unit_reads(d, v)(p, y) == Some(
        p + unit_bytes(x, v).len(),
    ) && same_unit(y, x, v) by {
        assert(unit_at(d, p, v, y));
        assert(drops_read(d, p + 51, v, y.drops) is Some);
        assert(seq_read(s + 4, y.inventory@, inventory_item_reads(d)) is Some);
        assert(seq_read(t + 4, y.abilities@, ability_reads(d)) is Some);
        assert(flag_read(d, w, y.random_type) is Some);
    }
}

/// Whether the units file `x` reads back as written: a four-byte ID, a
/// version of the classic game, and at most `u32::MAX` units, each of which
/// reads back.
pub open spec fn unit_map_round_ok(x: UnitItemMap) -> bool {
    &&& code_ok(x.id@)
    &&& x.version != GameVersion::Reforged
    &&& x.units_items@.len() <= u32::MAX
    &&& forall|i: int| 0 <= i < x.units_items@.len() ==> unit_round_ok(#[trigger] x.units_items@[i], x.version)
}

/// Whether the units file `a`, as read, holds what the units file `b`
/// stores.
pub open spec fn same_unit_map(a: UnitItemMap, b: UnitItemMap) -> bool {
    &&& a.id@ == b.id@ && a.version == b.version && a.subversion == b.subversion
    &&& a.units_items@.len() == b.units_items@.len()
    &&& forall|i: int| 0 <= i < a.units_items@.len() ==> same_unit(
        #[trigger] a.units_items@[i],
        b.units_items@[i],
        b.version,
    )
}

/// A units file that reads back as written is written so that reading its
/// bytes goes to their end, and any units file read there (as
/// [`UnitItemMap::read`] describes it) holds its ID, versions and units
/// (their attributes zero in Reign of Chaos).
#[verifier::rlimit(40)]
pub proof fn law_unit_map_write_read(x: UnitItemMap)
    requires
        unit_map_round_ok(x),
    ensures
        unit_map_end(unit_map_bytes(x), 0) == Some(unit_map_bytes(x).len() as int),
        forall|y: UnitItemMap|
            {
                &&& y.id@ == code_text(unit_map_bytes(x), 0)
                &&& unit_map_version(u32_at(unit_map_bytes(x), 4)) == Some(y.version)
                &&& y.subversion == u32_at(unit_map_bytes(x), 8)
                &&& y.units_items@.len() == u32_at(unit_map_bytes(x), 12)
                &&& #[trigger] seq_read(16, y.units_items@, unit_reads(unit_map_bytes(x), y.version)) == Some(
                    unit_map_bytes(x).len() as int,
                )
            } ==> same_unit_map(y, x),
{
    broadcast use vstd::utf8::encode_utf8_valid_utf8, vstd::utf8::encode_utf8_decode_utf8;

    let d = unit_map_bytes(x);
    let v = x.version;
    let us = x.units_items@;
    let ub = seq_bytes(us, unit_bytes_of(v));
    let h0 = encode_utf8(x.id@);
    let h1 = h0 + le_bytes_u32(unit_map_version_code(v));
    let h2 = h1 + le_bytes_u32(x.subversion);
    let h3 = h2 + le_bytes_u32(us.len() as u32);
    assert(d == h3 + ub);
    assert(d.subrange(0, d.len() as int) =~= d);
    lemma_split(d, 0, h3, ub);
    lemma_split(d, 0, h2, le_bytes_u32(us.len() as u32));
    lemma_split(d, 0, h1, le_bytes_u32(x.subversion));
    lemma_split(d, 0, h0, le_bytes_u32(unit_map_version_code(v)));
    lemma_u32_in(d, 4, unit_map_version_code(v));
    lemma_u32_in(d, 8, x.subversion);
    lemma_u32_in(d, 12, us.len() as u32);
    assert(unit_map_version(u32_at(d, 4)) == Some(v));
    let same_u = |a: UnitItem, b: UnitItem| same_unit(a, b, v);
    assert forall|i: int, p: int|
        0 <= i < us.len() && 0 <= p && p + unit_bytes_of(v)(us[i]).len() <= d.len() && #[trigger] d.subrange(
            p,
            p + unit_bytes_of(v)(#[trigger] us[i]).len(),
        ) == unit_bytes_of(v)(us[i]) implies {
            &&& unit_ends(d, v)(p) == Some(p + unit_bytes_of(v)(us[i]).len())
            &&& forall|y: UnitItem| #[trigger] unit_reads(d, v)(p, y) is Some ==> unit_reads(d, v)(p, y) == Some(
                p + unit_bytes_of(v)(us[i]).len(),
            ) && same_u(y, us[i])
        } by {
        lemma_unit_in(d, p, us[i], v);
    }
    lemma_seq_in(d, 16, us, unit_bytes_of(v), unit_ends(d, v), unit_reads(d, v), same_u);
}

/// The layouts of the parts of a placed unit: a dropped item is its code in
/// bytes 0 to 3 and its chance as a little-endian word at byte 4; an
/// inventory item is its slot as a word at byte 0 and its code in bytes 4 to
/// 7; an ability modification is its code in bytes 0 to 3, then the word 1
/// when it is cast automatically, then its level as a word at byte 8; a
/// unit of a random list is its code then its rate as a word at byte 4; a
/// random choice starts with its kind as a word: 0 for a neutral one, whose
/// next word holds the level in its low 24 bits and the item class in its
/// top byte, 1 for a table group, followed by the group and the column, 2
/// for a custom list, followed by the count of its units. Reading takes each
/// field from its bytes and writing puts it there.
pub proof fn law_unit_parts_layout(
    d: Seq<u8>,
    p: int,
    drop: DropItem,
    item: InventoryItem,
    ability: AbilityModification,
    unit: RandomUnit,
    flag: RandomUnitItemFlag,
)
    ensures
        drop_item_read(d, p, drop) is Some ==> drop.1 == u32_at(d, p + 4) && drop.0@ == decode_utf8(
            d.subrange(p, p + 4),
        ),
        inventory_item_read(d, p, item) is Some ==> item.0 == u32_at(d, p) as i32 && item.1@ == code_text(
            d,
            p + 4,
        ),
        ability_read(d, p, ability) is Some ==> {
            &&& ability.ability_id@ == code_text(d, p)
            &&& ability.autocast == (u32_at(d, p + 4) == 1)
            &&& ability.level == u32_at(d, p + 8)
        },
        random_unit_read(d, p, unit) is Some ==> unit.0@ == code_text(d, p) && unit.1 == u32_at(d, p + 4),
        flag_read(d, p, flag) is Some ==> match flag {
            RandomUnitItemFlag::Neutral(level, class) => {
                &&& u32_at(d, p) == 0
                &&& level == u32_at(d, p + 4) & 0x00FF_FFFFu32
                &&& class == (u32_at(d, p + 4) >> 24u32) as u8
            },
            RandomUnitItemFlag::RandomFromTableGroup(group, column) => {
                &&& u32_at(d, p) == 1
                &&& group == u32_at(d, p + 4) as i32
                &&& column == u32_at(d, p + 8)
            },
            RandomUnitItemFlag::RandomFromCustomTable(units) => u32_at(d, p) == 2 && units@.len() == u32_at(
                d,
                p + 4,
            ),
            RandomUnitItemFlag::NotRandom => !(0 <= u32_at(d, p) as i32 <= 2),
        },
        inventory_item_bytes(item).subrange(0, 4) == le_bytes_u32(item.0 as u32),
        ability_bytes(ability).len() == encode_utf8(ability.ability_id@).len() + 8,
        ability_bytes(ability).subrange(ability_bytes(ability).len() - 8, ability_bytes(ability).len() - 4)
            == le_bytes_u32(if ability.autocast { 1u32 } else { 0u32 }),
        ability_bytes(ability).subrange(ability_bytes(ability).len() - 4, ability_bytes(ability).len() as int)
            == le_bytes_u32(ability.level),
        flag_bytes(flag).subrange(0, 4) == le_bytes_u32(
            match flag {
                RandomUnitItemFlag::Neutral(..) => 0u32,
                RandomUnitItemFlag::RandomFromTableGroup(..) => 1u32,
                RandomUnitItemFlag::RandomFromCustomTable(..) => 2u32,
                RandomUnitItemFlag::NotRandom => 0xFFFF_FFFFu32,
            },
        ),
{
    if flag_read(d, p, flag) is Some {
        if let RandomUnitItemFlag::Neutral(level, class) = flag {
            let w = u32_at(d, p + 4);
            assert(((w & 0xFF00_0000u32) >> 24u32) as u8 == (w >> 24u32) as u8) by (bit_vector);
        }
        let k = u32_at(d, p);
        assert(k as i32 == 0 ==> k == 0) by (bit_vector);
        assert(k as i32 == 1 ==> k == 1) by (bit_vector);
        assert(k as i32 == 2 ==> k == 2) by (bit_vector);
    }
    assert(inventory_item_bytes(item).subrange(0, 4) =~= le_bytes_u32(item.0 as u32));
    let a = ability_bytes(ability);
    let n = a.len() as int;
    assert(a.subrange(n - 8, n - 4) =~= le_bytes_u32(if ability.autocast { 1u32 } else { 0u32 }));
    assert(a.subrange(n - 4, n) =~= le_bytes_u32(ability.level));
    assert((-1i32) as u32 == 0xFFFF_FFFFu32) by (bit_vector);
    assert(flag_bytes(flag).subrange(0, 4) =~= le_bytes_u32(
        match flag {
            RandomUnitItemFlag::Neutral(..) => 0u32,
            RandomUnitItemFlag::RandomFromTableGroup(..) => 1u32,
            RandomUnitItemFlag::RandomFromCustomTable(..) => 2u32,
            RandomUnitItemFlag::NotRandom => 0xFFFF_FFFFu32,
        },
    ));
}

/// The units and doodads files store Reign of Chaos as version 7 and The
/// Frozen Throne as version 8, and know no other; their head holds a
/// four-byte id, the version, the subversion and the count of records as
/// little-endian words at bytes 4, 8 and 12, and the records start at byte
/// 16; in the doodads file, the special doodad version and count follow the
/// destructables.
pub proof fn law_placement_files_head(code: u32, v: GameVersion, d: Seq<u8>, p: int, units: UnitItemMap, doodads: DoodadMap)
    ensures
        unit_map_version(code) == if code == 7 {
            Some(GameVersion::RoC)
        } else if code == 8 {
            Some(GameVersion::TFT)
        } else {
            None::<GameVersion>
        },
        v != GameVersion::Reforged ==> unit_map_version_code(v) == if v == GameVersion::RoC {
            7u32
        } else {
            8u32
        },
        doodad_map_at(d, p, doodads) ==> {
            let q = seq_end(p + 16, u32_at(d, p + 12) as nat, destructable_ends(d, doodads.version))->0;
            &&& doodads.id@ == code_text(d, p)
            &&& unit_map_version(u32_at(d, p + 4)) == Some(doodads.version)
            &&& doodads.subversion == u32_at(d, p + 8)
            &&& doodads.destructables@.len() == u32_at(d, p + 12)
            &&& doodads.special_doodad_version == u32_at(d, q)
            &&& doodads.special_doodads@.len() == u32_at(d, q + 4)
        },
        encode_utf8(units.id@).len() == 4 ==> {
            let b = unit_map_bytes(units);
            &&& b.subrange(4, 8) == le_bytes_u32(unit_map_version_code(units.version))
            &&& b.subrange(8, 12) == le_bytes_u32(units.subversion)
            &&& b.subrange(12, 16) == le_bytes_u32(units.units_items@.len() as u32)
        },
{
    if encode_utf8(units.id@).len() == 4 {
        let b = unit_map_bytes(units);
        assert(b.subrange(4, 8) =~= le_bytes_u32(unit_map_version_code(units.version)));
        assert(b.subrange(8, 12) =~= le_bytes_u32(units.subversion));
        assert(b.subrange(12, 16) =~= le_bytes_u32(units.units_items@.len() as u32));
    }
}

} // verus!
