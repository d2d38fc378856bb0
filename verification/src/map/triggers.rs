//! Triggers file (`war3map.wtg`) values.

pub mod enums;
pub mod trigger_data;

use vstd::prelude::*;

use crate::formats::binary_reader::{u32_at, BinaryReader};
use crate::formats::{GameVersion, MpqError, ReadError};
use crate::map::data_ini::DataIni;
use crate::map::triggers::enums::WtgError;
use crate::map::triggers::trigger_data::{
    c_string_at, comma_pieces, eca_read, ecas_read, has_bytes, lemma_ecas_det, lemma_ecas_read_at, ECADefinition,
    IniTable,
};

verus! {

/// Failures of reading the triggers file.
#[derive(Debug)]
pub enum TriggersError {
    MpqError(MpqError),
    InitReader(ReadError),
    Parsing(WtgError),
}

/// A trigger: its texts, flags and functions.
#[derive(Debug)]
pub struct TriggerDefinition {
    pub name: String,
    pub description: String,
    pub is_comment: Option<bool>,
    pub enabled: bool,
    pub is_gui: bool,
    pub is_on: bool,
    pub run_on_init: bool,
    pub index_category: u32,
    pub ecas: Vec<ECADefinition>,
}

/// Where reading trigger `t` from `d` at `p` ends, when `t` is what the bytes
/// there hold for version `v` and trigger data `ini`.
pub open spec fn trigger_read(d: Seq<u8>, p: int, v: GameVersion, ini: IniTable, t: TriggerDefinition) -> Option<
    int,
> {
    match c_string_at(d, p) {
        None => None,
        Some((name, p1)) => match c_string_at(d, p1) {
            None => None,
            Some((description, p2)) => {
                let p3 = if v == GameVersion::RoC {
                    p2
                } else {
                    p2 + 4
                };
                if t.name@ != name || t.description@ != description || !has_bytes(d, p2, p3 - p2 + 24)
                    || t.is_comment != (if v == GameVersion::RoC {
                    None
                } else {
                    Some(u32_at(d, p2) != 0)
                }) || t.enabled != (u32_at(d, p3) == 1) || t.is_gui != (u32_at(d, p3 + 4) == 0)
                    || t.is_on != (u32_at(d, p3 + 8) == 0) || t.run_on_init != (u32_at(d, p3 + 12)
                    == 0) || t.index_category != u32_at(d, p3 + 16) || t.ecas@.len() != u32_at(
                    d,
                    p3 + 20,
                ) {
                    None
                } else {
                    ecas_read(d, p3 + 24, v, ini, false, t.ecas@)
                }
            },
        },
    }
}

/// The layout of a trigger in the triggers file: its name and description
/// as NUL-terminated texts one after the other; past Reign of Chaos, a word
/// that is not 0 for a comment; then as little-endian words: 1 when it is
/// enabled, 0 when it is made with the editor's interface, 0 when it is
/// initially on, 0 when it runs on map initialization, its category, and
/// the count of its functions.
pub proof fn law_trigger_layout(d: Seq<u8>, p: int, v: GameVersion, ini: IniTable, t: TriggerDefinition)
    ensures
        trigger_read(d, p, v, ini, t) is Some ==> {
            &&& c_string_at(d, p) matches Some((name, p1)) && {
                &&& t.name@ == name
                &&& c_string_at(d, p1) matches Some((description, p2)) && {
                    let q = if v == GameVersion::RoC {
                        p2
                    } else {
                        p2 + 4
                    };
                    &&& t.description@ == description
                    &&& (v != GameVersion::RoC ==> t.is_comment == Some(u32_at(d, p2) != 0))
                    &&& t.enabled == (u32_at(d, q) == 1)
                    &&& t.is_gui == (u32_at(d, q + 4) == 0)
                    &&& t.is_on == (u32_at(d, q + 8) == 0)
                    &&& t.run_on_init == (u32_at(d, q + 12) == 0)
                    &&& t.index_category == u32_at(d, q + 16)
                    &&& t.ecas@.len() == u32_at(d, q + 20)
                }
            }
        },
{
}

/// The pieces `ps` joined with commas.
pub open spec fn join_commas(ps: Seq<Seq<char>>) -> Seq<char>
    decreases ps.len(),
{
    if ps.len() <= 1 {
        if ps.len() == 1 {
            ps[0]
        } else {
            Seq::empty()
        }
    } else {
        join_commas(ps.drop_last()) + seq![','] + ps.last()
    }
}

/// Splitting a text at its commas gives at least one piece, no piece holds
/// a comma, and joining the pieces with commas gives the text back.
pub proof fn law_comma_pieces(s: Seq<char>)
    ensures
        comma_pieces(s).len() >= 1,
        forall|i: int| 0 <= i < comma_pieces(s).len() ==> !(#[trigger] comma_pieces(s)[i]).contains(','),
        join_commas(comma_pieces(s)) == s,
    decreases s.len(),
{
    if s.len() == 0 {
        assert(comma_pieces(s)[0] =~= Seq::<char>::empty());
    } else {
        let t = s.drop_last();
        let c = s.last();
        law_comma_pieces(t);
        let prev = comma_pieces(t);
        let ps = comma_pieces(s);
        if c == ',' {
            assert(ps == prev.push(Seq::empty()));
            assert(ps.drop_last() =~= prev);
            assert forall|i: int| 0 <= i < ps.len() implies !(#[trigger] ps[i]).contains(',') by {
                if i < prev.len() {
                    assert(ps[i] == prev[i]);
                } else {
                    assert(ps[i] =~= Seq::<char>::empty());
                }
            }
            assert(join_commas(ps) =~= s);
        } else {
            let n = prev.len() - 1;
            let last = prev[n].push(c);
            assert(ps == prev.update(n, last));
            assert forall|i: int| 0 <= i < ps.len() implies !(#[trigger] ps[i]).contains(',') by {
                if i < n {
                    assert(ps[i] == prev[i]);
                } else {
                    assert(ps[i] == last);
                    if last.contains(',') {
                        let j = choose|j: int| 0 <= j < last.len() && last[j] == ',';
                        if j < prev[n].len() {
                            assert(prev[n][j] == ',');
                            assert(prev[n].contains(','));
                        }
                    }
                }
            }
            if prev.len() == 1 {
                assert(join_commas(ps) == last);
                assert(join_commas(prev) == prev[0]);
                assert(last =~= s);
            } else {
                assert(s =~= t.push(c));
                assert(ps.drop_last() =~= prev.drop_last());
                assert(join_commas(ps) == join_commas(prev.drop_last()) + seq![','] + last);
                assert(join_commas(prev) == join_commas(prev.drop_last()) + seq![','] + prev[n]);
                assert(join_commas(ps) =~= s);
            }
        }
    }
}

/// Where the fixed part of the trigger stored at `p` for version `v` ends,
/// when it can be read: its name and description, its comment flag past
/// Reign of Chaos, four flags, its category and the count of its functions.
pub open spec fn trigger_head_end(d: Seq<u8>, p: int, v: GameVersion) -> Option<int> {
    match c_string_at(d, p) {
        None => None,
        Some((_, p1)) => match c_string_at(d, p1) {
            None => None,
            Some((_, p2)) => {
                let p3 = if v == GameVersion::RoC {
                    p2
                } else {
                    p2 + 4
                };
                if has_bytes(d, p2, p3 - p2 + 24) {
                    Some(p3 + 24)
                } else {
                    None
                }
            },
        },
    }
}

impl TriggerDefinition {
    /// Reads a trigger for version `game_version`; the parameters of its
    /// functions are counted from `trigger_data`.
    #[verifier::loop_isolation(false)]
    pub fn from(reader: &mut BinaryReader, game_version: &GameVersion, trigger_data: &DataIni) -> (res:
        Result<Self, WtgError>)
        requires
            old(reader).wf(),
        ensures
            final(reader).wf(),
            final(reader).contents() == old(reader).contents(),
            old(reader).position() <= final(reader).position(),
            res matches Ok(t) ==> trigger_read(
                old(reader).contents(),
                old(reader).position() as int,
                *game_version,
                trigger_data@,
                t,
            ) == Some(final(reader).position() as int),
            c_string_at(old(reader).contents(), old(reader).position() as int) is None ==> res is Err,
            (exists|t: TriggerDefinition|
                #[trigger] trigger_read(
                    old(reader).contents(),
                    old(reader).position() as int,
                    *game_version,
                    trigger_data@,
                    t,
                ) is Some) ==> res is Ok,
            ({
                let d = old(reader).contents();
                let p = old(reader).position() as int;
                let v = *game_version;
                &&& trigger_head_end(d, p, v) is None ==> (res matches Err(WtgError::ErrorReader(_)))
                &&& trigger_head_end(d, p, v) matches Some(q) ==> {
                    &&& u32_at(d, q - 4) == 0 ==> (res matches Ok(t) && t.ecas@.len() == 0
                        && final(reader).position() == q)
                    &&& u32_at(d, q - 4) > 0 && !has_bytes(d, q, 4) ==> (res matches Err(
                        WtgError::ErrorReader(ReadError::EOF),
                    ))
                    &&& u32_at(d, q - 4) > 0 && has_bytes(d, q, 4) && u32_at(d, q) > 2 ==> (res matches Err(
                        WtgError::ECAConversionError(n),
                    ) && n == u32_at(d, q))
                }
            }),
    {
        let ghost d = reader.contents();
        let ghost p0 = reader.position() as int;
        let name = match reader.read_c_string_converted() {
            Ok(t) => t,
            Err(e) => {
                return Err(WtgError::ErrorReader(e));
            },
        };
        let ghost p1 = reader.position() as int;
        assert(c_string_at(d, p0) == Some((name@, p1)));
        let description = match reader.read_c_string_converted() {
            Ok(t) => t,
            Err(e) => {
                return Err(WtgError::ErrorReader(e));
            },
        };
        let ghost p2 = reader.position() as int;
        assert(c_string_at(d, p1) == Some((description@, p2)));
        let is_comment = match game_version {
            GameVersion::RoC => None,
            _ => match reader.read_u32() {
                Ok(c) => Some(c != 0),
                Err(e) => {
                    return Err(WtgError::ErrorReader(e));
                },
            },
        };
        let enabled = match reader.read_u32() {
            Ok(f) => f == 1,
            Err(e) => {
                return Err(WtgError::ErrorReader(e));
            },
        };
        let is_gui = match reader.read_u32() {
            Ok(f) => f == 0,
            Err(e) => {
                return Err(WtgError::ErrorReader(e));
            },
        };
        let is_on = match reader.read_u32() {
            Ok(f) => f == 0,
            Err(e) => {
                return Err(WtgError::ErrorReader(e));
            },
        };
        let ghost r: u32 = u32_at(d, reader.position() as int);
        assert(((r as i32) == 0i32) <==> (r == 0u32)) by (bit_vector);
        let run_on_init = match reader.read_i32() {
            Ok(f) => f == 0,
            Err(e) => {
                return Err(WtgError::ErrorReader(e));
            },
        };
        let index_category = match reader.read_u32() {
            Ok(f) => f,
            Err(e) => {
                return Err(WtgError::ErrorReader(e));
            },
        };
        let count = match reader.read_u32() {
            Ok(f) => f,
            Err(e) => {
                return Err(WtgError::ErrorReader(e));
            },
        };
        let ghost p4 = reader.position() as int;
        assert(trigger_head_end(d, p0, *game_version) == Some(p4));
        assert(count == u32_at(d, p4 - 4));
        let mut ecas: Vec<ECADefinition> = Vec::new();
        let mut k: u32 = 0;
        while k < count
            invariant
                reader.wf(),
                reader.contents() == d,
                p4 <= reader.position(),
                k <= count,
                k == 0 ==> reader.position() == p4,
                k > 0 ==> has_bytes(d, p4, 4) && u32_at(d, p4) <= 2,
                ecas@.len() == k,
                ecas_read(d, p4, *game_version, trigger_data@, false, ecas@) == Some(
                    reader.position() as int,
                ),
            decreases count - k,
        {
            let ghost q = reader.position() as int;
            let e = match ECADefinition::from(reader, game_version, trigger_data, false) {
                Ok(e) => e,
                Err(err) => {
                    proof {
                        if exists|a: TriggerDefinition| #[trigger] trigger_read(d, p0, *game_version, trigger_data@, a) is Some {
                            let w = choose|a: TriggerDefinition| #[trigger] trigger_read(d, p0, *game_version, trigger_data@, a) is Some;
                            let ws = w.ecas@;
                            assert(ws.len() == count);
                            lemma_ecas_read_at(d, p4, *game_version, trigger_data@, false, ws, k as int);
                            lemma_ecas_det(d, p4, *game_version, trigger_data@, false, ws.take(k as int), ecas@);
                            assert(eca_read(d, q, *game_version, trigger_data@, false, ws[k as int]) is Some);
                        }
                    }
                    return Err(err);
                },
            };
            let ghost before = ecas@;
            ecas.push(e);
            assert(ecas@.drop_last() == before);
            k = k + 1;
        }
        let res = TriggerDefinition {
            name,
            description,
            is_comment,
            enabled,
            is_gui,
            is_on,
            run_on_init,
            index_category,
            ecas,
        };
        assert(trigger_read(d, p0, *game_version, trigger_data@, res) == Some(
            reader.position() as int,
        ));
        Ok(res)
    }
}

/// The game version that the version field `value` of the triggers file
/// stands for: 4 for Reign of Chaos, 7 for The Frozen Throne.
pub fn to_game_version(value: u32) -> (res: Result<GameVersion, WtgError>)
    ensures
        value == 4 ==> res == Ok::<GameVersion, WtgError>(GameVersion::RoC),
        value == 7 ==> res == Ok::<GameVersion, WtgError>(GameVersion::TFT),
        value != 4 && value != 7 ==> (res matches Err(WtgError::UnknownGameVersion(n)) && n == value),
{
    match value {
        4 => Ok(GameVersion::RoC),
        7 => Ok(GameVersion::TFT),
        _ => Err(WtgError::UnknownGameVersion(value)),
    }
}

/// The triggers file: its identifier, version and triggers.
#[derive(Debug, Default)]
pub struct TriggersFile {
    pub id: String,
    pub version: GameVersion,
    pub unknown: i32,
    pub triggers: Vec<TriggerDefinition>,
}

impl TriggersFile {
    /// Name of the file in the map archive.
    pub const FILE_NAME: &'static str = "war3map.wtg";
}

} // verus!
