//! Trigger functions (events, conditions and actions) and their parameters,
//! read from and written to `war3map.wtg`. How many parameters a function
//! takes is looked up in the trigger data table (`TriggerData.txt`).

use vstd::prelude::*;
use vstd::utf8::{decode_utf8, valid_utf8};

use crate::formats::binary_reader::{c_string_bytes, nul_index, u32_at, BinaryReader};
use crate::formats::binary_writer::{lemma_write_at_concat, write_at, BinaryWriter};
use crate::formats::encoding::le_bytes_u32;
use crate::formats::{GameVersion, ReadError, WriteError};
use crate::map::chars::chars_of;
use crate::map::data_ini::DataIni;
use crate::map::triggers::enums::{
    eca_sector, sub_parameter_sector, ConditionType, ECAType, ParameterType, SubParameterType,
    WtgError,
};

verus! {

/// A table of sections of `key=value` properties.
pub type IniTable = Map<Seq<char>, Map<Seq<char>, Seq<char>>>;

/// Whether `n` bytes stand at `p` in `d`.
pub open spec fn has_bytes(d: Seq<u8>, p: int, n: int) -> bool {
    0 <= p && p + n <= d.len()
}

/// The C string that starts at `p` in `d`, and the position after its NUL.
pub open spec fn c_string_at(d: Seq<u8>, p: int) -> Option<(Seq<char>, int)> {
    let n = nul_index(d, p);
    if 0 <= p && n < d.len() && valid_utf8(d.subrange(p, n)) {
        Some((decode_utf8(d.subrange(p, n)), n + 1))
    } else {
        None
    }
}

/// The value of property `id` of section `sector` of `ini`.
pub open spec fn ini_prop(ini: IniTable, sector: Seq<char>, id: Seq<char>) -> Option<Seq<char>> {
    if ini.contains_key(sector) && ini[sector].contains_key(id) {
        Some(ini[sector][id])
    } else {
        None
    }
}

/// The comma-separated pieces of `s`.
pub open spec fn comma_pieces(s: Seq<char>) -> Seq<Seq<char>>
    decreases s.len(),
{
    if s.len() == 0 {
        seq![Seq::empty()]
    } else {
        let prev = comma_pieces(s.drop_last());
        if s.last() == ',' {
            prev.push(Seq::empty())
        } else {
            prev.update(prev.len() - 1, prev.last().push(s.last()))
        }
    }
}

/// Whether `s` is the word `nothing`.
pub open spec fn is_nothing(s: Seq<char>) -> bool {
    s == seq!['n', 'o', 't', 'h', 'i', 'n', 'g']
}

/// Number of parameters that a trigger data entry `info` announces: its
/// comma-separated pieces after the first `skip` ones, none when there are no
/// more pieces or the first of them is `nothing`.
pub open spec fn parameter_count(info: Seq<char>, skip: int) -> int {
    let pieces = comma_pieces(info);
    if pieces.len() <= skip || is_nothing(pieces[skip]) {
        0
    } else {
        pieces.len() - skip
    }
}

/// Code of a function kind in the file.
pub open spec fn eca_code(t: ECAType) -> u32 {
    match t {
        ECAType::Event => 0,
        ECAType::Condition => 1,
        ECAType::Action => 2,
    }
}

/// Code of a branch kind in the file.
pub open spec fn condition_code(t: ConditionType) -> u32 {
    match t {
        ConditionType::Condition => 0,
        ConditionType::Then => 1,
        ConditionType::Else => 2,
    }
}

/// Code of a parameter kind in the file.
pub open spec fn parameter_code(t: ParameterType) -> i32 {
    match t {
        ParameterType::Preset => 0,
        ParameterType::Variable => 1,
        ParameterType::Function => 2,
        ParameterType::String => 3,
        ParameterType::Invalid => -1i32,
    }
}

/// Code of a sub-parameter kind in the file.
pub open spec fn sub_parameter_code(t: SubParameterType) -> u32 {
    match t {
        SubParameterType::Event => 0,
        SubParameterType::Condition => 1,
        SubParameterType::Action => 2,
        SubParameterType::Call => 3,
    }
}

/// The kind codes of the triggers file: functions are 0 event, 1 condition,
/// 2 action; branches 0 condition, 1 then, 2 else; parameters 0 preset,
/// 1 variable, 2 function, 3 string, -1 invalid; calls 0 event, 1 condition,
/// 2 action, 3 call. Only calls keep three pieces of their trigger data
/// entry ahead of the parameter types, the others one. A parameter is stored
/// as its kind code, then its value as a NUL-terminated text, then the word
/// 1 when a call follows; a call is its kind code, its name as a
/// NUL-terminated text, then a word that is not 0 when parameters follow.
pub proof fn law_trigger_codes(d: Seq<u8>, p: int, v: GameVersion, ini: IniTable, x: Parameter, sp: SubParameters)
    ensures
        eca_code(ECAType::Event) == 0 && eca_code(ECAType::Condition) == 1 && eca_code(ECAType::Action) == 2,
        condition_code(ConditionType::Condition) == 0 && condition_code(ConditionType::Then) == 1
            && condition_code(ConditionType::Else) == 2,
        parameter_code(ParameterType::Preset) == 0 && parameter_code(ParameterType::Variable) == 1
            && parameter_code(ParameterType::Function) == 2 && parameter_code(ParameterType::String) == 3
            && parameter_code(ParameterType::Invalid) == -1,
        sub_parameter_code(SubParameterType::Event) == 0 && sub_parameter_code(SubParameterType::Condition)
            == 1 && sub_parameter_code(SubParameterType::Action) == 2 && sub_parameter_code(
            SubParameterType::Call,
        ) == 3,
        sub_parameter_skip(SubParameterType::Call) == 3 && sub_parameter_skip(SubParameterType::Event) == 1
            && sub_parameter_skip(SubParameterType::Condition) == 1 && sub_parameter_skip(
            SubParameterType::Action,
        ) == 1,
        param_read(d, p, v, ini, x) is Some ==> {
            &&& parameter_code(x.ptype) == u32_at(d, p) as i32
            &&& c_string_at(d, p + 4) matches Some((text, e)) && x.value@ == text && (x.sub_parameters
                is Some <==> u32_at(d, e) == 1)
        },
        sub_read(d, p, v, ini, sp) is Some ==> {
            &&& sub_parameter_code(sp.ptype) == u32_at(d, p)
            &&& c_string_at(d, p + 4) matches Some((name, e)) && sp.name@ == name && sp.begin_parameters
                == (u32_at(d, e) != 0)
        },
{
}

/// The layout of a function of the triggers file: its kind code as a
/// little-endian word; for a function nested in another one past Reign of
/// Chaos, its branch code as the next word; then its name as a
/// NUL-terminated text, then the word 1 when it is enabled.
pub proof fn law_eca_layout(d: Seq<u8>, p: int, v: GameVersion, ini: IniTable, child: bool, e: ECADefinition)
    ensures
        eca_read(d, p, v, ini, child, e) is Some ==> {
            let nested = v != GameVersion::RoC && child;
            let q = if nested {
                p + 8
            } else {
                p + 4
            };
            &&& eca_code(e.ftype) == u32_at(d, p)
            &&& (nested ==> (e.condition_group matches Some(c) && condition_code(c) == u32_at(d, p + 4)))
            &&& (!nested ==> e.condition_group is None)
            &&& c_string_at(d, q) matches Some((name, r)) && e.name@ == name && e.enabled == (u32_at(d, r)
                == 1)
        },
{
}

/// Pieces of an entry of the trigger data table before the parameters.
pub open spec fn sub_parameter_skip(t: SubParameterType) -> int {
    if t == SubParameterType::Call {
        3
    } else {
        1
    }
}

/// Whether a parameter of kind `t` stores an extra `i32` for version `v`.
pub open spec fn stores_unknown(v: GameVersion, t: ParameterType, has_sub: bool) -> bool {
    if v == GameVersion::RoC {
        t == ParameterType::Function
    } else {
        has_sub
    }
}

/// Whether a parameter of kind `t` stores an array flag for version `v`.
pub open spec fn stores_array(v: GameVersion, t: ParameterType) -> bool {
    !(v == GameVersion::RoC && t == ParameterType::Function)
}

/// A trigger function: an event, a condition or an action, with its
/// parameters and, from The Frozen Throne on, the functions nested in it.
#[derive(Debug)]
pub struct ECADefinition {
    pub ftype: ECAType,
    pub condition_group: Option<ConditionType>,
    pub name: String,
    pub enabled: bool,
    pub parameters: Vec<Parameter>,
    pub childs_eca: Option<Vec<ECADefinition>>,
}

/// A parameter of a trigger function.
#[derive(Debug)]
pub struct Parameter {
    pub ptype: ParameterType,
    pub value: String,
    pub sub_parameters: Option<SubParameters>,
    pub unknown: Option<i32>,
    pub array_parameter: Option<Box<Parameter>>,
}

/// A function call that stands as a parameter.
#[derive(Debug)]
pub struct SubParameters {
    pub ptype: SubParameterType,
    pub name: String,
    /// The stored flag that opens the parameter list; it may be set with no
    /// parameter after it, so it is kept as read.
    pub begin_parameters: bool,
    pub parameters: Vec<Parameter>,
}

/// Where reading parameter `x` from `d` at `p` ends, when `x` is what the
/// bytes there hold for version `v` and trigger data `ini`.
pub open spec fn param_read(d: Seq<u8>, p: int, v: GameVersion, ini: IniTable, x: Parameter) -> Option<int>
    decreases x,
{
    if !(has_bytes(d, p, 4) && parameter_code(x.ptype) == u32_at(d, p) as i32) {
        None
    } else {
        match c_string_at(d, p + 4) {
            None => None,
            Some((text, p2)) => {
                if x.value@ != text || !has_bytes(d, p2, 4) {
                    None
                } else {
                    let has_sub = u32_at(d, p2) == 1;
                    let p3 = p2 + 4;
                    let after_sub = if has_sub {
                        match x.sub_parameters {
                            Some(sp) => sub_read(d, p3, v, ini, sp),
                            None => None,
                        }
                    } else if x.sub_parameters is None {
                        Some(p3)
                    } else {
                        None
                    };
                    match after_sub {
                        None => None,
                        Some(p4) => {
                            let after_unknown = if stores_unknown(v, x.ptype, has_sub) {
                                if has_bytes(d, p4, 4) && x.unknown == Some(u32_at(d, p4) as i32) {
                                    Some(p4 + 4)
                                } else {
                                    None
                                }
                            } else if x.unknown is None {
                                Some(p4)
                            } else {
                                None
                            };
                            match after_unknown {
                                None => None,
                                Some(p5) => {
                                    if !stores_array(v, x.ptype) {
                                        if x.array_parameter is None {
                                            Some(p5)
                                        } else {
                                            None
                                        }
                                    } else if !has_bytes(d, p5, 4) {
                                        None
                                    } else if u32_at(d, p5) == 1 {
                                        match x.array_parameter {
                                            Some(b) => param_read(d, p5 + 4, v, ini, *b),
                                            None => None,
                                        }
                                    } else if x.array_parameter is None {
                                        Some(p5 + 4)
                                    } else {
                                        None
                                    }
                                },
                            }
                        },
                    }
                }
            },
        }
    }
}

/// Where reading the parameters `s`, one after the other, ends.
pub open spec fn params_read(d: Seq<u8>, p: int, v: GameVersion, ini: IniTable, s: Seq<Parameter>) -> Option<int>
    decreases s,
{
    if s.len() == 0 {
        Some(p)
    } else {
        match params_read(d, p, v, ini, s.drop_last()) {
            Some(q) => param_read(d, q, v, ini, s.last()),
            None => None,
        }
    }
}

/// Where reading the function call `sp` ends.
pub open spec fn sub_read(d: Seq<u8>, p: int, v: GameVersion, ini: IniTable, sp: SubParameters) -> Option<int>
    decreases sp,
{
    if !(has_bytes(d, p, 4) && sub_parameter_code(sp.ptype) == u32_at(d, p)) {
        None
    } else {
        match c_string_at(d, p + 4) {
            None => None,
            Some((name, p2)) => {
                match ini_prop(ini, sub_parameter_sector(sp.ptype), name) {
                    None => None,
                    Some(info) => {
                        if sp.name@ != name || !has_bytes(d, p2, 4) || sp.begin_parameters != (
                        u32_at(d, p2) != 0) {
                            None
                        } else if sp.begin_parameters {
                            if sp.parameters@.len() == parameter_count(
                                info,
                                sub_parameter_skip(sp.ptype),
                            ) {
                                params_read(d, p2 + 4, v, ini, sp.parameters@)
                            } else {
                                None
                            }
                        } else if sp.parameters@.len() == 0 {
                            Some(p2 + 4)
                        } else {
                            None
                        }
                    },
                }
            },
        }
    }
}


/// Where reading function `e` from `d` at `p` ends, when `e` is what the
/// bytes there hold; `child` tells a function nested in another one.
pub open spec fn eca_read(
    d: Seq<u8>,
    p: int,
    v: GameVersion,
    ini: IniTable,
    child: bool,
    e: ECADefinition,
) -> Option<int>
    decreases e,
{
    if !(has_bytes(d, p, 4) && eca_code(e.ftype) == u32_at(d, p)) {
        None
    } else {
        let after_cond = if v != GameVersion::RoC && child {
            match e.condition_group {
                Some(c) => if has_bytes(d, p + 4, 4) && condition_code(c) == u32_at(d, p + 4) {
                    Some(p + 8)
                } else {
                    None
                },
                None => None,
            }
        } else if e.condition_group is None {
            Some(p + 4)
        } else {
            None
        };
        match after_cond {
            None => None,
            Some(p2) => match c_string_at(d, p2) {
                None => None,
                Some((name, p3)) => match ini_prop(ini, eca_sector(e.ftype), name) {
                    None => None,
                    Some(info) => {
                        if e.name@ != name || !has_bytes(d, p3, 4) || e.enabled != (u32_at(d, p3)
                            == 1) || e.parameters@.len() != parameter_count(info, 1) {
                            None
                        } else {
                            match params_read(d, p3 + 4, v, ini, e.parameters@) {
                                None => None,
                                Some(p5) => {
                                    if v == GameVersion::RoC {
                                        if e.childs_eca is None {
                                            Some(p5)
                                        } else {
                                            None
                                        }
                                    } else if !has_bytes(d, p5, 4) {
                                        None
                                    } else {
                                        match e.childs_eca {
                                            Some(cs) => if cs@.len() == u32_at(d, p5) {
                                                ecas_read(d, p5 + 4, v, ini, true, cs@)
                                            } else {
                                                None
                                            },
                                            None => None,
                                        }
                                    }
                                },
                            }
                        }
                    },
                },
            },
        }
    }
}

/// Where reading the functions `s`, one after the other, ends.
pub open spec fn ecas_read(
    d: Seq<u8>,
    p: int,
    v: GameVersion,
    ini: IniTable,
    child: bool,
    s: Seq<ECADefinition>,
) -> Option<int>
    decreases s,
{
    if s.len() == 0 {
        Some(p)
    } else {
        match ecas_read(d, p, v, ini, child, s.drop_last()) {
            Some(q) => eca_read(d, q, v, ini, child, s.last()),
            None => None,
        }
    }
}

/// The bytes at `p` hold at most one parameter: any two parameters read
/// there are of the same kind and end at the same place.
pub proof fn lemma_param_det(d: Seq<u8>, p: int, v: GameVersion, ini: IniTable, x: Parameter, y: Parameter)
    requires
        param_read(d, p, v, ini, x) is Some,
        param_read(d, p, v, ini, y) is Some,
    ensures
        param_read(d, p, v, ini, x) == param_read(d, p, v, ini, y),
        x.ptype == y.ptype,
    decreases x,
{
    assert(x.ptype == y.ptype);
    let (text, p2) = c_string_at(d, p + 4)->0;
    let has_sub = u32_at(d, p2) == 1;
    let p3 = p2 + 4;
    if has_sub {
        lemma_sub_det(d, p3, v, ini, x.sub_parameters->0, y.sub_parameters->0);
    }
    let p4 = if has_sub {
        sub_read(d, p3, v, ini, x.sub_parameters->0)->0
    } else {
        p3
    };
    let p5 = if stores_unknown(v, x.ptype, has_sub) {
        p4 + 4
    } else {
        p4
    };
    if stores_array(v, x.ptype) && u32_at(d, p5) == 1 {
        lemma_param_det(d, p5 + 4, v, ini, *(x.array_parameter->0), *(y.array_parameter->0));
    }
}

/// The bytes at `p` hold at most one run of parameters of a given length.
pub proof fn lemma_params_det(d: Seq<u8>, p: int, v: GameVersion, ini: IniTable, s: Seq<Parameter>, t: Seq<Parameter>)
    requires
        s.len() == t.len(),
        params_read(d, p, v, ini, s) is Some,
        params_read(d, p, v, ini, t) is Some,
    ensures
        params_read(d, p, v, ini, s) == params_read(d, p, v, ini, t),
    decreases s,
{
    if s.len() > 0 {
        lemma_params_det(d, p, v, ini, s.drop_last(), t.drop_last());
        let q = params_read(d, p, v, ini, s.drop_last())->0;
        lemma_param_det(d, q, v, ini, s.last(), t.last());
    }
}

/// The bytes at `p` hold at most one function call: any two read there end
/// at the same place.
pub proof fn lemma_sub_det(d: Seq<u8>, p: int, v: GameVersion, ini: IniTable, a: SubParameters, b: SubParameters)
    requires
        sub_read(d, p, v, ini, a) is Some,
        sub_read(d, p, v, ini, b) is Some,
    ensures
        sub_read(d, p, v, ini, a) == sub_read(d, p, v, ini, b),
    decreases a,
{
    assert(a.ptype == b.ptype);
    let (name, p2) = c_string_at(d, p + 4)->0;
    if a.begin_parameters {
        lemma_params_det(d, p2 + 4, v, ini, a.parameters@, b.parameters@);
    }
}

/// The bytes at `p` hold at most one trigger function: any two read there
/// end at the same place.
pub proof fn lemma_eca_det(
    d: Seq<u8>,
    p: int,
    v: GameVersion,
    ini: IniTable,
    child: bool,
    a: ECADefinition,
    b: ECADefinition,
)
    requires
        eca_read(d, p, v, ini, child, a) is Some,
        eca_read(d, p, v, ini, child, b) is Some,
    ensures
        eca_read(d, p, v, ini, child, a) == eca_read(d, p, v, ini, child, b),
    decreases a,
{
    assert(a.ftype == b.ftype);
    let p2 = if v != GameVersion::RoC && child {
        p + 8
    } else {
        p + 4
    };
    let (name, p3) = c_string_at(d, p2)->0;
    lemma_params_det(d, p3 + 4, v, ini, a.parameters@, b.parameters@);
    let p5 = params_read(d, p3 + 4, v, ini, a.parameters@)->0;
    if v != GameVersion::RoC {
        lemma_ecas_det(d, p5 + 4, v, ini, true, a.childs_eca->0@, b.childs_eca->0@);
    }
}

/// The bytes at `p` hold at most one run of trigger functions of a given
/// length.
pub proof fn lemma_ecas_det(
    d: Seq<u8>,
    p: int,
    v: GameVersion,
    ini: IniTable,
    child: bool,
    s: Seq<ECADefinition>,
    t: Seq<ECADefinition>,
)
    requires
        s.len() == t.len(),
        ecas_read(d, p, v, ini, child, s) is Some,
        ecas_read(d, p, v, ini, child, t) is Some,
    ensures
        ecas_read(d, p, v, ini, child, s) == ecas_read(d, p, v, ini, child, t),
    decreases s,
{
    if s.len() > 0 {
        lemma_ecas_det(d, p, v, ini, child, s.drop_last(), t.drop_last());
        let q = ecas_read(d, p, v, ini, child, s.drop_last())->0;
        lemma_eca_det(d, q, v, ini, child, s.last(), t.last());
    }
}

/// Parameters read one after the other: each is read where those before it
/// end.
pub proof fn lemma_params_read_at(d: Seq<u8>, p: int, v: GameVersion, ini: IniTable, s: Seq<Parameter>, k: int)
    requires
        params_read(d, p, v, ini, s) is Some,
        0 <= k < s.len(),
    ensures
        params_read(d, p, v, ini, s.take(k)) is Some,
        param_read(d, params_read(d, p, v, ini, s.take(k))->0, v, ini, s[k]) is Some,
    decreases s.len(),
{
    if k == s.len() - 1 {
        assert(s.take(k) == s.drop_last());
    } else {
        lemma_params_read_at(d, p, v, ini, s.drop_last(), k);
        assert(s.drop_last().take(k) == s.take(k));
    }
}

/// Trigger functions read one after the other: each is read where those
/// before it end.
pub proof fn lemma_ecas_read_at(
    d: Seq<u8>,
    p: int,
    v: GameVersion,
    ini: IniTable,
    child: bool,
    s: Seq<ECADefinition>,
    k: int,
)
    requires
        ecas_read(d, p, v, ini, child, s) is Some,
        0 <= k < s.len(),
    ensures
        ecas_read(d, p, v, ini, child, s.take(k)) is Some,
        eca_read(d, ecas_read(d, p, v, ini, child, s.take(k))->0, v, ini, child, s[k]) is Some,
    decreases s.len(),
{
    if k == s.len() - 1 {
        assert(s.take(k) == s.drop_last());
    } else {
        lemma_ecas_read_at(d, p, v, ini, child, s.drop_last(), k);
        assert(s.drop_last().take(k) == s.take(k));
    }
}

/// The `u32` flag that stores `b`.
pub open spec fn flag_bytes(b: bool) -> Seq<u8> {
    le_bytes_u32(if b {
        1u32
    } else {
        0u32
    })
}

/// The flag that opens the parameters of a function call is written set
/// when the call has parameters or has the flag set, and reads back as
/// written: a call whose flag is set with no parameter after it reads back
/// with the flag set.
pub proof fn law_sub_flag_write_read(sp: SubParameters, v: GameVersion, ini: IniTable)
    requires
        c_text_ok(sp.name@),
    ensures
        forall|y: SubParameters| #[trigger] sub_read(sub_bytes(sp, v), 0, v, ini, y) is Some ==> y.begin_parameters
            == (sp.begin_parameters || sp.parameters@.len() > 0),
{
    let d = sub_bytes(sp, v);
    let a = le_bytes_u32(sub_parameter_code(sp.ptype));
    let b = c_string_bytes(sp.name@);
    let flag: u32 = if sp.begin_parameters || sp.parameters@.len() > 0 {
        1
    } else {
        0
    };
    let c = le_bytes_u32(flag);
    let r = params_bytes(sp.parameters@, v);
    assert(d == a + b + c + r);
    assert(d.subrange(0, d.len() as int) =~= d);
    crate::map::placement_roundtrip::lemma_split(d, 0, a + b + c, r);
    crate::map::placement_roundtrip::lemma_split(d, 0, a + b, c);
    crate::map::placement_roundtrip::lemma_split(d, 0, a, b);
    crate::map::trigger_jass_file::lemma_c_string_in(d, 4, sp.name@);
    crate::map::trigger_jass_file::lemma_u32_in(d, 4 + b.len() as int, flag);
}

/// The bytes that store parameter `x` for version `v`.
pub open spec fn param_bytes(x: Parameter, v: GameVersion) -> Seq<u8>
    decreases x,
{
    let has_sub = x.sub_parameters is Some;
    le_bytes_u32(parameter_code(x.ptype) as u32) + c_string_bytes(x.value@) + flag_bytes(has_sub)
        + match x.sub_parameters {
        Some(sp) => sub_bytes(sp, v),
        None => Seq::empty(),
    } + if stores_unknown(v, x.ptype, has_sub) {
        le_bytes_u32(x.unknown->0 as u32)
    } else {
        Seq::empty()
    } + if stores_array(v, x.ptype) {
        flag_bytes(x.array_parameter is Some) + match x.array_parameter {
            Some(b) => param_bytes(*b, v),
            None => Seq::empty(),
        }
    } else {
        Seq::empty()
    }
}

/// The bytes that store the parameters `s`, one after the other.
pub open spec fn params_bytes(s: Seq<Parameter>, v: GameVersion) -> Seq<u8>
    decreases s,
{
    if s.len() == 0 {
        Seq::empty()
    } else {
        params_bytes(s.drop_last(), v) + param_bytes(s.last(), v)
    }
}

/// The bytes that store the function call `sp`.
pub open spec fn sub_bytes(sp: SubParameters, v: GameVersion) -> Seq<u8>
    decreases sp,
{
    le_bytes_u32(sub_parameter_code(sp.ptype)) + c_string_bytes(sp.name@) + flag_bytes(
        sp.begin_parameters || sp.parameters@.len() > 0,
    ) + params_bytes(sp.parameters@, v)
}

/// Whether `x` holds its extra `i32` wherever version `v` stores one.
pub open spec fn param_writable(x: Parameter, v: GameVersion) -> bool
    decreases x,
{
    &&& stores_unknown(v, x.ptype, x.sub_parameters is Some) ==> x.unknown is Some
    &&& match x.sub_parameters {
        Some(sp) => sub_writable(sp, v),
        None => true,
    }
    &&& match x.array_parameter {
        Some(b) => param_writable(*b, v),
        None => true,
    }
}

/// Whether every parameter of `s` is writable.
pub open spec fn params_writable(s: Seq<Parameter>, v: GameVersion) -> bool
    decreases s,
{
    s.len() == 0 || (params_writable(s.drop_last(), v) && param_writable(s.last(), v))
}

/// Whether every parameter of `sp` is writable.
pub open spec fn sub_writable(sp: SubParameters, v: GameVersion) -> bool
    decreases sp,
{
    params_writable(sp.parameters@, v)
}

/// Whether `t` can be stored as a C string: its UTF-8 bytes hold no NUL.
pub open spec fn c_text_ok(t: Seq<char>) -> bool {
    !vstd::utf8::encode_utf8(t).contains(0u8)
}

/// Whether every text in `x` can be stored as a C string.
pub open spec fn param_text_ok(x: Parameter, v: GameVersion) -> bool
    decreases x,
{
    &&& c_text_ok(x.value@)
    &&& match x.sub_parameters {
        Some(sp) => sub_text_ok(sp, v),
        None => true,
    }
    &&& stores_array(v, x.ptype) ==> match x.array_parameter {
        Some(b) => param_text_ok(*b, v),
        None => true,
    }
}

/// Whether every text in the parameters `s` can be stored.
pub open spec fn params_text_ok(s: Seq<Parameter>, v: GameVersion) -> bool
    decreases s,
{
    s.len() == 0 || (params_text_ok(s.drop_last(), v) && param_text_ok(s.last(), v))
}

/// Whether every text in `sp` can be stored.
pub open spec fn sub_text_ok(sp: SubParameters, v: GameVersion) -> bool
    decreases sp,
{
    c_text_ok(sp.name@) && params_text_ok(sp.parameters@, v)
}

/// The bytes that store function `e`.
pub open spec fn eca_bytes(e: ECADefinition, v: GameVersion, child: bool) -> Seq<u8>
    decreases e,
{
    le_bytes_u32(eca_code(e.ftype)) + if v != GameVersion::RoC && child && e.condition_group is Some {
        le_bytes_u32(condition_code(e.condition_group->0))
    } else {
        Seq::empty()
    } + c_string_bytes(e.name@) + flag_bytes(e.enabled) + params_bytes(e.parameters@, v) + if v
        != GameVersion::RoC && e.childs_eca is Some {
        le_bytes_u32(e.childs_eca->0@.len() as u32) + ecas_bytes(e.childs_eca->0@, v)
    } else {
        Seq::empty()
    }
}

/// The bytes that store the nested functions `s`.
pub open spec fn ecas_bytes(s: Seq<ECADefinition>, v: GameVersion) -> Seq<u8>
    decreases s,
{
    if s.len() == 0 {
        Seq::empty()
    } else {
        ecas_bytes(s.drop_last(), v) + eca_bytes(s.last(), v, true)
    }
}

/// Whether every parameter in `e` is writable.
pub open spec fn eca_writable(e: ECADefinition, v: GameVersion) -> bool
    decreases e,
{
    &&& params_writable(e.parameters@, v)
    &&& (v != GameVersion::RoC && e.childs_eca is Some) ==> ecas_writable(e.childs_eca->0@, v)
}

/// Whether every function of `s` is writable.
pub open spec fn ecas_writable(s: Seq<ECADefinition>, v: GameVersion) -> bool
    decreases s,
{
    s.len() == 0 || (ecas_writable(s.drop_last(), v) && eca_writable(s.last(), v))
}

/// Whether every text in `e` can be stored.
pub open spec fn eca_text_ok(e: ECADefinition, v: GameVersion) -> bool
    decreases e,
{
    &&& c_text_ok(e.name@)
    &&& params_text_ok(e.parameters@, v)
    &&& (v != GameVersion::RoC && e.childs_eca is Some) ==> ecas_text_ok(e.childs_eca->0@, v)
}

/// Whether every text in the functions `s` can be stored.
pub open spec fn ecas_text_ok(s: Seq<ECADefinition>, v: GameVersion) -> bool
    decreases s,
{
    s.len() == 0 || (ecas_text_ok(s.drop_last(), v) && eca_text_ok(s.last(), v))
}


/// [`parameter_count`] of the entry `info`, skipping at least one piece.
fn parameter_count_of(info: &str, skip: usize) -> (res: usize)
    requires
        skip >= 1,
    ensures
        res as int == parameter_count(info@, skip as int),
{
    let chars = chars_of(info);
    let mut commas: usize = 0;
    let mut piece: Vec<char> = Vec::new();
    let mut i: usize = 0;
    while i < chars.len()
        invariant
            i <= chars@.len(),
            chars@ == info@,
            commas <= i,
            commas + 1 == comma_pieces(chars@.take(i as int)).len(),
            skip <= commas ==> piece@ == comma_pieces(chars@.take(i as int))[skip as int],
            skip > commas ==> piece@.len() == 0,
        decreases chars@.len() - i,
    {
        let c = chars[i];
        assert(chars@.take(i + 1).drop_last() == chars@.take(i as int));
        assert(chars@.take(i + 1).last() == c);
        if c == ',' {
            commas = commas + 1;
        } else if commas == skip {
            piece.push(c);
        }
        i = i + 1;
    }
    assert(chars@.take(chars@.len() as int) == chars@);
    if commas < skip || (piece.len() == 7 && piece[0] == 'n' && piece[1] == 'o' && piece[2] == 't'
        && piece[3] == 'h' && piece[4] == 'i' && piece[5] == 'n' && piece[6] == 'g') {
        proof {
            if commas >= skip {
                assert(piece@ =~= seq!['n', 'o', 't', 'h', 'i', 'n', 'g']);
            }
        }
        0
    } else {
        commas - skip + 1
    }
}

impl Parameter {
    /// Reads a parameter for version `game_version`; the parameters of a
    /// function call in it are counted from `trigger_data`.
    #[verifier::loop_isolation(false)]
    pub fn from(reader: &mut BinaryReader, game_version: &GameVersion, trigger_data: &DataIni) -> (res:
        Result<Self, WtgError>)
        requires
            old(reader).wf(),
        ensures
            final(reader).wf(),
            final(reader).contents() == old(reader).contents(),
            old(reader).position() <= final(reader).position(),
            res matches Ok(x) ==> param_read(
                old(reader).contents(),
                old(reader).position() as int,
                *game_version,
                trigger_data@,
                x,
            ) == Some(final(reader).position() as int),
            (exists|x: Parameter|
                #[trigger] param_read(
                    old(reader).contents(),
                    old(reader).position() as int,
                    *game_version,
                    trigger_data@,
                    x,
                ) is Some) ==> res is Ok,
            !has_bytes(old(reader).contents(), old(reader).position() as int, 4) ==> res matches Err(
                WtgError::ErrorReader(ReadError::EOF),
            ),
            ({
                let code = u32_at(old(reader).contents(), old(reader).position() as int) as i32;
                has_bytes(old(reader).contents(), old(reader).position() as int, 4) && !(-1 <= code
                    <= 3) ==> (res matches Err(WtgError::ParameterConversionError { position, kind })
                    && position == old(reader).position() + 4 && kind == code)
            }),
        decreases old(reader).contents().len() - old(reader).position(), 1int,
    {
        let ghost d = reader.contents();
        let ghost p0 = reader.position() as int;
        let code = match reader.read_i32() {
            Ok(c) => c,
            Err(e) => {
                return Err(WtgError::ErrorReader(e));
            },
        };
        let ptype = match ParameterType::from(code, reader.pos()) {
            Ok(t) => t,
            Err(e) => {
                return Err(e);
            },
        };
        assert(parameter_code(ptype) == code);
        let value = match reader.read_c_string_converted() {
            Ok(t) => t,
            Err(e) => {
                return Err(WtgError::ErrorReader(e));
            },
        };
        let ghost p2 = reader.position() as int;
        assert(c_string_at(d, p0 + 4) == Some((value@, p2)));
        let flag = match reader.read_u32() {
            Ok(f) => f,
            Err(e) => {
                return Err(WtgError::ErrorReader(e));
            },
        };
        let has_sub = flag == 1;
        let sub_parameters = if has_sub {
            assert(reader.position() > p0);
            match SubParameters::from(reader, game_version, trigger_data) {
                Ok(sp) => Some(sp),
                Err(e) => {
                    proof {
                        if exists|x: Parameter| #[trigger] param_read(d, p0, *game_version, trigger_data@, x) is Some {
                            let w = choose|x: Parameter| #[trigger] param_read(d, p0, *game_version, trigger_data@, x) is Some;
                            assert(sub_read(d, p2 + 4, *game_version, trigger_data@, w.sub_parameters->0) is Some);
                        }
                    }
                    return Err(e);
                },
            }
        } else {
            None
        };
        let ghost p4 = reader.position() as int;
        let stores = match game_version {
            GameVersion::RoC => ptype == ParameterType::Function,
            _ => has_sub,
        };
        assert(stores == stores_unknown(*game_version, ptype, has_sub));
        let unknown = if stores {
            match reader.read_i32() {
                Ok(u) => Some(u),
                Err(e) => {
                    proof {
                        if exists|x: Parameter| #[trigger] param_read(d, p0, *game_version, trigger_data@, x) is Some {
                            let w = choose|x: Parameter| #[trigger] param_read(d, p0, *game_version, trigger_data@, x) is Some;
                            if has_sub {
                                lemma_sub_det(d, p2 + 4, *game_version, trigger_data@, w.sub_parameters->0, sub_parameters->0);
                            }
                        }
                    }
                    return Err(WtgError::ErrorReader(e));
                },
            }
        } else {
            None
        };
        let ghost p5 = reader.position() as int;
        let array = match game_version {
            GameVersion::RoC => ptype != ParameterType::Function,
            _ => true,
        };
        assert(array == stores_array(*game_version, ptype));
        let array_parameter = if array {
            let is_array = match reader.read_u32() {
                Ok(f) => f,
                Err(e) => {
                    proof {
                        if exists|x: Parameter| #[trigger] param_read(d, p0, *game_version, trigger_data@, x) is Some {
                            let w = choose|x: Parameter| #[trigger] param_read(d, p0, *game_version, trigger_data@, x) is Some;
                            if has_sub {
                                lemma_sub_det(d, p2 + 4, *game_version, trigger_data@, w.sub_parameters->0, sub_parameters->0);
                            }
                        }
                    }
                    return Err(WtgError::ErrorReader(e));
                },
            };
            if is_array == 1 {
                assert(reader.position() > p0);
                match Parameter::from(reader, game_version, trigger_data) {
                    Ok(x) => Some(Box::new(x)),
                    Err(e) => {
                        proof {
                            if exists|x: Parameter| #[trigger] param_read(d, p0, *game_version, trigger_data@, x) is Some {
                                let w = choose|x: Parameter| #[trigger] param_read(d, p0, *game_version, trigger_data@, x) is Some;
                                if has_sub {
                                    lemma_sub_det(
                                        d,
                                        p2 + 4,
                                        *game_version,
                                        trigger_data@,
                                        w.sub_parameters->0,
                                        sub_parameters->0,
                                    );
                                }
                                assert(param_read(d, p5 + 4, *game_version, trigger_data@, *(w.array_parameter->0)) is Some);
                            }
                        }
                        return Err(e);
                    },
                }
            } else {
                None
            }
        } else {
            None
        };
        let res = Parameter { ptype, value, sub_parameters, unknown, array_parameter };
        assert(param_read(d, p0, *game_version, trigger_data@, res) == Some(
            reader.position() as int,
        ));
        Ok(res)
    }
}

impl SubParameters {
    /// Reads a function call that stands as a parameter; its parameters are
    /// counted from `trigger_data`.
    #[verifier::loop_isolation(false)]
    pub fn from(reader: &mut BinaryReader, game_version: &GameVersion, trigger_data: &DataIni) -> (res:
        Result<Self, WtgError>)
        requires
            old(reader).wf(),
        ensures
            final(reader).wf(),
            final(reader).contents() == old(reader).contents(),
            old(reader).position() <= final(reader).position(),
            res matches Ok(sp) ==> sub_read(
                old(reader).contents(),
                old(reader).position() as int,
                *game_version,
                trigger_data@,
                sp,
            ) == Some(final(reader).position() as int),
            (exists|sp: SubParameters|
                #[trigger] sub_read(
                    old(reader).contents(),
                    old(reader).position() as int,
                    *game_version,
                    trigger_data@,
                    sp,
                ) is Some) ==> res is Ok,
            !has_bytes(old(reader).contents(), old(reader).position() as int, 4) ==> res matches Err(
                WtgError::ErrorReader(ReadError::EOF),
            ),
            ({
                let code = u32_at(old(reader).contents(), old(reader).position() as int);
                has_bytes(old(reader).contents(), old(reader).position() as int, 4) && code > 3
                    ==> (res matches Err(WtgError::SubParameterConversionError(n)) && n == code)
            }),
            ({
                let d = old(reader).contents();
                let p = old(reader).position() as int;
                let cs = c_string_at(d, p + 4);
                has_bytes(d, p, 4) && u32_at(d, p) <= 3 && cs is Some && ini_prop(
                    trigger_data@,
                    sub_parameter_sector(sub_type_of(u32_at(d, p))),
                    (cs->0).0,
                ) is None ==> (res matches Err(WtgError::UnknownSubProp(n)) && n@ == (cs->0).0)
            }),
        decreases old(reader).contents().len() - old(reader).position(), 0int,
    {
        let ghost d = reader.contents();
        let ghost p0 = reader.position() as int;
        let code = match reader.read_u32() {
            Ok(c) => c,
            Err(e) => {
                return Err(WtgError::ErrorReader(e));
            },
        };
        let ptype = match SubParameterType::from(code) {
            Ok(t) => t,
            Err(e) => {
                return Err(e);
            },
        };
        assert(sub_parameter_code(ptype) == code && sub_type_of(code) == ptype);
        let name = match reader.read_c_string_converted() {
            Ok(t) => t,
            Err(e) => {
                return Err(WtgError::ErrorReader(e));
            },
        };
        let ghost p2 = reader.position() as int;
        assert(c_string_at(d, p0 + 4) == Some((name@, p2)));
        let info = match trigger_data.get_prop(ptype.get_sector(), name.as_str()) {
            Some(i) => i,
            None => {
                return Err(WtgError::UnknownSubProp(name));
            },
        };
        let skip: usize = match ptype {
            SubParameterType::Call => 3,
            _ => 1,
        };
        let count = parameter_count_of(info.as_str(), skip);
        let flag = match reader.read_u32() {
            Ok(f) => f,
            Err(e) => {
                return Err(WtgError::ErrorReader(e));
            },
        };
        let begin_parameters = flag != 0;
        let ghost p3 = reader.position() as int;
        let mut parameters: Vec<Parameter> = Vec::new();
        if begin_parameters {
            let mut k: usize = 0;
            while k < count
                invariant
                    reader.wf(),
                    reader.contents() == d,
                    p3 == p2 + 4,
                    p3 <= reader.position(),
                    p0 < p3,
                    d.len() - p0 == old(reader).contents().len() - old(reader).position(),
                    k <= count,
                    parameters@.len() == k,
                    params_read(d, p3, *game_version, trigger_data@, parameters@) == Some(
                        reader.position() as int,
                    ),
                decreases count - k,
            {
                let ghost q = reader.position() as int;
                let x = match Parameter::from(reader, game_version, trigger_data) {
                    Ok(x) => x,
                    Err(e) => {
                        proof {
                            if exists|a: SubParameters| #[trigger] sub_read(d, p0, *game_version, trigger_data@, a) is Some {
                                let w = choose|a: SubParameters| #[trigger] sub_read(d, p0, *game_version, trigger_data@, a) is Some;
                                let ws = w.parameters@;
                                assert(ws.len() == count);
                                lemma_params_read_at(d, p3, *game_version, trigger_data@, ws, k as int);
                                lemma_params_det(d, p3, *game_version, trigger_data@, ws.take(k as int), parameters@);
                                assert(param_read(d, q, *game_version, trigger_data@, ws[k as int]) is Some);
                            }
                        }
                        return Err(e);
                    },
                };
                let ghost before = parameters@;
                parameters.push(x);
                assert(parameters@.drop_last() == before);
                k = k + 1;
            }
        }
        let res = SubParameters { ptype, name, begin_parameters, parameters };
        assert(sub_read(d, p0, *game_version, trigger_data@, res) == Some(
            reader.position() as int,
        ));
        Ok(res)
    }
}

/// The sub-parameter kind of a valid code.
pub open spec fn sub_type_of(code: u32) -> SubParameterType {
    if code == 0 {
        SubParameterType::Event
    } else if code == 1 {
        SubParameterType::Condition
    } else if code == 2 {
        SubParameterType::Action
    } else {
        SubParameterType::Call
    }
}


/// The function kind of a valid code.
pub open spec fn eca_type_of(code: u32) -> ECAType {
    if code == 0 {
        ECAType::Event
    } else if code == 1 {
        ECAType::Condition
    } else {
        ECAType::Action
    }
}

impl ECADefinition {
    /// Reads a trigger function for version `game_version`; `is_child_eca`
    /// tells a function nested in another one, which from The Frozen Throne
    /// on stores the branch it belongs to. The number of its parameters is
    /// looked up in `trigger_data`.
    #[verifier::loop_isolation(false)]
    pub fn from(
        reader: &mut BinaryReader,
        game_version: &GameVersion,
        trigger_data: &DataIni,
        is_child_eca: bool,
    ) -> (res: Result<Self, WtgError>)
        requires
            old(reader).wf(),
        ensures
            final(reader).wf(),
            final(reader).contents() == old(reader).contents(),
            old(reader).position() <= final(reader).position(),
            res matches Ok(e) ==> eca_read(
                old(reader).contents(),
                old(reader).position() as int,
                *game_version,
                trigger_data@,
                is_child_eca,
                e,
            ) == Some(final(reader).position() as int),
            !has_bytes(old(reader).contents(), old(reader).position() as int, 4) ==> res matches Err(
                WtgError::ErrorReader(ReadError::EOF),
            ),
            ({
                let code = u32_at(old(reader).contents(), old(reader).position() as int);
                has_bytes(old(reader).contents(), old(reader).position() as int, 4) && code > 2
                    ==> (res matches Err(WtgError::ECAConversionError(n)) && n == code)
            }),
            (exists|e: ECADefinition|
                #[trigger] eca_read(
                    old(reader).contents(),
                    old(reader).position() as int,
                    *game_version,
                    trigger_data@,
                    is_child_eca,
                    e,
                ) is Some) ==> res is Ok,
            ({
                let d = old(reader).contents();
                let p = old(reader).position() as int;
                let with_cond = *game_version != GameVersion::RoC && is_child_eca;
                let p2 = if with_cond {
                    p + 8
                } else {
                    p + 4
                };
                let cs = c_string_at(d, p2);
                &&& with_cond && has_bytes(d, p, 8) && u32_at(d, p) <= 2 && u32_at(d, p + 4) > 2 ==> (
                res matches Err(WtgError::ConditionConversionError(n)) && n == u32_at(d, p + 4))
                &&& has_bytes(d, p, 4) && u32_at(d, p) <= 2 && (with_cond ==> has_bytes(d, p + 4, 4)
                    && u32_at(d, p + 4) <= 2) && cs is Some && ini_prop(
                    trigger_data@,
                    eca_sector(eca_type_of(u32_at(d, p))),
                    (cs->0).0,
                ) is None ==> (res matches Err(WtgError::UnknownProp(n)) && n@ == (cs->0).0)
            }),
        decreases old(reader).contents().len() - old(reader).position(),
    {
        let ghost d = reader.contents();
        let ghost p0 = reader.position() as int;
        let code = match reader.read_u32() {
            Ok(c) => c,
            Err(e) => {
                return Err(WtgError::ErrorReader(e));
            },
        };
        let ftype = match ECAType::from(code) {
            Ok(t) => t,
            Err(e) => {
                return Err(e);
            },
        };
        assert(eca_code(ftype) == code && eca_type_of(code) == ftype);
        let with_condition = match game_version {
            GameVersion::RoC => false,
            _ => is_child_eca,
        };
        let condition_group = if with_condition {
            let c = match reader.read_u32() {
                Ok(c) => c,
                Err(e) => {
                    return Err(WtgError::ErrorReader(e));
                },
            };
            match ConditionType::from(c) {
                Ok(t) => Some(t),
                Err(e) => {
                    return Err(e);
                },
            }
        } else {
            None
        };
        let ghost p2 = reader.position() as int;
        let name = match reader.read_c_string_converted() {
            Ok(t) => t,
            Err(e) => {
                return Err(WtgError::ErrorReader(e));
            },
        };
        let ghost p3 = reader.position() as int;
        assert(c_string_at(d, p2) == Some((name@, p3)));
        let info = match trigger_data.get_prop(ftype.get_sector(), name.as_str()) {
            Some(i) => i,
            None => {
                return Err(WtgError::UnknownProp(name));
            },
        };
        let count = parameter_count_of(info.as_str(), 1);
        let flag = match reader.read_u32() {
            Ok(f) => f,
            Err(e) => {
                return Err(WtgError::ErrorReader(e));
            },
        };
        let enabled = flag == 1;
        let ghost p4 = reader.position() as int;
        let mut parameters: Vec<Parameter> = Vec::new();
        let mut k: usize = 0;
        while k < count
            invariant
                reader.wf(),
                reader.contents() == d,
                p4 <= reader.position(),
                k <= count,
                parameters@.len() == k,
                params_read(d, p4, *game_version, trigger_data@, parameters@) == Some(
                    reader.position() as int,
                ),
            decreases count - k,
        {
            let ghost q = reader.position() as int;
            let x = match Parameter::from(reader, game_version, trigger_data) {
                Ok(x) => x,
                Err(e) => {
                    proof {
                        if exists|a: ECADefinition| #[trigger] eca_read(d, p0, *game_version, trigger_data@, is_child_eca, a) is Some {
                            let w = choose|a: ECADefinition| #[trigger] eca_read(d, p0, *game_version, trigger_data@, is_child_eca, a) is Some;
                            let ws = w.parameters@;
                            assert(ws.len() == count);
                            lemma_params_read_at(d, p4, *game_version, trigger_data@, ws, k as int);
                            lemma_params_det(d, p4, *game_version, trigger_data@, ws.take(k as int), parameters@);
                            assert(param_read(d, q, *game_version, trigger_data@, ws[k as int]) is Some);
                        }
                    }
                    return Err(e);
                },
            };
            let ghost before = parameters@;
            parameters.push(x);
            assert(parameters@.drop_last() == before);
            k = k + 1;
        }
        let ghost p5 = reader.position() as int;
        proof {
            if exists|a: ECADefinition| #[trigger] eca_read(d, p0, *game_version, trigger_data@, is_child_eca, a) is Some {
                let w = choose|a: ECADefinition| #[trigger] eca_read(d, p0, *game_version, trigger_data@, is_child_eca, a) is Some;
                lemma_params_det(d, p4, *game_version, trigger_data@, w.parameters@, parameters@);
            }
        }
        let childs_eca = match game_version {
            GameVersion::RoC => None,
            _ => {
                let n = match reader.read_u32() {
                    Ok(n) => n,
                    Err(e) => {
                        return Err(WtgError::ErrorReader(e));
                    },
                };
                let ghost p6 = reader.position() as int;
                let mut childs: Vec<ECADefinition> = Vec::new();
                let mut j: u32 = 0;
                while j < n
                    invariant
                        reader.wf(),
                        reader.contents() == d,
                        p6 <= reader.position(),
                        j <= n,
                        childs@.len() == j,
                        ecas_read(d, p6, *game_version, trigger_data@, true, childs@) == Some(
                            reader.position() as int,
                        ),
                    decreases n - j,
                {
                    let ghost q = reader.position() as int;
                    let c = match ECADefinition::from(reader, game_version, trigger_data, true) {
                        Ok(c) => c,
                        Err(e) => {
                            proof {
                                if exists|a: ECADefinition| #[trigger] eca_read(d, p0, *game_version, trigger_data@, is_child_eca, a) is Some {
                                    let w = choose|a: ECADefinition| #[trigger] eca_read(d, p0, *game_version, trigger_data@, is_child_eca, a) is Some;
                                    lemma_params_det(d, p4, *game_version, trigger_data@, w.parameters@, parameters@);
                                    let ws = w.childs_eca->0@;
                                    assert(ws.len() == n);
                                    lemma_ecas_read_at(d, p6, *game_version, trigger_data@, true, ws, j as int);
                                    lemma_ecas_det(d, p6, *game_version, trigger_data@, true, ws.take(j as int), childs@);
                                    assert(eca_read(d, q, *game_version, trigger_data@, true, ws[j as int]) is Some);
                                }
                            }
                            return Err(e);
                        },
                    };
                    let ghost before = childs@;
                    childs.push(c);
                    assert(childs@.drop_last() == before);
                    j = j + 1;
                }
                Some(childs)
            },
        };
        let res = ECADefinition { ftype, condition_group, name, enabled, parameters, childs_eca };
        assert(eca_read(d, p0, *game_version, trigger_data@, is_child_eca, res) == Some(
            reader.position() as int,
        ));
        Ok(res)
    }
}


proof fn lemma_params_prefix(s: Seq<Parameter>, v: GameVersion, k: int)
    requires
        0 <= k <= s.len(),
    ensures
        params_bytes(s.take(k), v).len() <= params_bytes(s, v).len(),
        params_writable(s, v) ==> params_writable(s.take(k), v),
        params_text_ok(s, v) ==> params_text_ok(s.take(k), v),
    decreases s.len(),
{
    if k < s.len() {
        lemma_params_prefix(s.drop_last(), v, k);
        assert(s.drop_last().take(k) == s.take(k));
    } else {
        assert(s.take(k) == s);
    }
}

proof fn lemma_ecas_prefix(s: Seq<ECADefinition>, v: GameVersion, k: int)
    requires
        0 <= k <= s.len(),
    ensures
        ecas_bytes(s.take(k), v).len() <= ecas_bytes(s, v).len(),
        ecas_writable(s, v) ==> ecas_writable(s.take(k), v),
        ecas_text_ok(s, v) ==> ecas_text_ok(s.take(k), v),
    decreases s.len(),
{
    if k < s.len() {
        lemma_ecas_prefix(s.drop_last(), v, k);
        assert(s.drop_last().take(k) == s.take(k));
    } else {
        assert(s.take(k) == s);
    }
}

/// Code of a parameter kind in the file.
fn parameter_code_of(t: ParameterType) -> (res: i32)
    ensures
        res == parameter_code(t),
{
    match t {
        ParameterType::Preset => 0,
        ParameterType::Variable => 1,
        ParameterType::Function => 2,
        ParameterType::String => 3,
        ParameterType::Invalid => -1,
    }
}

/// Code of a sub-parameter kind in the file.
fn sub_parameter_code_of(t: SubParameterType) -> (res: u32)
    ensures
        res == sub_parameter_code(t),
{
    match t {
        SubParameterType::Event => 0,
        SubParameterType::Condition => 1,
        SubParameterType::Action => 2,
        SubParameterType::Call => 3,
    }
}

/// Code of a function kind in the file.
fn eca_code_of(t: ECAType) -> (res: u32)
    ensures
        res == eca_code(t),
{
    match t {
        ECAType::Event => 0,
        ECAType::Condition => 1,
        ECAType::Action => 2,
    }
}

/// Code of a branch kind in the file.
fn condition_code_of(t: ConditionType) -> (res: u32)
    ensures
        res == condition_code(t),
{
    match t {
        ConditionType::Condition => 0,
        ConditionType::Then => 1,
        ConditionType::Else => 2,
    }
}

/// Writes the `u32` flag for `b`.
fn write_flag(writer: &mut BinaryWriter, b: bool)
    requires
        old(writer).has_room(4),
    ensures
        final(writer).contents() == write_at(
            old(writer).contents(),
            old(writer).position() as int,
            flag_bytes(b),
        ),
        final(writer).position() == old(writer).position() + 4,
{
    let _ = writer.write_u32(if b {
        1
    } else {
        0
    });
}

/// Writes the parameters `params`, one after the other.
fn write_params(
    writer: &mut BinaryWriter,
    params: &Vec<Parameter>,
    game_version: &GameVersion,
    trigger_data: &DataIni,
) -> (res: Result<(), WtgError>)
    requires
        old(writer).has_room(params_bytes(params@, *game_version).len() as int),
        params_writable(params@, *game_version),
    ensures
        params_text_ok(params@, *game_version) ==> (res is Ok && final(writer).contents() == write_at(
            old(writer).contents(),
            old(writer).position() as int,
            params_bytes(params@, *game_version),
        ) && final(writer).position() == old(writer).position() + params_bytes(
            params@,
            *game_version,
        ).len()),
        !params_text_ok(params@, *game_version) ==> res matches Err(WtgError::ErrorWriter(_)),
    decreases params@,
{
    let ghost v = *game_version;
    let ghost c0 = writer.contents();
    let ghost p0 = writer.position() as int;
    let ghost s = params@;
    let mut k: usize = 0;
    while k < params.len()
        invariant
            k <= s.len(),
            s == params@,
            v == *game_version,
            writer.contents() == write_at(c0, p0, params_bytes(s.take(k as int), v)),
            writer.position() == p0 + params_bytes(s.take(k as int), v).len(),
            p0 + params_bytes(s, v).len() <= usize::MAX,
            params_writable(s, v),
            params_text_ok(s.take(k as int), v),
            0 <= p0,
        decreases s.len() - k,
    {
        proof {
            lemma_params_prefix(s, v, k + 1);
            assert(s.take(k + 1).drop_last() == s.take(k as int));
            assert(s.take(k + 1).last() == s[k as int]);
            assert(params_bytes(s.take(k + 1), v) == params_bytes(s.take(k as int), v) + param_bytes(
                s[k as int],
                v,
            ));
        }
        match params[k].write(writer, game_version, trigger_data) {
            Ok(()) => {},
            Err(e) => {
                proof {
                    if params_text_ok(s, v) {
                        lemma_params_prefix(s, v, k + 1);
                    }
                }
                return Err(e);
            },
        }
        proof {
            lemma_write_at_concat(c0, p0, params_bytes(s.take(k as int), v), param_bytes(s[k as int], v));
        }
        k = k + 1;
    }
    assert(s.take(s.len() as int) == s);
    Ok(())
}

/// Writes the nested functions `childs`, one after the other.
fn write_ecas(
    writer: &mut BinaryWriter,
    childs: &Vec<ECADefinition>,
    game_version: &GameVersion,
    trigger_data: &DataIni,
) -> (res: Result<(), WtgError>)
    requires
        old(writer).has_room(ecas_bytes(childs@, *game_version).len() as int),
        ecas_writable(childs@, *game_version),
    ensures
        ecas_text_ok(childs@, *game_version) ==> (res is Ok && final(writer).contents() == write_at(
            old(writer).contents(),
            old(writer).position() as int,
            ecas_bytes(childs@, *game_version),
        ) && final(writer).position() == old(writer).position() + ecas_bytes(
            childs@,
            *game_version,
        ).len()),
        !ecas_text_ok(childs@, *game_version) ==> res matches Err(WtgError::ErrorWriter(_)),
    decreases childs@,
{
    let ghost v = *game_version;
    let ghost c0 = writer.contents();
    let ghost p0 = writer.position() as int;
    let ghost s = childs@;
    let mut k: usize = 0;
    while k < childs.len()
        invariant
            k <= s.len(),
            s == childs@,
            v == *game_version,
            writer.contents() == write_at(c0, p0, ecas_bytes(s.take(k as int), v)),
            writer.position() == p0 + ecas_bytes(s.take(k as int), v).len(),
            p0 + ecas_bytes(s, v).len() <= usize::MAX,
            ecas_writable(s, v),
            ecas_text_ok(s.take(k as int), v),
            0 <= p0,
        decreases s.len() - k,
    {
        proof {
            lemma_ecas_prefix(s, v, k + 1);
            assert(s.take(k + 1).drop_last() == s.take(k as int));
            assert(s.take(k + 1).last() == s[k as int]);
            assert(ecas_bytes(s.take(k + 1), v) == ecas_bytes(s.take(k as int), v) + eca_bytes(
                s[k as int],
                v,
                true,
            ));
        }
        match childs[k].write(writer, game_version, trigger_data, true) {
            Ok(()) => {},
            Err(e) => {
                proof {
                    if ecas_text_ok(s, v) {
                        lemma_ecas_prefix(s, v, k + 1);
                    }
                }
                return Err(e);
            },
        }
        proof {
            lemma_write_at_concat(c0, p0, ecas_bytes(s.take(k as int), v), eca_bytes(s[k as int], v, true));
        }
        k = k + 1;
    }
    assert(s.take(s.len() as int) == s);
    Ok(())
}

impl Parameter {
    /// Writes the parameter for version `game_version`; fails, with a
    /// [`WtgError::ErrorWriter`], on a text that holds a NUL.
    #[verifier::rlimit(80)]
    #[verifier::spinoff_prover]
    pub fn write(&self, writer: &mut BinaryWriter, game_version: &GameVersion, trigger_data: &DataIni) -> (res:
        Result<(), WtgError>)
        requires
            old(writer).has_room(param_bytes(*self, *game_version).len() as int),
            param_writable(*self, *game_version),
        ensures
            param_text_ok(*self, *game_version) ==> (res is Ok && final(writer).contents()
                == write_at(
                old(writer).contents(),
                old(writer).position() as int,
                param_bytes(*self, *game_version),
            ) && final(writer).position() == old(writer).position() + param_bytes(
                *self,
                *game_version,
            ).len()),
            !param_text_ok(*self, *game_version) ==> res matches Err(WtgError::ErrorWriter(_)),
        decreases *self,
    {
        let ghost v = *game_version;
        let ghost c0 = writer.contents();
        let ghost p0 = writer.position() as int;
        let ghost has_sub = self.sub_parameters is Some;
        let ghost a = le_bytes_u32(parameter_code(self.ptype) as u32);
        let ghost b = c_string_bytes(self.value@);
        let ghost c = flag_bytes(has_sub);
        let ghost d = if self.sub_parameters is Some {
            sub_bytes(self.sub_parameters->0, v)
        } else {
            Seq::empty()
        };
        let ghost e = if stores_unknown(v, self.ptype, has_sub) {
            le_bytes_u32(self.unknown->0 as u32)
        } else {
            Seq::empty()
        };
        let ghost f = if stores_array(v, self.ptype) {
            flag_bytes(self.array_parameter is Some) + if self.array_parameter is Some {
                param_bytes(*self.array_parameter->0, v)
            } else {
                Seq::empty()
            }
        } else {
            Seq::empty()
        };
        assert(param_bytes(*self, v) == a + b + c + d + e + f);
        let _ = writer.write_i32(parameter_code_of(self.ptype));
        match writer.write_c_string_converted(self.value.as_str()) {
            Ok(()) => {},
            Err(err) => {
                return Err(WtgError::ErrorWriter(err));
            },
        }
        proof {
            lemma_write_at_concat(c0, p0, a, b);
        }
        write_flag(writer, self.sub_parameters.is_some());
        proof {
            lemma_write_at_concat(c0, p0, a + b, c);
        }
        match &self.sub_parameters {
            Some(sp) => {
                match sp.write(writer, game_version, trigger_data) {
                    Ok(()) => {},
                    Err(err) => {
                        return Err(err);
                    },
                }
            },
            None => {},
        }
        proof {
            lemma_write_at_concat(c0, p0, a + b + c, d);
        }
        let stores = match game_version {
            GameVersion::RoC => self.ptype == ParameterType::Function,
            _ => self.sub_parameters.is_some(),
        };
        if stores {
            let _ = writer.write_i32(self.unknown.unwrap());
        }
        proof {
            lemma_write_at_concat(c0, p0, a + b + c + d, e);
        }
        let array = match game_version {
            GameVersion::RoC => self.ptype != ParameterType::Function,
            _ => true,
        };
        if array {
            let ghost f1 = flag_bytes(self.array_parameter is Some);
            write_flag(writer, self.array_parameter.is_some());
            proof {
                lemma_write_at_concat(c0, p0, a + b + c + d + e, f1);
            }
            match &self.array_parameter {
                Some(x) => {
                    match x.write(writer, game_version, trigger_data) {
                        Ok(()) => {},
                        Err(err) => {
                            return Err(err);
                        },
                    }
                    proof {
                        lemma_write_at_concat(c0, p0, a + b + c + d + e + f1, param_bytes(**x, v));
                        assert(a + b + c + d + e + f1 + param_bytes(**x, v) =~= a + b + c + d + e + f);
                    }
                },
                None => {
                    assert(a + b + c + d + e + f1 =~= a + b + c + d + e + f);
                },
            }
        } else {
            assert(a + b + c + d + e =~= a + b + c + d + e + f);
        }
        Ok(())
    }
}

impl SubParameters {
    /// Writes the function call for version `game_version`; fails, with a
    /// [`WtgError::ErrorWriter`], on a text that holds a NUL.
    pub fn write(&self, writer: &mut BinaryWriter, game_version: &GameVersion, trigger_data: &DataIni) -> (res:
        Result<(), WtgError>)
        requires
            old(writer).has_room(sub_bytes(*self, *game_version).len() as int),
            sub_writable(*self, *game_version),
        ensures
            sub_text_ok(*self, *game_version) ==> (res is Ok && final(writer).contents()
                == write_at(
                old(writer).contents(),
                old(writer).position() as int,
                sub_bytes(*self, *game_version),
            ) && final(writer).position() == old(writer).position() + sub_bytes(
                *self,
                *game_version,
            ).len()),
            !sub_text_ok(*self, *game_version) ==> res matches Err(WtgError::ErrorWriter(_)),
        decreases *self,
    {
        let ghost v = *game_version;
        let ghost c0 = writer.contents();
        let ghost p0 = writer.position() as int;
        let ghost a = le_bytes_u32(sub_parameter_code(self.ptype));
        let ghost b = c_string_bytes(self.name@);
        let begin = self.begin_parameters || self.parameters.len() > 0;
        let ghost c = flag_bytes(begin);
        let ghost d = params_bytes(self.parameters@, v);
        assert(sub_bytes(*self, v) == a + b + c + d);
        let _ = writer.write_u32(sub_parameter_code_of(self.ptype));
        match writer.write_c_string_converted(self.name.as_str()) {
            Ok(()) => {},
            Err(err) => {
                return Err(WtgError::ErrorWriter(err));
            },
        }
        proof {
            lemma_write_at_concat(c0, p0, a, b);
        }
        write_flag(writer, begin);
        proof {
            lemma_write_at_concat(c0, p0, a + b, c);
        }
        match write_params(writer, &self.parameters, game_version, trigger_data) {
            Ok(()) => {},
            Err(err) => {
                return Err(err);
            },
        }
        proof {
            lemma_write_at_concat(c0, p0, a + b + c, d);
        }
        Ok(())
    }
}

impl ECADefinition {
    /// Writes the function for version `game_version`; `is_child_eca` tells
    /// a function nested in another one. Fails, with a
    /// [`WtgError::ErrorWriter`], on a text that holds a NUL.
    #[verifier::rlimit(80)]
    #[verifier::spinoff_prover]
    pub fn write(
        &self,
        writer: &mut BinaryWriter,
        game_version: &GameVersion,
        trigger_data: &DataIni,
        is_child_eca: bool,
    ) -> (res: Result<(), WtgError>)
        requires
            old(writer).has_room(eca_bytes(*self, *game_version, is_child_eca).len() as int),
            eca_writable(*self, *game_version),
        ensures
            eca_text_ok(*self, *game_version) ==> (res is Ok && final(writer).contents()
                == write_at(
                old(writer).contents(),
                old(writer).position() as int,
                eca_bytes(*self, *game_version, is_child_eca),
            ) && final(writer).position() == old(writer).position() + eca_bytes(
                *self,
                *game_version,
                is_child_eca,
            ).len()),
            !eca_text_ok(*self, *game_version) ==> res matches Err(WtgError::ErrorWriter(_)),
        decreases *self,
    {
        let ghost v = *game_version;
        let ghost c0 = writer.contents();
        let ghost p0 = writer.position() as int;
        let ghost a = le_bytes_u32(eca_code(self.ftype));
        let ghost b = if v != GameVersion::RoC && is_child_eca && self.condition_group is Some {
            le_bytes_u32(condition_code(self.condition_group->0))
        } else {
            Seq::empty()
        };
        let ghost c = c_string_bytes(self.name@);
        let ghost d = flag_bytes(self.enabled);
        let ghost e = params_bytes(self.parameters@, v);
        let ghost f = if v != GameVersion::RoC && self.childs_eca is Some {
            le_bytes_u32(self.childs_eca->0@.len() as u32) + ecas_bytes(self.childs_eca->0@, v)
        } else {
            Seq::empty()
        };
        assert(eca_bytes(*self, v, is_child_eca) == a + b + c + d + e + f);
        let _ = writer.write_u32(eca_code_of(self.ftype));
        let with_condition = match game_version {
            GameVersion::RoC => false,
            _ => is_child_eca,
        };
        if with_condition {
            match self.condition_group {
                Some(cond) => {
                    let _ = writer.write_u32(condition_code_of(cond));
                },
                None => {},
            }
        }
        proof {
            lemma_write_at_concat(c0, p0, a, b);
        }
        match writer.write_c_string_converted(self.name.as_str()) {
            Ok(()) => {},
            Err(err) => {
                return Err(WtgError::ErrorWriter(err));
            },
        }
        proof {
            lemma_write_at_concat(c0, p0, a + b, c);
        }
        write_flag(writer, self.enabled);
        proof {
            lemma_write_at_concat(c0, p0, a + b + c, d);
        }
        match write_params(writer, &self.parameters, game_version, trigger_data) {
            Ok(()) => {},
            Err(err) => {
                return Err(err);
            },
        }
        proof {
            lemma_write_at_concat(c0, p0, a + b + c + d, e);
        }
        let with_childs = match game_version {
            GameVersion::RoC => false,
            _ => true,
        };
        if with_childs {
            match &self.childs_eca {
                Some(childs) => {
                    let ghost f1 = le_bytes_u32(childs@.len() as u32);
                    let _ = writer.write_u32(childs.len() as u32);
                    proof {
                        lemma_write_at_concat(c0, p0, a + b + c + d + e, f1);
                    }
                    match write_ecas(writer, childs, game_version, trigger_data) {
                        Ok(()) => {},
                        Err(err) => {
                            return Err(err);
                        },
                    }
                    proof {
                        lemma_write_at_concat(c0, p0, a + b + c + d + e + f1, ecas_bytes(childs@, v));
                        assert(a + b + c + d + e + f1 + ecas_bytes(childs@, v) =~= a + b + c + d + e + f);
                    }
                },
                None => {
                    assert(a + b + c + d + e =~= a + b + c + d + e + f);
                },
            }
        } else {
            assert(a + b + c + d + e =~= a + b + c + d + e + f);
        }
        Ok(())
    }
}

} // verus!
