//! The game database: the trigger data table and the SLK tables of units,
//! abilities, doodads, destructables and upgrades, loaded from the game data
//! files under a common prefix.

use vstd::prelude::*;

use crate::map::data_ini::{ini_of, merge_tables, DataIni};
use crate::map::slk_datas::{
    cells_processable, doc_load, merge_rows, mergeable, shift_headers, slk_fold, DocumentAdapter,
    SLKData, ScannerAdapter,
};
use crate::slkparser::error::SLKError;
use crate::slkparser::scanner::outcome_error;

verus! {

/// Trigger data table, under `datas/`.
pub const PROFILE_TRIGGER_DATA: &'static str = "TriggerData.txt";

/// Unit metadata table, under `slk/`.
pub const SLK_UNIT_META_DATA: &'static str = "UnitMetaData.slk";

/// Doodad metadata table, under `slk/`.
pub const SLK_DOODAD_META_DATA: &'static str = "DoodadMetaData.slk";

/// Destructable metadata table, under `slk/`.
pub const SLK_DESTRUCTABLE_META_DATA: &'static str = "DestructableMetaData.slk";

/// Ability metadata table, under `slk/`.
pub const SLK_ABILITY_META_DATA: &'static str = "AbilityMetaData.slk";

/// Upgrade metadata table, under `slk/`.
pub const SLK_UPGRADE_META_DATA: &'static str = "UpgradeMetaData.slk";

/// Upgrade effect metadata table, under `slk/`.
pub const SLK_UPGRADE_EFFECT_META_DATA: &'static str = "UpgradeEffectMetaData.slk";

/// Gameplay constants metadata table, under `slk/`.
pub const SLK_MISC_META_DATA: &'static str = "MiscMetaData.slk";

/// Interface constants metadata table, under `slk/`.
pub const SLK_SKIN_META_DATA: &'static str = "SkinMetaData.slk";

/// Buff metadata table, under `slk/`.
pub const SLK_ABILITY_BUFF_META_DATA: &'static str = "AbilityBuffMetaData.slk";

/// Unit data table, under `slk/`.
pub const SLK_UNIT_DATA: &'static str = "UnitData.slk";

/// Unit balance table, under `slk/`.
pub const SLK_UNIT_BALANCE: &'static str = "UnitBalance.slk";

/// Unit interface table, under `slk/`.
pub const SLK_UNIT_UI: &'static str = "UnitUI.slk";

/// Unit abilities table, under `slk/`.
pub const SLK_UNIT_ABILITIES: &'static str = "UnitAbilities.slk";

/// Unit weapons table, under `slk/`.
pub const SLK_UNIT_WEAPONS: &'static str = "UnitWeapons.slk";

/// Ability data table, under `slk/`.
pub const SLK_ABILITY_DATA: &'static str = "AbilityData.slk";

/// Upgrade data table, under `slk/`.
pub const SLK_UPGRADE_DATA: &'static str = "UpgradeData.slk";

/// Doodad table, under `slk/`.
pub const SLK_DOODADS: &'static str = "Doodads.slk";

/// Destructable table, under `slk/`.
pub const SLK_DESTRUCTABLE_DATA: &'static str = "DestructableData.slk";

/// Path of the profile data file `path` under `prefix`.
pub fn path_to_data(prefix: &str, path: &str) -> (res: String)
    ensures
        res@ == prefix@ + "datas/"@ + path@,
{
    let mut res = String::from_str(prefix);
    res.append("datas/");
    res.append(path);
    res
}

/// Path of the SLK file `path` under `prefix`.
pub fn path_to_slk(prefix: &str, path: &str) -> (res: String)
    ensures
        res@ == prefix@ + "slk/"@ + path@,
{
    let mut res = String::from_str(prefix);
    res.append("slk/");
    res.append(path);
    res
}

/// Game database loading errors.
#[derive(Debug)]
pub enum GameDataError {
    /// An SLK table failed to load.
    Slk(SLKError),
}

/// The contents of the game data files, read by the caller: the trigger data
/// text (absent when it could not be read) and the bytes of each SLK table.
pub struct GameDataFiles {
    pub trigger_data: Option<String>,
    pub unit_meta: Vec<u8>,
    pub doodad_meta: Vec<u8>,
    pub destructable_meta: Vec<u8>,
    pub ability_meta: Vec<u8>,
    pub upgrade_meta: Vec<u8>,
    pub upgrade_effect_meta: Vec<u8>,
    pub misc_meta: Vec<u8>,
    pub skin_meta: Vec<u8>,
    pub ability_buff_meta: Vec<u8>,
    pub unit_data: Vec<u8>,
    pub unit_balance: Vec<u8>,
    pub unit_ui: Vec<u8>,
    pub unit_abilities: Vec<u8>,
    pub unit_weapons: Vec<u8>,
    pub ability_data: Vec<u8>,
    pub upgrade_data: Vec<u8>,
    pub doodads: Vec<u8>,
    pub destructable_data: Vec<u8>,
}

/// The SLK files in load order.
pub open spec fn slk_files(f: GameDataFiles) -> Seq<Seq<u8>> {
    seq![
        f.unit_meta@,
        f.doodad_meta@,
        f.destructable_meta@,
        f.ability_meta@,
        f.upgrade_meta@,
        f.upgrade_effect_meta@,
        f.misc_meta@,
        f.skin_meta@,
        f.ability_buff_meta@,
        f.unit_data@,
        f.unit_balance@,
        f.unit_ui@,
        f.unit_abilities@,
        f.unit_weapons@,
        f.ability_data@,
        f.upgrade_data@,
        f.doodads@,
        f.destructable_data@,
    ]
}

/// The names of the SLK files in load order.
pub open spec fn slk_names() -> Seq<Seq<char>> {
    seq![
        SLK_UNIT_META_DATA@,
        SLK_DOODAD_META_DATA@,
        SLK_DESTRUCTABLE_META_DATA@,
        SLK_ABILITY_META_DATA@,
        SLK_UPGRADE_META_DATA@,
        SLK_UPGRADE_EFFECT_META_DATA@,
        SLK_MISC_META_DATA@,
        SLK_SKIN_META_DATA@,
        SLK_ABILITY_BUFF_META_DATA@,
        SLK_UNIT_DATA@,
        SLK_UNIT_BALANCE@,
        SLK_UNIT_UI@,
        SLK_UNIT_ABILITIES@,
        SLK_UNIT_WEAPONS@,
        SLK_ABILITY_DATA@,
        SLK_UPGRADE_DATA@,
        SLK_DOODADS@,
        SLK_DESTRUCTABLE_DATA@,
    ]
}

/// Index of the first file of `s`, from `i` on, that fails to load.
pub open spec fn first_failing(s: Seq<Seq<u8>>, i: int) -> Option<int>
    decreases s.len() - i,
{
    if i < 0 || i >= s.len() {
        None
    } else if doc_load(s[i]).1 is Some {
        Some(i)
    } else {
        first_failing(s, i + 1)
    }
}

proof fn lemma_first_failing(s: Seq<Seq<u8>>, from: int, i: int)
    requires
        0 <= from <= i <= s.len(),
        forall|j: int| from <= j < i ==> doc_load(#[trigger] s[j]).1 is None,
    ensures
        i < s.len() && doc_load(s[i]).1 is Some ==> first_failing(s, from) == Some(i),
        i == s.len() ==> first_failing(s, from) is None,
    decreases i - from,
{
    if from < i {
        lemma_first_failing(s, from + 1, i);
    }
}

/// The tables of the SLK bytes `b`: header labels and rows.
pub open spec fn slk_table(b: Seq<u8>) -> (Map<u32, Seq<char>>, Map<Seq<char>, Map<u32, Seq<char>>>) {
    let st = slk_fold(doc_load(b).0.2);
    (st.0, st.1)
}

/// The tables `t` after merging the SLK bytes `b` into them.
pub open spec fn slk_merged(
    t: (Map<u32, Seq<char>>, Map<Seq<char>, Map<u32, Seq<char>>>),
    b: Seq<u8>,
) -> (Map<u32, Seq<char>>, Map<Seq<char>, Map<u32, Seq<char>>>) {
    let hc = t.0.dom().len() as u32;
    let n = slk_table(b);
    (t.0.union_prefer_right(shift_headers(n.0, hc)), merge_rows(t.1, n.1, hc))
}

/// The unit tables after merging the first `k` unit files of `s`.
pub open spec fn unit_tables(s: Seq<Seq<u8>>, k: int) -> (
    Map<u32, Seq<char>>,
    Map<Seq<char>, Map<u32, Seq<char>>>,
)
    decreases k,
{
    if k <= 0 {
        (Map::empty(), Map::empty())
    } else {
        slk_merged(unit_tables(s, k - 1), s[9 + k - 1])
    }
}

/// Whether the SLK bytes `b` can be loaded on their own: once they load,
/// their cells can be read.
pub open spec fn table_loadable(b: Seq<u8>) -> bool {
    doc_load(b).1 is None ==> cells_processable(doc_load(b).0.2)
}

/// Whether loading the files `s` gets to file `i`: no file before it fails
/// to load.
pub open spec fn reached(s: Seq<Seq<u8>>, i: int) -> bool {
    !(first_failing(s, 0) matches Some(f) && f < i)
}

/// Whether loading the files `s` runs to its end: every file that is reached
/// and loaded on its own can be read once it loads, and every unit file that
/// is reached can be merged.
pub open spec fn game_files_loadable(s: Seq<Seq<u8>>) -> bool {
    &&& reached(s, 0) ==> table_loadable(s[0])
    &&& reached(s, 1) ==> table_loadable(s[1])
    &&& reached(s, 2) ==> table_loadable(s[2])
    &&& reached(s, 3) ==> table_loadable(s[3])
    &&& reached(s, 4) ==> table_loadable(s[4])
    &&& reached(s, 5) ==> table_loadable(s[5])
    &&& reached(s, 6) ==> table_loadable(s[6])
    &&& reached(s, 7) ==> table_loadable(s[7])
    &&& reached(s, 8) ==> table_loadable(s[8])
    &&& reached(s, 9) ==> mergeable(unit_tables(s, 0).0.dom().len() as u32, s[9])
    &&& reached(s, 10) ==> mergeable(unit_tables(s, 1).0.dom().len() as u32, s[10])
    &&& reached(s, 11) ==> mergeable(unit_tables(s, 2).0.dom().len() as u32, s[11])
    &&& reached(s, 12) ==> mergeable(unit_tables(s, 3).0.dom().len() as u32, s[12])
    &&& reached(s, 13) ==> mergeable(unit_tables(s, 4).0.dom().len() as u32, s[13])
    &&& reached(s, 14) ==> table_loadable(s[14])
    &&& reached(s, 15) ==> table_loadable(s[15])
    &&& reached(s, 16) ==> table_loadable(s[16])
    &&& reached(s, 17) ==> table_loadable(s[17])
}

proof fn lemma_first_failing_from(s: Seq<Seq<u8>>, i: int)
    requires
        0 <= i,
    ensures
        first_failing(s, i) matches Some(f) ==> i <= f < s.len() && doc_load(s[f]).1 is Some,
    decreases s.len() - i,
{
    if i < s.len() && doc_load(s[i]).1 is None {
        lemma_first_failing_from(s, i + 1);
    }
}

/// The trigger data table of the text `t`, when there is one.
pub open spec fn trigger_table(t: Option<String>) -> Map<Seq<char>, Map<Seq<char>, Seq<char>>> {
    match t {
        Some(text) => merge_tables(Map::empty(), ini_of(text@)),
        None => Map::empty(),
    }
}

/// The game database.
pub struct GameData {
    trigger_data: DataIni,
    unit_data: SLKData,
    unit_meta: SLKData,
    doodad_meta: SLKData,
    destructable_meta: SLKData,
    abilty_meta: SLKData,
    upgrade_meta: SLKData,
    upgrade_effect_meta: SLKData,
    const_meta: SLKData,
    ui_const_meta: SLKData,
    ability_buff_meta: SLKData,
    ability_data: SLKData,
    upgrade_data: SLKData,
    doodad_effect_data: SLKData,
    destructable_effect_data: SLKData,
}

/// Loads one SLK table of the game data.
fn load_table(prefix: &str, name: &str, contents: Vec<u8>) -> (res: Result<SLKData, GameDataError>)
    requires
        table_loadable(contents@),
    ensures
        match doc_load(contents@).1 {
            None => res matches Ok(d) && d.wf() && d@ == slk_table(contents@),
            Some((index, o)) => res matches Err(GameDataError::Slk(SLKError::InFile { path: p, source }))
                && p@ == prefix@ + "slk/"@ + name@ && outcome_error(*source, index, o),
        },
{
    let path = path_to_slk(prefix, name);
    match SLKData::load(path.as_str(), contents) {
        Ok(d) => Ok(d),
        Err(e) => Err(GameDataError::Slk(e)),
    }
}

/// Merges one unit SLK table into `data`.
fn merge_table(data: &mut SLKData, prefix: &str, name: &str, contents: Vec<u8>) -> (res: Result<(), GameDataError>)
    requires
        old(data).wf(),
        mergeable(old(data)@.0.dom().len() as u32, contents@),
    ensures
        final(data).wf(),
        match doc_load(contents@).1 {
            None => res is Ok && final(data)@ == slk_merged(old(data)@, contents@),
            Some((index, o)) => res matches Err(GameDataError::Slk(SLKError::InFile { path: p, source }))
                && p@ == prefix@ + "slk/"@ + name@ && outcome_error(*source, index, o),
        },
{
    let path = path_to_slk(prefix, name);
    match data.merge(path.as_str(), contents) {
        Ok(()) => Ok(()),
        Err(e) => Err(GameDataError::Slk(e)),
    }
}


impl GameData {
    /// The trigger data table.
    pub closed spec fn trigger(&self) -> Map<Seq<char>, Map<Seq<char>, Seq<char>>> {
        self.trigger_data@
    }

    /// The SLK tables: the nine metadata tables in load order, the unit
    /// table, then the ability, upgrade, doodad and destructable tables.
    pub closed spec fn tables(&self) -> Seq<
        (Map<u32, Seq<char>>, Map<Seq<char>, Map<u32, Seq<char>>>),
    > {
        seq![
            self.unit_meta@,
            self.doodad_meta@,
            self.destructable_meta@,
            self.abilty_meta@,
            self.upgrade_meta@,
            self.upgrade_effect_meta@,
            self.const_meta@,
            self.ui_const_meta@,
            self.ability_buff_meta@,
            self.unit_data@,
            self.ability_data@,
            self.upgrade_data@,
            self.doodad_effect_data@,
            self.destructable_effect_data@,
        ]
    }

    /// Builds the game database from the files under `prefix`: the trigger
    /// data, each metadata and data table on its own, and the five unit
    /// tables merged into one. Fails with the load error, wrapped with its
    /// path, of the first SLK file that does not load.
    #[verifier::rlimit(60)]
    #[verifier::spinoff_prover]
    pub fn new(prefix: &str, files: GameDataFiles) -> (res: Result<Self, GameDataError>)
        requires
            game_files_loadable(slk_files(files)),
        ensures
            ({
                let s = slk_files(files);
                match first_failing(s, 0) {
                    Some(i) => res matches Err(GameDataError::Slk(SLKError::InFile { path: p, source }))
                        && p@ == prefix@ + "slk/"@ + slk_names()[i] && outcome_error(
                        *source,
                        (doc_load(s[i]).1->0).0,
                        (doc_load(s[i]).1->0).1,
                    ),
                    None => res matches Ok(gd) && gd.trigger() == trigger_table(files.trigger_data)
                        && gd.tables() == seq![
                        slk_table(s[0]),
                        slk_table(s[1]),
                        slk_table(s[2]),
                        slk_table(s[3]),
                        slk_table(s[4]),
                        slk_table(s[5]),
                        slk_table(s[6]),
                        slk_table(s[7]),
                        slk_table(s[8]),
                        unit_tables(s, 5),
                        slk_table(s[14]),
                        slk_table(s[15]),
                        slk_table(s[16]),
                        slk_table(s[17]),
                    ],
                }
            }),
    {
        let ghost s = slk_files(files);
        let mut trigger_data = DataIni::new();
        match &files.trigger_data {
            Some(text) => trigger_data.merge(text.as_str()),
            None => {},
        }
        assert(s[0] == files.unit_meta@);
        proof {
            lemma_first_failing_from(s, 0);
        }
        assert(table_loadable(s[0]));
        let unit_meta = match load_table(prefix, SLK_UNIT_META_DATA, files.unit_meta) {
            Ok(t) => t,
            Err(e) => {
                assert(first_failing(s, 0) == Some(0int));
                return Err(e);
            },
        };
        assert(first_failing(s, 0) == first_failing(s, 1));
        assert(s[1] == files.doodad_meta@);
        proof {
            lemma_first_failing_from(s, 1);
        }
        assert(table_loadable(s[1]));
        let doodad_meta = match load_table(prefix, SLK_DOODAD_META_DATA, files.doodad_meta) {
            Ok(t) => t,
            Err(e) => {
                assert(first_failing(s, 1) == Some(1int));
                return Err(e);
            },
        };
        assert(first_failing(s, 1) == first_failing(s, 2));
        assert(s[2] == files.destructable_meta@);
        proof {
            lemma_first_failing_from(s, 2);
        }
        assert(table_loadable(s[2]));
        let destructable_meta = match load_table(prefix, SLK_DESTRUCTABLE_META_DATA, files.destructable_meta) {
            Ok(t) => t,
            Err(e) => {
                assert(first_failing(s, 2) == Some(2int));
                return Err(e);
            },
        };
        assert(first_failing(s, 2) == first_failing(s, 3));
        assert(s[3] == files.ability_meta@);
        proof {
            lemma_first_failing_from(s, 3);
        }
        assert(table_loadable(s[3]));
        let abilty_meta = match load_table(prefix, SLK_ABILITY_META_DATA, files.ability_meta) {
            Ok(t) => t,
            Err(e) => {
                assert(first_failing(s, 3) == Some(3int));
                return Err(e);
            },
        };
        assert(first_failing(s, 3) == first_failing(s, 4));
        assert(s[4] == files.upgrade_meta@);
        proof {
            lemma_first_failing_from(s, 4);
        }
        assert(table_loadable(s[4]));
        let upgrade_meta = match load_table(prefix, SLK_UPGRADE_META_DATA, files.upgrade_meta) {
            Ok(t) => t,
            Err(e) => {
                assert(first_failing(s, 4) == Some(4int));
                return Err(e);
            },
        };
        assert(first_failing(s, 4) == first_failing(s, 5));
        assert(s[5] == files.upgrade_effect_meta@);
        proof {
            lemma_first_failing_from(s, 5);
        }
        assert(table_loadable(s[5]));
        let upgrade_effect_meta = match load_table(prefix, SLK_UPGRADE_EFFECT_META_DATA, files.upgrade_effect_meta) {
            Ok(t) => t,
            Err(e) => {
                assert(first_failing(s, 5) == Some(5int));
                return Err(e);
            },
        };
        assert(first_failing(s, 5) == first_failing(s, 6));
        assert(s[6] == files.misc_meta@);
        proof {
            lemma_first_failing_from(s, 6);
        }
        assert(table_loadable(s[6]));
        let const_meta = match load_table(prefix, SLK_MISC_META_DATA, files.misc_meta) {
            Ok(t) => t,
            Err(e) => {
                assert(first_failing(s, 6) == Some(6int));
                return Err(e);
            },
        };
        assert(first_failing(s, 6) == first_failing(s, 7));
        assert(s[7] == files.skin_meta@);
        proof {
            lemma_first_failing_from(s, 7);
        }
        assert(table_loadable(s[7]));
        let ui_const_meta = match load_table(prefix, SLK_SKIN_META_DATA, files.skin_meta) {
            Ok(t) => t,
            Err(e) => {
                assert(first_failing(s, 7) == Some(7int));
                return Err(e);
            },
        };
        assert(first_failing(s, 7) == first_failing(s, 8));
        assert(s[8] == files.ability_buff_meta@);
        proof {
            lemma_first_failing_from(s, 8);
        }
        assert(table_loadable(s[8]));
        let ability_buff_meta = match load_table(prefix, SLK_ABILITY_BUFF_META_DATA, files.ability_buff_meta) {
            Ok(t) => t,
            Err(e) => {
                assert(first_failing(s, 8) == Some(8int));
                return Err(e);
            },
        };
        assert(first_failing(s, 8) == first_failing(s, 9));
        let mut unit_data = SLKData::new();
        assert(unit_data@ == unit_tables(s, 0));
        assert(s[9] == files.unit_data@);
        proof {
            lemma_first_failing_from(s, 9);
        }
        assert(mergeable(unit_tables(s, 0).0.dom().len() as u32, s[9]));
        match merge_table(&mut unit_data, prefix, SLK_UNIT_DATA, files.unit_data) {
            Ok(()) => {},
            Err(e) => {
                assert(first_failing(s, 9) == Some(9int));
                return Err(e);
            },
        }
        assert(unit_data@ == unit_tables(s, 1));
        assert(first_failing(s, 9) == first_failing(s, 10));
        assert(s[10] == files.unit_balance@);
        proof {
            lemma_first_failing_from(s, 10);
        }
        assert(mergeable(unit_tables(s, 1).0.dom().len() as u32, s[10]));
        match merge_table(&mut unit_data, prefix, SLK_UNIT_BALANCE, files.unit_balance) {
            Ok(()) => {},
            Err(e) => {
                assert(first_failing(s, 10) == Some(10int));
                return Err(e);
            },
        }
        assert(unit_data@ == unit_tables(s, 2));
        assert(first_failing(s, 10) == first_failing(s, 11));
        assert(s[11] == files.unit_ui@);
        proof {
            lemma_first_failing_from(s, 11);
        }
        assert(mergeable(unit_tables(s, 2).0.dom().len() as u32, s[11]));
        match merge_table(&mut unit_data, prefix, SLK_UNIT_UI, files.unit_ui) {
            Ok(()) => {},
            Err(e) => {
                assert(first_failing(s, 11) == Some(11int));
                return Err(e);
            },
        }
        assert(unit_data@ == unit_tables(s, 3));
        assert(first_failing(s, 11) == first_failing(s, 12));
        assert(s[12] == files.unit_abilities@);
        proof {
            lemma_first_failing_from(s, 12);
        }
        assert(mergeable(unit_tables(s, 3).0.dom().len() as u32, s[12]));
        match merge_table(&mut unit_data, prefix, SLK_UNIT_ABILITIES, files.unit_abilities) {
            Ok(()) => {},
            Err(e) => {
                assert(first_failing(s, 12) == Some(12int));
                return Err(e);
            },
        }
        assert(unit_data@ == unit_tables(s, 4));
        assert(first_failing(s, 12) == first_failing(s, 13));
        assert(s[13] == files.unit_weapons@);
        proof {
            lemma_first_failing_from(s, 13);
        }
        assert(mergeable(unit_tables(s, 4).0.dom().len() as u32, s[13]));
        match merge_table(&mut unit_data, prefix, SLK_UNIT_WEAPONS, files.unit_weapons) {
            Ok(()) => {},
            Err(e) => {
                assert(first_failing(s, 13) == Some(13int));
                return Err(e);
            },
        }
        assert(unit_data@ == unit_tables(s, 5));
        assert(first_failing(s, 13) == first_failing(s, 14));
        assert(s[14] == files.ability_data@);
        proof {
            lemma_first_failing_from(s, 14);
        }
        assert(table_loadable(s[14]));
        let ability_data = match load_table(prefix, SLK_ABILITY_DATA, files.ability_data) {
            Ok(t) => t,
            Err(e) => {
                assert(first_failing(s, 14) == Some(14int));
                return Err(e);
            },
        };
        assert(first_failing(s, 14) == first_failing(s, 15));
        assert(s[15] == files.upgrade_data@);
        proof {
            lemma_first_failing_from(s, 15);
        }
        assert(table_loadable(s[15]));
        let upgrade_data = match load_table(prefix, SLK_UPGRADE_DATA, files.upgrade_data) {
            Ok(t) => t,
            Err(e) => {
                assert(first_failing(s, 15) == Some(15int));
                return Err(e);
            },
        };
        assert(first_failing(s, 15) == first_failing(s, 16));
        assert(s[16] == files.doodads@);
        proof {
            lemma_first_failing_from(s, 16);
        }
        assert(table_loadable(s[16]));
        let doodad_effect_data = match load_table(prefix, SLK_DOODADS, files.doodads) {
            Ok(t) => t,
            Err(e) => {
                assert(first_failing(s, 16) == Some(16int));
                return Err(e);
            },
        };
        assert(first_failing(s, 16) == first_failing(s, 17));
        assert(s[17] == files.destructable_data@);
        proof {
            lemma_first_failing_from(s, 17);
        }
        assert(table_loadable(s[17]));
        let destructable_effect_data = match load_table(prefix, SLK_DESTRUCTABLE_DATA, files.destructable_data) {
            Ok(t) => t,
            Err(e) => {
                assert(first_failing(s, 17) == Some(17int));
                return Err(e);
            },
        };
        assert(first_failing(s, 17) == first_failing(s, 18));
        assert(first_failing(s, 18) is None);
        let res = GameData {
            trigger_data,
            unit_data,
            unit_meta,
            doodad_meta,
            destructable_meta,
            abilty_meta,
            upgrade_meta,
            upgrade_effect_meta,
            const_meta,
            ui_const_meta,
            ability_buff_meta,
            ability_data,
            upgrade_data,
            doodad_effect_data,
            destructable_effect_data,
        };
        assert(res.tables() =~= seq![
            slk_table(s[0]),
            slk_table(s[1]),
            slk_table(s[2]),
            slk_table(s[3]),
            slk_table(s[4]),
            slk_table(s[5]),
            slk_table(s[6]),
            slk_table(s[7]),
            slk_table(s[8]),
            unit_tables(s, 5),
            slk_table(s[14]),
            slk_table(s[15]),
            slk_table(s[16]),
            slk_table(s[17]),
        ]);
        Ok(res)
    }

    /// The trigger data table.
    pub fn get_trigger_data(&self) -> (res: &DataIni)
        ensures
            res@ == self.trigger(),
    {
        &self.trigger_data
    }
}


/// A copy of `v`.
fn copy_of(v: &Vec<u8>) -> (res: Vec<u8>)
    ensures
        res@ == v@,
{
    let res = v.clone();
    assert(res@ =~= v@);
    res
}

/// Whether the SLK bytes `contents` load.
fn doc_loads(contents: Vec<u8>) -> (res: bool)
    ensures
        res == (doc_load(contents@).1 is None),
{
    match DocumentAdapter::load(ScannerAdapter::open(contents)) {
        Ok(_) => true,
        Err(_) => false,
    }
}

impl GameData {
    /// Whether [`GameData::new`] can take `files`.
    #[verifier::rlimit(60)]
    #[verifier::spinoff_prover]
    pub fn can_new(files: &GameDataFiles) -> (res: bool)
        ensures
            res == game_files_loadable(slk_files(*files)),
    {
        let ghost s = slk_files(*files);
        assert(s[0] == files.unit_meta@);
        proof {
            lemma_first_failing_from(s, 0);
        }
        if !doc_loads(copy_of(&files.unit_meta)) {
            assert(first_failing(s, 0) == Some(0int));
            return true;
        }
        if !SLKData::can_load(copy_of(&files.unit_meta)) {
            return false;
        }
        assert(first_failing(s, 0) == first_failing(s, 1));
        assert(s[1] == files.doodad_meta@);
        proof {
            lemma_first_failing_from(s, 1);
        }
        if !doc_loads(copy_of(&files.doodad_meta)) {
            assert(first_failing(s, 1) == Some(1int));
            return true;
        }
        if !SLKData::can_load(copy_of(&files.doodad_meta)) {
            return false;
        }
        assert(first_failing(s, 1) == first_failing(s, 2));
        assert(s[2] == files.destructable_meta@);
        proof {
            lemma_first_failing_from(s, 2);
        }
        if !doc_loads(copy_of(&files.destructable_meta)) {
            assert(first_failing(s, 2) == Some(2int));
            return true;
        }
        if !SLKData::can_load(copy_of(&files.destructable_meta)) {
            return false;
        }
        assert(first_failing(s, 2) == first_failing(s, 3));
        assert(s[3] == files.ability_meta@);
        proof {
            lemma_first_failing_from(s, 3);
        }
        if !doc_loads(copy_of(&files.ability_meta)) {
            assert(first_failing(s, 3) == Some(3int));
            return true;
        }
        if !SLKData::can_load(copy_of(&files.ability_meta)) {
            return false;
        }
        assert(first_failing(s, 3) == first_failing(s, 4));
        assert(s[4] == files.upgrade_meta@);
        proof {
            lemma_first_failing_from(s, 4);
        }
        if !doc_loads(copy_of(&files.upgrade_meta)) {
            assert(first_failing(s, 4) == Some(4int));
            return true;
        }
        if !SLKData::can_load(copy_of(&files.upgrade_meta)) {
            return false;
        }
        assert(first_failing(s, 4) == first_failing(s, 5));
        assert(s[5] == files.upgrade_effect_meta@);
        proof {
            lemma_first_failing_from(s, 5);
        }
        if !doc_loads(copy_of(&files.upgrade_effect_meta)) {
            assert(first_failing(s, 5) == Some(5int));
            return true;
        }
        if !SLKData::can_load(copy_of(&files.upgrade_effect_meta)) {
            return false;
        }
        assert(first_failing(s, 5) == first_failing(s, 6));
        assert(s[6] == files.misc_meta@);
        proof {
            lemma_first_failing_from(s, 6);
        }
        if !doc_loads(copy_of(&files.misc_meta)) {
            assert(first_failing(s, 6) == Some(6int));
            return true;
        }
        if !SLKData::can_load(copy_of(&files.misc_meta)) {
            return false;
        }
        assert(first_failing(s, 6) == first_failing(s, 7));
        assert(s[7] == files.skin_meta@);
        proof {
            lemma_first_failing_from(s, 7);
        }
        if !doc_loads(copy_of(&files.skin_meta)) {
            assert(first_failing(s, 7) == Some(7int));
            return true;
        }
        if !SLKData::can_load(copy_of(&files.skin_meta)) {
            return false;
        }
        assert(first_failing(s, 7) == first_failing(s, 8));
        assert(s[8] == files.ability_buff_meta@);
        proof {
            lemma_first_failing_from(s, 8);
        }
        if !doc_loads(copy_of(&files.ability_buff_meta)) {
            assert(first_failing(s, 8) == Some(8int));
            return true;
        }
        if !SLKData::can_load(copy_of(&files.ability_buff_meta)) {
            return false;
        }
        assert(first_failing(s, 8) == first_failing(s, 9));
        let mut unit = SLKData::new();
        assert(unit@ == unit_tables(s, 0));
        assert(s[9] == files.unit_data@);
        proof {
            lemma_first_failing_from(s, 9);
        }
        if !doc_loads(copy_of(&files.unit_data)) {
            assert(first_failing(s, 9) == Some(9int));
            return true;
        }
        if !unit.can_merge(copy_of(&files.unit_data)) {
            return false;
        }
        let _ = unit.merge("", copy_of(&files.unit_data));
        assert(unit@ == unit_tables(s, 1));
        assert(first_failing(s, 9) == first_failing(s, 10));
        assert(s[10] == files.unit_balance@);
        proof {
            lemma_first_failing_from(s, 10);
        }
        if !doc_loads(copy_of(&files.unit_balance)) {
            assert(first_failing(s, 10) == Some(10int));
            return true;
        }
        if !unit.can_merge(copy_of(&files.unit_balance)) {
            return false;
        }
        let _ = unit.merge("", copy_of(&files.unit_balance));
        assert(unit@ == unit_tables(s, 2));
        assert(first_failing(s, 10) == first_failing(s, 11));
        assert(s[11] == files.unit_ui@);
        proof {
            lemma_first_failing_from(s, 11);
        }
        if !doc_loads(copy_of(&files.unit_ui)) {
            assert(first_failing(s, 11) == Some(11int));
            return true;
        }
        if !unit.can_merge(copy_of(&files.unit_ui)) {
            return false;
        }
        let _ = unit.merge("", copy_of(&files.unit_ui));
        assert(unit@ == unit_tables(s, 3));
        assert(first_failing(s, 11) == first_failing(s, 12));
        assert(s[12] == files.unit_abilities@);
        proof {
            lemma_first_failing_from(s, 12);
        }
        if !doc_loads(copy_of(&files.unit_abilities)) {
            assert(first_failing(s, 12) == Some(12int));
            return true;
        }
        if !unit.can_merge(copy_of(&files.unit_abilities)) {
            return false;
        }
        let _ = unit.merge("", copy_of(&files.unit_abilities));
        assert(unit@ == unit_tables(s, 4));
        assert(first_failing(s, 12) == first_failing(s, 13));
        assert(s[13] == files.unit_weapons@);
        proof {
            lemma_first_failing_from(s, 13);
        }
        if !doc_loads(copy_of(&files.unit_weapons)) {
            assert(first_failing(s, 13) == Some(13int));
            return true;
        }
        if !unit.can_merge(copy_of(&files.unit_weapons)) {
            return false;
        }
        let _ = unit.merge("", copy_of(&files.unit_weapons));
        assert(unit@ == unit_tables(s, 5));
        assert(first_failing(s, 13) == first_failing(s, 14));
        assert(s[14] == files.ability_data@);
        proof {
            lemma_first_failing_from(s, 14);
        }
        if !doc_loads(copy_of(&files.ability_data)) {
            assert(first_failing(s, 14) == Some(14int));
            return true;
        }
        if !SLKData::can_load(copy_of(&files.ability_data)) {
            return false;
        }
        assert(first_failing(s, 14) == first_failing(s, 15));
        assert(s[15] == files.upgrade_data@);
        proof {
            lemma_first_failing_from(s, 15);
        }
        if !doc_loads(copy_of(&files.upgrade_data)) {
            assert(first_failing(s, 15) == Some(15int));
            return true;
        }
        if !SLKData::can_load(copy_of(&files.upgrade_data)) {
            return false;
        }
        assert(first_failing(s, 15) == first_failing(s, 16));
        assert(s[16] == files.doodads@);
        proof {
            lemma_first_failing_from(s, 16);
        }
        if !doc_loads(copy_of(&files.doodads)) {
            assert(first_failing(s, 16) == Some(16int));
            return true;
        }
        if !SLKData::can_load(copy_of(&files.doodads)) {
            return false;
        }
        assert(first_failing(s, 16) == first_failing(s, 17));
        assert(s[17] == files.destructable_data@);
        proof {
            lemma_first_failing_from(s, 17);
        }
        if !doc_loads(copy_of(&files.destructable_data)) {
            assert(first_failing(s, 17) == Some(17int));
            return true;
        }
        if !SLKData::can_load(copy_of(&files.destructable_data)) {
            return false;
        }
        assert(first_failing(s, 17) == first_failing(s, 18));
        assert(first_failing(s, 18) is None);
        true
    }
}

} // verus!
