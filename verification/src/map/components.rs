//! The files of a map archive that the library models as typed components,
//! and the other entries that are carried over as they are.

use vstd::prelude::*;
use vstd::utf8::{decode_utf8, valid_utf8};

use crate::map::camera_file::CameraFile;
use crate::formats::binary_reader::string_from_utf8;
use crate::map::chars::{chars_of, string_of};
use crate::map::data_ini::{find_char, find_char_of};
use crate::map::custom_datas::{AbilityKind, BuffKind, DestructableKind, ItemKind, UnitKind, UpgradeKind};
use crate::map::doodad_map::DoodadMap;
use crate::map::import_file::ImportFile;
use crate::map::map_string_file::MapStringFile;
use crate::map::minimap_file::MinimapFile;
use crate::map::mmp_file::MMPFile;
use crate::map::pathmap_file::PathMapFile;
use crate::map::region_file::RegionFile;
use crate::map::shadowmap_file::ShadowMapFile;
use crate::map::sound_file::SoundFile;
use crate::map::terrain_file::TerrainFile;
use crate::map::trigger_jass_file::TriggerJassFile;
use crate::map::triggers::TriggersFile;
use crate::map::unit_map::UnitItemMap;
use crate::map::w3i_file::W3iFile;

verus! {

/// Name of the custom doodads table in the map archive.
pub const CUSTOM_DOODADS_FILE_NAME: &'static str = "war3map.w3d";

/// The names of the archive files modelled as typed components.
pub open spec fn known_component_names() -> Seq<Seq<char>> {
    seq![
        W3iFile::FILE_NAME@,
        TerrainFile::FILE_NAME@,
        MMPFile::FILE_NAME@,
        MinimapFile::FILE_NAME@,
        ShadowMapFile::FILE_NAME@,
        MapStringFile::FILE_NAME@,
        TriggerJassFile::FILE_NAME@,
        PathMapFile::FILE_NAME@,
        TriggersFile::FILE_NAME@,
        DoodadMap::FILE_NAME@,
        UnitItemMap::FILE_NAME@,
        CameraFile::FILE_NAME@,
        RegionFile::FILE_NAME@,
        SoundFile::FILE_NAME@,
        ImportFile::FILE_NAME@,
        UnitKind::FILE_NAME@,
        AbilityKind::FILE_NAME@,
        BuffKind::FILE_NAME@,
        CUSTOM_DOODADS_FILE_NAME@,
        DestructableKind::FILE_NAME@,
        ItemKind::FILE_NAME@,
        UpgradeKind::FILE_NAME@,
    ]
}

/// Whether two characters are equal once ASCII upper case letters are
/// taken as their lower case.
pub open spec fn same_ignoring_ascii_case(a: char, b: char) -> bool {
    ||| a == b
    ||| ('A' <= a <= 'Z' && b as u32 == a as u32 + 32)
    ||| ('A' <= b <= 'Z' && a as u32 == b as u32 + 32)
}

/// Whether two names are equal but for the case of ASCII letters.
pub open spec fn eq_ignoring_ascii_case(a: Seq<char>, b: Seq<char>) -> bool {
    &&& a.len() == b.len()
    &&& forall|i: int| 0 <= i < a.len() ==> #[trigger] same_ignoring_ascii_case(a[i], b[i])
}

/// Whether the archive entry `name` is carried over as it is: it is no
/// archive-internal file (those start with `(`) and, ASCII case aside, no
/// component file.
pub open spec fn is_extra(name: Seq<char>) -> bool {
    &&& !(name.len() > 0 && name[0] == '(')
    &&& forall|k: int| 0 <= k < known_component_names().len() ==> !eq_ignoring_ascii_case(
        #[trigger] known_component_names()[k],
        name,
    )
}

/// The names of the archive files modelled as typed components.
pub fn known_component_files() -> (res: Vec<&'static str>)
    ensures
        res@.len() == known_component_names().len(),
        forall|k: int| 0 <= k < res@.len() ==> #[trigger] res@[k]@ == known_component_names()[k],
{
    let res = vec![
        W3iFile::FILE_NAME,
        TerrainFile::FILE_NAME,
        MMPFile::FILE_NAME,
        MinimapFile::FILE_NAME,
        ShadowMapFile::FILE_NAME,
        MapStringFile::FILE_NAME,
        TriggerJassFile::FILE_NAME,
        PathMapFile::FILE_NAME,
        TriggersFile::FILE_NAME,
        DoodadMap::FILE_NAME,
        UnitItemMap::FILE_NAME,
        CameraFile::FILE_NAME,
        RegionFile::FILE_NAME,
        SoundFile::FILE_NAME,
        ImportFile::FILE_NAME,
        UnitKind::FILE_NAME,
        AbilityKind::FILE_NAME,
        BuffKind::FILE_NAME,
        CUSTOM_DOODADS_FILE_NAME,
        DestructableKind::FILE_NAME,
        ItemKind::FILE_NAME,
        UpgradeKind::FILE_NAME,
    ];
    res
}

/// Decides [`same_ignoring_ascii_case`].
fn chars_match(a: char, b: char) -> (res: bool)
    ensures
        res == same_ignoring_ascii_case(a, b),
{
    let x = a as u32;
    let y = b as u32;
    x == y || ('A' <= a && a <= 'Z' && y == x + 32) || ('A' <= b && b <= 'Z' && x == y + 32)
}

/// Decides [`eq_ignoring_ascii_case`].
fn names_match(a: &Vec<char>, b: &Vec<char>) -> (res: bool)
    ensures
        res == eq_ignoring_ascii_case(a@, b@),
{
    if a.len() != b.len() {
        return false;
    }
    let mut i: usize = 0;
    while i < a.len()
        invariant
            a@.len() == b@.len(),
            i <= a@.len(),
            forall|j: int| 0 <= j < i ==> #[trigger] same_ignoring_ascii_case(a@[j], b@[j]),
        decreases a@.len() - i,
    {
        if !chars_match(a[i], b[i]) {
            return false;
        }
        i = i + 1;
    }
    true
}

/// Whether the archive entry `name` is carried over as it is when a map is
/// repacked (see [`is_extra`]).
pub fn is_extra_file(name: &str) -> (res: bool)
    ensures
        res == is_extra(name@),
{
    let n = chars_of(name);
    if n.len() > 0 && n[0] == '(' {
        return false;
    }
    let known = known_component_files();
    let mut k: usize = 0;
    while k < known.len()
        invariant
            k <= known@.len(),
            n@ == name@,
            known@.len() == known_component_names().len(),
            forall|j: int| 0 <= j < known@.len() ==> #[trigger] known@[j]@ == known_component_names()[j],
            forall|j: int| 0 <= j < k ==> !eq_ignoring_ascii_case(#[trigger] known_component_names()[j], name@),
        decreases known@.len() - k,
    {
        let kn = chars_of(known[k]);
        if names_match(&kn, &n) {
            return false;
        }
        k = k + 1;
    }
    true
}


/// The non-empty lines of `t` from `i`: pieces between `\n`, each one
/// that a `\n` ends losing a `\r` before it.
pub open spec fn listed_names(t: Seq<char>, i: int) -> Seq<Seq<char>>
    decreases t.len() - i,
{
    if i < 0 || i > t.len() {
        Seq::empty()
    } else {
        let n = find_char(t, '\n', i);
        if n >= t.len() {
            let seg = t.subrange(i, t.len() as int);
            if seg.len() > 0 {
                seq![seg]
            } else {
                Seq::empty()
            }
        } else {
            let end = if n > i && t[n - 1] == '\r' {
                n - 1
            } else {
                n
            };
            let seg = t.subrange(i, end);
            proof {
                lemma_find_char_bounds(t, '\n', i);
            }
            (if seg.len() > 0 {
                seq![seg]
            } else {
                Seq::empty()
            }) + listed_names(t, n + 1)
        }
    }
}

/// [`find_char`] from `i` stays at or after `i`.
pub proof fn lemma_find_char_bounds(t: Seq<char>, c: char, i: int)
    requires
        0 <= i <= t.len(),
    ensures
        i <= find_char(t, c, i) <= t.len(),
    decreases t.len() - i,
{
    if i < t.len() && t[i] != c {
        lemma_find_char_bounds(t, c, i + 1);
    }
}

/// The names listed in an archive's `(listfile)` with contents `bytes`: its
/// non-empty lines (see [`listed_names`]); none when it is not UTF-8.
pub fn listfile_names(bytes: Vec<u8>) -> (res: Option<Vec<String>>)
    ensures
        res is Some <==> valid_utf8(bytes@),
        res matches Some(v) ==> v@.map_values(|s: String| s@) == listed_names(decode_utf8(bytes@), 0),
{
    let ghost b = bytes@;
    let text = match string_from_utf8(bytes) {
        Ok(t) => t,
        Err(_) => {
            return None;
        },
    };
    let t = chars_of(text.as_str());
    let mut out: Vec<String> = Vec::new();
    let mut i: usize = 0;
    proof {
        assert(out@.map_values(|s: String| s@) + listed_names(t@, 0) =~= listed_names(t@, 0));
    }
    loop
        invariant
            i <= t@.len(),
            t@ == text@,
            valid_utf8(b),
            b == bytes@,
            text@ == decode_utf8(b),
            out@.map_values(|s: String| s@) + listed_names(t@, i as int) == listed_names(t@, 0),
        decreases t@.len() - i,
    {
        let ghost before = out@.map_values(|s: String| s@);
        let n = find_char_of(&t, '\n', i);
        if n >= t.len() {
            if i < t.len() {
                let seg = string_of(t.as_slice(), i, t.len());
                out.push(seg);
                proof {
                    assert(out@.map_values(|s: String| s@) =~= before.push(seg@));
                    assert(before + listed_names(t@, i as int) =~= out@.map_values(|s: String| s@));
                }
            } else {
                proof {
                    assert(before + listed_names(t@, i as int) =~= before);
                }
            }
            return Some(out);
        }
        let end = if n > i && t[n - 1] == '\r' {
            n - 1
        } else {
            n
        };
        if end > i {
            let seg = string_of(t.as_slice(), i, end);
            out.push(seg);
            proof {
                assert(out@.map_values(|s: String| s@) =~= before.push(seg@));
                assert(before + listed_names(t@, i as int) =~= out@.map_values(|s: String| s@)
                    + listed_names(t@, n + 1));
            }
        } else {
            proof {
                assert(before + listed_names(t@, i as int) =~= before + listed_names(t@, n + 1));
            }
        }
        i = n + 1;
    }
}

} // verus!
