//! Finding map files (`.w3m`, `.w3x`) in the map directories of a game
//! installation: the directories of Blizzard's maps (`Scenario`,
//! `FrozenThrone`) or of downloaded maps (`Download`) are searched, other
//! directories are not. The caller lists the entries of the file system.

use vstd::prelude::*;

verus! {

/// An entry of a map directory tree: its path, last component, kind,
/// extension, and, for a directory that is searched, its own entries.
#[derive(Debug)]
pub struct DirEntry {
    pub path: String,
    pub name: String,
    pub is_dir: bool,
    pub extension: Option<String>,
    pub children: Vec<DirEntry>,
}

/// Whether an entry named `name` is a directory of Blizzard's maps.
pub open spec fn blizzard_dir(is_dir: bool, name: Seq<char>) -> bool {
    is_dir && (name == "Scenario"@ || name == "FrozenThrone"@)
}

/// Whether an entry named `name` is a directory of downloaded maps.
pub open spec fn custom_dir(is_dir: bool, name: Seq<char>) -> bool {
    is_dir && name == "Download"@
}

/// Whether entry `e` is searched when looking for Blizzard's maps
/// (`blizzard`) or for downloaded ones.
pub open spec fn searched(e: DirEntry, blizzard: bool) -> bool {
    if blizzard {
        blizzard_dir(e.is_dir, e.name@)
    } else {
        custom_dir(e.is_dir, e.name@)
    }
}

/// Whether entry `e` is a map file.
pub open spec fn is_map_file(e: DirEntry) -> bool {
    e.extension matches Some(x) && (x@ == "w3m"@ || x@ == "w3x"@)
}

/// The paths of the maps found in the entries `s`, in order.
pub open spec fn maps_of(s: Seq<DirEntry>, blizzard: bool) -> Seq<Seq<char>>
    decreases s,
{
    if s.len() == 0 {
        Seq::empty()
    } else {
        maps_of(s.drop_last(), blizzard) + entry_maps(s.last(), blizzard)
    }
}

/// The paths of the maps found at entry `e`: those inside it when it is
/// searched, its own when it is a map file.
pub open spec fn entry_maps(e: DirEntry, blizzard: bool) -> Seq<Seq<char>>
    decreases e,
{
    if searched(e, blizzard) {
        maps_of(e.children@, blizzard)
    } else if is_map_file(e) {
        seq![e.path@]
    } else {
        Seq::empty()
    }
}

/// The texts of `v`.
pub open spec fn strings_view(v: Seq<String>) -> Seq<Seq<char>> {
    v.map_values(|s: String| s@)
}

/// Whether `a` and `b` hold the same text.
fn same_text(a: &str, b: &str) -> (res: bool)
    ensures
        res == (a@ == b@),
{
    String::from_str(a) == String::from_str(b)
}

/// Whether an entry named `name` is a directory of Blizzard's maps
/// (`Scenario` or `FrozenThrone`).
pub fn is_blizzard_maps(is_dir: bool, name: &str) -> (res: bool)
    ensures
        res == blizzard_dir(is_dir, name@),
{
    is_dir && (same_text(name, "Scenario") || same_text(name, "FrozenThrone"))
}

/// Whether an entry named `name` is a directory of downloaded maps
/// (`Download`).
pub fn is_custom_maps(is_dir: bool, name: &str) -> (res: bool)
    ensures
        res == custom_dir(is_dir, name@),
{
    is_dir && same_text(name, "Download")
}

/// Appends to `acc` the paths of the maps found in `entries`.
fn collect_maps(entries: &Vec<DirEntry>, blizzard: bool, acc: &mut Vec<String>)
    ensures
        strings_view(final(acc)@) == strings_view(old(acc)@) + maps_of(entries@, blizzard),
    decreases entries@,
{
    let ghost start = strings_view(acc@);
    let mut k: usize = 0;
    while k < entries.len()
        invariant
            k <= entries@.len(),
            strings_view(acc@) == start + maps_of(entries@.take(k as int), blizzard),
        decreases entries@.len() - k,
    {
        let e = &entries[k];
        assert(entries@.take(k + 1).drop_last() == entries@.take(k as int));
        assert(entries@.take(k + 1).last() == *e);
        let ghost mid = strings_view(acc@);
        let search = if blizzard {
            is_blizzard_maps(e.is_dir, e.name.as_str())
        } else {
            is_custom_maps(e.is_dir, e.name.as_str())
        };
        if search {
            collect_maps(&e.children, blizzard, acc);
        } else {
            let is_map = match &e.extension {
                Some(x) => same_text(x.as_str(), "w3m") || same_text(x.as_str(), "w3x"),
                None => false,
            };
            if is_map {
                let ghost a0 = acc@;
                acc.push(e.path.clone());
                assert(strings_view(acc@) =~= strings_view(a0) + seq![e.path@]);
            } else {
                assert(strings_view(acc@) =~= mid + Seq::<Seq<char>>::empty());
            }
        }
        assert(strings_view(acc@) == mid + entry_maps(*e, blizzard));
        assert(maps_of(entries@.take(k + 1), blizzard) == maps_of(entries@.take(k as int), blizzard)
            + entry_maps(*e, blizzard));
        assert(strings_view(acc@) =~= start + maps_of(entries@.take(k + 1), blizzard));
        k = k + 1;
    }
    assert(entries@.take(entries@.len() as int) == entries@);
}

/// The paths of the maps found in `entries`, searching the directories of
/// Blizzard's maps.
pub fn paths_blizzard_maps(entries: &Vec<DirEntry>) -> (res: Vec<String>)
    ensures
        strings_view(res@) == maps_of(entries@, true),
{
    let mut acc: Vec<String> = Vec::new();
    collect_maps(entries, true, &mut acc);
    assert(strings_view(acc@) =~= maps_of(entries@, true));
    acc
}

/// The paths of the maps found in `entries`, searching the directories of
/// downloaded maps.
pub fn paths_custom_maps(entries: &Vec<DirEntry>) -> (res: Vec<String>)
    ensures
        strings_view(res@) == maps_of(entries@, false),
{
    let mut acc: Vec<String> = Vec::new();
    collect_maps(entries, false, &mut acc);
    assert(strings_view(acc@) =~= maps_of(entries@, false));
    acc
}

} // verus!
