//! The components of a map and the files that saving it writes: which
//! files, in which order, with which bytes, and when saving is refused.

use vstd::prelude::*;

use crate::formats::binary_writer::{write_at, BinaryWriter};
use crate::formats::blp::{alpha_list, blp_bytes};
use crate::formats::GameVersion;
use crate::map::camera_file::{camera_file_bytes, CameraFile};
use crate::map::components::CUSTOM_DOODADS_FILE_NAME;
use crate::map::custom_datas::{
    objects_writable, table_bytes, CustomAbilityFile, CustomBuffFile, CustomDestructableFile, CustomItemFile,
    CustomObjectKind, CustomObjectsFile, CustomUnitFile, CustomUpgradeFile,
};
use crate::map::doodad_map::{doodad_map_bytes, DoodadMap};
use crate::map::error::MapError;
use crate::map::import_file::{import_bytes, ImportFile};
use crate::map::map_string_file::MapStringFile;
use crate::map::minimap_file::MinimapFile;
use crate::map::mmp_file::{mmp_bytes, MMPFile};
use crate::map::pathmap_file::{pathmap_bytes, PathMapFile};
use crate::map::region_file::{region_file_bytes, region_writable, RegionFile};
use crate::map::shadowmap_file::{shadow_byte, ShadowMapFile, ShadowType};
use crate::map::sound_file::{sound_file_bytes, sound_writable, SoundFile};
use crate::map::terrain_file::{terrain_bytes, TerrainFile};
use crate::map::trigger_jass_file::{jass_bytes, TriggerJassFile};
use crate::map::triggers::trigger_data::c_text_ok;
use crate::map::unit_map::{unit_map_bytes, UnitItemMap};

verus! {

/// A file to save: its name and its bytes, as plain values.
pub type FileView = (Seq<char>, Seq<u8>);

/// The names and bytes of the files `s`.
pub open spec fn file_views(s: Seq<(String, Vec<u8>)>) -> Seq<FileView> {
    s.map_values(|f: (String, Vec<u8>)| (f.0@, f.1@))
}

/// Saving is refused while some archive entry could not be read on open:
/// writing the archive would drop it.
pub fn repack_refusal(unreadable_files: &Vec<String>) -> (res: Result<(), MapError>)
    ensures
        res is Ok <==> unreadable_files@.len() == 0,
        res matches Err(e) ==> (e matches MapError::UnreadableArchiveEntries(u) && u@ == unreadable_files@),
{
    if unreadable_files.len() == 0 {
        return Ok(());
    }
    let mut names: Vec<String> = Vec::new();
    let mut k: usize = 0;
    while k < unreadable_files.len()
        invariant
            k <= unreadable_files@.len(),
            names@ == unreadable_files@.take(k as int),
        decreases unreadable_files@.len() - k,
    {
        names.push(unreadable_files[k].clone());
        assert(unreadable_files@.take(k + 1) == unreadable_files@.take(k as int).push(unreadable_files@[k as int]));
        k = k + 1;
    }
    assert(unreadable_files@.take(unreadable_files@.len() as int) == unreadable_files@);
    Err(MapError::UnreadableArchiveEntries(names))
}

/// The typed components of a map (its info file apart), the custom
/// doodads table as stored, the other archive entries carried over as they
/// are, and the entries that could not be read on open.
#[derive(Debug)]
pub struct MapComponents {
    pub terrain: TerrainFile,
    pub menu_minimap: MMPFile,
    pub minimap: MinimapFile,
    pub shaders: ShadowMapFile,
    pub strings: MapStringFile,
    pub custom_scripts: TriggerJassFile,
    pub path_map: PathMapFile,
    pub doodad_map: DoodadMap,
    pub unit_item_map: UnitItemMap,
    pub cameras: Option<CameraFile>,
    pub regions: Option<RegionFile>,
    pub sounds: Option<SoundFile>,
    pub import_listing: Option<ImportFile>,
    pub unit_datas: Option<CustomUnitFile>,
    pub ability_datas: Option<CustomAbilityFile>,
    pub buff_datas: Option<CustomBuffFile>,
    pub custom_doodads: Option<Vec<u8>>,
    pub destructable_datas: Option<CustomDestructableFile>,
    pub item_datas: Option<CustomItemFile>,
    pub upgrade_datas: Option<CustomUpgradeFile>,
    pub extra_files: Vec<(String, Vec<u8>)>,
    pub unreadable_files: Vec<String>,
}

/// The file of custom object table `f`, when there is one.
pub open spec fn table_file<K: CustomObjectKind>(f: Option<CustomObjectsFile<K>>) -> Seq<FileView> {
    match f {
        Some(t) => seq![(K::file_name_text(), table_bytes(t.version, t.original_objects@, t.custom_objects@, K::level_data()))],
        None => Seq::empty(),
    }
}

/// Whether custom object table `f`, when there is one, can be stored for
/// version `v`.
pub open spec fn table_ok<K: CustomObjectKind>(f: Option<CustomObjectsFile<K>>, v: GameVersion) -> bool {
    match f {
        Some(t) => objects_writable(t.original_objects@, v, K::level_data()) && objects_writable(
            t.custom_objects@,
            v,
            K::level_data(),
        ),
        None => true,
    }
}

/// Whether the bytes of custom object table `f` fit in memory.
pub open spec fn table_fits<K: CustomObjectKind>(f: Option<CustomObjectsFile<K>>) -> bool {
    match f {
        Some(t) => table_bytes(t.version, t.original_objects@, t.custom_objects@, K::level_data()).len()
            <= usize::MAX,
        None => true,
    }
}

impl MapComponents {
    /// Whether every file of the map fits in memory and can be written by
    /// this library: no placement or custom script of the remastered game,
    /// and a paletted minimap with alpha has alpha indexes for each mipmap.
    pub open spec fn fits(&self) -> bool {
        &&& terrain_bytes(self.terrain).len() <= usize::MAX
        &&& mmp_bytes(self.menu_minimap.unknown, self.menu_minimap.dataset_views()).len() <= usize::MAX
        &&& blp_bytes(self.minimap.image(), 0).len() <= usize::MAX
        &&& (self.minimap.image().compression is PALETTE && alpha_list(self.minimap.image().picture_type)
            ==> self.minimap.image().palette_rgb_indexes@.len()
            <= self.minimap.image().palette_alpha_indexes@.len())
        &&& self.strings.stored_len() <= usize::MAX
        &&& self.custom_scripts.version != GameVersion::Reforged
        &&& jass_bytes(self.custom_scripts@).len() <= usize::MAX
        &&& self.path_map.fits()
        &&& self.doodad_map.version != GameVersion::Reforged
        &&& doodad_map_bytes(self.doodad_map).len() <= usize::MAX
        &&& self.unit_item_map.version != GameVersion::Reforged
        &&& unit_map_bytes(self.unit_item_map).len() <= usize::MAX
        &&& (self.cameras matches Some(f) ==> camera_file_bytes(f).len() <= usize::MAX)
        &&& (self.regions matches Some(f) ==> region_file_bytes(f).len() <= usize::MAX)
        &&& (self.sounds matches Some(f) ==> sound_file_bytes(f).len() <= usize::MAX)
        &&& (self.import_listing matches Some(f) ==> import_bytes(f).len() <= usize::MAX)
        &&& table_fits(self.unit_datas)
        &&& table_fits(self.ability_datas)
        &&& table_fits(self.buff_datas)
        &&& table_fits(self.destructable_datas)
        &&& table_fits(self.item_datas)
        &&& table_fits(self.upgrade_datas)
    }

    /// Whether every file of the map can be stored for version `v`: texts
    /// without NUL where the format ends them with one, and custom object
    /// values of types that their tables hold.
    pub open spec fn writable(&self, v: GameVersion) -> bool {
        &&& (self.custom_scripts.version == GameVersion::RoC || c_text_ok(self.custom_scripts.global_comment@))
        &&& (self.cameras matches Some(f) ==> forall|i: int|
            0 <= i < f.cameras@.len() ==> #[trigger] c_text_ok(f.cameras@[i].name@))
        &&& (self.regions matches Some(f) ==> forall|i: int|
            0 <= i < f.regions@.len() ==> #[trigger] region_writable(f.regions@[i]))
        &&& (self.sounds matches Some(f) ==> forall|i: int|
            0 <= i < f.sounds@.len() ==> #[trigger] sound_writable(f.sounds@[i]))
        &&& table_ok(self.unit_datas, v)
        &&& table_ok(self.ability_datas, v)
        &&& table_ok(self.buff_datas, v)
        &&& table_ok(self.destructable_datas, v)
        &&& table_ok(self.item_datas, v)
        &&& table_ok(self.upgrade_datas, v)
    }

    /// The files of the components that every map has, in the order in
    /// which saving writes them.
    pub open spec fn fixed_files(&self) -> Seq<FileView> {
        seq![
            (TerrainFile::FILE_NAME@, terrain_bytes(self.terrain)),
            (MMPFile::FILE_NAME@, mmp_bytes(self.menu_minimap.unknown, self.menu_minimap.dataset_views())),
            (MinimapFile::FILE_NAME@, blp_bytes(self.minimap.image(), 0)),
            (ShadowMapFile::FILE_NAME@, self.shaders.shaders@.map_values(|s: ShadowType| shadow_byte(s))),
            (MapStringFile::FILE_NAME@, self.strings.stored()),
            (TriggerJassFile::FILE_NAME@, jass_bytes(self.custom_scripts@)),
            (PathMapFile::FILE_NAME@, pathmap_bytes(self.path_map)),
            (DoodadMap::FILE_NAME@, doodad_map_bytes(self.doodad_map)),
            (UnitItemMap::FILE_NAME@, unit_map_bytes(self.unit_item_map)),
        ]
    }

    /// The files of the cameras, regions, sounds and import list that the
    /// map has, in this order.
    pub open spec fn optional_files(&self) -> Seq<FileView> {
        (match self.cameras {
            Some(f) => seq![(CameraFile::FILE_NAME@, camera_file_bytes(f))],
            None => Seq::empty(),
        }) + match self.regions {
            Some(f) => seq![(RegionFile::FILE_NAME@, region_file_bytes(f))],
            None => Seq::empty(),
        } + match self.sounds {
            Some(f) => seq![(SoundFile::FILE_NAME@, sound_file_bytes(f))],
            None => Seq::empty(),
        } + match self.import_listing {
            Some(f) => seq![(ImportFile::FILE_NAME@, import_bytes(f))],
            None => Seq::empty(),
        }
    }

    /// The files of the custom object tables that the map has, the custom
    /// doodads table among them as stored, in the order in which saving
    /// writes them.
    pub open spec fn table_files(&self) -> Seq<FileView> {
        table_file(self.unit_datas) + table_file(self.ability_datas) + table_file(self.buff_datas)
            + match self.custom_doodads {
            Some(b) => seq![(CUSTOM_DOODADS_FILE_NAME@, b@)],
            None => Seq::empty(),
        } + table_file(self.destructable_datas) + table_file(self.item_datas) + table_file(
            self.upgrade_datas,
        )
    }

    /// The files that saving the map writes after its info file, in order:
    /// the components that every map has, then those it may have, then the
    /// other archive entries as they are.
    pub open spec fn files(&self) -> Seq<FileView> {
        self.fixed_files() + self.optional_files() + self.table_files() + file_views(self.extra_files@)
    }
}

fn push_file(out: &mut Vec<(String, Vec<u8>)>, name: &str, bytes: Vec<u8>)
    ensures
        file_views(final(out)@) == file_views(old(out)@).push((name@, bytes@)),
{
    let n = String::from_str(name);
    out.push((n, bytes));
    assert(file_views(out@) =~= file_views(old(out)@).push((name@, bytes@)));
}

fn push_table<K: CustomObjectKind>(
    out: &mut Vec<(String, Vec<u8>)>,
    f: &Option<CustomObjectsFile<K>>,
    v: &GameVersion,
) -> (res: Result<(), MapError>)
    requires
        table_fits(*f),
    ensures
        res is Ok <==> table_ok(*f, *v),
        res is Ok ==> file_views(final(out)@) == file_views(old(out)@) + table_file(*f),
{
    match f {
        Some(t) => {
            let w = match t.prepare_write(v) {
                Ok(w) => w,
                Err(e) => {
                    return Err(e);
                },
            };
            push_file(out, K::file_name(), w.into_buffer());
            Ok(())
        },
        None => {
            assert(file_views(old(out)@) + table_file(*f) =~= file_views(old(out)@));
            Ok(())
        },
    }
}

impl MapComponents {
    #[verifier::rlimit(100)]
    #[verifier::spinoff_prover]
    fn push_fixed_files(&self, out: &mut Vec<(String, Vec<u8>)>) -> (res: Result<(), MapError>)
        requires
            self.fits(),
        ensures
            res is Ok <==> (self.custom_scripts.version == GameVersion::RoC || c_text_ok(
                self.custom_scripts.global_comment@,
            )),
            res is Ok ==> file_views(final(out)@) == file_views(old(out)@) + self.fixed_files(),
    {
        let ghost s0 = file_views(out@);
        let w = match self.terrain.prepare_write() {
            Ok(w) => w,
            Err(e) => {
                return Err(e);
            },
        };
        push_file(out, TerrainFile::FILE_NAME, w.into_buffer());
        let w = match self.menu_minimap.prepare_write() {
            Ok(w) => w,
            Err(e) => {
                return Err(e);
            },
        };
        push_file(out, MMPFile::FILE_NAME, w.into_buffer());
        let w = match self.minimap.prepare_write() {
            Ok(w) => w,
            Err(e) => {
                return Err(e);
            },
        };
        push_file(out, MinimapFile::FILE_NAME, w.into_buffer());
        let w = match self.shaders.prepare_write() {
            Ok(w) => w,
            Err(e) => {
                return Err(e);
            },
        };
        push_file(out, ShadowMapFile::FILE_NAME, w.into_buffer());
        let w = match self.strings.prepare_write() {
            Ok(w) => w,
            Err(e) => {
                return Err(e);
            },
        };
        push_file(out, MapStringFile::FILE_NAME, w.into_buffer());
        let mut w = BinaryWriter::new();
        match self.custom_scripts.write(&mut w) {
            Ok(()) => {},
            Err(e) => {
                return Err(MapError::WriteFile(String::from_str(TriggerJassFile::FILE_NAME), e));
            },
        }
        assert(write_at(Seq::empty(), 0, jass_bytes(self.custom_scripts@)) =~= jass_bytes(self.custom_scripts@));
        push_file(out, TriggerJassFile::FILE_NAME, w.into_buffer());
        let w = match self.path_map.prepare_write() {
            Ok(w) => w,
            Err(e) => {
                return Err(e);
            },
        };
        push_file(out, PathMapFile::FILE_NAME, w.into_buffer());
        let w = match self.doodad_map.prepare_write() {
            Ok(w) => w,
            Err(e) => {
                return Err(e);
            },
        };
        push_file(out, DoodadMap::FILE_NAME, w.into_buffer());
        let w = match self.unit_item_map.prepare_write() {
            Ok(w) => w,
            Err(e) => {
                return Err(e);
            },
        };
        push_file(out, UnitItemMap::FILE_NAME, w.into_buffer());
        assert(file_views(out@) =~= s0 + self.fixed_files());
        Ok(())
    }

    #[verifier::rlimit(100)]
    #[verifier::spinoff_prover]
    fn push_optional_files(&self, out: &mut Vec<(String, Vec<u8>)>, game_version: &GameVersion) -> (res: Result<
        (),
        MapError,
    >)
        requires
            self.fits(),
        ensures
            res is Ok <==> {
                &&& (self.cameras matches Some(f) ==> forall|i: int|
                    0 <= i < f.cameras@.len() ==> #[trigger] c_text_ok(f.cameras@[i].name@))
                &&& (self.regions matches Some(f) ==> forall|i: int|
                    0 <= i < f.regions@.len() ==> #[trigger] region_writable(f.regions@[i]))
                &&& (self.sounds matches Some(f) ==> forall|i: int|
                    0 <= i < f.sounds@.len() ==> #[trigger] sound_writable(f.sounds@[i]))
            },
            res is Ok ==> file_views(final(out)@) == file_views(old(out)@) + self.optional_files(),
    {
        let ghost s0 = file_views(out@);
        if let Some(f) = &self.cameras {
            let w = match f.prepare_write() {
                Ok(w) => w,
                Err(e) => {
                    return Err(e);
                },
            };
            push_file(out, CameraFile::FILE_NAME, w.into_buffer());
        }
        let ghost s1 = file_views(out@);
        if let Some(f) = &self.regions {
            let w = match f.prepare_write() {
                Ok(w) => w,
                Err(e) => {
                    return Err(MapError::WriteFile(String::from_str(RegionFile::FILE_NAME), e));
                },
            };
            push_file(out, RegionFile::FILE_NAME, w.into_buffer());
        }
        let ghost s2 = file_views(out@);
        if let Some(f) = &self.sounds {
            let mut w = BinaryWriter::new();
            match f.write(&mut w) {
                Ok(()) => {},
                Err(e) => {
                    return Err(MapError::WriteFile(String::from_str(SoundFile::FILE_NAME), e));
                },
            }
            assert(write_at(Seq::empty(), 0, sound_file_bytes(*f)) =~= sound_file_bytes(*f));
            push_file(out, SoundFile::FILE_NAME, w.into_buffer());
        }
        let ghost s3 = file_views(out@);
        if let Some(f) = &self.import_listing {
            let w = match f.prepare_write(game_version) {
                Ok(w) => w,
                Err(e) => {
                    return Err(e);
                },
            };
            push_file(out, ImportFile::FILE_NAME, w.into_buffer());
        }
        assert(file_views(out@) =~= s0 + self.optional_files());
        Ok(())
    }

    #[verifier::rlimit(100)]
    #[verifier::spinoff_prover]
    fn push_table_files(&self, out: &mut Vec<(String, Vec<u8>)>, game_version: &GameVersion) -> (res: Result<
        (),
        MapError,
    >)
        requires
            table_fits(self.unit_datas),
            table_fits(self.ability_datas),
            table_fits(self.buff_datas),
            table_fits(self.destructable_datas),
            table_fits(self.item_datas),
            table_fits(self.upgrade_datas),
        ensures
            res is Ok <==> {
                &&& table_ok(self.unit_datas, *game_version)
                &&& table_ok(self.ability_datas, *game_version)
                &&& table_ok(self.buff_datas, *game_version)
                &&& table_ok(self.destructable_datas, *game_version)
                &&& table_ok(self.item_datas, *game_version)
                &&& table_ok(self.upgrade_datas, *game_version)
            },
            res is Ok ==> file_views(final(out)@) == file_views(old(out)@) + self.table_files(),
    {
        let ghost s0 = file_views(out@);
        match push_table(out, &self.unit_datas, game_version) {
            Ok(()) => {},
            Err(e) => {
                return Err(e);
            },
        }
        let ghost s1 = file_views(out@);
        match push_table(out, &self.ability_datas, game_version) {
            Ok(()) => {},
            Err(e) => {
                return Err(e);
            },
        }
        let ghost s2 = file_views(out@);
        match push_table(out, &self.buff_datas, game_version) {
            Ok(()) => {},
            Err(e) => {
                return Err(e);
            },
        }
        let ghost s3 = file_views(out@);
        if let Some(b) = &self.custom_doodads {
            push_file(out, CUSTOM_DOODADS_FILE_NAME, b.clone());
        }
        let ghost s4 = file_views(out@);
        assert(s4 == s3 + match self.custom_doodads {
            Some(b) => seq![(CUSTOM_DOODADS_FILE_NAME@, b@)],
            None => Seq::<FileView>::empty(),
        }) by {
            if self.custom_doodads is None {
                assert(s3 + Seq::<FileView>::empty() =~= s3);
            } else {
                assert(s3.push((CUSTOM_DOODADS_FILE_NAME@, self.custom_doodads->0@)) =~= s3 + seq![
                    (CUSTOM_DOODADS_FILE_NAME@, self.custom_doodads->0@),
                ]);
            }
        }
        match push_table(out, &self.destructable_datas, game_version) {
            Ok(()) => {},
            Err(e) => {
                return Err(e);
            },
        }
        match push_table(out, &self.item_datas, game_version) {
            Ok(()) => {},
            Err(e) => {
                return Err(e);
            },
        }
        match push_table(out, &self.upgrade_datas, game_version) {
            Ok(()) => {},
            Err(e) => {
                return Err(e);
            },
        }
        assert(file_views(out@) =~= s0 + self.table_files());
        Ok(())
    }

    fn push_extra_files(&self, out: &mut Vec<(String, Vec<u8>)>)
        ensures
            file_views(final(out)@) == file_views(old(out)@) + file_views(self.extra_files@),
    {
        let ghost s0 = file_views(out@);
        let mut k: usize = 0;
        assert(s0 + file_views(self.extra_files@.take(0)) =~= s0);
        while k < self.extra_files.len()
            invariant
                k <= self.extra_files@.len(),
                file_views(out@) == s0 + file_views(self.extra_files@.take(k as int)),
            decreases self.extra_files@.len() - k,
        {
            let name = self.extra_files[k].0.clone();
            let bytes = self.extra_files[k].1.clone();
            push_file(out, name.as_str(), bytes);
            assert(file_views(self.extra_files@.take(k + 1)) =~= file_views(self.extra_files@.take(k as int)).push(
                (self.extra_files@[k as int].0@, self.extra_files@[k as int].1@),
            ));
            k = k + 1;
        }
        assert(self.extra_files@.take(self.extra_files@.len() as int) =~= self.extra_files@);
    }

    /// The files that saving the map writes after its info file (see
    /// [`MapComponents::files`]); refused with
    /// [`MapError::UnreadableArchiveEntries`] while some archive entry
    /// could not be read on open; custom object tables are stored for
    /// version `game_version`.
    pub fn component_files(&self, game_version: &GameVersion) -> (res: Result<Vec<(String, Vec<u8>)>, MapError>)
        requires
            self.fits(),
        ensures
            self.unreadable_files@.len() > 0 ==> (res matches Err(MapError::UnreadableArchiveEntries(u))
                && u@ == self.unreadable_files@),
            self.unreadable_files@.len() == 0 ==> (res is Ok <==> self.writable(*game_version)),
            res matches Ok(v) ==> file_views(v@) == self.files(),
    {
        match repack_refusal(&self.unreadable_files) {
            Ok(()) => {},
            Err(e) => {
                return Err(e);
            },
        }
        let mut out: Vec<(String, Vec<u8>)> = Vec::new();
        assert(file_views(out@) =~= Seq::<FileView>::empty());
        match self.push_fixed_files(&mut out) {
            Ok(()) => {},
            Err(e) => {
                return Err(e);
            },
        }
        match self.push_optional_files(&mut out, game_version) {
            Ok(()) => {},
            Err(e) => {
                return Err(e);
            },
        }
        match self.push_table_files(&mut out, game_version) {
            Ok(()) => {},
            Err(e) => {
                return Err(e);
            },
        }
        self.push_extra_files(&mut out);
        assert(file_views(out@) =~= self.files());
        Ok(out)
    }
}

} // verus!
