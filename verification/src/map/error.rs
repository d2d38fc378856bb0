//! Aggregated error type for map loading and saving.

use vstd::prelude::*;

use crate::formats::{MpqError, WriteError};
use crate::map::custom_datas::{
    CustomAbilityError, CustomBuffError, CustomDestructableError, CustomItemError, CustomUnitError,
    CustomUpgradeError,
};
use crate::map::camera_file::CameraError;
use crate::map::doodad_map::DoodadError;
use crate::map::import_file::ImportError;
use crate::map::map_string_file::MapStringError;
use crate::map::minimap_file::MinimapError;
use crate::map::mmp_file::MenuMinimapError;
use crate::map::pathmap_file::PathmapError;
use crate::map::region_file::RegionError;
use crate::map::sound_file::SoundError;
use crate::map::shadowmap_file::ShadowMapError;
use crate::map::terrain_file::TerrainError;
use crate::map::trigger_jass_file::TriggerJassError;
use crate::map::triggers::TriggersError;
use crate::map::unit_map::UnitMapError;
use crate::map::w3i_file::InfoError;

verus! {

/// Errors of map loading and saving.
#[derive(Debug)]
pub enum MapError {
    /// The map is likely protected.
    Protected(MpqError),
    /// Writing the map archive failed.
    Archive(MpqError),
    /// Archive entries that could not be read on open and would be lost.
    UnreadableArchiveEntries(Vec<String>),
    /// Writing a file failed.
    SaveFileIo { path: String, source: std::io::Error },
    /// Serializing the named file failed.
    WriteFile(String, WriteError),
    Environment(TerrainError),
    MenuMinimap(MenuMinimapError),
    Minimap(MinimapError),
    MapStrings(MapStringError),
    CustomTextTrigger(TriggerJassError),
    Triggers(TriggersError),
    PathingMap(PathmapError),
    ShadowMap(ShadowMapError),
    UnitItem(UnitMapError),
    Info(InfoError),
    Import(ImportError),
    Doodad(DoodadError),
    Camera(CameraError),
    Region(RegionError),
    Sound(SoundError),
    CustomUnit(CustomUnitError),
    CustomItem(CustomItemError),
    CustomAbility(CustomAbilityError),
    CustomBuff(CustomBuffError),
    CustomUpgrade(CustomUpgradeError),
    CustomDestructable(CustomDestructableError),
}

} // verus!
