//! Warcraft III map components and game data.

pub mod chars;
pub mod data_ini;
pub mod error;
pub mod pathmap_file;
pub mod terrain_file;
pub mod shadowmap_file;
pub mod slk_datas;
pub mod map_string_file;
pub mod mmp_file;
pub mod minimap_file;
pub mod import_file;
pub mod doodad_map;
pub mod game_data;
pub mod w3i_file;
pub mod trigger_jass_file;
pub mod triggers;
pub mod unit_map;
pub mod custom_datas;
pub mod camera_file;
pub mod region_file;
pub mod sound_file;
pub mod components;
pub mod map_components;
pub mod field_roundtrip;
pub mod placement_roundtrip;
