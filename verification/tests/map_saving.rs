use wce::formats::binary_reader::BinaryReader;
use wce::formats::binary_writer::BinaryWriter;
use wce::formats::blp::{Compression, PaletteColor, BLP};
use wce::formats::{GameVersion, ReadError};
use wce::map::doodad_map::DoodadMap;
use wce::map::error::MapError;
use wce::map::map_components::{repack_refusal, MapComponents};
use wce::map::map_string_file::MapStringFile;
use wce::map::minimap_file::MinimapFile;
use wce::map::mmp_file::MMPFile;
use wce::map::pathmap_file::{PathCell, PathMapFile};
use wce::map::shadowmap_file::ShadowMapFile;
use wce::map::terrain_file::TerrainFile;
use wce::map::trigger_jass_file::TriggerJassFile;
use wce::map::unit_map::UnitItemMap;
use wce::map::w3i_file::W3iFile;

fn minimap() -> MinimapFile {
    let mut offsets = vec![0u32; 16];
    offsets[0] = 156 + 1024;
    let mut sizes = vec![0u32; 16];
    sizes[0] = 4;
    let blp = BLP {
        magic_num: "BLP1".to_string(),
        compression: Compression::PALETTE,
        flags: 0,
        width: 2,
        height: 2,
        picture_type: 5,
        picture_sub_type: 0,
        mipmap_offsets: offsets,
        mipmap_sizes: sizes,
        jpeg_header_size: 0,
        jpeg_header: vec![],
        jpeg_mipmaps_raw: vec![],
        palette_colors: vec![PaletteColor { r: 1, g: 2, b: 3, a: 255 }; 256],
        palette_rgb_indexes: vec![vec![0, 1, 2, 3]],
        palette_alpha_indexes: vec![],
    };
    let mut w = BinaryWriter::new();
    blp.write(&mut w).unwrap();
    MinimapFile::read(&mut BinaryReader::new(w.into_buffer())).unwrap()
}

fn small_map(unreadable_files: Vec<String>) -> MapComponents {
    MapComponents {
        terrain: TerrainFile {
            id: "W3E!".to_string(),
            version: 11,
            main_tileset: 0,
            custom_tileset: false,
            ground_tilesets: vec![],
            cliff_tilesets: vec![],
            my_height: 0,
            mx_width: 0,
            center_offset_x: 0,
            center_offset_y: 0,
            tilepoints: vec![],
        },
        menu_minimap: MMPFile { unknown: 0, datasets: vec![] },
        minimap: minimap(),
        shaders: ShadowMapFile { shaders: vec![] },
        strings: MapStringFile::new(vec![("1".to_string(), "Hello".to_string())]),
        custom_scripts: TriggerJassFile {
            version: GameVersion::TFT,
            global_comment: "c".to_string(),
            global_script: "s".to_string(),
            triggers_script: vec![],
        },
        path_map: PathMapFile {
            id: "MP3W".to_string(),
            version: 0,
            pathmap_width: 1,
            pathmap_height: 1,
            pathing: vec![PathCell { flags: 2 }],
        },
        doodad_map: DoodadMap {
            id: "W3do".to_string(),
            version: GameVersion::TFT,
            subversion: 11,
            destructables: vec![],
            special_doodad_version: 0,
            special_doodads: vec![],
        },
        unit_item_map: UnitItemMap {
            id: "W3do".to_string(),
            version: GameVersion::TFT,
            subversion: 11,
            units_items: vec![],
        },
        cameras: None,
        regions: None,
        sounds: None,
        import_listing: None,
        unit_datas: None,
        ability_datas: None,
        buff_datas: None,
        custom_doodads: Some(vec![1, 2, 3]),
        destructable_datas: None,
        item_datas: None,
        upgrade_datas: None,
        extra_files: vec![("war3mapImported\\a.mdx".to_string(), vec![9, 9])],
        unreadable_files,
    }
}

#[test]
fn saving_goes_on_when_every_entry_was_read() {
    assert!(repack_refusal(&Vec::new()).is_ok());
}

#[test]
fn saving_is_refused_with_the_unreadable_entries() {
    let names = vec![r"war3mapImported\Huffman.wav".to_string(), "war3mapImported\\b.mdx".to_string()];
    match repack_refusal(&names) {
        Err(MapError::UnreadableArchiveEntries(files)) => assert_eq!(files, names),
        other => panic!("unexpected {:?}", other),
    }
}

#[test]
fn info_file_unknown_version_is_named() {
    let mut reader = BinaryReader::new(vec![99, 0, 0, 0, 0, 0, 0, 0]);
    match W3iFile::read_fields(&mut reader) {
        Err(ReadError::Reason(m)) => assert_eq!(m, "Unknown or unsupported game version '99'"),
        other => panic!("unexpected {:?}", other),
    }
}

#[test]
fn units_file_unknown_version_is_named() {
    let mut bytes = b"W3do".to_vec();
    bytes.extend_from_slice(&[9, 0, 0, 0, 11, 0, 0, 0, 0, 0, 0, 0]);
    let mut reader = BinaryReader::new(bytes);
    match UnitItemMap::read(&mut reader) {
        Err(ReadError::Reason(m)) => assert_eq!(m, "Unknown or unsupported game version '9'"),
        other => panic!("unexpected {:?}", other),
    }
}

#[test]
fn doodads_file_unknown_version_is_named() {
    let mut bytes = b"W3do".to_vec();
    bytes.extend_from_slice(&[28, 0, 0, 0, 11, 0, 0, 0, 0, 0, 0, 0]);
    let mut reader = BinaryReader::new(bytes);
    match DoodadMap::read(&mut reader) {
        Err(ReadError::Reason(m)) => assert_eq!(m, "Unknown or unsupported game version '28'"),
        other => panic!("unexpected {:?}", other),
    }
}

#[test]
fn component_files_come_in_saving_order_with_their_writers_bytes() {
    let map = small_map(vec![]);
    let files = map.component_files(&GameVersion::TFT).unwrap();
    let names: Vec<&str> = files.iter().map(|f| f.0.as_str()).collect();
    assert_eq!(
        names,
        vec![
            "war3map.w3e",
            "war3map.mmp",
            "war3mapMap.blp",
            "war3map.shd",
            "war3map.wts",
            "war3map.wct",
            "war3map.wpm",
            "war3map.doo",
            "war3mapUnits.doo",
            "war3map.w3d",
            "war3mapImported\\a.mdx",
        ]
    );
    assert_eq!(files[0].1, map.terrain.prepare_write().unwrap().into_buffer());
    assert_eq!(files[1].1, map.menu_minimap.prepare_write().unwrap().into_buffer());
    assert_eq!(files[2].1, map.minimap.prepare_write().unwrap().into_buffer());
    assert!(files[3].1.is_empty());
    assert_eq!(files[4].1, map.strings.prepare_write().unwrap().into_buffer());
    let mut jass = BinaryWriter::new();
    map.custom_scripts.write(&mut jass).unwrap();
    assert_eq!(files[5].1, jass.into_buffer());
    assert_eq!(files[6].1, map.path_map.prepare_write().unwrap().into_buffer());
    assert_eq!(files[7].1, map.doodad_map.prepare_write().unwrap().into_buffer());
    assert_eq!(files[8].1, map.unit_item_map.prepare_write().unwrap().into_buffer());
    assert_eq!(files[9].1, vec![1, 2, 3]);
    assert_eq!(files[10].1, vec![9, 9]);
}

#[test]
fn component_files_are_refused_with_the_unreadable_entries() {
    let map = small_map(vec!["war3mapImported\\b.wav".to_string()]);
    match map.component_files(&GameVersion::TFT) {
        Err(MapError::UnreadableArchiveEntries(files)) => {
            assert_eq!(files, vec!["war3mapImported\\b.wav".to_string()])
        }
        other => panic!("unexpected {:?}", other.map(|v| v.len())),
    }
}

#[test]
fn version_zero_and_the_largest_are_spelled_in_full() {
    let mut reader = BinaryReader::new(vec![0, 0, 0, 0]);
    match W3iFile::read_fields(&mut reader) {
        Err(ReadError::Reason(m)) => assert_eq!(m, "Unknown or unsupported game version '0'"),
        other => panic!("unexpected {:?}", other),
    }
    let mut reader = BinaryReader::new(vec![255, 255, 255, 255]);
    match W3iFile::read_fields(&mut reader) {
        Err(ReadError::Reason(m)) => assert_eq!(m, "Unknown or unsupported game version '4294967295'"),
        other => panic!("unexpected {:?}", other),
    }
}
