use wce::formats::binary_reader::BinaryReader;
use wce::formats::binary_writer::BinaryWriter;
use wce::formats::GameVersion;
use wce::map::import_file::ImportPathType;
use wce::map::pathmap_file::{PathCell, PathMapFile};
use wce::map::terrain_file::TilePoint;
use wce::map::trigger_jass_file::TriggerJassFile;
use wce::map::w3i_file::{ForceFlags, HeaderFlags};

#[test]
fn it_works() {
    assert_eq!(2 + 2, 4);
}

#[test]
fn test_pathcell_flag_interpretation() {
    let walkable_cell = PathCell { flags: 0x00 };
    let blocked_cell = PathCell { flags: 0xFF };

    assert!(walkable_cell.walkable());
    assert!(walkable_cell.flyable());
    assert!(walkable_cell.buildable());

    assert!(!blocked_cell.walkable());
    assert!(!blocked_cell.flyable());
    assert!(!blocked_cell.buildable());

    let water_cell = PathCell { flags: 0x40 };
    assert!(!water_cell.water());

    let blight_cell = PathCell { flags: 0x20 };
    assert!(!blight_cell.blight());
}

#[test]
fn test_pathcell_flag_updates() {
    let mut cell = PathCell { flags: 0x00 };
    assert!(cell.walkable());
    cell.update_flags(0x02);
    assert!(!cell.walkable());
    cell.update_flags(0x00);
    assert!(cell.walkable());
}

#[test]
fn test_create_custom_pathmap() {
    let custom_pathmap = PathMapFile {
        id: "MP3W".to_string(),
        version: 0,
        pathmap_width: 2,
        pathmap_height: 2,
        pathing: vec![
            PathCell { flags: 0x00 },
            PathCell { flags: 0x02 },
            PathCell { flags: 0x04 },
            PathCell { flags: 0x08 },
        ],
    };

    let mut writer = BinaryWriter::new();
    custom_pathmap
        .write(&mut writer)
        .expect("Failed to write custom PathMapFile");

    let buffer = writer.into_buffer();
    let mut reader = BinaryReader::new(buffer);
    let written_pathmap = PathMapFile::read(&mut reader)
        .unwrap_or_else(|e| panic!("Failed to read back: {:?}", e));

    assert_eq!(custom_pathmap.id, written_pathmap.id);
    assert_eq!(custom_pathmap.version, written_pathmap.version);
    assert_eq!(custom_pathmap.pathmap_width, written_pathmap.pathmap_width);
    assert_eq!(custom_pathmap.pathmap_height, written_pathmap.pathmap_height);
    assert_eq!(custom_pathmap.pathing.len(), written_pathmap.pathing.len());

    assert!(written_pathmap.pathing[0].walkable());
    assert!(!written_pathmap.pathing[1].walkable());
    assert!(!written_pathmap.pathing[2].flyable());
    assert!(!written_pathmap.pathing[3].buildable());
}

#[test]
fn pathmap_read_stored_bytes() {
    let mut bytes = b"MP3W".to_vec();
    bytes.extend_from_slice(&[0, 0, 0, 0, 1, 0, 0, 0, 3, 0, 0, 0, 0x02, 0x00, 0x0A]);
    let mut reader = BinaryReader::new(bytes);
    let pathmap = PathMapFile::read(&mut reader).unwrap();
    assert_eq!(pathmap.id, "MP3W");
    assert_eq!(pathmap.pathmap_width, 1);
    assert_eq!(pathmap.pathmap_height, 3);
    assert!(!pathmap.pathing[0].walkable());
    assert!(pathmap.pathing[1].walkable());
    assert!(!pathmap.pathing[2].buildable());
    assert_eq!(reader.pos(), 19);
}

#[test]
fn pathmap_missing_cells_is_error() {
    let mut bytes = b"MP3W".to_vec();
    bytes.extend_from_slice(&[0, 0, 0, 0, 2, 0, 0, 0, 2, 0, 0, 0, 0x02]);
    let mut reader = BinaryReader::new(bytes);
    assert!(PathMapFile::read(&mut reader).is_err());
}

#[test]
fn test_tilepoint_round_trip() {
    let original = TilePoint {
        ground_height: 123,
        water_level: 0x4000 | 45,
        ground_texture_and_flags: 0x70,
        texture_details: 42,
        cliff_texture_and_layer_height: 0x85,
    };

    let mut writer = BinaryWriter::new();
    original
        .write(&mut writer)
        .unwrap_or_else(|e| panic!("{:?}", e));
    let buffer = writer.into_buffer();

    let mut reader = BinaryReader::new(buffer);
    let reconstructed = TilePoint::read(&mut reader).unwrap_or_else(|e| panic!("{:?}", e));

    assert_eq!(original.ground_height, reconstructed.ground_height);
    assert_eq!(original.water_level, reconstructed.water_level);
    assert_eq!(original.ground_texture_and_flags, reconstructed.ground_texture_and_flags);
    assert_eq!(original.texture_details, reconstructed.texture_details);
    assert_eq!(
        original.cliff_texture_and_layer_height,
        reconstructed.cliff_texture_and_layer_height
    );

    assert_eq!(original.boundary_flag(), reconstructed.boundary_flag());
    assert_eq!(original.get_water_level(), reconstructed.get_water_level());
    assert_eq!(original.ground_texture(), reconstructed.ground_texture());
}

#[test]
fn test_import_path_type_conversions() {
    assert_eq!(ImportPathType::STANDARD(5).to_u8(), 5);
    assert_eq!(ImportPathType::STANDARD(8).to_u8(), 8);

    assert_eq!(ImportPathType::CUSTOM(10).to_u8(), 10);
    assert_eq!(ImportPathType::CUSTOM(13).to_u8(), 13);

    assert_eq!(ImportPathType::RoC.to_u8(), 0);

    assert_eq!(ImportPathType::from_u8(5), Some(ImportPathType::STANDARD(5)));
    assert_eq!(ImportPathType::from_u8(8), Some(ImportPathType::STANDARD(8)));
    assert_eq!(ImportPathType::from_u8(10), Some(ImportPathType::CUSTOM(10)));
    assert_eq!(ImportPathType::from_u8(13), Some(ImportPathType::CUSTOM(13)));
    assert_eq!(ImportPathType::from_u8(99), None);
}

#[test]
fn test_header_flags_macro() {
    let mut flags = HeaderFlags::new(0);

    assert!(!flags.is_melee());
    assert!(!flags.use_custom_abilities());

    flags.set_is_melee(true);
    flags.set_use_custom_abilities(true);
    flags.set_unknown_3(true);

    assert!(flags.is_melee());
    assert!(flags.use_custom_abilities());
    assert!(flags.unknown_3());

    let expected = 0x0004 | 0x0100 | 0x2000;
    assert_eq!(flags.raw_value(), expected);

    flags.set_is_melee(false);
    assert!(!flags.is_melee());
    assert!(flags.use_custom_abilities());
}

#[test]
fn test_force_flags_macro() {
    let mut flags = ForceFlags::new(0);

    assert!(!flags.allied());
    assert!(!flags.shared_victory());

    flags.set_allied(true);
    flags.set_shared_victory(true);
    flags.set_shared_unit_control(true);

    assert!(flags.allied());
    assert!(flags.shared_victory());
    assert!(flags.shared_unit_control());
    assert!(!flags.shared_vision());

    let expected = 0x0001 | 0x0002 | 0x0010;
    assert_eq!(flags.raw_value(), expected);
}

#[test]
fn test_empty_trigger_script_handling() {
    let jass = TriggerJassFile {
        version: GameVersion::TFT,
        global_comment: "Test comment".to_string(),
        global_script: "// Test global script".to_string(),
        triggers_script: vec![
            "function test1() {}\n".to_string(),
            "".to_string(),
            "function test2() {}\n".to_string(),
        ],
    };

    let mut writer = BinaryWriter::new();
    jass.write(&mut writer).expect("Failed to write TriggerJassFile");

    let buffer = writer.into_buffer();
    let mut reader = BinaryReader::new(buffer);
    let written_jass = TriggerJassFile::read(&mut reader)
        .unwrap_or_else(|e| panic!("Failed to read back: {:?}", e));

    assert_eq!(jass.version, written_jass.version);
    assert_eq!(jass.global_comment, written_jass.global_comment);
    assert_eq!(jass.global_script, written_jass.global_script);
    assert_eq!(jass.triggers_script.len(), written_jass.triggers_script.len());
    assert_eq!(jass.triggers_script[0], written_jass.triggers_script[0]);
    assert_eq!(jass.triggers_script[1], "");
    assert_eq!(jass.triggers_script[2], written_jass.triggers_script[2]);
}

#[test]
fn trigger_jass_roc_drops_global_texts() {
    let jass = TriggerJassFile {
        version: GameVersion::RoC,
        global_comment: "ignored".to_string(),
        global_script: "ignored too".to_string(),
        triggers_script: vec!["call A()".to_string()],
    };
    let mut writer = BinaryWriter::new();
    jass.write(&mut writer).unwrap();
    let buffer = writer.into_buffer();
    assert_eq!(
        buffer,
        vec![0, 0, 0, 0, 1, 0, 0, 0, 8, 0, 0, 0, b'c', b'a', b'l', b'l', b' ', b'A', b'(', b')']
    );
    let mut reader = BinaryReader::new(buffer);
    let back = TriggerJassFile::read(&mut reader).unwrap();
    assert_eq!(back.version, GameVersion::RoC);
    assert_eq!(back.global_comment, "");
    assert_eq!(back.global_script, "");
    assert_eq!(back.triggers_script, vec!["call A()".to_string()]);
}

#[test]
fn trigger_jass_unknown_version_is_error() {
    let mut reader = BinaryReader::new(vec![7, 0, 0, 0, 0, 0, 0, 0]);
    match TriggerJassFile::read(&mut reader) {
        Err(wce::formats::ReadError::Reason(m)) => {
            assert_eq!(m, "Unknown or unsupported game version '7'")
        }
        other => panic!("unexpected {:?}", other),
    }
}

#[test]
fn trigger_jass_comment_with_nul_is_write_error() {
    let jass = TriggerJassFile {
        version: GameVersion::TFT,
        global_comment: "a\0b".to_string(),
        global_script: String::new(),
        triggers_script: vec![],
    };
    let mut writer = BinaryWriter::new();
    assert!(jass.write(&mut writer).is_err());
}
