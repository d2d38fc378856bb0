use wce::formats::binary_reader::BinaryReader;
use wce::formats::binary_writer::BinaryWriter;
use wce::formats::GameVersion;
use wce::map::import_file::{ImportFile, ImportPathType};
use wce::map::terrain_file::{TerrainFile, TilePoint};

fn mock_import_files_tft() -> Vec<(ImportPathType, Vec<u8>)> {
    vec![
        (ImportPathType::STANDARD(5), b"Units\\Human\\Footman\\Footman.mdx".to_vec()),
        (ImportPathType::CUSTOM(10), b"CustomTextures\\Grass.blp".to_vec()),
    ]
}

fn mock_import_files_roc() -> Vec<(ImportPathType, Vec<u8>)> {
    vec![
        (ImportPathType::RoC, b"Units\\Orc\\Grunt\\Grunt.mdx".to_vec()),
        (ImportPathType::RoC, b"Textures\\Stone.blp".to_vec()),
    ]
}

#[test]
fn test_import_file_round_trip_tft() {
    let original = ImportFile { files: mock_import_files_tft() };
    let mut writer = BinaryWriter::new();
    original.write_version(&mut writer, &GameVersion::TFT).unwrap();
    let buffer = writer.into_buffer();
    let mut reader = BinaryReader::new(buffer);
    let reconstructed = ImportFile::read_version(&mut reader, &GameVersion::TFT).unwrap();
    assert_eq!(original.files.len(), reconstructed.files.len());
    for ((orig_type, orig_path), (recon_type, recon_path)) in
        original.files.iter().zip(reconstructed.files.iter())
    {
        assert_eq!(orig_type, recon_type);
        assert_eq!(orig_path, recon_path);
    }
}

#[test]
fn test_import_file_round_trip_roc() {
    let original = ImportFile { files: mock_import_files_roc() };
    let mut writer = BinaryWriter::new();
    original.write_version(&mut writer, &GameVersion::RoC).unwrap();
    let buffer = writer.into_buffer();
    let mut reader = BinaryReader::new(buffer);
    let reconstructed = ImportFile::read_version(&mut reader, &GameVersion::RoC).unwrap();
    assert_eq!(original.files.len(), reconstructed.files.len());
    for ((_orig_type, orig_path), (recon_type, recon_path)) in
        original.files.iter().zip(reconstructed.files.iter())
    {
        assert_eq!(*recon_type, ImportPathType::RoC);
        assert_eq!(orig_path, recon_path);
    }
}

#[test]
fn import_file_write_empty_edge_case() {
    let empty_import_file = ImportFile { files: vec![] };
    let mut writer = BinaryWriter::new();
    empty_import_file.write_version(&mut writer, &GameVersion::TFT).unwrap();
    let buffer = writer.into_buffer();
    assert_eq!(buffer.len(), 0, "Empty imports should produce empty buffer");
    let mut reader = BinaryReader::new(buffer);
    assert!(
        ImportFile::read_opt(&mut reader, &GameVersion::TFT).unwrap().is_none(),
        "Empty buffer shouldn't return import file."
    );
}

#[test]
fn import_unknown_kind_byte_is_error_in_tft() {
    let mut bytes = vec![1, 0, 0, 0, 1, 0, 0, 0, 7];
    bytes.extend_from_slice(b"a.blp\0");
    let mut reader = BinaryReader::new(bytes);
    assert!(ImportFile::read_version(&mut reader, &GameVersion::TFT).is_err());
}

#[test]
fn import_stored_layout() {
    let file = ImportFile { files: vec![(ImportPathType::CUSTOM(13), b"x.mdx".to_vec())] };
    let bytes = file.prepare_write(&GameVersion::TFT).unwrap().into_buffer();
    assert_eq!(bytes, vec![1, 0, 0, 0, 1, 0, 0, 0, 13, b'x', b'.', b'm', b'd', b'x', 0]);
}

fn tile(h: i16, w: u16, g: u8, d: u8, c: u8) -> TilePoint {
    TilePoint {
        ground_height: h,
        water_level: w,
        ground_texture_and_flags: g,
        texture_details: d,
        cliff_texture_and_layer_height: c,
    }
}

fn mock_terrain() -> TerrainFile {
    TerrainFile {
        id: "W3E!".to_string(),
        version: 11,
        main_tileset: 0,
        custom_tileset: true,
        ground_tilesets: vec!["Ashe".to_string(), "Barr".to_string()],
        cliff_tilesets: vec!["Ashe".to_string()],
        my_height: 2,
        mx_width: 2,
        center_offset_x: 1.5f32.to_bits(),
        center_offset_y: 2.5f32.to_bits(),
        tilepoints: vec![
            tile(100, 50, 0x10, 1, 0x20),
            tile(200, 0x4000 | 75, 0x30, 2, 0x40),
            tile(150, 25, 0x20, 3, 0x30),
            tile(175, 100, 0x50, 4, 0x60),
        ],
    }
}

#[test]
fn test_terrain_file_round_trip() {
    let original = mock_terrain();
    let mut writer = BinaryWriter::new();
    original.write(&mut writer).unwrap();
    let buffer = writer.into_buffer();
    let mut reader = BinaryReader::new(buffer);
    let reconstructed = TerrainFile::read(&mut reader).unwrap();
    assert_eq!(original.id, reconstructed.id);
    assert_eq!(original.version, reconstructed.version);
    assert_eq!(original.main_tileset, reconstructed.main_tileset);
    assert_eq!(original.custom_tileset, reconstructed.custom_tileset);
    assert_eq!(original.ground_tilesets, reconstructed.ground_tilesets);
    assert_eq!(original.cliff_tilesets, reconstructed.cliff_tilesets);
    assert_eq!(original.my_height, reconstructed.my_height);
    assert_eq!(original.mx_width, reconstructed.mx_width);
    assert_eq!(
        f32::from_bits(original.center_offset_x),
        f32::from_bits(reconstructed.center_offset_x)
    );
    assert_eq!(
        f32::from_bits(original.center_offset_y),
        f32::from_bits(reconstructed.center_offset_y)
    );
    assert_eq!(original.tilepoints.len(), reconstructed.tilepoints.len());
    for (orig, recon) in original.tilepoints.iter().zip(reconstructed.tilepoints.iter()) {
        assert_eq!(orig.ground_height, recon.ground_height);
        assert_eq!(orig.water_level, recon.water_level);
        assert_eq!(orig.ground_texture_and_flags, recon.ground_texture_and_flags);
        assert_eq!(orig.texture_details, recon.texture_details);
        assert_eq!(orig.cliff_texture_and_layer_height, recon.cliff_texture_and_layer_height);
    }
}

#[test]
fn terrain_stored_header() {
    let bytes = mock_terrain().prepare_write().unwrap().into_buffer();
    assert_eq!(&bytes[0..4], b"W3E!");
    assert_eq!(&bytes[4..8], &11u32.to_le_bytes());
    assert_eq!(bytes[8], 0);
    assert_eq!(&bytes[9..13], &1u32.to_le_bytes());
    assert_eq!(&bytes[13..17], &2u32.to_le_bytes());
    assert_eq!(&bytes[17..25], b"AsheBarr");
    // header + 2 + 1 tilesets + sizes, offsets + 4 tiles of 7 bytes
    assert_eq!(bytes.len(), 13 + 4 + 8 + 4 + 4 + 8 + 8 + 4 * 7);
}

#[test]
fn terrain_missing_tiles_is_error() {
    let mut bytes = mock_terrain().prepare_write().unwrap().into_buffer();
    bytes.truncate(bytes.len() - 7);
    let mut reader = BinaryReader::new(bytes);
    assert!(TerrainFile::read_fields(&mut reader).is_err());
}

#[test]
fn tile_point_cliff_texture_and_layer_height() {
    let t = TilePoint {
        ground_height: 123,
        water_level: 0x4000 | 45,
        ground_texture_and_flags: 0x70,
        texture_details: 42,
        cliff_texture_and_layer_height: 0x85,
    };
    assert_eq!(t.cliff_texture(), 5);
    assert_eq!(t.layer_height(), 8);
}
