use wce::formats::binary_reader::BinaryReader;
use wce::formats::binary_writer::BinaryWriter;
use wce::formats::blp::{BLPError, Compression, PaletteColor, BLP};
use wce::map::minimap_file::MinimapFile;

fn slots(first: u32) -> Vec<u32> {
    let mut v = vec![0u32; 16];
    v[0] = first;
    v
}

fn palette_blp() -> BLP {
    let colors: Vec<PaletteColor> = (0..256u32)
        .map(|i| PaletteColor { r: i as u8, g: (i / 2) as u8, b: 255 - i as u8, a: 255 })
        .collect();
    BLP {
        magic_num: "BLP1".to_string(),
        compression: Compression::PALETTE,
        flags: 0,
        width: 2,
        height: 2,
        picture_type: 5,
        picture_sub_type: 0,
        mipmap_offsets: slots(156 + 1024),
        mipmap_sizes: slots(4),
        jpeg_header_size: 0,
        jpeg_header: vec![],
        jpeg_mipmaps_raw: vec![],
        palette_colors: colors,
        palette_rgb_indexes: vec![vec![0, 1, 2, 3]],
        palette_alpha_indexes: vec![],
    }
}

fn jpeg_blp() -> BLP {
    BLP {
        magic_num: "BLP1".to_string(),
        compression: Compression::JPEG,
        flags: 8,
        width: 4,
        height: 4,
        picture_type: 4,
        picture_sub_type: 1,
        mipmap_offsets: slots(170),
        mipmap_sizes: slots(3),
        jpeg_header_size: 4,
        jpeg_header: vec![1, 2, 3, 4],
        jpeg_mipmaps_raw: vec![vec![9, 8, 7]],
        palette_colors: vec![],
        palette_rgb_indexes: vec![],
        palette_alpha_indexes: vec![],
    }
}

fn write(blp: &BLP) -> Vec<u8> {
    let mut writer = BinaryWriter::new();
    blp.write(&mut writer).unwrap();
    writer.into_buffer()
}

#[test]
fn rejects_non_blp1_magic() {
    let mut reader = BinaryReader::new(b"BLP2".to_vec());
    match BLP::from(&mut reader) {
        Err(BLPError::InvalidMagic(m)) => assert_eq!(m, "BLP2"),
        Err(e) => panic!("expected InvalidMagic, got a different error: {:?}", e),
        Ok(_) => panic!("expected InvalidMagic, but parsing succeeded"),
    }
}

#[test]
fn palette_blp_write_read_is_byte_exact() {
    let bytes = write(&palette_blp());
    assert_eq!(bytes.len(), 156 + 1024 + 4);
    assert_eq!(&bytes[0..4], b"BLP1");
    // palette is stored blue, green, red, inverted alpha
    assert_eq!(&bytes[156..160], &[255, 0, 0, 0]);
    let mut reader = BinaryReader::new(bytes.clone());
    let blp = BLP::from(&mut reader).unwrap();
    assert_eq!((blp.width(), blp.height()), (2, 2));
    assert_eq!(blp.mipmap_count(), 1);
    assert_eq!(blp.palette_colors[7], PaletteColor { r: 7, g: 3, b: 248, a: 255 });
    assert_eq!(blp.palette_rgb_indexes, vec![vec![0, 1, 2, 3]]);
    assert_eq!(write(&blp), bytes);
}

#[test]
fn jpeg_blp_pads_to_mipmap_offset() {
    let bytes = write(&jpeg_blp());
    assert_eq!(&bytes[156..160], &4u32.to_le_bytes());
    assert_eq!(&bytes[160..164], &[1, 2, 3, 4]);
    assert_eq!(&bytes[164..170], &[0, 0, 0, 0, 0, 0]);
    assert_eq!(&bytes[170..173], &[9, 8, 7]);
    assert_eq!(bytes.len(), 173);
    let mut reader = BinaryReader::new(bytes.clone());
    let blp = BLP::from(&mut reader).unwrap();
    assert!(blp.has_alpha());
    assert_eq!(blp.get_jpeg_header(), &vec![1, 2, 3, 4]);
    assert_eq!(blp.jpeg_mipmaps_raw, vec![vec![9, 8, 7]]);
    assert_eq!(write(&blp), bytes);
}

#[test]
fn unknown_compression_is_error() {
    let mut bytes = write(&jpeg_blp());
    bytes[4] = 2;
    let mut reader = BinaryReader::new(bytes);
    assert!(matches!(BLP::from(&mut reader), Err(BLPError::UnknownType(2))));
}

#[test]
fn mipmap_past_the_end_is_read_error() {
    let mut bytes = write(&jpeg_blp());
    bytes.truncate(171);
    let mut reader = BinaryReader::new(bytes);
    assert!(matches!(BLP::from(&mut reader), Err(BLPError::Read(_))));
}

#[test]
fn minimap_file_write_read() {
    let bytes = write(&palette_blp());
    let mut reader = BinaryReader::new(bytes.clone());
    let minimap = MinimapFile::read(&mut reader).unwrap();
    assert_eq!(minimap.prepare_write().unwrap().into_buffer(), bytes);
    let mut bad = BinaryReader::new(b"BLP2xxxx".to_vec());
    assert!(MinimapFile::read(&mut bad).is_err());
}

#[test]
fn packed_palette_with_alpha_reads_and_writes_back_byte_exact() {
    let mut bytes: Vec<u8> = b"BLP1".to_vec();
    for word in [1u32, 8, 2, 2, 4, 0] {
        bytes.extend_from_slice(&word.to_le_bytes());
    }
    let mut offsets = vec![0u32; 16];
    offsets[0] = 1180;
    offsets[2] = 1188;
    let mut sizes = vec![0u32; 16];
    sizes[0] = 4;
    sizes[2] = 1;
    for word in offsets.iter().chain(sizes.iter()) {
        bytes.extend_from_slice(&word.to_le_bytes());
    }
    for i in 0..256u32 {
        bytes.extend_from_slice(&[i as u8, 1, 2, 200]);
    }
    bytes.extend_from_slice(&[0, 1, 2, 3, 9, 9, 9, 9, 5, 7]);
    let mut reader = BinaryReader::new(bytes.clone());
    let blp = BLP::from(&mut reader).unwrap();
    assert_eq!(blp.palette_rgb_indexes, vec![vec![0, 1, 2, 3], vec![5]]);
    assert_eq!(blp.palette_alpha_indexes, vec![vec![9, 9, 9, 9], vec![7]]);
    assert_eq!(blp.palette_colors[3], PaletteColor { r: 2, g: 1, b: 3, a: 55 });
    assert_eq!(write(&blp), bytes);
}

#[test]
fn packed_jpeg_reads_and_writes_back_byte_exact() {
    let mut bytes: Vec<u8> = b"BLP1".to_vec();
    for word in [0u32, 8, 4, 4, 4, 1] {
        bytes.extend_from_slice(&word.to_le_bytes());
    }
    let mut offsets = vec![0u32; 16];
    offsets[0] = 170;
    offsets[1] = 176;
    let mut sizes = vec![0u32; 16];
    sizes[0] = 3;
    sizes[1] = 2;
    sizes[3] = 5;
    for word in offsets.iter().chain(sizes.iter()) {
        bytes.extend_from_slice(&word.to_le_bytes());
    }
    bytes.extend_from_slice(&4u32.to_le_bytes());
    bytes.extend_from_slice(&[1, 2, 3, 4, 0, 0, 0, 0, 0, 0, 9, 8, 7, 0, 0, 0, 6, 5]);
    let mut reader = BinaryReader::new(bytes.clone());
    let blp = BLP::from(&mut reader).unwrap();
    assert_eq!(blp.jpeg_mipmaps_raw, vec![vec![9, 8, 7], vec![6, 5]]);
    assert_eq!(write(&blp), bytes);
}
