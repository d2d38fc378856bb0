use wce::formats::binary_reader::BinaryReader;
use wce::formats::binary_writer::BinaryWriter;
use wce::map::region_file::{Region, RegionFile};

fn bits(v: f32) -> u32 {
    v.to_bits()
}

fn region(
    left: f32,
    right: f32,
    bottom: f32,
    top: f32,
    name: &str,
    index: u32,
    weather: &str,
    enabled: bool,
    sound: &str,
    color: Vec<u8>,
) -> Region {
    Region {
        left: bits(left),
        right: bits(right),
        bottom: bits(bottom),
        top: bits(top),
        name: name.to_string(),
        index,
        weather_effect: weather.to_string(),
        weather_enabled: enabled,
        ambient_sound: sound.to_string(),
        color,
    }
}

fn mock_regions() -> Vec<Region> {
    vec![
        region(-832.0, -480.0, -640.0, -256.0, "Red", 0, "RAhr", false, "gg_snd_RainAmbience", vec![0, 0, 255]),
        region(416.0, 768.0, -32.0, 352.0, "LightGreen", 1, "\0\0\0\0", false, "gg_snd_Avatar", vec![128, 255, 128]),
        region(384.0, 416.0, -1056.0, -640.0, "White", 2, "\0\0\0\0", false, "", vec![255, 255, 255]),
    ]
}

fn same_region(a: &Region, b: &Region) {
    assert_eq!(f32::from_bits(a.left), f32::from_bits(b.left));
    assert_eq!(f32::from_bits(a.right), f32::from_bits(b.right));
    assert_eq!(f32::from_bits(a.bottom), f32::from_bits(b.bottom));
    assert_eq!(f32::from_bits(a.top), f32::from_bits(b.top));
    assert_eq!(a.name, b.name);
    assert_eq!(a.index, b.index);
    assert_eq!(a.weather_effect, b.weather_effect);
    assert_eq!(a.ambient_sound, b.ambient_sound);
    assert_eq!(a.color, b.color);
}

#[test]
fn test_region_round_trip() {
    let original = region(-832.0, -480.0, -640.0, -256.0, "TestRegion", 42, "RAhr", false, "gg_snd_TestSound", vec![255, 128, 64]);
    let mut writer = BinaryWriter::new();
    original.write(&mut writer).unwrap();
    let buffer = writer.into_buffer();
    let mut reader = BinaryReader::new(buffer);
    let reconstructed = Region::read(&mut reader).unwrap();
    same_region(&original, &reconstructed);
}

#[test]
fn test_region_file_round_trip() {
    let original = RegionFile { version: 5, regions: mock_regions() };
    let mut writer = BinaryWriter::new();
    original.write(&mut writer).unwrap();
    let buffer = writer.into_buffer();
    let mut reader = BinaryReader::new(buffer);
    let reconstructed = RegionFile::read(&mut reader).unwrap();
    assert_eq!(original.version, reconstructed.version);
    assert_eq!(original.regions.len(), reconstructed.regions.len());
    for (orig, recon) in original.regions.iter().zip(reconstructed.regions.iter()) {
        same_region(orig, recon);
    }
}

#[test]
fn test_single_region_file() {
    let single_region = region(100.5, 200.5, 50.25, 150.75, "SingleRegion", 1, "WEth", true, "ambient_test", vec![128, 128, 128]);
    let original = RegionFile { version: 1, regions: vec![single_region] };
    let mut writer = BinaryWriter::new();
    original.write(&mut writer).unwrap();
    let buffer = writer.into_buffer();
    let mut reader = BinaryReader::new(buffer);
    let reconstructed = RegionFile::read(&mut reader).unwrap();
    assert_eq!(original.version, reconstructed.version);
    assert_eq!(original.regions.len(), reconstructed.regions.len());
    assert_eq!(original.regions[0].name, reconstructed.regions[0].name);
    assert_eq!(
        f32::from_bits(original.regions[0].left),
        f32::from_bits(reconstructed.regions[0].left)
    );
    assert_eq!(original.regions[0].weather_effect, reconstructed.regions[0].weather_effect);
}

#[test]
fn test_weather_effect_handling() {
    let test_cases = vec![
        ("RAhr", "RAhr"),
        ("\0\0\0\0", "\0\0\0\0"),
        ("WEth", "WEth"),
        ("ABC", "ABC\0"),
        ("", "\0\0\0\0"),
        ("ABCDEF", "ABCD"),
    ];
    for (input_weather, expected_weather) in test_cases {
        let r = region(0.0, 100.0, 0.0, 100.0, "WeatherTest", 0, input_weather, false, "", vec![255, 255, 255]);
        let mut writer = BinaryWriter::new();
        r.write(&mut writer).unwrap();
        let buffer = writer.into_buffer();
        let mut reader = BinaryReader::new(buffer);
        let reconstructed = Region::read(&mut reader).unwrap();
        assert_eq!(reconstructed.weather_effect, expected_weather);
    }
}

#[test]
fn region_file_write_empty_edge_case() {
    let empty_region_file = RegionFile { version: 5, regions: vec![] };
    let mut writer = BinaryWriter::new();
    empty_region_file.write(&mut writer).unwrap();
    let buffer = writer.into_buffer();
    assert_eq!(buffer.len(), 0, "Empty regions should produce empty buffer");
    let mut reader = BinaryReader::new(buffer);
    assert!(
        RegionFile::read_opt(&mut reader).unwrap().is_none(),
        "Empty buffer shouldn't return region file."
    );
}

#[test]
fn region_stored_bounds_order_and_end_byte() {
    let r = region(1.0, 2.0, 3.0, 4.0, "N", 9, "RAhr", false, "S", vec![1, 2, 3]);
    let mut writer = BinaryWriter::new();
    r.write(&mut writer).unwrap();
    let bytes = writer.into_buffer();
    // left, bottom, right, top
    assert_eq!(&bytes[0..4], &1.0f32.to_le_bytes());
    assert_eq!(&bytes[4..8], &3.0f32.to_le_bytes());
    assert_eq!(&bytes[8..12], &2.0f32.to_le_bytes());
    assert_eq!(&bytes[12..16], &4.0f32.to_le_bytes());
    assert_eq!(&bytes[16..18], b"N\0");
    assert_eq!(&bytes[18..22], &9u32.to_le_bytes());
    assert_eq!(&bytes[22..26], b"RAhr");
    assert_eq!(&bytes[26..28], b"S\0");
    assert_eq!(&bytes[28..31], &[1, 2, 3]);
    assert_eq!(bytes[31], 0);
    assert_eq!(bytes.len(), 32);
}

#[test]
fn region_name_with_nul_fails_to_save() {
    let r = region(0.0, 0.0, 0.0, 0.0, "a\0", 0, "RAhr", false, "", vec![0, 0, 0]);
    let mut writer = BinaryWriter::new();
    assert!(r.write(&mut writer).is_err());
}

#[test]
fn region_file_truncated_is_error() {
    let original = RegionFile { version: 5, regions: mock_regions() };
    let mut writer = BinaryWriter::new();
    original.write(&mut writer).unwrap();
    let mut buffer = writer.into_buffer();
    buffer.truncate(buffer.len() - 3);
    let mut reader = BinaryReader::new(buffer);
    assert!(RegionFile::read_opt(&mut reader).is_err());
}
