use wce::formats::binary_reader::BinaryReader;
use wce::formats::binary_writer::BinaryWriter;
use wce::map::camera_file::{Camera, CameraFile};

fn mock_cameras() -> Vec<Camera> {
    vec![Camera {
        x: 758.24f32.to_bits(),
        y: 178.15f32.to_bits(),
        z: 13.5f32.to_bits(),
        rotation: 90.0f32.to_bits(),
        aoa: 304.0f32.to_bits(),
        dist: 1996.5f32.to_bits(),
        roll: 2.4f32.to_bits(),
        fov: 70.0f32.to_bits(),
        far_clip: 5000.0f32.to_bits(),
        unknown: 100.0f32.to_bits(),
        name: "Camera 001".to_string(),
    }]
}

fn same_camera(a: &Camera, b: &Camera) {
    assert_eq!(f32::from_bits(a.x), f32::from_bits(b.x));
    assert_eq!(f32::from_bits(a.y), f32::from_bits(b.y));
    assert_eq!(f32::from_bits(a.z), f32::from_bits(b.z));
    assert_eq!(f32::from_bits(a.rotation), f32::from_bits(b.rotation));
    assert_eq!(f32::from_bits(a.aoa), f32::from_bits(b.aoa));
    assert_eq!(f32::from_bits(a.dist), f32::from_bits(b.dist));
    assert_eq!(f32::from_bits(a.roll), f32::from_bits(b.roll));
    assert_eq!(f32::from_bits(a.fov), f32::from_bits(b.fov));
    assert_eq!(f32::from_bits(a.far_clip), f32::from_bits(b.far_clip));
    assert_eq!(f32::from_bits(a.unknown), f32::from_bits(b.unknown));
    assert_eq!(a.name, b.name);
}

#[test]
fn test_camera_round_trip() {
    let original = Camera {
        x: 100.5f32.to_bits(),
        y: 200.75f32.to_bits(),
        z: 15.25f32.to_bits(),
        rotation: 45.0f32.to_bits(),
        aoa: 30.0f32.to_bits(),
        dist: 1500.0f32.to_bits(),
        roll: 5.0f32.to_bits(),
        fov: 60.0f32.to_bits(),
        far_clip: 3000.0f32.to_bits(),
        unknown: 50.0f32.to_bits(),
        name: "TestCamera".to_string(),
    };
    let mut writer = BinaryWriter::new();
    original.write(&mut writer).unwrap();
    let buffer = writer.into_buffer();
    let mut reader = BinaryReader::new(buffer);
    let reconstructed = Camera::read(&mut reader).unwrap();
    same_camera(&original, &reconstructed);
}

#[test]
fn test_camera_file_round_trip() {
    let original = CameraFile { version: 0, cameras: mock_cameras() };
    let mut writer = BinaryWriter::new();
    original.write(&mut writer).unwrap();
    let buffer = writer.into_buffer();
    let mut reader = BinaryReader::new(buffer);
    let reconstructed = CameraFile::read(&mut reader).unwrap();
    assert_eq!(original.version, reconstructed.version);
    assert_eq!(original.cameras.len(), reconstructed.cameras.len());
    for (orig, recon) in original.cameras.iter().zip(reconstructed.cameras.iter()) {
        same_camera(orig, recon);
    }
}

#[test]
fn camera_file_write_empty_edge_case() {
    let empty_camera_file = CameraFile { version: 0, cameras: vec![] };
    let mut writer = BinaryWriter::new();
    empty_camera_file.write(&mut writer).unwrap();
    let buffer = writer.into_buffer();
    assert_eq!(buffer.len(), 0, "Empty cameras should produce empty buffer");
    let mut reader = BinaryReader::new(buffer);
    assert!(
        CameraFile::read_opt(&mut reader).unwrap().is_none(),
        "Empty buffer shouldn't return camera file."
    );
}

#[test]
fn camera_bytes_layout() {
    let cam = &mock_cameras()[0];
    let mut writer = BinaryWriter::new();
    cam.write(&mut writer).unwrap();
    let bytes = writer.into_buffer();
    assert_eq!(bytes.len(), 40 + "Camera 001".len() + 1);
    assert_eq!(&bytes[0..4], &758.24f32.to_le_bytes());
    assert_eq!(&bytes[40..50], b"Camera 001");
    assert_eq!(bytes[50], 0);
}

#[test]
fn camera_file_trailing_bytes_is_error() {
    let file = CameraFile { version: 0, cameras: mock_cameras() };
    let mut writer = BinaryWriter::new();
    file.write(&mut writer).unwrap();
    let mut bytes = writer.into_buffer();
    bytes.push(7);
    let mut reader = BinaryReader::new(bytes);
    assert!(CameraFile::read(&mut reader).is_err());
}

#[test]
fn camera_name_with_nul_fails_to_save() {
    let mut cams = mock_cameras();
    cams[0].name = "a\0b".to_string();
    let file = CameraFile { version: 0, cameras: cams };
    assert!(file.prepare_write().is_err());
}
