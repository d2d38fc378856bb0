use wce::formats::binary_writer::{BinaryWriter, DEFAULT_CAPACITY};
use wce::formats::WriteError;

#[test]
fn test_write_primitive_u8() {
    let mut writer = BinaryWriter::new();
    writer.write_u8(42).unwrap();
    writer.write_u8(255).unwrap();
    let buffer = writer.into_buffer();
    assert_eq!(buffer, &[42, 255]);
}

#[test]
fn test_write_primitive_char() {
    let mut writer = BinaryWriter::new();
    writer.write_char('A').unwrap();
    writer.write_char('Z').unwrap();
    let buffer = writer.into_buffer();
    assert_eq!(buffer, &[65, 90]);
}

#[test]
fn test_write_primitive_i16() {
    let mut writer = BinaryWriter::new();
    writer.write_i16(1000).unwrap();
    writer.write_i16(-500).unwrap();
    let buffer = writer.into_buffer();
    assert_eq!(buffer, &[0xE8, 0x03, 0x0C, 0xFE]);
}

#[test]
fn test_write_primitive_u16() {
    let mut writer = BinaryWriter::new();
    writer.write_u16(1000).unwrap();
    writer.write_u16(65535).unwrap();
    let buffer = writer.into_buffer();
    assert_eq!(buffer, &[0xE8, 0x03, 0xFF, 0xFF]);
}

#[test]
fn test_write_primitive_i32() {
    let mut writer = BinaryWriter::new();
    writer.write_i32(1000000).unwrap();
    writer.write_i32(-1000000).unwrap();
    let buffer = writer.into_buffer();
    assert_eq!(buffer, &[0x40, 0x42, 0x0F, 0x00, 0xC0, 0xBD, 0xF0, 0xFF]);
}

#[test]
fn test_write_primitive_u32() {
    let mut writer = BinaryWriter::new();
    writer.write_u32(1000000).unwrap();
    writer.write_u32(4294967295).unwrap();
    let buffer = writer.into_buffer();
    assert_eq!(buffer, &[0x40, 0x42, 0x0F, 0x00, 0xFF, 0xFF, 0xFF, 0xFF]);
}

#[test]
fn test_write_primitive_endianness() {
    let mut writer = BinaryWriter::new();
    let value: u32 = 0x12345678;
    writer.write_u32(value).unwrap();
    writer.write_u32_big(value).unwrap();
    let buffer = writer.into_buffer();
    assert_eq!(buffer, &[0x78, 0x56, 0x34, 0x12, 0x12, 0x34, 0x56, 0x78]);
}

#[test]
fn test_write_primitive_u64() {
    let mut writer = BinaryWriter::new();
    writer.write_u64(0x123456789ABCDEF0).unwrap();
    let buffer = writer.into_buffer();
    assert_eq!(buffer, &[0xF0, 0xDE, 0xBC, 0x9A, 0x78, 0x56, 0x34, 0x12]);
}

#[test]
fn test_write_primitive_i24_u24() {
    let mut writer = BinaryWriter::new();
    writer.write_i24(0x123456).unwrap();
    writer.write_u24(0xABCDEF).unwrap();
    let buffer = writer.into_buffer();
    assert_eq!(buffer, &[0x56, 0x34, 0x12, 0xEF, 0xCD, 0xAB]);
}

#[test]
fn test_write_c_string_converted() {
    let mut writer = BinaryWriter::new();
    writer.write_c_string_converted("World").unwrap();
    let buffer = writer.into_buffer();
    assert_eq!(buffer, b"World\0");
}

#[test]
fn test_write_c_string_with_null_error() {
    let mut writer = BinaryWriter::new();
    let result = writer.write_c_string_converted("Hello\0World");
    assert!(result.is_err());
    match result.unwrap_err() {
        WriteError::Reason(_) => {}
        _ => panic!("Expected WriteError::Reason"),
    }
}

#[test]
fn test_write_string_utf8() {
    let mut writer = BinaryWriter::new();
    writer.write_string_utf8("Hello UTF-8 🦀").unwrap();
    let buffer = writer.into_buffer();
    let expected = "Hello UTF-8 🦀".as_bytes();
    assert_eq!(buffer, expected);
}

#[test]
fn test_write_chars() {
    let mut writer = BinaryWriter::new();
    let chars = ['A', 'B', 'C'];
    writer.write_chars(&chars).unwrap();
    let buffer = writer.into_buffer();
    assert_eq!(buffer, &[65, 66, 67]);
}

#[test]
fn test_write_empty_string() {
    let mut writer = BinaryWriter::new();
    writer.write_string_utf8("").unwrap();
    let buffer = writer.into_buffer();
    assert_eq!(buffer, &[]);
}

#[test]
fn test_write_bytes() {
    let mut writer = BinaryWriter::new();
    let data = &[0x01, 0x02, 0x03, 0xFF, 0xFE];
    writer.write_bytes(data).unwrap();
    let buffer = writer.into_buffer();
    assert_eq!(buffer, data);
}

#[test]
fn test_large_data_exceeds_default_capacity() {
    let mut writer = BinaryWriter::new();
    let large_data_size = DEFAULT_CAPACITY * 2;
    let large_data: Vec<u8> = (0..large_data_size).map(|i| (i % 256) as u8).collect();
    writer.write_bytes(&large_data).unwrap();
    let buffer = writer.into_buffer();
    assert_eq!(buffer.len(), large_data_size);
    assert_eq!(buffer, &large_data[..]);
}

#[test]
fn test_write_multiple_large_operations() {
    let mut writer = BinaryWriter::new();
    for i in 0..5 {
        let chunk_size = DEFAULT_CAPACITY / 2;
        let chunk: Vec<u8> = (0..chunk_size)
            .map(|j| ((i * 100 + j) % 256) as u8)
            .collect();
        writer.write_bytes(&chunk).unwrap();
    }
    let buffer = writer.into_buffer();
    let expected_size = DEFAULT_CAPACITY / 2 * 5;
    assert_eq!(buffer.len(), expected_size);
    assert!(buffer.len() > DEFAULT_CAPACITY);
}

#[test]
fn test_buffer_management() {
    let mut writer = BinaryWriter::new();
    assert_eq!(writer.pos(), 0);
    writer.write_u32(42).unwrap();
    assert_eq!(writer.pos(), 4);
    assert_eq!(writer.size(), 4);
    writer.write_u16(100).unwrap();
    assert_eq!(writer.pos(), 6);
    assert_eq!(writer.size(), 6);
    writer.clear();
    assert_eq!(writer.pos(), 0);
    assert_eq!(writer.size(), 0);
    assert_eq!(writer.into_buffer().len(), 0);
}

#[test]
fn test_seek_operations() {
    let mut writer = BinaryWriter::new();
    writer.write_u32(0x12345678).unwrap();
    writer.write_u32(0xABCDEF00).unwrap();
    assert_eq!(writer.pos(), 8);
    writer.seek_begin().unwrap();
    assert_eq!(writer.pos(), 0);
    writer.seek(4).unwrap();
    assert_eq!(writer.pos(), 4);
    writer.write_u32(0x11111111).unwrap();
    let buffer = writer.into_buffer();
    assert_eq!(buffer, &[0x78, 0x56, 0x34, 0x12, 0x11, 0x11, 0x11, 0x11]);
}

#[test]
fn test_into_buffer() {
    let mut writer = BinaryWriter::new();
    writer.write_u32(0x12345678).unwrap();
    writer.write_string_utf8("test").unwrap();
    let buffer = writer.into_buffer();
    let expected = vec![0x78, 0x56, 0x34, 0x12, b't', b'e', b's', b't'];
    assert_eq!(buffer, expected);
}

#[test]
fn test_with_capacity() {
    let custom_capacity = 4096;
    let writer = BinaryWriter::with_capacity(custom_capacity);
    assert_eq!(writer.size(), 0);
    assert_eq!(writer.pos(), 0);
    assert!(writer.into_buffer().is_empty());
}

#[test]
fn test_write_vec_primitives() {
    let mut writer = BinaryWriter::new();
    let i32_vec = vec![1, 2, 3, -1, -2];
    let u32_vec = vec![100, 200, 300];
    let f32_vec: Vec<f32> = vec![1.1, 2.2, 3.3];
    writer.write_vec_i32(&i32_vec).unwrap();
    writer.write_vec_u32(&u32_vec).unwrap();
    // floats are written as the little-endian bits of their IEEE 754 encoding
    for value in &f32_vec {
        writer.write_u32(value.to_bits()).unwrap();
    }
    let buffer = writer.into_buffer();
    assert_eq!(buffer.len(), 44);
    assert_eq!(&buffer[0..4], &[0x01, 0x00, 0x00, 0x00]);
}

#[test]
fn test_write_vec_u32_big_endian() {
    let mut writer = BinaryWriter::new();
    let values = vec![0x12345678, 0xABCDEF00];
    writer.write_vec_u32_be(&values).unwrap();
    let buffer = writer.into_buffer();
    assert_eq!(buffer, &[0x12, 0x34, 0x56, 0x78, 0xAB, 0xCD, 0xEF, 0x00]);
}

#[test]
fn seek_past_the_end_pads_with_zeros() {
    let mut writer = BinaryWriter::new();
    writer.write_u8(1).unwrap();
    writer.seek(2).unwrap();
    writer.write_u8(9).unwrap();
    assert_eq!(writer.get_buffer(), &[1, 0, 0, 9]);
}

#[test]
fn empty_write_past_the_end_changes_nothing() {
    let mut writer = BinaryWriter::new();
    writer.seek(3).unwrap();
    writer.write_bytes(&[]).unwrap();
    assert_eq!(writer.size(), 0);
    assert_eq!(writer.pos(), 3);
}

#[test]
fn seek_before_start_is_an_error() {
    let mut writer = BinaryWriter::new();
    writer.write_u16(7).unwrap();
    assert!(matches!(writer.seek(-3), Err(WriteError::IoError(_))));
    assert_eq!(writer.pos(), 2);
    writer.seek(-2).unwrap();
    assert_eq!(writer.pos(), 0);
}

#[test]
fn c_string_error_message_gives_position() {
    let mut writer = BinaryWriter::new();
    writer.write_u16(7).unwrap();
    match writer.write_c_string_converted("a\0b") {
        Err(WriteError::Reason(m)) => assert_eq!(m, "Failed to create C string at position 2"),
        _ => panic!("expected a reason"),
    }
    assert_eq!(writer.size(), 2);
}

#[test]
fn big_endian_i32() {
    let mut writer = BinaryWriter::new();
    writer.write_i32_big(-2).unwrap();
    assert_eq!(writer.into_buffer(), &[0xFF, 0xFF, 0xFF, 0xFE]);
}
