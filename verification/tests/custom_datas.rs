use wce::map::custom_datas::messages::{
    cstring_fail_message, invalid_meta_message, unsupported_read_message, unsupported_write_message,
};
use wce::formats::binary_reader::BinaryReader;
use wce::formats::binary_writer::BinaryWriter;
use wce::formats::GameVersion;
use wce::map::custom_datas::{
    AbilityKind, BuffKind, CustomAbilityFile, CustomObjectKind, CustomObjectsFile, CustomUnitFile,
    DestructableKind, ItemKind, MetaId, MetaModification, ObjectDefinition, ObjectId, UnitKind,
    UpgradeKind, VariableValue,
};

fn check_empty_edge_case<K: CustomObjectKind>() {
    let empty: CustomObjectsFile<K> = CustomObjectsFile {
        version: 2,
        original_objects: vec![],
        custom_objects: vec![],
        kind: std::marker::PhantomData,
    };
    let mut writer = BinaryWriter::new();
    let game_version = GameVersion::TFT;
    empty.write(&mut writer, &game_version).unwrap();
    let buffer = writer.into_buffer();
    assert_eq!(buffer.len(), 0, "Empty table should produce empty buffer");
    let mut reader = BinaryReader::new(buffer);
    let reconstructed = CustomObjectsFile::<K>::read_opt(&mut reader, &game_version).unwrap();
    assert!(reconstructed.is_none(), "Reading empty buffer should return nothing");
}

#[test]
fn ability_write_empty_edge_case() {
    check_empty_edge_case::<AbilityKind>();
}

#[test]
fn buff_write_empty_edge_case() {
    check_empty_edge_case::<BuffKind>();
}

#[test]
fn destructable_write_empty_edge_case() {
    check_empty_edge_case::<DestructableKind>();
}

#[test]
fn item_write_empty_edge_case() {
    check_empty_edge_case::<ItemKind>();
}

#[test]
fn unit_write_empty_edge_case() {
    check_empty_edge_case::<UnitKind>();
}

#[test]
fn upgrade_write_empty_edge_case() {
    check_empty_edge_case::<UpgradeKind>();
}

fn meta(code: &[u8; 4], value: VariableValue, level: i32, data_pointer: i32) -> MetaModification {
    MetaModification { id: MetaId(*code), value, level, data_pointer }
}

#[test]
fn unit_table_round_trip_tft() {
    let file = CustomUnitFile {
        version: 2,
        original_objects: vec![ObjectDefinition {
            id: ObjectId::for_original(*b"hfoo"),
            modified_datas: vec![
                meta(b"uhpm", VariableValue::Integer(500), 0, 0),
                meta(b"unam", VariableValue::String("Footman X".to_string()), 0, 0),
            ],
        }],
        custom_objects: vec![ObjectDefinition {
            id: ObjectId::for_custom(*b"hfoo", *b"h000"),
            modified_datas: vec![meta(b"usca", VariableValue::Real(1.25f32.to_bits()), 0, 0)],
        }],
        kind: std::marker::PhantomData,
    };
    let game_version = GameVersion::TFT;
    let bytes = file.prepare_write(&game_version).unwrap().into_buffer();
    assert_eq!(&bytes[0..4], &2u32.to_le_bytes());
    assert_eq!(&bytes[4..8], &1u32.to_le_bytes());
    assert_eq!(&bytes[8..12], b"hfoo");
    let mut reader = BinaryReader::new(bytes);
    let back = CustomUnitFile::parse(&mut reader, &game_version).unwrap();
    assert_eq!(back.version, 2);
    assert_eq!(back.original_objects.len(), 1);
    assert_eq!(back.custom_objects.len(), 1);
    let orig = &back.original_objects[0];
    assert!(matches!(orig.id, ObjectId::Original(c) if c.0 == *b"hfoo"));
    assert_eq!(orig.modified_datas.len(), 2);
    assert_eq!(orig.modified_datas[0].id.0, *b"uhpm");
    assert!(matches!(orig.modified_datas[0].value, VariableValue::Integer(500)));
    match &orig.modified_datas[1].value {
        VariableValue::String(s) => assert_eq!(s, "Footman X"),
        other => panic!("unexpected {:?}", other),
    }
    let custom = &back.custom_objects[0];
    assert!(matches!(custom.id, ObjectId::Custom(o, c) if o.0 == *b"hfoo" && c.0 == *b"h000"));
    match custom.modified_datas[0].value {
        VariableValue::Real(bits) => assert_eq!(f32::from_bits(bits), 1.25),
        ref other => panic!("unexpected {:?}", other),
    }
}

#[test]
fn ability_table_keeps_level_and_data_pointer() {
    let file = CustomAbilityFile {
        version: 2,
        original_objects: vec![],
        custom_objects: vec![ObjectDefinition {
            id: ObjectId::for_custom(*b"AHbz", *b"A000"),
            modified_datas: vec![meta(b"Hbz2", VariableValue::Unreal(0.5f32.to_bits()), 3, 2)],
        }],
        kind: std::marker::PhantomData,
    };
    let game_version = GameVersion::TFT;
    let bytes = file.prepare_write(&game_version).unwrap().into_buffer();
    let mut reader = BinaryReader::new(bytes);
    let back = CustomAbilityFile::parse(&mut reader, &game_version).unwrap();
    assert_eq!(back.original_objects.len(), 0);
    let m = &back.custom_objects[0].modified_datas[0];
    assert_eq!(m.level, 3);
    assert_eq!(m.data_pointer, 2);
    assert!(matches!(m.value, VariableValue::Unreal(b) if f32::from_bits(b) == 0.5));
}

#[test]
fn unit_table_trailing_bytes_is_error() {
    let file = CustomUnitFile {
        version: 2,
        original_objects: vec![ObjectDefinition {
            id: ObjectId::for_original(*b"hfoo"),
            modified_datas: vec![meta(b"uhpm", VariableValue::Integer(1), 0, 0)],
        }],
        custom_objects: vec![],
        kind: std::marker::PhantomData,
    };
    let game_version = GameVersion::TFT;
    let mut bytes = file.prepare_write(&game_version).unwrap().into_buffer();
    bytes.push(0);
    let mut reader = BinaryReader::new(bytes);
    assert!(CustomUnitFile::parse(&mut reader, &game_version).is_err());
}

#[test]
fn list_value_in_tft_unit_table_cannot_be_saved() {
    let file = CustomUnitFile {
        version: 2,
        original_objects: vec![ObjectDefinition {
            id: ObjectId::for_original(*b"hfoo"),
            modified_datas: vec![meta(b"uabi", VariableValue::AbilityList("AHbz".to_string()), 0, 0)],
        }],
        custom_objects: vec![],
        kind: std::marker::PhantomData,
    };
    assert!(file.prepare_write(&GameVersion::TFT).is_err());
}

#[test]
fn unsupported_value_messages_name_object_and_meta() {
    let id = ObjectId::for_custom(*b"hfoo", *b"h000");
    assert_eq!(
        unsupported_read_message(-3, &id, b"uhpm"),
        "Unsupported vtype '-3' for object Custom(ObjectIdCode([104, 102, 111, 111]), ObjectIdCode([104, 48, 48, 48])) on meta 'uhpm'"
    );
    let original = ObjectId::for_original(*b"hfoo");
    assert_eq!(format!("{:?}", original), "Original(ObjectIdCode([104, 102, 111, 111]))");
    assert_eq!(
        unsupported_write_message(8, &original, b"uabi", Some(GameVersion::TFT)),
        "Unsupported vtype '8' for object Original(ObjectIdCode([104, 102, 111, 111])) on meta 'uabi' version 'TFT'"
    );
    assert_eq!(
        invalid_meta_message(&original, b"unam"),
        "Invalid object 'Original(ObjectIdCode([104, 102, 111, 111]))' of meta 'unam'. Reason 'C string contained non-utf8 bytes"
    );
    assert_eq!(
        cstring_fail_message(&original, b"anam", 21),
        "Failed to read cstring for object 'Original(ObjectIdCode([104, 102, 111, 111]))' of meta 'anam' (byte position 21)"
    );
}

#[test]
fn tft_list_value_message_names_the_version() {
    let file = CustomUnitFile {
        version: 2,
        original_objects: vec![ObjectDefinition {
            id: ObjectId::for_original(*b"hfoo"),
            modified_datas: vec![meta(b"uabi", VariableValue::AbilityList("AHbz".to_string()), 0, 0)],
        }],
        custom_objects: vec![],
        kind: std::marker::PhantomData,
    };
    let mut writer = BinaryWriter::new();
    match file.write(&mut writer, &GameVersion::TFT) {
        Err(wce::formats::WriteError::Reason(m)) => assert_eq!(
            m,
            "Unsupported vtype '17' for object Original(ObjectIdCode([104, 102, 111, 111])) on meta 'uabi' version 'TFT'"
        ),
        other => panic!("unexpected {:?}", other),
    }
}
