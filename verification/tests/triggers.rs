use wce::formats::binary_reader::BinaryReader;
use wce::formats::binary_writer::BinaryWriter;
use wce::formats::{GameVersion, ReadError};
use wce::map::data_ini::DataIni;
use wce::map::triggers::enums::{ECAType, ParameterType, SubParameterType, WtgError};
use wce::map::triggers::to_game_version;
use wce::map::triggers::trigger_data::{ECADefinition, Parameter, SubParameters};
use wce::map::triggers::TriggerDefinition;

fn trigger_data() -> DataIni {
    let mut ini = DataIni::new();
    ini.merge(
        "[TriggerActions]\r\nDoNothing=0,nothing\r\nSetVar=0,AnyGlobal,VarAsString_Real\r\n[TriggerCalls]\r\nGetUnit=1,1,unit,unit,player\r\n[TriggerEvents]\r\nMapInit=0\r\n",
    );
    ini
}

fn le(v: u32) -> [u8; 4] {
    v.to_le_bytes()
}

#[test]
fn eca_with_two_parameters_reads_back() {
    let ini = trigger_data();
    let mut bytes = Vec::new();
    bytes.extend_from_slice(&le(2));
    bytes.extend_from_slice(b"SetVar\0");
    bytes.extend_from_slice(&le(1));
    for value in ["udg_x", "1.5"] {
        bytes.extend_from_slice(&le(1));
        bytes.extend_from_slice(value.as_bytes());
        bytes.push(0);
        bytes.extend_from_slice(&le(0));
        bytes.extend_from_slice(&le(0));
    }
    bytes.extend_from_slice(&le(0));
    let mut reader = BinaryReader::new(bytes.clone());
    let eca = ECADefinition::from(&mut reader, &GameVersion::TFT, &ini, false).unwrap();
    assert_eq!(eca.ftype, ECAType::Action);
    assert_eq!(eca.name, "SetVar");
    assert!(eca.enabled);
    assert_eq!(eca.parameters.len(), 2);
    assert_eq!(eca.parameters[1].value, "1.5");
    assert_eq!(eca.parameters[0].ptype, ParameterType::Variable);
    assert_eq!(eca.childs_eca.as_ref().map(|c| c.len()), Some(0));
    assert_eq!(reader.pos() as usize, bytes.len());

    let mut writer = BinaryWriter::new();
    eca.write(&mut writer, &GameVersion::TFT, &ini, false).unwrap();
    assert_eq!(writer.into_buffer(), bytes);
}

#[test]
fn eca_nothing_takes_no_parameter_and_roc_has_no_children() {
    let ini = trigger_data();
    let mut bytes = Vec::new();
    bytes.extend_from_slice(&le(2));
    bytes.extend_from_slice(b"DoNothing\0");
    bytes.extend_from_slice(&le(0));
    let mut reader = BinaryReader::new(bytes.clone());
    let eca = ECADefinition::from(&mut reader, &GameVersion::RoC, &ini, false).unwrap();
    assert!(!eca.enabled);
    assert!(eca.parameters.is_empty());
    assert!(eca.childs_eca.is_none());
    assert_eq!(reader.pos() as usize, bytes.len());
}

#[test]
fn eca_unknown_function_is_error() {
    let ini = trigger_data();
    let mut bytes = Vec::new();
    bytes.extend_from_slice(&le(2));
    bytes.extend_from_slice(b"Missing\0");
    bytes.extend_from_slice(&le(1));
    let mut reader = BinaryReader::new(bytes);
    match ECADefinition::from(&mut reader, &GameVersion::TFT, &ini, false) {
        Err(WtgError::UnknownProp(name)) => assert_eq!(name, "Missing"),
        other => panic!("unexpected {:?}", other),
    }
}

#[test]
fn eca_bad_kind_and_short_input_are_errors() {
    let ini = trigger_data();
    let mut reader = BinaryReader::new(le(7).to_vec());
    assert!(matches!(
        ECADefinition::from(&mut reader, &GameVersion::TFT, &ini, false),
        Err(WtgError::ECAConversionError(7))
    ));
    let mut reader = BinaryReader::new(vec![1, 0]);
    assert!(matches!(
        ECADefinition::from(&mut reader, &GameVersion::TFT, &ini, false),
        Err(WtgError::ErrorReader(ReadError::EOF))
    ));
}

#[test]
fn parameter_with_call_reads_and_writes_back() {
    let ini = trigger_data();
    let mut bytes = Vec::new();
    bytes.extend_from_slice(&le(2));
    bytes.extend_from_slice(b"GetUnit\0");
    bytes.extend_from_slice(&le(1));
    bytes.extend_from_slice(&le(3));
    bytes.extend_from_slice(b"GetUnit\0");
    bytes.extend_from_slice(&le(1));
    for value in ["u", "p"] {
        bytes.extend_from_slice(&le(0));
        bytes.extend_from_slice(value.as_bytes());
        bytes.push(0);
        bytes.extend_from_slice(&le(0));
        bytes.extend_from_slice(&le(0));
    }
    bytes.extend_from_slice(&le(0xFFFF_FFFF));
    bytes.extend_from_slice(&le(0));
    let mut reader = BinaryReader::new(bytes.clone());
    let p = Parameter::from(&mut reader, &GameVersion::TFT, &ini).unwrap();
    assert_eq!(p.ptype, ParameterType::Function);
    let sub = p.sub_parameters.as_ref().unwrap();
    assert_eq!(sub.ptype, SubParameterType::Call);
    assert_eq!(sub.parameters.len(), 2);
    assert_eq!(p.unknown, Some(-1));
    assert!(p.array_parameter.is_none());
    assert_eq!(reader.pos() as usize, bytes.len());

    let mut writer = BinaryWriter::new();
    p.write(&mut writer, &GameVersion::TFT, &ini).unwrap();
    assert_eq!(writer.into_buffer(), bytes);
}

#[test]
fn parameter_bad_kind_names_its_position() {
    let ini = trigger_data();
    let mut reader = BinaryReader::new(le(9).to_vec());
    match Parameter::from(&mut reader, &GameVersion::TFT, &ini) {
        Err(WtgError::ParameterConversionError { position, kind }) => {
            assert_eq!(position, 4);
            assert_eq!(kind, 9);
        }
        other => panic!("unexpected {:?}", other),
    }
}

#[test]
fn sub_parameters_unknown_call_is_error() {
    let ini = trigger_data();
    let mut bytes = Vec::new();
    bytes.extend_from_slice(&le(3));
    bytes.extend_from_slice(b"Nope\0");
    let mut reader = BinaryReader::new(bytes);
    match SubParameters::from(&mut reader, &GameVersion::TFT, &ini) {
        Err(WtgError::UnknownSubProp(name)) => assert_eq!(name, "Nope"),
        other => panic!("unexpected {:?}", other),
    }
}

#[test]
fn parameter_text_with_nul_is_write_error() {
    let ini = trigger_data();
    let p = Parameter {
        ptype: ParameterType::String,
        value: "a\0b".to_string(),
        sub_parameters: None,
        unknown: None,
        array_parameter: None,
    };
    let mut writer = BinaryWriter::new();
    assert!(matches!(p.write(&mut writer, &GameVersion::TFT, &ini), Err(WtgError::ErrorWriter(_))));
}

#[test]
fn trigger_definition_reads_flags_and_functions() {
    let ini = trigger_data();
    let mut bytes = Vec::new();
    bytes.extend_from_slice(b"Init\0desc\0");
    bytes.extend_from_slice(&le(0));
    bytes.extend_from_slice(&le(1));
    bytes.extend_from_slice(&le(0));
    bytes.extend_from_slice(&le(1));
    bytes.extend_from_slice(&le(0));
    bytes.extend_from_slice(&le(3));
    bytes.extend_from_slice(&le(1));
    bytes.extend_from_slice(&le(0));
    bytes.extend_from_slice(b"MapInit\0");
    bytes.extend_from_slice(&le(1));
    bytes.extend_from_slice(&le(0));
    let mut reader = BinaryReader::new(bytes.clone());
    let t = TriggerDefinition::from(&mut reader, &GameVersion::TFT, &ini).unwrap();
    assert_eq!(t.name, "Init");
    assert_eq!(t.description, "desc");
    assert_eq!(t.is_comment, Some(false));
    assert!(t.enabled);
    assert!(t.is_gui);
    assert!(!t.is_on);
    assert!(t.run_on_init);
    assert_eq!(t.index_category, 3);
    assert_eq!(t.ecas.len(), 1);
    assert_eq!(t.ecas[0].ftype, ECAType::Event);
    assert_eq!(reader.pos() as usize, bytes.len());
}

#[test]
fn triggers_file_versions() {
    assert_eq!(to_game_version(4).unwrap(), GameVersion::RoC);
    assert_eq!(to_game_version(7).unwrap(), GameVersion::TFT);
    assert!(matches!(to_game_version(5), Err(WtgError::UnknownGameVersion(5))));
}

#[test]
fn child_eca_unknown_function_is_error_after_its_branch() {
    let ini = trigger_data();
    let mut bytes = Vec::new();
    bytes.extend_from_slice(&le(2));
    bytes.extend_from_slice(&le(1));
    bytes.extend_from_slice(b"Missing\0");
    bytes.extend_from_slice(&le(1));
    let mut reader = BinaryReader::new(bytes);
    match ECADefinition::from(&mut reader, &GameVersion::TFT, &ini, true) {
        Err(WtgError::UnknownProp(name)) => assert_eq!(name, "Missing"),
        other => panic!("unexpected {:?}", other),
    }
    let mut reader = BinaryReader::new([le(2), le(5)].concat());
    assert!(matches!(
        ECADefinition::from(&mut reader, &GameVersion::TFT, &ini, true),
        Err(WtgError::ConditionConversionError(5))
    ));
}

#[test]
fn trigger_with_a_nested_function_reads() {
    let ini = trigger_data();
    let mut bytes = Vec::new();
    bytes.extend_from_slice(b"Init\0");
    bytes.extend_from_slice(b"\0");
    bytes.extend_from_slice(&le(0));
    for flag in [1u32, 0, 0, 0, 2, 1] {
        bytes.extend_from_slice(&le(flag));
    }
    // an event with one nested action
    bytes.extend_from_slice(&le(0));
    bytes.extend_from_slice(b"MapInit\0");
    bytes.extend_from_slice(&le(1));
    bytes.extend_from_slice(&le(1));
    bytes.extend_from_slice(&le(2));
    bytes.extend_from_slice(&le(2));
    bytes.extend_from_slice(b"DoNothing\0");
    bytes.extend_from_slice(&le(1));
    bytes.extend_from_slice(&le(0));
    let mut reader = BinaryReader::new(bytes.clone());
    let t = TriggerDefinition::from(&mut reader, &GameVersion::TFT, &ini).unwrap();
    assert_eq!(t.ecas.len(), 1);
    let children = t.ecas[0].childs_eca.as_ref().unwrap();
    assert_eq!(children.len(), 1);
    assert_eq!(children[0].name, "DoNothing");
    assert_eq!(reader.pos() as usize, bytes.len());
}
