use wce::slkparser::cell::Cell;
use wce::slkparser::error::SLKError;
use wce::slkparser::fields::FieldIter;
use wce::slkparser::slk_type::{parse_u32, Record, RecordType};

#[test]
fn record_type_from_bytes() {
    assert_eq!(RecordType::from_bytes(b"ID", 1).unwrap(), RecordType::Header);
    assert_eq!(RecordType::from_bytes(b"B", 1).unwrap(), RecordType::Info);
    assert_eq!(RecordType::from_bytes(b"C", 1).unwrap(), RecordType::CellContent);
    assert_eq!(RecordType::from_bytes(b"E", 1).unwrap(), RecordType::EOF);
    assert!(matches!(
        RecordType::from_bytes(b"ZZ", 7),
        Err(SLKError::InvalidType { record_index: 7, .. })
    ));
}

#[test]
fn record_type_from_bytes_all_kinds() {
    let kinds: [(&[u8], RecordType); 12] = [
        (b"ID", RecordType::Header),
        (b"B", RecordType::Info),
        (b"C", RecordType::CellContent),
        (b"P", RecordType::CellFormat),
        (b"F", RecordType::Format),
        (b"O", RecordType::Options),
        (b"NU", RecordType::Substitution),
        (b"NE", RecordType::ExtLink),
        (b"NN", RecordType::NameDefinitions),
        (b"W", RecordType::WindowDefinitions),
        (b"NL", RecordType::ChartExtLink),
        (b"E", RecordType::EOF),
    ];
    for (id, kind) in kinds.iter() {
        assert_eq!(RecordType::from_bytes(id, 3).unwrap(), *kind);
    }
    match RecordType::from_bytes(b"IDX", 2) {
        Err(SLKError::InvalidType { record_index, record_type }) => {
            assert_eq!(record_index, 2);
            assert_eq!(record_type, "IDX");
        }
        other => panic!("unexpected {:?}", other),
    }
}

#[test]
fn info_record_from_fields() {
    let fields = FieldIter::new(b"Y3;X4");
    let record = Record::from_fields(RecordType::Info, fields, 2).unwrap();
    assert_eq!(record, Record::Info(3, 4));
}

#[test]
fn info_record_bad_number_is_error() {
    let fields = FieldIter::new(b"Yabc;X4");
    assert!(matches!(
        Record::from_fields(RecordType::Info, fields, 2),
        Err(SLKError::ParseInt { record_index: 2, .. })
    ));
}

#[test]
fn cell_record_from_fields() {
    let fields = FieldIter::new(b"X1;Y1;K\"a\"");
    let record = Record::from_fields(RecordType::CellContent, fields, 5).unwrap();
    let expected = Cell::new(1, Some(1), Some(String::from("a")));
    assert_eq!(record, Record::CellContent(expected));
}

#[test]
fn ignored_record_types_pass_through() {
    let fields = FieldIter::new(b"PGeneral;extra");
    let record = Record::from_fields(RecordType::CellFormat, fields, 3).unwrap();
    assert_eq!(record, Record::CellFormat);
}

#[test]
fn parse_u32_examples() {
    assert_eq!(parse_u32(b"42", RecordType::Info, "X", 1).unwrap(), 42);
    assert!(matches!(
        parse_u32(b"", RecordType::Info, "X", 1),
        Err(SLKError::ParseInt { .. })
    ));
    assert!(matches!(
        parse_u32(b"-1", RecordType::Info, "X", 1),
        Err(SLKError::ParseInt { .. })
    ));
    assert!(matches!(
        parse_u32(b"\xc3", RecordType::Info, "X", 9),
        Err(SLKError::Malformed { record_index: 9, .. })
    ));
}
