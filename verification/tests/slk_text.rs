use wce::slkparser::cell::Cell;
use wce::slkparser::slk_type::{Record, RecordType};
use wce::slkparser::text_scanner::{Document, SLKScanner};

const SAMPLE: &str = "ID;PWXL;N;E\nB;Y3;X4;D0 0 2 3\nC;Y1;X1;K\"a\"\nC;X2;K1\nNU;x\nE\n";

#[test]
fn test_func() {
    let a = String::from("Hello");
    let b = &a[0..1];
    assert_eq!(b, "H");
    assert_eq!(1, 1);
}

#[test]
fn text_parse_record_one_by_one() {
    let mut reader = SLKScanner::new(SAMPLE, "\n");
    assert_eq!(reader.parse_record(), Ok(Record::Header));
    assert_eq!(reader.parse_record(), Ok(Record::Info(3, 4)));
    assert_eq!(
        reader.parse_record(),
        Ok(Record::CellContent(Cell::new(1, Some(1), Some("a".to_string()))))
    );
    assert_eq!(reader.parse_record(), Ok(Record::CellContent(Cell::new(2, None, Some("1".to_string())))));
    assert_eq!(reader.parse_record(), Ok(Record::Substitution));
    assert_eq!(reader.parse_record(), Ok(Record::EOF));
    assert_eq!(reader.parse_record(), Err("EOF".to_string()));
}

#[test]
fn text_unknown_record_is_a_message() {
    let mut reader = SLKScanner::new("ZZ;X1\r\nE\r\n", "\r\n");
    assert_eq!(reader.parse_record(), Err("Unknown record ZZ".to_string()));
    assert_eq!(reader.parse_record(), Ok(Record::EOF));
}

#[test]
fn text_record_types_by_id() {
    assert_eq!(RecordType::from_id("ID"), Ok(RecordType::Header));
    assert_eq!(RecordType::from_id("NL"), Ok(RecordType::ChartExtLink));
    assert_eq!(RecordType::from_id("E"), Ok(RecordType::EOF));
    assert_eq!(RecordType::from_id("Q"), Err("Unknown record Q".to_string()));
    assert!(RecordType::EOF.is_eof());
    assert!(!RecordType::Info.is_eof());
}

#[test]
fn text_record_from_fields() {
    let fields = vec!["Y7".to_string(), "X2".to_string(), "D0".to_string()];
    assert_eq!(Record::from(Ok(RecordType::Info), &fields), Ok(Record::Info(7, 2)));
    let cell = vec!["X3".to_string(), "K\"q\"".to_string()];
    assert_eq!(
        Record::from(Ok(RecordType::CellContent), &cell),
        Ok(Record::CellContent(Cell::new(3, None, Some("q".to_string()))))
    );
    assert_eq!(Record::from(Err("m".to_string()), &cell), Err("m".to_string()));
}

#[test]
fn text_cell_parse_errors_name_the_field() {
    let fields = vec!["X1".to_string(), "Yz".to_string()];
    match Cell::parse(&fields, None) {
        Err(wce::slkparser::error::SLKError::Parsing { content, .. }) => assert_eq!(content, "Y"),
        other => panic!("unexpected {:?}", other),
    }
    let ok = vec!["Y2".to_string(), "X5".to_string(), "K7".to_string()];
    assert_eq!(Cell::parse(&ok, None).unwrap(), Cell::new(5, Some(2), Some("7".to_string())));
}

#[test]
fn text_document_keeps_dimensions_and_cells() {
    let reader = SLKScanner::new(SAMPLE, "\n");
    let mut document = Document::default();
    document.load(reader);
    let cells = document.get_contents();
    assert_eq!(cells.len(), 2);
    assert_eq!(cells[0].get_value(), Some("a".to_string()));
    assert_eq!(cells[1].get_column(), 2);
}
