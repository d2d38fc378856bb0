use wce::slkparser::document::Document;
use wce::slkparser::error::SLKError;
use wce::slkparser::scanner::SLKScanner;
use wce::slkparser::slk_type::Record;

fn records(bytes: &[u8]) -> Vec<Result<Record, SLKError>> {
    SLKScanner::from_bytes(bytes.to_vec()).records()
}

fn only_cell_value(bytes: &[u8]) -> Option<String> {
    records(bytes).into_iter().find_map(|r| match r {
        Ok(Record::CellContent(cell)) => cell.value().map(String::from),
        _ => None,
    })
}

#[test]
fn semicolon_escape_in_cell_value() {
    assert_eq!(
        only_cell_value(b"ID;PWXL\r\nC;X1;Y1;K\"a;;b\"\r\nE\r\n"),
        Some(String::from("a;b"))
    );
}

#[test]
fn mixed_line_endings_in_one_file() {
    let recs = records(b"ID;PWXL\nC;X1;Y1;K\"a\"\r\nE\n");
    assert_eq!(recs.len(), 2);
    assert!(recs.iter().all(|r| r.is_ok()));
}

#[test]
fn empty_buffer_yields_nothing() {
    assert!(records(b"").is_empty());
}

#[test]
fn blank_lines_are_ignored() {
    let recs = records(b"ID;PWXL\r\n\r\n\nC;X1;Y1;K1\r\nE\r\n");
    assert_eq!(recs.len(), 2);
}

#[test]
fn truncated_last_record_is_parsed() {
    assert_eq!(
        only_cell_value(b"ID;PWXL\r\nC;X1;Y1;K\"tronqu"),
        Some(String::from("tronqu"))
    );
}

#[test]
fn missing_e_record_ends_cleanly() {
    let recs = records(b"ID;PWXL\r\nC;X1;Y1;K1\r\n");
    assert_eq!(recs.len(), 2);
    assert!(recs.iter().all(|r| r.is_ok()));
}

#[test]
fn records_after_e_are_not_read() {
    let recs = records(b"ID;PWXL\r\nE\r\nC;X1;Y1;K1\r\n");
    assert_eq!(recs.len(), 1);
}

#[test]
fn unknown_record_type_is_an_error_not_a_panic() {
    let recs = records(b"ZZ;X1\r\nE\r\n");
    assert_eq!(recs.len(), 1);
    assert!(matches!(
        recs[0],
        Err(SLKError::InvalidType {
            record_index: 1,
            ..
        })
    ));
}

#[test]
fn invalid_number_is_an_error_not_a_panic() {
    let recs = records(b"C;Xabc;Y1\r\nE\r\n");
    assert!(matches!(recs[0], Err(SLKError::ParseInt { .. })));
}

#[test]
fn double_semicolon_merges_fields_per_spec() {
    let recs = records(b"C;X1;;Y2;K\"v\"\r\nE\r\n");
    assert!(matches!(recs[0], Err(SLKError::ParseInt { .. })));
}

#[test]
fn fuzz_mutations_never_panic() {
    let base = b"ID;PWXL\r\nB;Y3;X4\r\nC;Y1;X1;K\"a;;b\"\r\nC;X2;K\"say \"\"hi\"\"\"\r\nC;Y2;X1;K12\r\nE\r\n".to_vec();
    let mut state: u64 = 0x9E37_79B9_7F4A_7C15;
    let mut next = move || {
        state ^= state << 13;
        state ^= state >> 7;
        state ^= state << 17;
        state
    };
    for _ in 0..2000 {
        let mut mutated = base.clone();
        let mutations = next() % 8 + 1;
        for _ in 0..mutations {
            let idx = (next() as usize) % mutated.len();
            mutated[idx] = (next() & 0xFF) as u8;
        }
        let mut scanner = SLKScanner::from_bytes(mutated);
        while let Some(record) = scanner.next_record() {
            let _ = record;
        }
    }
}

#[test]
fn errors_do_not_stop_the_scan() {
    let recs = records(b"ZZ\r\nC;X1;K1\r\nC;Xq\r\nB;Y1;X1\r\n");
    assert_eq!(recs.len(), 4);
    assert!(matches!(recs[0], Err(SLKError::InvalidType { record_index: 1, .. })));
    assert!(recs[1].is_ok());
    assert!(matches!(recs[2], Err(SLKError::ParseInt { record_index: 3, .. })));
    assert_eq!(recs[3].as_ref().unwrap(), &Record::Info(1, 1));
}

#[test]
fn lone_carriage_return_ends_a_last_line() {
    let recs = records(b"ID\r");
    assert_eq!(recs.len(), 1);
    assert_eq!(recs[0].as_ref().unwrap(), &Record::Header);
}

#[test]
fn document_loads_inline_sample() {
    let scanner = SLKScanner::from_bytes(
        b"ID;PWXL;N;E\r\nB;Y2;X2\r\nC;Y1;X1;K\"a\"\r\nC;X2;K\"b\"\r\nC;Y2;X1;K3\r\nC;X2;K4\r\nE\r\n"
            .to_vec(),
    );
    let mut document = Document::default();
    document.load(scanner).expect("load");
    assert_eq!(document.row_count(), 2);
    assert_eq!(document.column_count(), 2);
    let cells = document.get_contents();
    assert_eq!(cells.len(), 4);
    assert_eq!(cells[0].value(), Some("a"));
    assert_eq!(cells[2].value(), Some("3"));
    assert_eq!(cells[3].get_row(), None);
}

#[test]
fn document_load_stops_at_first_error() {
    let scanner = SLKScanner::from_bytes(b"C;X1;K1\r\nC;Xz\r\nC;X2;K2\r\n".to_vec());
    let mut document = Document::default();
    let res = document.load(scanner);
    assert!(matches!(res, Err(SLKError::ParseInt { record_index: 2, .. })));
    assert_eq!(document.get_contents().len(), 1);
}
