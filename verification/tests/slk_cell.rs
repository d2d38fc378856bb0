use wce::slkparser::cell::{decode_value, Cell};
use wce::slkparser::error::SLKError;
use wce::slkparser::fields::FieldIter;

fn cell(line: &[u8]) -> Result<Cell, SLKError> {
    Cell::from_fields(FieldIter::new(line), 1)
}

#[test]
fn cell_quoted_value() {
    assert_eq!(cell(b"X1;Y1;K\"a\"").unwrap().value(), Some("a"));
}

#[test]
fn cell_unquoted_numeric_value() {
    assert_eq!(cell(b"X2;K1").unwrap().value(), Some("1"));
}

#[test]
fn cell_escaped_semicolon_in_value() {
    assert_eq!(cell(b"X1;Y1;K\"a;;b\"").unwrap().value(), Some("a;b"));
}

#[test]
fn cell_doubled_quotes_are_unescaped() {
    assert_eq!(
        cell(b"X1;Y1;K\"say \"\"hi\"\"\"").unwrap().value(),
        Some(r#"say "hi""#)
    );
}

#[test]
fn cell_lone_quote_is_empty_value_not_panic() {
    assert_eq!(cell(b"X1;Y1;K\"").unwrap().value(), Some(""));
}

#[test]
fn cell_unterminated_quote_keeps_content() {
    assert_eq!(cell(b"X1;Y1;K\"abc").unwrap().value(), Some("abc"));
}

#[test]
fn cell_empty_field_is_ignored_not_panic() {
    let parsed = cell(b"X1;Y1;").unwrap();
    assert_eq!(parsed.get_column(), 1);
    assert_eq!(parsed.value(), None);
}

#[test]
fn cell_non_utf8_value_is_lossy() {
    assert_eq!(
        cell(b"X1;K\"caf\xe9\"").unwrap().value(),
        Some("caf\u{FFFD}")
    );
}

#[test]
fn cell_non_utf8_coordinate_is_error() {
    assert!(matches!(
        cell(b"X\xff;Y1"),
        Err(SLKError::Malformed {
            record_index: 1,
            ..
        })
    ));
}

#[test]
fn cell_coordinates_are_parsed() {
    let parsed = cell(b"Y2;X3;K\"v\"").unwrap();
    assert_eq!(parsed.get_row(), Some(2));
    assert_eq!(parsed.get_column(), 3);
}

#[test]
fn cell_malformed_reason_names_the_field() {
    match cell(b"Y\xfe") {
        Err(SLKError::Malformed { record_index, reason }) => {
            assert_eq!(record_index, 1);
            assert_eq!(reason, "non-UTF-8 bytes in numeric field 'Y'");
        }
        other => panic!("unexpected {:?}", other),
    }
}

#[test]
fn cell_bad_number_names_the_field() {
    match cell(b"X1;Y+;K2") {
        Err(SLKError::ParseInt { record_index, field, .. }) => {
            assert_eq!(record_index, 1);
            assert_eq!(field, "Y");
        }
        other => panic!("unexpected {:?}", other),
    }
}

#[test]
fn cell_plus_sign_is_accepted() {
    let parsed = cell(b"X+7;Y007").unwrap();
    assert_eq!(parsed.get_column(), 7);
    assert_eq!(parsed.get_row(), Some(7));
}

#[test]
fn cell_later_fields_override_earlier_ones() {
    let parsed = cell(b"X1;X2;K\"a\";K\"b\"").unwrap();
    assert_eq!(parsed.get_column(), 2);
    assert_eq!(parsed.get_value(), Some(String::from("b")));
}

#[test]
fn cell_new_and_getters() {
    let c = Cell::new(4, None, Some(String::from("v")));
    assert_eq!(c.get_column(), 4);
    assert_eq!(c.get_row(), None);
    assert_eq!(c.value(), Some("v"));
    assert_eq!(c.get_value(), Some(String::from("v")));
}

#[test]
fn decode_value_examples() {
    assert_eq!(decode_value(b"\"\""), "");
    assert_eq!(decode_value(b"\"a\"\"\""), "a\"");
    assert_eq!(decode_value(b"plain"), "plain");
    assert_eq!(decode_value(b"\"\"\"\""), "\"");
}

#[test]
fn coordinate_overflow_is_error() {
    assert!(matches!(cell(b"X4294967296"), Err(SLKError::ParseInt { .. })));
    assert_eq!(cell(b"X4294967295").unwrap().get_column(), 4294967295);
}
