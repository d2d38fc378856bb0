use wce::slkparser::fields::{FieldBytes, FieldIter};

fn fields(line: &[u8]) -> Vec<Vec<u8>> {
    let mut iter = FieldIter::new(line);
    let mut out = Vec::new();
    while let Some(f) = iter.next() {
        out.push(f.into_owned());
    }
    out
}

#[test]
fn splits_on_semicolon() {
    assert_eq!(
        fields(b"C;X1;Y2"),
        vec![b"C".to_vec(), b"X1".to_vec(), b"Y2".to_vec()]
    );
}

#[test]
fn double_semicolon_is_a_literal_semicolon() {
    assert_eq!(
        fields(b"P;PGeneral;;suffix"),
        vec![b"P".to_vec(), b"PGeneral;suffix".to_vec()]
    );
}

#[test]
fn escape_then_separator() {
    assert_eq!(fields(b"C;;;X1"), vec![b"C;".to_vec(), b"X1".to_vec()]);
}

#[test]
fn real_excel_format_string() {
    assert_eq!(
        fields(b"P;P#,##0_);;\\-#,##0_)"),
        vec![b"P".to_vec(), b"P#,##0_);\\-#,##0_)".to_vec()]
    );
}

#[test]
fn empty_line_yields_nothing() {
    assert!(fields(b"").is_empty());
}

#[test]
fn single_field_line() {
    assert_eq!(fields(b"E"), vec![b"E".to_vec()]);
}

#[test]
fn trailing_separator_yields_trailing_empty_field() {
    assert_eq!(fields(b"O;"), vec![b"O".to_vec(), vec![]]);
}

#[test]
fn no_allocation_without_escape() {
    let line: &[u8] = b"C;X1;K\"abc\"";
    let mut iter = FieldIter::new(line);
    let mut all_borrowed = true;
    while let Some(f) = iter.next() {
        all_borrowed = all_borrowed && matches!(f, FieldBytes::Borrowed(_));
    }
    assert!(all_borrowed);
}

#[test]
fn escaped_field_is_owned() {
    let mut iter = FieldIter::new(b"A;;B;C");
    let first = iter.next().unwrap();
    assert!(matches!(first, FieldBytes::Owned(_)));
    assert_eq!(first.as_slice(), b"A;B");
    let second = iter.next().unwrap();
    assert!(matches!(second, FieldBytes::Borrowed(_)));
    assert_eq!(second.as_slice(), b"C");
    assert!(iter.next().is_none());
    assert!(iter.next().is_none());
}

fn join(fs: &[Vec<u8>]) -> Vec<u8> {
    let mut out = Vec::new();
    for (k, f) in fs.iter().enumerate() {
        if k > 0 {
            out.push(b';');
        }
        for &b in f {
            if b == b';' {
                out.extend_from_slice(b";;");
            } else {
                out.push(b);
            }
        }
    }
    out
}

#[test]
fn split_then_join_gives_the_line_back() {
    for line in [&b"C;X1;Y2"[..], b"P;PGeneral;;suffix", b"C;;;X1", b"O;", b";;;", b";", b""] {
        let fs = fields(line);
        assert_eq!(fs.is_empty(), line.is_empty());
        assert_eq!(join(&fs), line.to_vec());
    }
}

#[test]
fn all_fields_at_once_match_successive_calls() {
    for line in [&b"C;X1;Y2"[..], b"P;PGeneral;;suffix", b"C;;;X1", b"O;", b""] {
        let at_once: Vec<Vec<u8>> = FieldIter::new(line).fields().into_iter().map(|f| f.into_owned()).collect();
        assert_eq!(at_once, fields(line));
    }
    let fs = FieldIter::new(b"P;PGeneral;;suffix").fields();
    assert!(matches!(fs[0], FieldBytes::Borrowed(b"P")));
    assert!(matches!(&fs[1], FieldBytes::Owned(v) if v == b"PGeneral;suffix"));
    assert!(FieldIter::new(b"").fields().is_empty());
}
