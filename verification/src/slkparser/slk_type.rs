//! SLK record types and the records built from their fields.

use vstd::prelude::*;
use vstd::utf8::*;

use crate::slkparser::cell::{Cell, CellView, cell_fold, field_label};
use crate::slkparser::error::SLKError;
use crate::slkparser::fields::FieldIter;
use crate::slkparser::text::{parse_u32_str, str_from_utf8, u32_from_decimal, utf8_lossy, utf8_lossy_string};

verus! {

/// Byte of the `Y` (row) field descriptor.
pub const FIELD_Y: u8 = 89u8;
/// Byte of the `X` (column) field descriptor.
pub const FIELD_X: u8 = 88u8;
/// Byte of the `K` (value) field descriptor.
pub const FIELD_K: u8 = 75u8;

/// The type of an SLK record, given by its first field (RTD).
#[derive(Debug, PartialOrd, PartialEq, Eq, Structural, Clone, Copy)]
pub enum RecordType {
    Header,
    Info,
    CellContent,
    CellFormat,
    Format,
    Options,
    Substitution,
    ExtLink,
    NameDefinitions,
    WindowDefinitions,
    ChartExtLink,
    EOF,
}

/// The record type that the RTD bytes `id` name, if any.
pub open spec fn record_type_of(id: Seq<u8>) -> Option<RecordType> {
    if id =~= seq![73u8, 68u8] {
        Some(RecordType::Header)
    } else if id =~= seq![66u8] {
        Some(RecordType::Info)
    } else if id =~= seq![67u8] {
        Some(RecordType::CellContent)
    } else if id =~= seq![80u8] {
        Some(RecordType::CellFormat)
    } else if id =~= seq![70u8] {
        Some(RecordType::Format)
    } else if id =~= seq![79u8] {
        Some(RecordType::Options)
    } else if id =~= seq![78u8, 85u8] {
        Some(RecordType::Substitution)
    } else if id =~= seq![78u8, 69u8] {
        Some(RecordType::ExtLink)
    } else if id =~= seq![78u8, 78u8] {
        Some(RecordType::NameDefinitions)
    } else if id =~= seq![87u8] {
        Some(RecordType::WindowDefinitions)
    } else if id =~= seq![78u8, 76u8] {
        Some(RecordType::ChartExtLink)
    } else if id =~= seq![69u8] {
        Some(RecordType::EOF)
    } else {
        None
    }
}

/// The record type names of SLK files: `ID` header, `B` info, `C` cell
/// content, `P` cell format, `F` format, `O` options, `NU` substitution,
/// `NE` external link, `NN` name definitions, `W` window definitions, `NL`
/// chart external link, `E` end of file; any other name is none.
pub proof fn law_record_type_names(id: Seq<u8>)
    ensures
        record_type_of(seq![73u8, 68u8]) == Some(RecordType::Header),
        record_type_of(seq![66u8]) == Some(RecordType::Info),
        record_type_of(seq![67u8]) == Some(RecordType::CellContent),
        record_type_of(seq![80u8]) == Some(RecordType::CellFormat),
        record_type_of(seq![70u8]) == Some(RecordType::Format),
        record_type_of(seq![79u8]) == Some(RecordType::Options),
        record_type_of(seq![78u8, 85u8]) == Some(RecordType::Substitution),
        record_type_of(seq![78u8, 69u8]) == Some(RecordType::ExtLink),
        record_type_of(seq![78u8, 78u8]) == Some(RecordType::NameDefinitions),
        record_type_of(seq![87u8]) == Some(RecordType::WindowDefinitions),
        record_type_of(seq![78u8, 76u8]) == Some(RecordType::ChartExtLink),
        record_type_of(seq![69u8]) == Some(RecordType::EOF),
        id.len() == 0 || id.len() > 2 ==> record_type_of(id) is None,
{
    assert(record_type_of(seq![73u8, 68u8]) == Some(RecordType::Header));
    assert(seq![66u8].len() != seq![73u8, 68u8].len());
    assert(record_type_of(seq![66u8]) == Some(RecordType::Info));
    assert(seq![67u8].len() != seq![73u8, 68u8].len());
    assert(seq![67u8][0] != seq![66u8][0]);
    assert(record_type_of(seq![67u8]) == Some(RecordType::CellContent));
    assert(seq![80u8].len() != seq![73u8, 68u8].len());
    assert(seq![80u8][0] != seq![66u8][0]);
    assert(seq![80u8][0] != seq![67u8][0]);
    assert(record_type_of(seq![80u8]) == Some(RecordType::CellFormat));
    assert(seq![70u8].len() != seq![73u8, 68u8].len());
    assert(seq![70u8][0] != seq![66u8][0]);
    assert(seq![70u8][0] != seq![67u8][0]);
    assert(seq![70u8][0] != seq![80u8][0]);
    assert(record_type_of(seq![70u8]) == Some(RecordType::Format));
    assert(seq![79u8].len() != seq![73u8, 68u8].len());
    assert(seq![79u8][0] != seq![66u8][0]);
    assert(seq![79u8][0] != seq![67u8][0]);
    assert(seq![79u8][0] != seq![80u8][0]);
    assert(seq![79u8][0] != seq![70u8][0]);
    assert(record_type_of(seq![79u8]) == Some(RecordType::Options));
    assert(seq![78u8, 85u8][0] != seq![73u8, 68u8][0]);
    assert(seq![78u8, 85u8].len() != seq![66u8].len());
    assert(seq![78u8, 85u8].len() != seq![67u8].len());
    assert(seq![78u8, 85u8].len() != seq![80u8].len());
    assert(seq![78u8, 85u8].len() != seq![70u8].len());
    assert(seq![78u8, 85u8].len() != seq![79u8].len());
    assert(record_type_of(seq![78u8, 85u8]) == Some(RecordType::Substitution));
    assert(seq![78u8, 69u8][0] != seq![73u8, 68u8][0]);
    assert(seq![78u8, 69u8].len() != seq![66u8].len());
    assert(seq![78u8, 69u8].len() != seq![67u8].len());
    assert(seq![78u8, 69u8].len() != seq![80u8].len());
    assert(seq![78u8, 69u8].len() != seq![70u8].len());
    assert(seq![78u8, 69u8].len() != seq![79u8].len());
    assert(seq![78u8, 69u8][1] != seq![78u8, 85u8][1]);
    assert(record_type_of(seq![78u8, 69u8]) == Some(RecordType::ExtLink));
    assert(seq![78u8, 78u8][0] != seq![73u8, 68u8][0]);
    assert(seq![78u8, 78u8].len() != seq![66u8].len());
    assert(seq![78u8, 78u8].len() != seq![67u8].len());
    assert(seq![78u8, 78u8].len() != seq![80u8].len());
    assert(seq![78u8, 78u8].len() != seq![70u8].len());
    assert(seq![78u8, 78u8].len() != seq![79u8].len());
    assert(seq![78u8, 78u8][1] != seq![78u8, 85u8][1]);
    assert(seq![78u8, 78u8][1] != seq![78u8, 69u8][1]);
    assert(record_type_of(seq![78u8, 78u8]) == Some(RecordType::NameDefinitions));
    assert(seq![87u8].len() != seq![73u8, 68u8].len());
    assert(seq![87u8][0] != seq![66u8][0]);
    assert(seq![87u8][0] != seq![67u8][0]);
    assert(seq![87u8][0] != seq![80u8][0]);
    assert(seq![87u8][0] != seq![70u8][0]);
    assert(seq![87u8][0] != seq![79u8][0]);
    assert(seq![87u8].len() != seq![78u8, 85u8].len());
    assert(seq![87u8].len() != seq![78u8, 69u8].len());
    assert(seq![87u8].len() != seq![78u8, 78u8].len());
    assert(record_type_of(seq![87u8]) == Some(RecordType::WindowDefinitions));
    assert(seq![78u8, 76u8][0] != seq![73u8, 68u8][0]);
    assert(seq![78u8, 76u8].len() != seq![66u8].len());
    assert(seq![78u8, 76u8].len() != seq![67u8].len());
    assert(seq![78u8, 76u8].len() != seq![80u8].len());
    assert(seq![78u8, 76u8].len() != seq![70u8].len());
    assert(seq![78u8, 76u8].len() != seq![79u8].len());
    assert(seq![78u8, 76u8][1] != seq![78u8, 85u8][1]);
    assert(seq![78u8, 76u8][1] != seq![78u8, 69u8][1]);
    assert(seq![78u8, 76u8][1] != seq![78u8, 78u8][1]);
    assert(seq![78u8, 76u8].len() != seq![87u8].len());
    assert(record_type_of(seq![78u8, 76u8]) == Some(RecordType::ChartExtLink));
    assert(seq![69u8].len() != seq![73u8, 68u8].len());
    assert(seq![69u8][0] != seq![66u8][0]);
    assert(seq![69u8][0] != seq![67u8][0]);
    assert(seq![69u8][0] != seq![80u8][0]);
    assert(seq![69u8][0] != seq![70u8][0]);
    assert(seq![69u8][0] != seq![79u8][0]);
    assert(seq![69u8].len() != seq![78u8, 85u8].len());
    assert(seq![69u8].len() != seq![78u8, 69u8].len());
    assert(seq![69u8].len() != seq![78u8, 78u8].len());
    assert(seq![69u8][0] != seq![87u8][0]);
    assert(seq![69u8].len() != seq![78u8, 76u8].len());
    assert(record_type_of(seq![69u8]) == Some(RecordType::EOF));
    if id.len() == 0 || id.len() > 2 {
        assert(seq![73u8, 68u8].len() == 2 && seq![66u8].len() == 1 && seq![78u8, 85u8].len() == 2);
    }
}

impl RecordType {
    /// Identifies the record type from its raw RTD (first field).
    pub fn from_bytes(id: &[u8], record_index: usize) -> (res: Result<Self, SLKError>)
        ensures
            record_type_of(id@) matches Some(t) ==> res == Ok::<RecordType, SLKError>(t),
            record_type_of(id@) is None ==> (res matches Err(
                SLKError::InvalidType { record_index: ri, record_type: rt },
            ) && ri == record_index && rt@ == utf8_lossy(id@) && (valid_utf8(id@) ==> rt@ == decode_utf8(
                id@,
            ))),
    {
        let found: Option<RecordType> = if id.len() == 1 {
            let b = id[0];
            if b == 66u8 {
                Some(RecordType::Info)
            } else if b == 67u8 {
                Some(RecordType::CellContent)
            } else if b == 80u8 {
                Some(RecordType::CellFormat)
            } else if b == 70u8 {
                Some(RecordType::Format)
            } else if b == 79u8 {
                Some(RecordType::Options)
            } else if b == 87u8 {
                Some(RecordType::WindowDefinitions)
            } else if b == 69u8 {
                Some(RecordType::EOF)
            } else {
                None
            }
        } else if id.len() == 2 {
            let a = id[0];
            let b = id[1];
            if a == 73u8 && b == 68u8 {
                Some(RecordType::Header)
            } else if a == 78u8 && b == 85u8 {
                Some(RecordType::Substitution)
            } else if a == 78u8 && b == 69u8 {
                Some(RecordType::ExtLink)
            } else if a == 78u8 && b == 78u8 {
                Some(RecordType::NameDefinitions)
            } else if a == 78u8 && b == 76u8 {
                Some(RecordType::ChartExtLink)
            } else {
                None
            }
        } else {
            None
        };
        proof {
            if id@.len() != 1 && id@.len() != 2 {
                assert(record_type_of(id@) is None);
            }
        }
        match found {
            Some(t) => Ok(t),
            None => Err(SLKError::InvalidType { record_index, record_type: utf8_lossy_string(id) }),
        }
    }
}

/// The abstract content of a record.
pub ghost enum RecordView {
    Header,
    Info(u32, u32),
    CellContent(CellView),
    CellFormat,
    Format,
    Options,
    Substitution,
    ExtLink,
    NameDefinitions,
    WindowDefinitions,
    ChartExtLink,
    EOF,
}

/// A parsed SLK record. Only `Info` (`B`) and `CellContent` (`C`) carry data.
#[derive(Debug, PartialOrd, PartialEq, Clone)]
pub enum Record {
    Header,
    Info(u32, u32),
    CellContent(Cell),
    CellFormat,
    Format,
    Options,
    Substitution,
    ExtLink,
    NameDefinitions,
    WindowDefinitions,
    ChartExtLink,
    EOF,
}

impl View for Record {
    type V = RecordView;

    open spec fn view(&self) -> RecordView {
        match self {
            Record::Header => RecordView::Header,
            Record::Info(r, c) => RecordView::Info(*r, *c),
            Record::CellContent(cell) => RecordView::CellContent(cell@),
            Record::CellFormat => RecordView::CellFormat,
            Record::Format => RecordView::Format,
            Record::Options => RecordView::Options,
            Record::Substitution => RecordView::Substitution,
            Record::ExtLink => RecordView::ExtLink,
            Record::NameDefinitions => RecordView::NameDefinitions,
            Record::WindowDefinitions => RecordView::WindowDefinitions,
            Record::ChartExtLink => RecordView::ChartExtLink,
            Record::EOF => RecordView::EOF,
        }
    }
}

/// The number that a numeric field content spells: its UTF-8 text read as a `u32`.
pub open spec fn spec_parse_u32(bytes: Seq<u8>) -> Option<u32> {
    if valid_utf8(bytes) {
        u32_from_decimal(decode_utf8(bytes))
    } else {
        None
    }
}

/// The reason of the error raised for non UTF-8 bytes in numeric field `field`.
pub open spec fn numeric_reason(field: Seq<char>) -> Seq<char> {
    "non-UTF-8 bytes in numeric field '"@ + field + "'"@
}

/// Whether `e` is the error raised for the numeric field `field` of content
/// `bytes`, which does not spell a `u32`.
pub open spec fn numeric_error(
    e: SLKError,
    bytes: Seq<u8>,
    record_type: RecordType,
    field: Seq<char>,
    record_index: usize,
) -> bool {
    if valid_utf8(bytes) {
        e matches SLKError::ParseInt { record_index: ri, record_type: rt, field: f, .. } && ri
            == record_index && rt == record_type && f@ == field
    } else {
        e matches SLKError::Malformed { record_index: ri, reason } && ri == record_index
            && reason@ == numeric_reason(field)
    }
}

/// Parses a `u32` from the bytes of a field content.
///
/// Errors: [`SLKError::Malformed`] when the bytes are not UTF-8,
/// [`SLKError::ParseInt`] when the text is not a number.
pub fn parse_u32(bytes: &[u8], record_type: RecordType, field: &str, record_index: usize) -> (res:
    Result<u32, SLKError>)
    ensures
        spec_parse_u32(bytes@) matches Some(v) ==> res == Ok::<u32, SLKError>(v),
        spec_parse_u32(bytes@) is None ==> (res matches Err(e) && numeric_error(
            e,
            bytes@,
            record_type,
            field@,
            record_index,
        )),
{
    match str_from_utf8(bytes) {
        None => {
            let mut reason = String::from_str("non-UTF-8 bytes in numeric field '");
            reason.append(field);
            reason.append("'");
            Err(SLKError::Malformed { record_index, reason })
        },
        Some(text) => match parse_u32_str(text) {
            Ok(v) => Ok(v),
            Err(source) => Err(
                SLKError::ParseInt { record_index, record_type, field: field.to_owned(), source },
            ),
        },
    }
}

/// Folds the `X`/`Y` fields of an `Info` record over (rows, columns); on a
/// field that is not a number, yields that field.
pub open spec fn info_fold(fields: Seq<Seq<u8>>, dims: (u32, u32)) -> Result<(u32, u32), Seq<u8>>
    decreases fields.len(),
{
    if fields.len() == 0 {
        Ok(dims)
    } else {
        let f = fields[0];
        if f.len() > 0 && f[0] == FIELD_Y {
            match spec_parse_u32(f.skip(1)) {
                Some(v) => info_fold(fields.drop_first(), (v, dims.1)),
                None => Err(f),
            }
        } else if f.len() > 0 && f[0] == FIELD_X {
            match spec_parse_u32(f.skip(1)) {
                Some(v) => info_fold(fields.drop_first(), (dims.0, v)),
                None => Err(f),
            }
        } else {
            info_fold(fields.drop_first(), dims)
        }
    }
}

/// The record of type `record_type` made of `fields`; on a numeric field
/// that does not parse, yields that field.
pub open spec fn record_of_fields(record_type: RecordType, fields: Seq<Seq<u8>>) -> Result<
    RecordView,
    Seq<u8>,
> {
    match record_type {
        RecordType::EOF => Ok(RecordView::EOF),
        RecordType::Header => Ok(RecordView::Header),
        RecordType::Info => match info_fold(fields, (0, 0)) {
            Ok(d) => Ok(RecordView::Info(d.0, d.1)),
            Err(f) => Err(f),
        },
        RecordType::CellContent => match cell_fold(fields, (0, None, None)) {
            Ok(c) => Ok(RecordView::CellContent(c)),
            Err(f) => Err(f),
        },
        RecordType::Format => Ok(RecordView::Format),
        RecordType::ChartExtLink => Ok(RecordView::ChartExtLink),
        RecordType::CellFormat => Ok(RecordView::CellFormat),
        RecordType::Options => Ok(RecordView::Options),
        RecordType::Substitution => Ok(RecordView::Substitution),
        RecordType::ExtLink => Ok(RecordView::ExtLink),
        RecordType::NameDefinitions => Ok(RecordView::NameDefinitions),
        RecordType::WindowDefinitions => Ok(RecordView::WindowDefinitions),
    }
}

impl Record {
    /// Builds a record from its already split and unescaped fields. Only
    /// Info (`B`) and CellContent (`C`) carry data; the other types are
    /// recognized but their fields ignored.
    #[verifier::loop_isolation(false)]
    pub fn from_fields<'a>(record_type: RecordType, fields: FieldIter<'a>, record_index: usize) -> (res:
        Result<Record, SLKError>)
        requires
            fields.wf(),
        ensures
            record_of_fields(record_type, fields.remaining()) matches Ok(rv) ==> (res matches Ok(r)
                && r@ == rv),
            record_of_fields(record_type, fields.remaining()) matches Err(f) ==> (res matches Err(e)
                && numeric_error(e, f.skip(1), record_type, field_label(f[0]), record_index)),
    {
        match record_type {
            RecordType::EOF => Ok(Record::EOF),
            RecordType::Header => Ok(Record::Header),
            RecordType::Info => {
                let mut fields = fields;
                let ghost all = fields.remaining();
                let mut rows = 0u32;
                let mut columns = 0u32;
                loop
                    invariant
                        fields.wf(),
                        info_fold(all, (0, 0)) == info_fold(fields.remaining(), (rows, columns)),
                    decreases fields.remaining().len(),
                {
                    let ghost rest = fields.remaining();
                    match fields.next() {
                        None => {
                            break ;
                        },
                        Some(field) => {
                            let bytes = field.as_slice();
                            if bytes.len() > 0 && bytes[0] == FIELD_Y {
                                let content = &bytes[1..bytes.len()];
                                assert(content@ == rest[0].skip(1));
                                match parse_u32(content, record_type, "Y", record_index) {
                                    Ok(v) => rows = v,
                                    Err(e) => return Err(e),
                                }
                            } else if bytes.len() > 0 && bytes[0] == FIELD_X {
                                let content = &bytes[1..bytes.len()];
                                assert(content@ == rest[0].skip(1));
                                match parse_u32(content, record_type, "X", record_index) {
                                    Ok(v) => columns = v,
                                    Err(e) => return Err(e),
                                }
                            }
                        },
                    }
                }
                Ok(Record::Info(rows, columns))
            },
            RecordType::CellContent => match Cell::from_fields(fields, record_index) {
                Ok(cell) => Ok(Record::CellContent(cell)),
                Err(e) => Err(e),
            },
            RecordType::Format => Ok(Record::Format),
            RecordType::ChartExtLink => Ok(Record::ChartExtLink),
            RecordType::CellFormat => Ok(Record::CellFormat),
            RecordType::Options => Ok(Record::Options),
            RecordType::Substitution => Ok(Record::Substitution),
            RecordType::ExtLink => Ok(Record::ExtLink),
            RecordType::NameDefinitions => Ok(Record::NameDefinitions),
            RecordType::WindowDefinitions => Ok(Record::WindowDefinitions),
        }
    }
}

} // verus!
