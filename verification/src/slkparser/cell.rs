//! Contents of an SLK cell (`C` record): column, optional row and value
//! (`K` field), unescaped from the raw bytes of the file.

use vstd::prelude::*;

use crate::slkparser::error::SLKError;
use crate::slkparser::fields::FieldIter;
use crate::slkparser::slk_type::{parse_u32, spec_parse_u32, numeric_error, RecordType, FIELD_K, FIELD_X, FIELD_Y};
use crate::slkparser::text::{parse_u32_str, u32_from_decimal, utf8_lossy, utf8_lossy_string};
use crate::map::chars::{chars_of, string_of};

verus! {

/// Byte of the double quote that delimits a `K` value.
pub const QUOTE: u8 = 34u8;

/// The abstract content of a cell: column, row and value.
pub type CellView = (u32, Option<u32>, Option<Seq<char>>);

/// The text of an optional string.
pub open spec fn opt_string_view(s: Option<String>) -> Option<Seq<char>> {
    match s {
        Some(t) => Some(t@),
        None => None,
    }
}

/// The name of the numeric field whose descriptor byte is `b`.
pub open spec fn field_label(b: u8) -> Seq<char> {
    if b == FIELD_Y {
        "Y"@
    } else {
        "X"@
    }
}

/// A cell of an SLK file: its column (`X`), its optional row (`Y`, absent
/// when unchanged since the previous cell) and its value (`K`).
#[derive(Default, Debug, PartialEq, PartialOrd, Clone)]
pub struct Cell {
    column: u32,
    row: Option<u32>,
    value: Option<String>,
}

impl View for Cell {
    type V = CellView;

    closed spec fn view(&self) -> CellView {
        (self.column, self.row, opt_string_view(self.value))
    }
}

/// A `K` content without its surrounding quotes; an opening quote with no
/// closing one only loses the opening quote.
pub open spec fn strip_quotes(content: Seq<u8>) -> Seq<u8> {
    if content.len() > 0 && content[0] == QUOTE {
        let after = content.skip(1);
        if after.len() > 0 && after.last() == QUOTE {
            after.drop_last()
        } else {
            after
        }
    } else {
        content
    }
}

/// `s` with each `""`, read from the left, turned into `"`.
pub open spec fn unescape_quotes(s: Seq<u8>) -> Seq<u8>
    decreases s.len(),
{
    if s.len() == 0 {
        Seq::empty()
    } else if s.len() >= 2 && s[0] == QUOTE && s[1] == QUOTE {
        seq![QUOTE] + unescape_quotes(s.skip(2))
    } else {
        seq![s[0]] + unescape_quotes(s.skip(1))
    }
}

/// The value text of a `K` field content.
pub open spec fn decoded_value(content: Seq<u8>) -> Seq<char> {
    utf8_lossy(unescape_quotes(strip_quotes(content)))
}

/// The effect of one field on a cell being built; `None` when the field is
/// a coordinate that does not spell a number.
pub open spec fn cell_step(cell: CellView, f: Seq<u8>) -> Option<CellView> {
    if f.len() > 0 && f[0] == FIELD_Y {
        match spec_parse_u32(f.skip(1)) {
            Some(v) => Some((cell.0, Some(v), cell.2)),
            None => None,
        }
    } else if f.len() > 0 && f[0] == FIELD_X {
        match spec_parse_u32(f.skip(1)) {
            Some(v) => Some((v, cell.1, cell.2)),
            None => None,
        }
    } else if f.len() > 0 && f[0] == FIELD_K {
        Some((cell.0, cell.1, Some(decoded_value(f.skip(1)))))
    } else {
        Some(cell)
    }
}

/// Folds the fields of a `C` record over a cell; on a coordinate that does
/// not spell a number, yields that field.
pub open spec fn cell_fold(fields: Seq<Seq<u8>>, cell: CellView) -> Result<CellView, Seq<u8>>
    decreases fields.len(),
{
    if fields.len() == 0 {
        Ok(cell)
    } else {
        match cell_step(cell, fields[0]) {
            Some(c) => cell_fold(fields.drop_first(), c),
            None => Err(fields[0]),
        }
    }
}

/// The fields of a cell record: `Y` followed by a number sets the row,
/// `X` followed by a number sets the column, `K` followed by a content sets
/// the value (the content without its surrounding quotes, each `""` read as
/// `"`); any other field leaves the cell as it is. The letters are the
/// ASCII bytes 89, 88 and 75.
pub proof fn law_cell_fields(cell: CellView, f: Seq<u8>, n: u32)
    ensures
        f.len() > 0 && f[0] == 89u8 && spec_parse_u32(f.skip(1)) == Some(n) ==> cell_step(cell, f) == Some(
            (cell.0, Some(n), cell.2),
        ),
        f.len() > 0 && f[0] == 88u8 && spec_parse_u32(f.skip(1)) == Some(n) ==> cell_step(cell, f) == Some(
            (n, cell.1, cell.2),
        ),
        f.len() > 0 && f[0] == 75u8 ==> cell_step(cell, f) == Some(
            (cell.0, cell.1, Some(utf8_lossy(unescape_quotes(strip_quotes(f.skip(1)))))),
        ),
        !(f.len() > 0 && (f[0] == 89u8 || f[0] == 88u8 || f[0] == 75u8)) ==> cell_step(cell, f) == Some(
            cell,
        ),
        strip_quotes(seq![34u8] + f + seq![34u8]) == f,
{
    assert((seq![34u8] + f + seq![34u8]).skip(1) =~= f + seq![34u8]);
    assert((f + seq![34u8]).drop_last() =~= f);
}

/// Strips the surrounding quotes of a `K` content.
fn strip_quotes_exec(content: &[u8]) -> (res: &[u8])
    ensures
        res@ == strip_quotes(content@),
{
    if content.len() > 0 && content[0] == QUOTE {
        let after = &content[1..content.len()];
        if after.len() > 0 && after[after.len() - 1] == QUOTE {
            &after[0..after.len() - 1]
        } else {
            after
        }
    } else {
        content
    }
}

/// Turns each `""` of `s`, read from the left, into `"`.
fn unescape_quotes_exec(s: &[u8]) -> (res: Vec<u8>)
    ensures
        res@ == unescape_quotes(s@),
{
    let mut buf: Vec<u8> = Vec::with_capacity(s.len());
    let mut i: usize = 0;
    proof {
        assert(s@.skip(0) =~= s@);
        assert(buf@ + unescape_quotes(s@) =~= unescape_quotes(s@));
    }
    while i < s.len()
        invariant
            i <= s@.len(),
            unescape_quotes(s@) == buf@ + unescape_quotes(s@.skip(i as int)),
        decreases s@.len() - i,
    {
        let ghost rest = s@.skip(i as int);
        if s[i] == QUOTE && i + 1 < s.len() && s[i + 1] == QUOTE {
            buf.push(QUOTE);
            proof {
                assert(rest.skip(2) =~= s@.skip(i + 2));
            }
            i = i + 2;
        } else {
            buf.push(s[i]);
            proof {
                assert(rest.skip(1) =~= s@.skip(i + 1));
            }
            i = i + 1;
        }
    }
    proof {
        assert(s@.skip(i as int) =~= Seq::<u8>::empty());
        assert(buf@ + Seq::<u8>::empty() =~= buf@);
    }
    buf
}

/// Decodes a `K` value: strips the surrounding quotes and unescapes `""`
/// into `"`. An opening quote with no closing one keeps the content as is.
/// The UTF-8 conversion is lossy.
pub fn decode_value(content: &[u8]) -> (res: String)
    ensures
        res@ == decoded_value(content@),
        vstd::utf8::valid_utf8(unescape_quotes(strip_quotes(content@))) ==> res@ == vstd::utf8::decode_utf8(
            unescape_quotes(strip_quotes(content@)),
        ),
{
    let inner = strip_quotes_exec(content);
    let buf = unescape_quotes_exec(inner);
    utf8_lossy_string(buf.as_slice())
}

impl Cell {
    /// Column of the cell (`X` field).
    pub fn get_column(&self) -> (res: u32)
        ensures
            res == self@.0,
    {
        self.column
    }

    /// Row of the cell (`Y` field), if present in the record.
    pub fn get_row(&self) -> (res: Option<u32>)
        ensures
            res == self@.1,
    {
        self.row
    }

    /// Value of the cell (`K` field), copied.
    pub fn get_value(&self) -> (res: Option<String>)
        ensures
            opt_string_view(res) == self@.2,
    {
        match &self.value {
            Some(s) => Some(s.clone()),
            None => None,
        }
    }

    /// Builds a cell from its already resolved components.
    pub fn new(column: u32, row: Option<u32>, value: Option<String>) -> (res: Self)
        ensures
            res@ == (column, row, opt_string_view(value)),
    {
        Cell { column, row, value }
    }

    /// Value of the cell (`K` field), borrowed.
    pub fn value(&self) -> (res: Option<&str>)
        ensures
            match res {
                Some(s) => self@.2 == Some(s@),
                None => self@.2 is None,
            },
    {
        match &self.value {
            Some(s) => Some(s.as_str()),
            None => None,
        }
    }

    /// Builds a cell from the (already unescaped) fields of a `C` record.
    /// Only `X`, `Y` and `K` are kept; other descriptors and empty fields are
    /// ignored.
    #[verifier::loop_isolation(false)]
    pub fn from_fields<'a>(fields: FieldIter<'a>, record_index: usize) -> (res: Result<Self, SLKError>)
        requires
            fields.wf(),
        ensures
            cell_fold(fields.remaining(), (0, None, None)) matches Ok(cv) ==> (res matches Ok(c)
                && c@ == cv),
            cell_fold(fields.remaining(), (0, None, None)) matches Err(f) ==> (res matches Err(e)
                && numeric_error(e, f.skip(1), RecordType::CellContent, field_label(f[0]), record_index)),
    {
        let mut fields = fields;
        let ghost all = fields.remaining();
        let mut cell = Cell { column: 0, row: None, value: None };
        loop
            invariant
                fields.wf(),
                cell_fold(all, (0, None, None)) == cell_fold(fields.remaining(), cell@),
            decreases fields.remaining().len(),
        {
            let ghost rest = fields.remaining();
            match fields.next() {
                None => {
                    break ;
                },
                Some(field) => {
                    let bytes = field.as_slice();
                    if bytes.len() > 0 && bytes[0] == FIELD_Y {
                        let content = &bytes[1..bytes.len()];
                        assert(content@ == rest[0].skip(1));
                        match parse_u32(content, RecordType::CellContent, "Y", record_index) {
                            Ok(v) => cell.row = Some(v),
                            Err(e) => return Err(e),
                        }
                    } else if bytes.len() > 0 && bytes[0] == FIELD_X {
                        let content = &bytes[1..bytes.len()];
                        assert(content@ == rest[0].skip(1));
                        match parse_u32(content, RecordType::CellContent, "X", record_index) {
                            Ok(v) => cell.column = v,
                            Err(e) => return Err(e),
                        }
                    } else if bytes.len() > 0 && bytes[0] == FIELD_K {
                        let content = &bytes[1..bytes.len()];
                        assert(content@ == rest[0].skip(1));
                        cell.value = Some(decode_value(content));
                    }
                },
            }
        }
        Ok(cell)
    }
}


/// Whether the text field `f` can be read by [`Cell::parse`]: it starts with
/// a one-byte descriptor and, when it is a quoted `K` value, ends with a
/// one-byte character after the opening quote.
pub open spec fn text_field_ok(f: Seq<char>) -> bool {
    &&& f.len() >= 1
    &&& (f[0] as u32) < 128
    &&& (f[0] == 'K' && f.len() >= 2 && f[1] == '"') ==> (f.len() >= 3 && (f.last() as u32) < 128)
}

/// The effect of the text field `f` on `cell`: `Y` sets the row, `X` the
/// column and `K` the value, without its surrounding quotes when it starts
/// with one; other fields change nothing. A number that does not parse
/// fails with the descriptor of its field.
pub open spec fn text_cell_step(cell: CellView, f: Seq<char>) -> Result<CellView, char> {
    let content = f.skip(1);
    if f[0] == 'Y' {
        match u32_from_decimal(content) {
            Some(v) => Ok((cell.0, Some(v), cell.2)),
            None => Err('Y'),
        }
    } else if f[0] == 'X' {
        match u32_from_decimal(content) {
            Some(v) => Ok((v, cell.1, cell.2)),
            None => Err('X'),
        }
    } else if f[0] == 'K' {
        if content.len() > 0 && content[0] == '"' {
            Ok((cell.0, cell.1, Some(content.subrange(1, content.len() - 1))))
        } else {
            Ok((cell.0, cell.1, Some(content)))
        }
    } else {
        Ok(cell)
    }
}

/// The cell that the text fields `fields` describe, or the descriptor of
/// the first field whose number does not parse.
pub open spec fn text_cell_fold(fields: Seq<Seq<char>>) -> Result<CellView, char>
    decreases fields.len(),
{
    if fields.len() == 0 {
        Ok((0u32, None, None))
    } else {
        match text_cell_fold(fields.drop_last()) {
            Ok(c) => text_cell_step(c, fields.last()),
            Err(e) => Err(e),
        }
    }
}

/// The views of the texts `fields`.
pub open spec fn text_views(fields: Seq<String>) -> Seq<Seq<char>> {
    fields.map_values(|f: String| f@)
}

impl Cell {
    /// Builds a cell from the text fields of a `C` record; `_line` is not
    /// used. A `Y` or `X` field whose number does not parse fails with
    /// [`SLKError::Parsing`], naming the field.
    pub fn parse(fields: &[String], _line: Option<u32>) -> (res: Result<Self, SLKError>)
        requires
            forall|i: int| 0 <= i < fields@.len() ==> text_field_ok(#[trigger] fields@[i]@),
        ensures
            match text_cell_fold(text_views(fields@)) {
                Ok(c) => res matches Ok(cell) && cell@ == c,
                Err(d) => res matches Err(SLKError::Parsing { record_type, content, .. })
                    && record_type == RecordType::CellContent && content@ == seq![d],
            },
    {
        let ghost fv = text_views(fields@);
        let mut column: u32 = 0;
        let mut row: Option<u32> = None;
        let mut value: Option<String> = None;
        let mut i: usize = 0;
        while i < fields.len()
            invariant
                i <= fields@.len(),
                fv == text_views(fields@),
                forall|j: int| 0 <= j < fields@.len() ==> text_field_ok(#[trigger] fields@[j]@),
                text_cell_fold(fv.take(i as int)) == Ok::<CellView, char>(
                    (column, row, opt_string_view(value)),
                ),
            decreases fields@.len() - i,
        {
            let chars = chars_of(fields[i].as_str());
            assert(text_field_ok(fields@[i as int]@));
            assert(fv.take(i + 1).drop_last() == fv.take(i as int));
            assert(fv.take(i + 1).last() == chars@);
            let n = chars.len();
            let id = chars[0];
            let content = string_of(chars.as_slice(), 1, n);
            assert(content@ == chars@.skip(1));
            if id == 'Y' {
                match parse_u32_str(content.as_str()) {
                    Ok(v) => {
                        row = Some(v);
                    },
                    Err(source) => {
                        proof {
                            assert(text_cell_fold(fv.take(i + 1)) == Err::<CellView, char>('Y'));
                            lemma_text_cell_fold_err(fv, i as int);
                            reveal_strlit("Y");
                        }
                        return Err(
                            SLKError::Parsing {
                                record_type: RecordType::CellContent,
                                content: String::from_str("Y"),
                                source,
                            },
                        );
                    },
                }
            } else if id == 'X' {
                match parse_u32_str(content.as_str()) {
                    Ok(v) => {
                        column = v;
                    },
                    Err(source) => {
                        proof {
                            assert(text_cell_fold(fv.take(i + 1)) == Err::<CellView, char>('X'));
                            lemma_text_cell_fold_err(fv, i as int);
                            reveal_strlit("X");
                        }
                        return Err(
                            SLKError::Parsing {
                                record_type: RecordType::CellContent,
                                content: String::from_str("X"),
                                source,
                            },
                        );
                    },
                }
            } else if id == 'K' {
                if n >= 2 && chars[1] == '"' {
                    value = Some(string_of(chars.as_slice(), 2, n - 1));
                    assert(chars@.subrange(2, n - 1) == chars@.skip(1).subrange(
                        1,
                        chars@.skip(1).len() - 1,
                    ));
                } else {
                    value = Some(content);
                }
            }
            i = i + 1;
        }
        assert(fv.take(fields@.len() as int) == fv);
        Ok(Cell { column, row, value })
    }
}

proof fn lemma_text_cell_fold_err(fv: Seq<Seq<char>>, i: int)
    requires
        0 <= i < fv.len(),
        text_cell_fold(fv.take(i + 1)) is Err,
    ensures
        text_cell_fold(fv) == text_cell_fold(fv.take(i + 1)),
    decreases fv.len() - i,
{
    if i + 1 < fv.len() {
        assert(fv.take(i + 2).drop_last() == fv.take(i + 1));
        lemma_text_cell_fold_err(fv, i + 1);
    } else {
        assert(fv.take(i + 1) == fv);
    }
}

} // verus!
