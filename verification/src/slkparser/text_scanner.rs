//! SLK reader over text held in memory: records end with a line terminator
//! chosen by the caller, fields are separated by `;`, and the first record
//! that starts with `E` ends the file.

use vstd::prelude::*;

use crate::map::chars::{chars_of, string_of};
use crate::map::data_ini::find_char;
use crate::slkparser::cell::{opt_string_view, text_cell_fold, text_field_ok, text_views, Cell, CellView};
use crate::slkparser::document::DocumentView;
use crate::slkparser::slk_type::{Record, RecordType, RecordView};
use crate::slkparser::text::{parse_u32_str, u32_from_decimal};

verus! {

/// Separator of the fields of a record.
pub const FIELD_SEPARATOR: char = ';';

/// The record type that the identifier `id` names, if any.
pub open spec fn record_type_of_text(id: Seq<char>) -> Option<RecordType> {
    if id == seq!['I', 'D'] {
        Some(RecordType::Header)
    } else if id == seq!['B'] {
        Some(RecordType::Info)
    } else if id == seq!['C'] {
        Some(RecordType::CellContent)
    } else if id == seq!['P'] {
        Some(RecordType::CellFormat)
    } else if id == seq!['F'] {
        Some(RecordType::Format)
    } else if id == seq!['O'] {
        Some(RecordType::Options)
    } else if id == seq!['N', 'U'] {
        Some(RecordType::Substitution)
    } else if id == seq!['N', 'E'] {
        Some(RecordType::ExtLink)
    } else if id == seq!['N', 'N'] {
        Some(RecordType::NameDefinitions)
    } else if id == seq!['W'] {
        Some(RecordType::WindowDefinitions)
    } else if id == seq!['N', 'L'] {
        Some(RecordType::ChartExtLink)
    } else if id == seq!['E'] {
        Some(RecordType::EOF)
    } else {
        None
    }
}

/// The message for an unknown record identifier `id`.
pub open spec fn unknown_record(id: Seq<char>) -> Seq<char> {
    "Unknown record "@ + id
}

impl RecordType {
    /// Whether this is the end-of-file record type.
    pub fn is_eof(&self) -> (res: bool)
        ensures
            res == (*self == RecordType::EOF),
    {
        *self == RecordType::EOF
    }

    /// The record type named by the identifier `id`; an unknown one fails
    /// with `Unknown record ` and the identifier.
    pub fn from_id(id: &str) -> (res: Result<Self, String>)
        ensures
            record_type_of_text(id@) matches Some(t) ==> res == Ok::<RecordType, String>(t),
            record_type_of_text(id@) is None ==> (res matches Err(m) && m@ == unknown_record(id@)),
    {
        let c = chars_of(id);
        let found = if c.len() == 1 {
            let a = c[0];
            if a == 'B' {
                Some(RecordType::Info)
            } else if a == 'C' {
                Some(RecordType::CellContent)
            } else if a == 'P' {
                Some(RecordType::CellFormat)
            } else if a == 'F' {
                Some(RecordType::Format)
            } else if a == 'O' {
                Some(RecordType::Options)
            } else if a == 'W' {
                Some(RecordType::WindowDefinitions)
            } else if a == 'E' {
                Some(RecordType::EOF)
            } else {
                None
            }
        } else if c.len() == 2 {
            let a = c[0];
            let b = c[1];
            if a == 'I' && b == 'D' {
                Some(RecordType::Header)
            } else if a == 'N' && b == 'U' {
                Some(RecordType::Substitution)
            } else if a == 'N' && b == 'E' {
                Some(RecordType::ExtLink)
            } else if a == 'N' && b == 'N' {
                Some(RecordType::NameDefinitions)
            } else if a == 'N' && b == 'L' {
                Some(RecordType::ChartExtLink)
            } else {
                None
            }
        } else {
            None
        };
        proof {
            if c@.len() == 1 {
                assert(c@ == seq![c@[0]]);
            } else if c@.len() == 2 {
                assert(c@ == seq![c@[0], c@[1]]);
            }
        }
        match found {
            Some(t) => Ok(t),
            None => {
                let mut m = String::from_str("Unknown record ");
                m.append(id);
                Err(m)
            },
        }
    }
}

/// Whether the fields of a `B` record can be read: each starts with a
/// one-byte descriptor, and its `Y` and `X` numbers parse.
pub open spec fn info_fields_ok(fields: Seq<Seq<char>>) -> bool {
    forall|i: int|
        0 <= i < fields.len() ==> {
            let f = #[trigger] fields[i];
            &&& f.len() >= 1
            &&& (f[0] as u32) < 128
            &&& (f[0] == 'Y' || f[0] == 'X') ==> u32_from_decimal(f.skip(1)) is Some
        }
}

/// The rows and columns that the fields of a `B` record give: the last `Y`
/// and the last `X`, zero when absent.
pub open spec fn info_text_fold(fields: Seq<Seq<char>>) -> (u32, u32)
    decreases fields.len(),
{
    if fields.len() == 0 {
        (0, 0)
    } else {
        let (rows, columns) = info_text_fold(fields.drop_last());
        let f = fields.last();
        if f[0] == 'Y' {
            (u32_from_decimal(f.skip(1))->0, columns)
        } else if f[0] == 'X' {
            (rows, u32_from_decimal(f.skip(1))->0)
        } else {
            (rows, columns)
        }
    }
}

/// Whether a record of type `rt` with text fields `fields` can be built.
pub open spec fn record_fields_ok(rt: Result<RecordType, Seq<char>>, fields: Seq<Seq<char>>) -> bool {
    match rt {
        Ok(RecordType::Info) => info_fields_ok(fields),
        Ok(RecordType::CellContent) => (forall|i: int|
            0 <= i < fields.len() ==> text_field_ok(#[trigger] fields[i])) && text_cell_fold(
            fields,
        ) is Ok,
        _ => true,
    }
}

/// The record of type `rt` with text fields `fields`, or the message of an
/// unknown type.
pub open spec fn text_record_of(rt: Result<RecordType, Seq<char>>, fields: Seq<Seq<char>>) -> Result<
    RecordView,
    Seq<char>,
> {
    match rt {
        Err(m) => Err(m),
        Ok(RecordType::EOF) => Ok(RecordView::EOF),
        Ok(RecordType::Header) => Ok(RecordView::Header),
        Ok(RecordType::Info) => Ok(
            RecordView::Info(info_text_fold(fields).0, info_text_fold(fields).1),
        ),
        Ok(RecordType::CellContent) => Ok(RecordView::CellContent(text_cell_fold(fields)->Ok_0)),
        Ok(RecordType::Format) => Ok(RecordView::Format),
        Ok(RecordType::ChartExtLink) => Ok(RecordView::ChartExtLink),
        Ok(RecordType::CellFormat) => Ok(RecordView::CellFormat),
        Ok(RecordType::Options) => Ok(RecordView::Options),
        Ok(RecordType::Substitution) => Ok(RecordView::Substitution),
        Ok(RecordType::ExtLink) => Ok(RecordView::ExtLink),
        Ok(RecordType::NameDefinitions) => Ok(RecordView::NameDefinitions),
        Ok(RecordType::WindowDefinitions) => Ok(RecordView::WindowDefinitions),
    }
}

/// The spec view of a record type result.
pub open spec fn type_result_view(rt: Result<RecordType, String>) -> Result<RecordType, Seq<char>> {
    match rt {
        Ok(t) => Ok(t),
        Err(m) => Err(m@),
    }
}

impl Record {
    /// Builds the record of type `record_type` from its text fields; an
    /// unknown type comes back as its message.
    pub fn from(record_type: Result<RecordType, String>, fields: &Vec<String>) -> (res: Result<Record, String>)
        requires
            record_fields_ok(type_result_view(record_type), text_views(fields@)),
        ensures
            match text_record_of(type_result_view(record_type), text_views(fields@)) {
                Ok(r) => res matches Ok(rec) && rec@ == r,
                Err(m) => res matches Err(e) && e@ == m,
            },
    {
        match record_type {
            Ok(RecordType::EOF) => Ok(Record::EOF),
            Ok(RecordType::Header) => Ok(Record::Header),
            Ok(RecordType::Info) => {
                let ghost fv = text_views(fields@);
                let mut columns: u32 = 0;
                let mut rows: u32 = 0;
                let mut i: usize = 0;
                while i < fields.len()
                    invariant
                        i <= fields@.len(),
                        fv == text_views(fields@),
                        info_fields_ok(fv),
                        info_text_fold(fv.take(i as int)) == (rows, columns),
                    decreases fields@.len() - i,
                {
                    let chars = chars_of(fields[i].as_str());
                    assert(fv[i as int] == chars@);
                    assert(fv.take(i + 1).drop_last() == fv.take(i as int));
                    assert(fv.take(i + 1).last() == chars@);
                    let n = chars.len();
                    let id = chars[0];
                    if id == 'Y' || id == 'X' {
                        let content = string_of(chars.as_slice(), 1, n);
                        assert(content@ == chars@.skip(1));
                        match parse_u32_str(content.as_str()) {
                            Ok(v) => {
                                if id == 'Y' {
                                    rows = v;
                                } else {
                                    columns = v;
                                }
                            },
                            Err(_) => {},
                        }
                    }
                    i = i + 1;
                }
                assert(fv.take(fields@.len() as int) == fv);
                Ok(Record::Info(rows, columns))
            },
            Ok(RecordType::CellContent) => {
                proof {
                    assert forall|i: int| 0 <= i < fields@.len() implies text_field_ok(
                        #[trigger] fields@[i]@,
                    ) by {
                        assert(text_views(fields@)[i] == fields@[i]@);
                    }
                }
                match Cell::parse(fields.as_slice(), None) {
                    Ok(cell) => Ok(Record::CellContent(cell)),
                    Err(_) => {
                        assert(false);
                        Ok(Record::EOF)
                    },
                }
            },
            Ok(RecordType::Format) => Ok(Record::Format),
            Ok(RecordType::ChartExtLink) => Ok(Record::ChartExtLink),
            Ok(RecordType::CellFormat) => Ok(Record::CellFormat),
            Ok(RecordType::Options) => Ok(Record::Options),
            Ok(RecordType::Substitution) => Ok(Record::Substitution),
            Ok(RecordType::ExtLink) => Ok(Record::ExtLink),
            Ok(RecordType::NameDefinitions) => Ok(Record::NameDefinitions),
            Ok(RecordType::WindowDefinitions) => Ok(Record::WindowDefinitions),
            Err(msg) => Err(msg),
        }
    }
}


/// Whether every character of `t` is ASCII.
pub open spec fn all_ascii(t: Seq<char>) -> bool {
    forall|i: int| 0 <= i < t.len() ==> (#[trigger] t[i] as u32) < 128
}

/// Where the fields of a record that start at `i` stop: at the first line
/// terminator `end`, or `end.len()` characters before the end of `t`.
pub open spec fn fields_stop(t: Seq<char>, end: Seq<char>, i: int) -> int
    decreases t.len() - i,
{
    if 0 <= i < t.len() - end.len() && t.subrange(i, i + end.len()) != end {
        fields_stop(t, end, i + 1)
    } else {
        i
    }
}

/// The `;`-separated pieces of `s`.
pub open spec fn semicolon_pieces(s: Seq<char>) -> Seq<Seq<char>>
    decreases s.len(),
{
    if s.len() == 0 {
        seq![Seq::empty()]
    } else {
        let prev = semicolon_pieces(s.drop_last());
        if s.last() == FIELD_SEPARATOR {
            prev.push(Seq::empty())
        } else {
            prev.update(prev.len() - 1, prev.last().push(s.last()))
        }
    }
}

/// `s` without its carriage returns.
pub open spec fn without_cr(s: Seq<char>) -> Seq<char>
    decreases s.len(),
{
    if s.len() == 0 {
        s
    } else if s.last() == '\r' {
        without_cr(s.drop_last())
    } else {
        without_cr(s.drop_last()).push(s.last())
    }
}

/// The fields of the record text `t[a..q]`: its pieces, the last one without
/// carriage returns.
pub open spec fn record_fields(t: Seq<char>, a: int, q: int) -> Seq<Seq<char>> {
    let p = semicolon_pieces(t.subrange(a, q));
    p.update(p.len() - 1, without_cr(p.last()))
}

/// The type of the record whose identifier is `t[pos..j]`, or the message
/// of an unknown one.
pub open spec fn text_record_type(t: Seq<char>, pos: int, j: int) -> Result<RecordType, Seq<char>> {
    match record_type_of_text(t.subrange(pos, j)) {
        Some(rt) => Ok(rt),
        None => Err(unknown_record(t.subrange(pos, j))),
    }
}

/// Reading a record of `t` at `pos`: the record, or a message (`EOF` past
/// the end), and where reading goes on.
pub open spec fn text_step(t: Seq<char>, end: Seq<char>, pos: int) -> (Result<RecordView, Seq<char>>, int) {
    if pos >= t.len() {
        (Err("EOF"@), pos)
    } else if t[pos] == 'E' {
        (Ok(RecordView::EOF), t.len() as int)
    } else {
        let j = find_char(t, FIELD_SEPARATOR, pos);
        let q = fields_stop(t, end, j + 1);
        (text_record_of(text_record_type(t, pos, j), record_fields(t, j + 1, q)), q + end.len())
    }
}

/// Whether reading a record of `t` at `pos` runs to its end: a `;` follows
/// the type, `t` is not shorter than the line terminator, and the fields can
/// be read.
pub open spec fn text_step_ok(t: Seq<char>, end: Seq<char>, pos: int) -> bool {
    pos >= t.len() || t[pos] == 'E' || ({
        let j = find_char(t, FIELD_SEPARATOR, pos);
        &&& j < t.len()
        &&& t.len() >= end.len()
        &&& record_fields_ok(
            text_record_type(t, pos, j),
            record_fields(t, j + 1, fields_stop(t, end, j + 1)),
        )
    })
}

/// Scanner of SLK records over text.
pub struct SLKScanner {
    text: Vec<char>,
    end: Vec<char>,
    pos: usize,
}

impl SLKScanner {
    /// The scanned text.
    pub closed spec fn text(&self) -> Seq<char> {
        self.text@
    }

    /// The line terminator.
    pub closed spec fn end(&self) -> Seq<char> {
        self.end@
    }

    /// Where reading goes on.
    pub closed spec fn position(&self) -> int {
        self.pos as int
    }

    /// Scanner at the start of `buffer`, whose records end with
    /// `end_record`.
    pub fn new(buffer: &str, end_record: &str) -> (res: Self)
        ensures
            res.text() == buffer@,
            res.end() == end_record@,
            res.position() == 0,
    {
        SLKScanner { text: chars_of(buffer), end: chars_of(end_record), pos: 0 }
    }

    /// Reads the next record: `EOF` as a message past the end of the text;
    /// a record starting with `E` ends the text.
    pub fn parse_record(&mut self) -> (res: Result<Record, String>)
        requires
            all_ascii(old(self).text()),
            old(self).text().len() + old(self).end().len() <= usize::MAX,
            text_step_ok(old(self).text(), old(self).end(), old(self).position()),
        ensures
            final(self).text() == old(self).text(),
            final(self).end() == old(self).end(),
            final(self).position() == text_step(
                old(self).text(),
                old(self).end(),
                old(self).position(),
            ).1,
            match text_step(old(self).text(), old(self).end(), old(self).position()).0 {
                Ok(r) => res matches Ok(rec) && rec@ == r,
                Err(m) => res matches Err(e) && e@ == m,
            },
    {
        let ghost t = self.text@;
        let ghost end = self.end@;
        if self.pos >= self.text.len() {
            return Err(String::from_str("EOF"));
        }
        if self.text[self.pos] == 'E' {
            self.pos = self.text.len();
            return Ok(Record::EOF);
        }
        let start = self.pos;
        let mut j = start;
        while j < self.text.len() && self.text[j] != FIELD_SEPARATOR
            invariant
                start <= j <= self.text@.len(),
                self.text@ == t,
                find_char(t, FIELD_SEPARATOR, j as int) == find_char(t, FIELD_SEPARATOR, start as int),
            decreases self.text@.len() - j,
        {
            j = j + 1;
        }
        let id = string_of(self.text.as_slice(), start, j);
        let rt = RecordType::from_id(id.as_str());
        assert(type_result_view(rt) == text_record_type(t, start as int, j as int));
        let limit = self.text.len() - self.end.len();
        let mut fields: Vec<String> = Vec::new();
        let mut k = j + 1;
        let mut field_start = k;
        assert(text_views(fields@) == Seq::<Seq<char>>::empty());
        assert(t.subrange(j + 1, k as int) == Seq::<char>::empty());
        assert(text_views(fields@).push(t.subrange(field_start as int, k as int)) =~= semicolon_pieces(
            t.subrange(j + 1, k as int),
        ));
        while k < limit && !ends_at(&self.text, k, &self.end)
            invariant
                j + 1 <= field_start <= k <= t.len(),
                j < t.len(),
                self.text@ == t,
                self.end@ == end,
                limit == t.len() - end.len(),
                fields_stop(t, end, k as int) == fields_stop(t, end, j + 1),
                text_views(fields@).push(t.subrange(field_start as int, k as int)) == semicolon_pieces(
                    t.subrange(j + 1, k as int),
                ),
            decreases t.len() - k,
        {
            assert(t.subrange(j + 1, k + 1) == t.subrange(j + 1, k as int).push(t[k as int]));
            assert(t.subrange(j + 1, k + 1).drop_last() == t.subrange(j + 1, k as int));
            let ghost prev = semicolon_pieces(t.subrange(j + 1, k as int));
            let ghost f0 = fields@;
            let ghost fs0 = field_start as int;
            if self.text[k] == FIELD_SEPARATOR {
                fields.push(string_of(self.text.as_slice(), field_start, k));
                field_start = k + 1;
                assert(text_views(fields@) =~= text_views(f0).push(t.subrange(fs0, k as int)));
                assert(t.subrange(field_start as int, k + 1) == Seq::<char>::empty());
                assert(text_views(fields@).push(t.subrange(field_start as int, k + 1)) =~= prev.push(
                    Seq::empty(),
                ));
            } else {
                assert(t.subrange(field_start as int, k + 1) == t.subrange(
                    field_start as int,
                    k as int,
                ).push(t[k as int]));
                assert(text_views(fields@).push(t.subrange(field_start as int, k + 1)) =~= prev.update(
                    prev.len() - 1,
                    prev.last().push(t[k as int]),
                ));
            }
            k = k + 1;
        }
        let last = without_cr_of(&self.text, field_start, k);
        let ghost f1 = fields@;
        fields.push(last);
        proof {
            assert(text_views(fields@) == text_views(f1).push(last@));
            assert(text_views(fields@) =~= record_fields(t, j + 1, k as int));
        }
        self.pos = k + self.end.len();
        Record::from(rt, &fields)
    }
}

/// Whether `end` stands in `t` at `k`.
fn ends_at(t: &Vec<char>, k: usize, end: &Vec<char>) -> (res: bool)
    requires
        k + end@.len() <= t@.len(),
    ensures
        res == (t@.subrange(k as int, k + end@.len()) == end@),
{
    let n = t.len();
    let mut i: usize = 0;
    while i < end.len()
        invariant
            n == t@.len(),
            i <= end@.len(),
            k + end@.len() <= t@.len(),
            forall|m: int| 0 <= m < i ==> t@[k + m] == end@[m],
        decreases end@.len() - i,
    {
        assert(k + i < t@.len());
        let idx = k + i;
        if t[idx] != end[i] {
            assert(t@.subrange(k as int, k + end@.len())[i as int] != end@[i as int]);
            return false;
        }
        i = i + 1;
    }
    assert(t@.subrange(k as int, k + end@.len()) =~= end@);
    true
}

/// The text of `t[a..b]` without its carriage returns.
fn without_cr_of(t: &Vec<char>, a: usize, b: usize) -> (res: String)
    requires
        a <= b <= t@.len(),
    ensures
        res@ == without_cr(t@.subrange(a as int, b as int)),
{
    let mut kept: Vec<char> = Vec::new();
    let mut i = a;
    while i < b
        invariant
            a <= i <= b <= t@.len(),
            kept@ == without_cr(t@.subrange(a as int, i as int)),
        decreases b - i,
    {
        let c = t[i];
        assert(t@.subrange(a as int, i + 1) == t@.subrange(a as int, i as int).push(c));
        assert(t@.subrange(a as int, i + 1).drop_last() == t@.subrange(a as int, i as int));
        if c != '\r' {
            kept.push(c);
        }
        i = i + 1;
    }
    string_of(kept.as_slice(), 0, kept.len())
}


/// Whether reading the records of `t` from `pos` reaches an end record with
/// every read running to its end and succeeding.
pub open spec fn text_loadable(t: Seq<char>, end: Seq<char>, pos: int) -> bool
    decreases t.len() - pos,
{
    if pos < 0 || pos >= t.len() || !text_step_ok(t, end, pos) {
        false
    } else {
        match text_step(t, end, pos).0 {
            Ok(RecordView::EOF) => true,
            Ok(_) => {
                let next = text_step(t, end, pos).1;
                pos < next && next < t.len() && text_loadable(t, end, next)
            },
            Err(_) => false,
        }
    }
}

/// The document `doc` after reading the records of `t` from `pos` up to the
/// end record.
pub open spec fn text_load(doc: DocumentView, t: Seq<char>, end: Seq<char>, pos: int) -> DocumentView
    decreases t.len() - pos,
{
    if pos < 0 || pos >= t.len() {
        doc
    } else {
        let next = text_step(t, end, pos).1;
        match text_step(t, end, pos).0 {
            Ok(RecordView::EOF) => doc,
            Ok(RecordView::Info(rows, columns)) => if pos < next < t.len() {
                text_load((rows, columns, doc.2), t, end, next)
            } else {
                (rows, columns, doc.2)
            },
            Ok(RecordView::CellContent(c)) => if pos < next < t.len() {
                text_load((doc.0, doc.1, doc.2.push(c)), t, end, next)
            } else {
                (doc.0, doc.1, doc.2.push(c))
            },
            Ok(_) => if pos < next < t.len() {
                text_load(doc, t, end, next)
            } else {
                doc
            },
            Err(_) => doc,
        }
    }
}

/// Dimensions and cells of an SLK text.
#[derive(Debug)]
pub struct Document {
    rows: u32,
    columns: u32,
    contents: Vec<Cell>,
}

impl View for Document {
    type V = DocumentView;

    closed spec fn view(&self) -> DocumentView {
        (self.rows, self.columns, self.contents@.map_values(|c: Cell| c@))
    }
}

impl Default for Document {
    fn default() -> (res: Self)
        ensures
            res@ == (0u32, 0u32, Seq::<CellView>::empty()),
    {
        let res = Document { rows: 0, columns: 0, contents: Vec::new() };
        assert(res@.2 =~= Seq::<CellView>::empty());
        res
    }
}

impl Document {
    /// Reads every record of `scanner` up to the end record, keeping the
    /// dimensions of `B` records and the cells of `C` records.
    pub fn load(&mut self, scanner: SLKScanner)
        requires
            all_ascii(scanner.text()),
            scanner.text().len() + scanner.end().len() <= usize::MAX,
            text_loadable(scanner.text(), scanner.end(), scanner.position()),
        ensures
            final(self)@ == text_load(old(self)@, scanner.text(), scanner.end(), scanner.position()),
    {
        let mut scanner = scanner;
        let ghost t = scanner.text();
        let ghost end = scanner.end();
        let ghost start = self@;
        let ghost p0 = scanner.position();
        loop
            invariant_except_break
                text_loadable(t, end, scanner.position()),
                text_load(start, t, end, p0) == text_load(self@, t, end, scanner.position()),
            invariant
                scanner.text() == t,
                scanner.end() == end,
                all_ascii(t),
                t.len() + end.len() <= usize::MAX,
            ensures
                self@ == text_load(start, t, end, p0),
            decreases t.len() - scanner.position(),
        {
            let ghost pos = scanner.position();
            let ghost before = self@;
            match scanner.parse_record() {
                Ok(Record::EOF) => {
                    break ;
                },
                Ok(Record::Info(rows, columns)) => {
                    self.rows = rows;
                    self.columns = columns;
                },
                Ok(Record::CellContent(cell)) => {
                    self.contents.push(cell);
                    assert(self@.2 =~= before.2.push(cell@));
                },
                Ok(_) => {},
                Err(_) => {
                    break ;
                },
            }
        }
    }

    /// The cells, in text order.
    pub fn get_contents(&self) -> (res: &Vec<Cell>)
        ensures
            res@.map_values(|c: Cell| c@) == self@.2,
    {
        &self.contents
    }
}

} // verus!
