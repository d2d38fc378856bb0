//! SLK game data tables (unit, ability, doodad and upgrade data and their
//! metadata): the header label of each column, and for each row, keyed by
//! its meta ID (the value of the cell that opens the row), its values by
//! column.
//!
//! Rows and columns are held as vectors of pairs whose keys are distinct,
//! and contracts speak of their views as maps. vstd gives std's `HashMap` a
//! key model for integer and `bool` keys only, so the rows, keyed by text,
//! could not be stated over one without an assumption; the column tables use
//! the same form.

use vstd::prelude::*;
use vstd::pervasive::VecAdditionalExecFns;

use crate::map::chars::{chars_of, is_white_space, string_of};
use crate::map::data_ini::{trimmed_end, trimmed_end_of, white_end, white_end_of};
use crate::slkparser::cell::{Cell, CellView};
use crate::slkparser::document::{load_records, Document, DocumentView};
use crate::slkparser::error::SLKError;
use crate::slkparser::scanner::{outcome_error, records_from, SLKScanner};

verus! {

/// Row of the header labels.
pub const HEADER_ROW: u32 = 1;

/// The map of the `(column, text)` pairs of `s`, a later pair winning.
pub open spec fn columns_view(s: Seq<(u32, String)>) -> Map<u32, Seq<char>>
    decreases s.len(),
{
    if s.len() == 0 {
        Map::empty()
    } else {
        columns_view(s.drop_last()).insert(s.last().0, s.last().1@)
    }
}

/// Whether no two pairs of `s` share a column.
pub open spec fn columns_unique(s: Seq<(u32, String)>) -> bool {
    forall|i: int, j: int| 0 <= i < s.len() && 0 <= j < s.len() && i != j ==> s[i].0 != s[j].0
}

/// Texts by column: the header labels, or the values of one row.
#[derive(Debug)]
pub struct ColumnMap {
    entries: Vec<(u32, String)>,
}

impl View for ColumnMap {
    type V = Map<u32, Seq<char>>;

    closed spec fn view(&self) -> Map<u32, Seq<char>> {
        columns_view(self.entries@)
    }
}

proof fn lemma_columns_last(s: Seq<(u32, String)>, i: int)
    requires
        0 <= i < s.len(),
        forall|j: int| i < j < s.len() ==> s[j].0 != s[i].0,
    ensures
        columns_view(s).contains_key(s[i].0),
        columns_view(s)[s[i].0] == s[i].1@,
    decreases s.len(),
{
    if i < s.len() - 1 {
        lemma_columns_last(s.drop_last(), i);
    }
}

proof fn lemma_columns_absent(s: Seq<(u32, String)>, k: u32)
    requires
        forall|j: int| 0 <= j < s.len() ==> s[j].0 != k,
    ensures
        !columns_view(s).contains_key(k),
    decreases s.len(),
{
    if s.len() > 0 {
        lemma_columns_absent(s.drop_last(), k);
    }
}

proof fn lemma_columns_keys(s: Seq<(u32, String)>, k: u32)
    requires
        columns_view(s).contains_key(k),
    ensures
        exists|j: int| 0 <= j < s.len() && s[j].0 == k,
    decreases s.len(),
{
    if s.len() > 0 && s.last().0 != k {
        lemma_columns_keys(s.drop_last(), k);
        let j = choose|j: int| 0 <= j < s.drop_last().len() && s.drop_last()[j].0 == k;
        assert(s[j].0 == k);
    }
}

proof fn lemma_columns_update(s: Seq<(u32, String)>, i: int, x: (u32, String))
    requires
        0 <= i < s.len(),
        columns_unique(s),
        x.0 == s[i].0,
    ensures
        columns_view(s.update(i, x)) == columns_view(s).insert(x.0, x.1@),
        columns_unique(s.update(i, x)),
    decreases s.len(),
{
    if i == s.len() - 1 {
        assert(s.update(i, x).drop_last() == s.drop_last());
        assert(columns_view(s.update(i, x)) =~= columns_view(s).insert(x.0, x.1@));
    } else {
        lemma_columns_update(s.drop_last(), i, x);
        assert(s.update(i, x).drop_last() == s.drop_last().update(i, x));
        assert(columns_view(s.update(i, x)) =~= columns_view(s).insert(x.0, x.1@));
    }
}

proof fn lemma_columns_len(s: Seq<(u32, String)>)
    requires
        columns_unique(s),
    ensures
        columns_view(s).dom().finite(),
        columns_view(s).dom().len() == s.len(),
    decreases s.len(),
{
    if s.len() > 0 {
        let t = s.drop_last();
        assert(columns_unique(t));
        lemma_columns_len(t);
        lemma_columns_absent(t, s.last().0);
    }
}

/// Position of the last pair of `s` for column `c`.
fn find_column(s: &Vec<(u32, String)>, c: u32) -> (res: Option<usize>)
    ensures
        res matches Some(i) ==> i < s@.len() && s@[i as int].0 == c && forall|j: int|
            i < j < s@.len() ==> s@[j].0 != c,
        res is None ==> forall|j: int| 0 <= j < s@.len() ==> s@[j].0 != c,
{
    let mut i: usize = s.len();
    while i > 0
        invariant
            i <= s@.len(),
            forall|j: int| i <= j < s@.len() ==> s@[j].0 != c,
        decreases i,
    {
        i = i - 1;
        if s[i].0 == c {
            return Some(i);
        }
    }
    None
}

/// Sets column `c` of the unique-keyed `s` to `text`.
fn set_column(s: &mut Vec<(u32, String)>, c: u32, text: String)
    requires
        columns_unique(old(s)@),
    ensures
        columns_unique(final(s)@),
        columns_view(final(s)@) == columns_view(old(s)@).insert(c, text@),
{
    match find_column(s, c) {
        Some(i) => {
            proof {
                lemma_columns_update(s@, i as int, (c, text));
            }
            s.set(i, (c, text));
        },
        None => {
            let ghost s0 = s@;
            s.push((c, text));
            assert(s@.drop_last() == s0);
        },
    }
}

impl ColumnMap {
    /// The text of column `column`.
    pub fn get(&self, column: u32) -> (res: Option<&String>)
        ensures
            res is Some <==> self@.contains_key(column),
            res matches Some(t) ==> t@ == self@[column],
    {
        match find_column(&self.entries, column) {
            Some(i) => {
                proof {
                    lemma_columns_last(self.entries@, i as int);
                }
                Some(&self.entries[i].1)
            },
            None => {
                proof {
                    lemma_columns_absent(self.entries@, column);
                }
                None
            },
        }
    }
}

/// The rows of `s` by meta ID, a later row of an ID winning.
pub open spec fn lines_view(s: Seq<(String, ColumnMap)>) -> Map<Seq<char>, Map<u32, Seq<char>>>
    decreases s.len(),
{
    if s.len() == 0 {
        Map::empty()
    } else {
        lines_view(s.drop_last()).insert(s.last().0@, s.last().1@)
    }
}

/// Whether no two rows of `s` share a meta ID.
pub open spec fn ids_unique(s: Seq<(String, ColumnMap)>) -> bool {
    forall|i: int, j: int| 0 <= i < s.len() && 0 <= j < s.len() && i != j ==> s[i].0@ != s[j].0@
}

proof fn lemma_lines_last(s: Seq<(String, ColumnMap)>, i: int)
    requires
        0 <= i < s.len(),
        forall|j: int| i < j < s.len() ==> s[j].0@ != s[i].0@,
    ensures
        lines_view(s).contains_key(s[i].0@),
        lines_view(s)[s[i].0@] == s[i].1@,
    decreases s.len(),
{
    if i < s.len() - 1 {
        lemma_lines_last(s.drop_last(), i);
    }
}

proof fn lemma_lines_absent(s: Seq<(String, ColumnMap)>, k: Seq<char>)
    requires
        forall|j: int| 0 <= j < s.len() ==> s[j].0@ != k,
    ensures
        !lines_view(s).contains_key(k),
    decreases s.len(),
{
    if s.len() > 0 {
        lemma_lines_absent(s.drop_last(), k);
    }
}

proof fn lemma_lines_remove(s: Seq<(String, ColumnMap)>, i: int)
    requires
        0 <= i < s.len(),
        forall|j: int| 0 <= j < s.len() && j != i ==> s[j].0@ != s[i].0@,
    ensures
        lines_view(s.remove(i)) == lines_view(s).remove(s[i].0@),
    decreases s.len(),
{
    let k = s[i].0@;
    if i == s.len() - 1 {
        assert(s.remove(i) == s.drop_last());
        lemma_lines_absent(s.drop_last(), k);
        assert(lines_view(s.drop_last()) =~= lines_view(s).remove(k));
    } else {
        lemma_lines_remove(s.drop_last(), i);
        assert(s.remove(i).drop_last() == s.drop_last().remove(i));
        assert(s.remove(i).last() == s.last());
        assert(lines_view(s.remove(i)) =~= lines_view(s).remove(k));
    }
}

/// Position of the last row of `s` with meta ID `id`.
fn find_line(s: &Vec<(String, ColumnMap)>, id: &String) -> (res: Option<usize>)
    ensures
        res matches Some(i) ==> i < s@.len() && s@[i as int].0@ == id@ && forall|j: int|
            i < j < s@.len() ==> s@[j].0@ != id@,
        res is None ==> forall|j: int| 0 <= j < s@.len() ==> s@[j].0@ != id@,
{
    let mut i: usize = s.len();
    while i > 0
        invariant
            i <= s@.len(),
            forall|j: int| i <= j < s@.len() ==> s@[j].0@ != id@,
        decreases i,
    {
        i = i - 1;
        if s[i].0 == *id {
            return Some(i);
        }
    }
    None
}

/// Label of a header cell without text.
pub open spec fn unknown_label() -> Seq<char> {
    "Unknown"@
}

/// What reading cells has built: header labels, rows by meta ID, the current
/// row number, the meta ID of the open row, and whether every value so far
/// had an open row to go to.
pub type SlkState = (Map<u32, Seq<char>>, Map<Seq<char>, Map<u32, Seq<char>>>, u32, Seq<char>, bool);

/// The effect of reading cell `c`: a cell of the header row labels its
/// column; another cell with a row number opens a row named by its value;
/// one without sets a value of the open row.
pub open spec fn slk_step(st: SlkState, c: CellView) -> SlkState {
    let row = match c.1 {
        Some(r) => r,
        None => st.2,
    };
    if row == HEADER_ROW {
        let label = match c.2 {
            Some(v) => if v.len() > 0 {
                v
            } else {
                unknown_label()
            },
            None => unknown_label(),
        };
        (st.0.insert(c.0, label), st.1, row, st.3, st.4)
    } else {
        let value = match c.2 {
            Some(v) => v,
            None => Seq::empty(),
        };
        if c.1 is Some {
            (st.0, st.1.insert(value, Map::empty()), row, value, st.4)
        } else {
            (
                st.0,
                st.1.insert(st.3, st.1[st.3].insert(c.0, value)),
                row,
                st.3,
                st.4 && st.1.contains_key(st.3),
            )
        }
    }
}

/// The state after reading `cells` in order.
pub open spec fn slk_fold(cells: Seq<CellView>) -> SlkState
    decreases cells.len(),
{
    if cells.len() == 0 {
        (Map::empty(), Map::empty(), 0, Seq::empty(), true)
    } else {
        slk_step(slk_fold(cells.drop_last()), cells.last())
    }
}

/// Reading the cells of an SLK table: a cell of row 1 (given, or the row
/// of the cell before) labels its column with its value, `Unknown` when that
/// is missing or empty; a cell of another row that gives its row opens a
/// new, empty row keyed by its value; a cell of another row that does not
/// give its row sets its column in the open row to its value (empty when
/// missing).
pub proof fn law_slk_cells(st: SlkState, c: CellView)
    ensures
        ({
            let row = if c.1 is Some {
                c.1->0
            } else {
                st.2
            };
            let value = if c.2 is Some {
                c.2->0
            } else {
                Seq::<char>::empty()
            };
            let next = slk_step(st, c);
            &&& next.2 == row
            &&& row == 1 ==> next.0 == st.0.insert(c.0, if value.len() > 0 {
                value
            } else {
                "Unknown"@
            }) && next.1 == st.1
            &&& row != 1 && c.1 is Some ==> next.0 == st.0 && next.1 == st.1.insert(value, Map::empty())
                && next.3 == value
            &&& row != 1 && c.1 is None ==> next.0 == st.0 && next.1 == st.1.insert(st.3, st.1[st.3].insert(
                c.0,
                value,
            )) && next.3 == st.3
        }),
{
}

/// Whether `cells` can be read: no value comes before the first row opens.
pub open spec fn cells_processable(cells: Seq<CellView>) -> bool {
    slk_fold(cells).4
}

proof fn lemma_fold_ok_prefix(cells: Seq<CellView>, k: int)
    requires
        0 <= k <= cells.len(),
        slk_fold(cells).4,
    ensures
        slk_fold(cells.take(k)).4,
    decreases cells.len(),
{
    if k < cells.len() {
        lemma_fold_ok_prefix(cells.drop_last(), k);
        assert(cells.drop_last().take(k) == cells.take(k));
    } else {
        assert(cells.take(k) == cells);
    }
}

/// The rows built so far, with the open row `id` holding `row` when `open`.
pub open spec fn open_lines(
    lines: Seq<(String, ColumnMap)>,
    open: bool,
    id: Seq<char>,
    row: Seq<(u32, String)>,
) -> Map<Seq<char>, Map<u32, Seq<char>>> {
    if open {
        lines_view(lines).insert(id, columns_view(row))
    } else {
        lines_view(lines)
    }
}

/// The views of `cells`.
pub open spec fn cell_views(cells: Seq<Cell>) -> Seq<CellView> {
    cells.map_values(|c: Cell| c@)
}

/// Header labels and rows of `cells`, each column and meta ID once.
#[verifier::loop_isolation(false)]
fn process_cells(cells: &Vec<Cell>) -> (res: (ColumnMap, Vec<(String, ColumnMap)>))
    requires
        cells_processable(cell_views(cells@)),
    ensures
        res.0@ == slk_fold(cell_views(cells@)).0,
        columns_unique(res.0.entries@),
        lines_view(res.1@) == slk_fold(cell_views(cells@)).1,
        ids_unique(res.1@),
{
    let ghost cv = cell_views(cells@);
    let mut headers: Vec<(u32, String)> = Vec::new();
    let mut lines: Vec<(String, ColumnMap)> = Vec::new();
    let mut cur_id = String::new();
    let mut cur_row: Vec<(u32, String)> = Vec::new();
    let mut open = false;
    let mut row: u32 = 0;
    let mut k: usize = 0;
    while k < cells.len()
        invariant
            k <= cells@.len(),
            cv == cell_views(cells@),
            columns_unique(headers@),
            ids_unique(lines@),
            open ==> forall|j: int| 0 <= j < lines@.len() ==> lines@[j].0@ != cur_id@,
            !open ==> lines@.len() == 0,
            slk_fold(cv.take(k as int)) == (
                columns_view(headers@),
                open_lines(lines@, open, cur_id@, cur_row@),
                row,
                if open {
                    cur_id@
                } else {
                    Seq::<char>::empty()
                },
                true,
            ),
        decreases cells@.len() - k,
    {
        let cell = &cells[k];
        let ghost st = slk_fold(cv.take(k as int));
        proof {
            assert(cv.take(k + 1).drop_last() == cv.take(k as int));
            assert(cv.take(k + 1).last() == cell@);
            lemma_fold_ok_prefix(cv, k + 1);
        }
        let value = cell.value();
        match cell.get_row() {
            Some(r) => {
                row = r;
            },
            None => {},
        }
        if row == HEADER_ROW {
            let label = match value {
                Some(l) => if !l.is_empty() {
                    String::from_str(l)
                } else {
                    String::from_str("Unknown")
                },
                None => String::from_str("Unknown"),
            };
            set_column(&mut headers, cell.get_column(), label);
        } else {
            let field = match value {
                Some(v) => String::from_str(v),
                None => String::new(),
            };
            if cell.get_row().is_some() {
                let ghost before = open_lines(lines@, open, cur_id@, cur_row@);
                if open {
                    let ghost l0 = lines@;
                    let entries = cur_row;
                    lines.push((cur_id, ColumnMap { entries }));
                    assert(lines@.drop_last() == l0);
                    assert(ids_unique(lines@)) by {
                        assert forall|i: int, j: int|
                            0 <= i < lines@.len() && 0 <= j < lines@.len() && i != j implies lines@[i].0@
                            != lines@[j].0@ by {
                            if i < l0.len() && j < l0.len() {
                                assert(lines@[i] == l0[i] && lines@[j] == l0[j]);
                            }
                        }
                    }
                }
                cur_row = Vec::new();
                assert(lines_view(lines@) == before);
                assert(columns_view(cur_row@) == Map::<u32, Seq<char>>::empty());
                cur_id = field;
                match find_line(&lines, &cur_id) {
                    Some(j) => {
                        let ghost l1 = lines@;
                        proof {
                            lemma_lines_remove(lines@, j as int);
                        }
                        lines.remove(j);
                        assert(lines@ == l1.remove(j as int));
                        assert(ids_unique(lines@)) by {
                            assert forall|a: int, b: int|
                                0 <= a < lines@.len() && 0 <= b < lines@.len() && a != b implies lines@[a].0@
                                != lines@[b].0@ by {
                                let a1 = if a < j {
                                    a
                                } else {
                                    a + 1
                                };
                                let b1 = if b < j {
                                    b
                                } else {
                                    b + 1
                                };
                                assert(lines@[a] == l1[a1] && lines@[b] == l1[b1]);
                            }
                        }
                        assert forall|q: int| 0 <= q < lines@.len() implies lines@[q].0@ != cur_id@ by {
                            let q1 = if q < j {
                                q
                            } else {
                                q + 1
                            };
                            assert(lines@[q] == l1[q1]);
                        }
                        assert(lines_view(lines@) == before.remove(cur_id@));
                    },
                    None => {
                        assert(lines_view(lines@) == before);
                    },
                }
                open = true;
                assert(open_lines(lines@, open, cur_id@, cur_row@) =~= before.insert(
                    cur_id@,
                    Map::empty(),
                ));
            } else {
                let ghost r0 = cur_row@;
                cur_row.push((cell.get_column(), field));
                assert(cur_row@.drop_last() == r0);
                assert(open_lines(lines@, open, cur_id@, cur_row@) =~= st.1.insert(
                    st.3,
                    st.1[st.3].insert(cell@.0, field@),
                ));
            }
        }
        assert(slk_fold(cv.take(k + 1)) == slk_step(st, cell@));
        k = k + 1;
    }
    let ghost fin = open_lines(lines@, open, cur_id@, cur_row@);
    if open {
        let ghost l0 = lines@;
        let entries = cur_row;
        lines.push((cur_id, ColumnMap { entries }));
        assert(lines@.drop_last() == l0);
        assert(ids_unique(lines@)) by {
            assert forall|i: int, j: int|
                0 <= i < lines@.len() && 0 <= j < lines@.len() && i != j implies lines@[i].0@
                != lines@[j].0@ by {
                if i < l0.len() && j < l0.len() {
                    assert(lines@[i] == l0[i] && lines@[j] == l0[j]);
                }
            }
        }
    }
    assert(lines_view(lines@) == fin);
    assert(cv.take(cells@.len() as int) == cv);
    (ColumnMap { entries: headers }, lines)
}


proof fn lemma_columns_has(s: Seq<(u32, String)>, j: int)
    requires
        0 <= j < s.len(),
    ensures
        columns_view(s).contains_key(s[j].0),
    decreases s.len(),
{
    if j < s.len() - 1 {
        lemma_columns_has(s.drop_last(), j);
    }
}

/// The document that the SLK bytes `bytes` load into, and the failing record
/// that stops the load, if any.
pub open spec fn doc_load(bytes: Seq<u8>) -> (DocumentView, Option<(int, crate::slkparser::scanner::LineOutcome)>) {
    load_records((0u32, 0u32, Seq::empty()), records_from(bytes, 0, 0))
}

/// `p` without its leading and trailing white space.
pub open spec fn trimmed(p: Seq<char>) -> Seq<char> {
    let w = white_end(p, 0);
    p.subrange(w, trimmed_end(p, w, p.len() as int))
}

/// A merged value: the placeholders `#VALUE!`, `-` and `_` become empty,
/// other values are trimmed.
pub open spec fn merge_value(p: Seq<char>) -> Seq<char> {
    if p == "#VALUE!"@ || p == "-"@ || p == "_"@ {
        Seq::empty()
    } else {
        trimmed(p)
    }
}

/// From `i` on, `white_end` passes white space only and stops at the end
/// or at a character that is not white space.
pub(crate) proof fn lemma_white_end(t: Seq<char>, i: int)
    requires
        0 <= i <= t.len(),
    ensures
        i <= white_end(t, i) <= t.len(),
        forall|k: int| i <= k < white_end(t, i) ==> is_white_space(#[trigger] t[k]),
        white_end(t, i) < t.len() ==> !is_white_space(t[white_end(t, i)]),
    decreases t.len() - i,
{
    if i < t.len() && is_white_space(t[i]) {
        lemma_white_end(t, i + 1);
    }
}

/// Before `j`, `trimmed_end` passes white space only and stops at `lo` or
/// after a character that is not white space.
pub(crate) proof fn lemma_trimmed_end(t: Seq<char>, lo: int, j: int)
    requires
        0 <= lo <= j <= t.len(),
    ensures
        lo <= trimmed_end(t, lo, j) <= j,
        forall|k: int| trimmed_end(t, lo, j) <= k < j ==> is_white_space(#[trigger] t[k]),
        trimmed_end(t, lo, j) > lo ==> !is_white_space(t[trimmed_end(t, lo, j) - 1]),
    decreases j - lo,
{
    if lo < j && is_white_space(t[j - 1]) {
        lemma_trimmed_end(t, lo, j - 1);
    }
}

/// Merging a value: the placeholders `#VALUE!`, `-` and `_` become the
/// empty text; any other value becomes the part of it between its leading
/// and its trailing white space, which neither starts nor ends with white
/// space (so `" 42 "` becomes `"42"`).
pub proof fn law_merge_value(p: Seq<char>)
    ensures
        (p == "#VALUE!"@ || p == "-"@ || p == "_"@) ==> merge_value(p) == Seq::<char>::empty(),
        !(p == "#VALUE!"@ || p == "-"@ || p == "_"@) ==> exists|i: int|
            #![trigger p.subrange(0, i)]
            {
                let m = merge_value(p);
                &&& 0 <= i && i + m.len() <= p.len()
                &&& p.subrange(i, i + m.len()) == m
                &&& forall|k: int| 0 <= k < i ==> is_white_space(#[trigger] p[k])
                &&& forall|k: int| i + m.len() <= k < p.len() ==> is_white_space(#[trigger] p[k])
                &&& m.len() > 0 ==> !is_white_space(m[0]) && !is_white_space(m[m.len() - 1])
            },
{
    if !(p == "#VALUE!"@ || p == "-"@ || p == "_"@) {
        let w = white_end(p, 0);
        lemma_white_end(p, 0);
        lemma_trimmed_end(p, w, p.len() as int);
        let e = trimmed_end(p, w, p.len() as int);
        let m = merge_value(p);
        assert(m == p.subrange(w, e));
        assert(p.subrange(w, w + m.len()) =~= m);
        assert(p.subrange(0, w) == p.subrange(0, w));
    }
}

/// Labels `h` moved `hc` columns right.
pub open spec fn shift_headers(h: Map<u32, Seq<char>>, hc: u32) -> Map<u32, Seq<char>> {
    Map::new(
        |k: u32| k >= hc && h.contains_key((k - hc) as u32),
        |k: u32| h[(k - hc) as u32],
    )
}

/// The merged values of `row`, moved `hc` columns right.
pub open spec fn shift_row(row: Map<u32, Seq<char>>, hc: u32) -> Map<u32, Seq<char>> {
    Map::new(
        |k: u32| k >= hc && row.contains_key((k - hc) as u32),
        |k: u32| merge_value(row[(k - hc) as u32]),
    )
}

/// The rows `old` after merging the rows `new`, moved `hc` columns right.
pub open spec fn merge_rows(
    old: Map<Seq<char>, Map<u32, Seq<char>>>,
    new: Map<Seq<char>, Map<u32, Seq<char>>>,
    hc: u32,
) -> Map<Seq<char>, Map<u32, Seq<char>>> {
    Map::new(
        |k: Seq<char>| old.contains_key(k) || new.contains_key(k),
        |k: Seq<char>|
            if new.contains_key(k) {
                if old.contains_key(k) {
                    old[k].union_prefer_right(shift_row(new[k], hc))
                } else {
                    shift_row(new[k], hc)
                }
            } else {
                old[k]
            },
    )
}

/// Merging rows: each row of the merged table moves `hc` columns right, its
/// values cleaned as [`law_merge_value`] says, and wins over the value that
/// the same row had in that column before; columns that the merged row does
/// not have keep their old value, and rows that are not merged are kept.
pub proof fn law_merge_rows(
    old: Map<Seq<char>, Map<u32, Seq<char>>>,
    new: Map<Seq<char>, Map<u32, Seq<char>>>,
    hc: u32,
    id: Seq<char>,
    c: u32,
)
    ensures
        new.contains_key(id) && new[id].contains_key(c) && hc + c <= u32::MAX ==> {
            &&& merge_rows(old, new, hc).contains_key(id)
            &&& merge_rows(old, new, hc)[id].contains_key((hc + c) as u32)
            &&& merge_rows(old, new, hc)[id][(hc + c) as u32] == merge_value(new[id][c])
        },
        old.contains_key(id) && old[id].contains_key(c) && !(new.contains_key(id) && c >= hc
            && new[id].contains_key((c - hc) as u32)) ==> {
            &&& merge_rows(old, new, hc)[id].contains_key(c)
            &&& merge_rows(old, new, hc)[id][c] == old[id][c]
        },
        !new.contains_key(id) ==> (merge_rows(old, new, hc).contains_key(id) <==> old.contains_key(id))
            && (old.contains_key(id) ==> merge_rows(old, new, hc)[id] == old[id]),
{
    let k = (hc + c) as u32;
    if new.contains_key(id) && new[id].contains_key(c) && hc + c <= u32::MAX {
        assert(shift_row(new[id], hc).contains_key(k));
        assert((k - hc) as u32 == c);
    }
}

/// Whether every column of `h` and of the rows `lines` stays a `u32` when
/// moved `hc` columns right.
pub open spec fn columns_fit(hc: u32, h: Map<u32, Seq<char>>, lines: Map<Seq<char>, Map<u32, Seq<char>>>) -> bool {
    &&& forall|c: u32| #[trigger] h.contains_key(c) ==> hc + c <= u32::MAX
    &&& forall|id: Seq<char>, c: u32|
        lines.contains_key(id) && #[trigger] lines[id].contains_key(c) ==> hc + c <= u32::MAX
}

/// Whether merging the SLK bytes `bytes` into tables with `count` header
/// columns runs to its end: the bytes fail to load, or their cells can be
/// read and their columns, moved `count` right, stay `u32`s.
pub open spec fn mergeable(count: u32, bytes: Seq<u8>) -> bool {
    let (doc, err) = doc_load(bytes);
    err is Some || (cells_processable(doc.2) && columns_fit(
        count,
        slk_fold(doc.2).0,
        slk_fold(doc.2).1,
    ))
}

/// [`merge_value`] of `p`.
fn merge_value_of(p: &String) -> (res: String)
    ensures
        res@ == merge_value(p@),
{
    if *p == String::from_str("#VALUE!") || *p == String::from_str("-") || *p == String::from_str(
        "_",
    ) {
        String::new()
    } else {
        let chars = chars_of(p.as_str());
        let w = white_end_of(&chars, 0);
        let e = trimmed_end_of(&chars, w, chars.len());
        string_of(chars.as_slice(), w, e)
    }
}

/// Appends the merged values of `src`, moved `hc` columns right, to `out`.
fn append_shifted(out: &mut Vec<(u32, String)>, src: &Vec<(u32, String)>, hc: u32)
    requires
        forall|j: int| 0 <= j < src@.len() ==> hc + #[trigger] src@[j].0 <= u32::MAX,
    ensures
        columns_view(final(out)@) == columns_view(old(out)@).union_prefer_right(
            shift_row(columns_view(src@), hc),
        ),
{
    let ghost base = columns_view(out@);
    let mut k: usize = 0;
    while k < src.len()
        invariant
            k <= src@.len(),
            forall|j: int| 0 <= j < src@.len() ==> hc + #[trigger] src@[j].0 <= u32::MAX,
            columns_view(out@) == base.union_prefer_right(
                shift_row(columns_view(src@.take(k as int)), hc),
            ),
        decreases src@.len() - k,
    {
        let ghost o0 = out@;
        let c = src[k].0;
        assert(hc + src@[k as int].0 <= u32::MAX);
        let value = merge_value_of(&src[k].1);
        out.push((hc + c, value));
        proof {
            assert(out@.drop_last() == o0);
            assert(src@.take(k + 1).drop_last() == src@.take(k as int));
            let prev = columns_view(src@.take(k as int));
            assert(columns_view(src@.take(k + 1)) == prev.insert(c, src@[k as int].1@));
            assert(shift_row(prev.insert(c, src@[k as int].1@), hc) =~= shift_row(prev, hc).insert(
                (hc + c) as u32,
                merge_value(src@[k as int].1@),
            ));
            assert(columns_view(out@) =~= base.union_prefer_right(
                shift_row(columns_view(src@.take(k + 1)), hc),
            ));
        }
        k = k + 1;
    }
    assert(src@.take(src@.len() as int) == src@);
}

/// Scanner over the bytes of an SLK file.
pub struct ScannerAdapter {
    scanner: SLKScanner,
}

impl ScannerAdapter {
    /// The bytes being scanned.
    pub closed spec fn bytes(&self) -> Seq<u8> {
        self.scanner.buffer()
    }

    /// Whether the scanner is at the start of its bytes.
    pub closed spec fn fresh(&self) -> bool {
        &&& self.scanner.wf()
        &&& self.scanner.remaining() == records_from(self.scanner.buffer(), 0, 0)
    }

    /// Scanner over the contents of an SLK file.
    pub fn open(contents: Vec<u8>) -> (res: Self)
        ensures
            res.bytes() == contents@,
            res.fresh(),
    {
        ScannerAdapter { scanner: SLKScanner::from_bytes(contents) }
    }
}

/// A loaded SLK document.
pub struct DocumentAdapter {
    document: Document,
}

impl DocumentAdapter {
    /// The cells of the document.
    pub closed spec fn cells(&self) -> Seq<CellView> {
        self.document@.2
    }

    /// Loads every record of `scanner`; fails with the first failing record.
    pub fn load(scanner: ScannerAdapter) -> (res: Result<DocumentAdapter, SLKError>)
        requires
            scanner.fresh(),
        ensures
            match doc_load(scanner.bytes()).1 {
                None => res matches Ok(d) && d.cells() == doc_load(scanner.bytes()).0.2,
                Some((index, o)) => res matches Err(e) && outcome_error(e, index, o),
            },
    {
        let mut document = Document::default();
        match document.load(scanner.scanner) {
            Ok(()) => Ok(DocumentAdapter { document }),
            Err(e) => Err(e),
        }
    }

    /// The cells of the document, in file order.
    pub fn get_contents(&self) -> (res: &Vec<Cell>)
        ensures
            cell_views(res@) == self.cells(),
    {
        self.document.get_contents()
    }
}

/// Wraps `source` with the file it arose in.
fn in_file(path: &str, source: SLKError) -> (res: SLKError)
    ensures
        res matches SLKError::InFile { path: p, source: s } && p@ == path@ && *s == source,
{
    SLKError::InFile { path: String::from_str(path), source: Box::new(source) }
}

/// Header labels by column and rows by meta ID, loaded and merged from SLK
/// files.
#[derive(Debug)]
pub struct SLKData {
    headers: ColumnMap,
    lines: Vec<(String, ColumnMap)>,
}

impl View for SLKData {
    type V = (Map<u32, Seq<char>>, Map<Seq<char>, Map<u32, Seq<char>>>);

    closed spec fn view(&self) -> Self::V {
        (self.headers@, lines_view(self.lines@))
    }
}

impl Default for SLKData {
    fn default() -> (res: Self)
        ensures
            res.wf(),
            res@ == (Map::<u32, Seq<char>>::empty(), Map::<Seq<char>, Map<u32, Seq<char>>>::empty()),
    {
        SLKData::new()
    }
}

impl SLKData {
    /// Internal consistency: each header column is stored once, so that the
    /// number of stored labels is the number of labelled columns.
    pub closed spec fn wf(&self) -> bool {
        columns_unique(self.headers.entries@)
    }

    /// Empty tables.
    pub fn new() -> (res: Self)
        ensures
            res.wf(),
            res@ == (Map::<u32, Seq<char>>::empty(), Map::<Seq<char>, Map<u32, Seq<char>>>::empty()),
    {
        SLKData { headers: ColumnMap { entries: Vec::new() }, lines: Vec::new() }
    }

    /// Loads the tables of the SLK file `path` with contents `contents`; a
    /// failure to load it comes back wrapped with `path`.
    pub fn load(path: &str, contents: Vec<u8>) -> (res: Result<Self, SLKError>)
        requires
            doc_load(contents@).1 is None ==> cells_processable(doc_load(contents@).0.2),
        ensures
            match doc_load(contents@).1 {
                None => res matches Ok(d) && d.wf() && d@ == (
                    slk_fold(doc_load(contents@).0.2).0,
                    slk_fold(doc_load(contents@).0.2).1,
                ),
                Some((index, o)) => res matches Err(SLKError::InFile { path: p, source }) && p@
                    == path@ && outcome_error(*source, index, o),
            },
    {
        let scanner = ScannerAdapter::open(contents);
        let document = match DocumentAdapter::load(scanner) {
            Ok(d) => d,
            Err(e) => {
                return Err(in_file(path, e));
            },
        };
        let cells = document.get_contents();
        let (headers, lines) = process_cells(cells);
        Ok(SLKData { headers, lines })
    }

    /// Whether [`SLKData::load`] can take `contents`.
    pub fn can_load(contents: Vec<u8>) -> (res: bool)
        ensures
            res == (doc_load(contents@).1 is None ==> cells_processable(doc_load(contents@).0.2)),
    {
        let scanner = ScannerAdapter::open(contents);
        match DocumentAdapter::load(scanner) {
            Ok(d) => can_process(d.get_contents()),
            Err(_) => true,
        }
    }

    /// Whether [`SLKData::merge`] can take `contents`.
    #[verifier::loop_isolation(false)]
    pub fn can_merge(&self, contents: Vec<u8>) -> (res: bool)
        requires
            self.wf(),
        ensures
            res == mergeable(self@.0.dom().len() as u32, contents@),
    {
        proof {
            lemma_columns_len(self.headers.entries@);
        }
        let hc = self.headers.entries.len() as u32;
        let scanner = ScannerAdapter::open(contents);
        let document = match DocumentAdapter::load(scanner) {
            Ok(d) => d,
            Err(_) => {
                return true;
            },
        };
        let cells = document.get_contents();
        if !can_process(cells) {
            return false;
        }
        let (headers, lines) = process_cells(cells);
        let ghost st = slk_fold(cell_views(cells@));
        let mut k: usize = 0;
        while k < headers.entries.len()
            invariant
                k <= headers.entries@.len(),
                headers@ == st.0,
                forall|j: int| 0 <= j < k ==> hc + #[trigger] headers.entries@[j].0 <= u32::MAX,
            decreases headers.entries@.len() - k,
        {
            if headers.entries[k].0 > u32::MAX - hc {
                proof {
                    lemma_columns_has(headers.entries@, k as int);
                }
                return false;
            }
            k = k + 1;
        }
        let mut i: usize = 0;
        while i < lines.len()
            invariant
                i <= lines@.len(),
                lines_view(lines@) == st.1,
                ids_unique(lines@),
                forall|a: int, j: int|
                    0 <= a < i && 0 <= j < lines@[a].1.entries@.len() ==> hc + #[trigger] lines@[a].1.entries@[j].0
                        <= u32::MAX,
            decreases lines@.len() - i,
        {
            let row = &lines[i].1;
            let mut k: usize = 0;
            while k < row.entries.len()
                invariant
                    k <= row.entries@.len(),
                    *row == lines@[i as int].1,
                    forall|j: int| 0 <= j < k ==> hc + #[trigger] row.entries@[j].0 <= u32::MAX,
                decreases row.entries@.len() - k,
            {
                if row.entries[k].0 > u32::MAX - hc {
                    proof {
                        lemma_columns_has(row.entries@, k as int);
                        lemma_lines_last(lines@, i as int);
                    }
                    return false;
                }
                k = k + 1;
            }
            i = i + 1;
        }
        proof {
            assert forall|c: u32| #[trigger] st.0.contains_key(c) implies hc + c <= u32::MAX by {
                lemma_columns_keys(headers.entries@, c);
            }
            assert forall|id: Seq<char>, c: u32|
                st.1.contains_key(id) && #[trigger] st.1[id].contains_key(c) implies hc + c
                <= u32::MAX by {
                lemma_lines_keys(lines@, id);
                let a = choose|a: int| 0 <= a < lines@.len() && lines@[a].0@ == id;
                lemma_lines_last(lines@, a);
                lemma_columns_keys(lines@[a].1.entries@, c);
            }
        }
        true
    }

    /// Merges the tables of the SLK file `path` with contents `contents`: its
    /// columns move right by the number of labelled columns already here, its
    /// rows extend those of the same meta ID, and its values lose the
    /// placeholders `#VALUE!`, `-` and `_` and their surrounding white space.
    /// A failure to load it comes back wrapped with `path`, the tables
    /// unchanged.
    pub fn merge(&mut self, path: &str, contents: Vec<u8>) -> (res: Result<(), SLKError>)
        requires
            old(self).wf(),
            mergeable(old(self)@.0.dom().len() as u32, contents@),
        ensures
            final(self).wf(),
            ({
                let (doc, err) = doc_load(contents@);
                let st = slk_fold(doc.2);
                let hc = old(self)@.0.dom().len() as u32;
                match err {
                    None => res is Ok && final(self)@ == (
                        old(self)@.0.union_prefer_right(shift_headers(st.0, hc)),
                        merge_rows(old(self)@.1, st.1, hc),
                    ),
                    Some((index, o)) => res matches Err(SLKError::InFile { path: p, source }) && p@
                        == path@ && outcome_error(*source, index, o) && final(self)@ == old(self)@,
                }
            }),
    {
        proof {
            lemma_columns_len(self.headers.entries@);
        }
        let hc = self.headers.entries.len() as u32;
        let scanner = ScannerAdapter::open(contents);
        let document = match DocumentAdapter::load(scanner) {
            Ok(d) => d,
            Err(e) => {
                return Err(in_file(path, e));
            },
        };
        let cells = document.get_contents();
        let (headers, lines) = process_cells(cells);
        let ghost st = slk_fold(cell_views(cells@));
        let ghost old_lines = lines_view(self.lines@);
        let ghost old_headers = self.headers@;
        let mut i: usize = 0;
        while i < lines.len()
            invariant
                i <= lines@.len(),
                ids_unique(lines@),
                lines_view(lines@) == st.1,
                columns_fit(hc, st.0, st.1),
                columns_unique(self.headers.entries@),
                self.headers@ == old_headers,
                lines_view(self.lines@) == merge_rows(old_lines, lines_view(lines@.take(i as int)), hc),
            decreases lines@.len() - i,
        {
            let id = &lines[i].0;
            let ghost done = lines_view(lines@.take(i as int));
            proof {
                assert forall|j: int| 0 <= j < lines@.take(i as int).len() implies lines@.take(
                    i as int,
                )[j].0@ != id@ by {
                    assert(lines@.take(i as int)[j] == lines@[j]);
                }
                lemma_lines_absent(lines@.take(i as int), id@);
                lemma_lines_last(lines@, i as int);
                assert forall|j: int| 0 <= j < lines@[i as int].1.entries@.len() implies hc
                    + #[trigger] lines@[i as int].1.entries@[j].0 <= u32::MAX by {
                    lemma_columns_has(lines@[i as int].1.entries@, j);
                    assert(st.1[id@].contains_key(lines@[i as int].1.entries@[j].0));
                }
            }
            let mut merged: Vec<(u32, String)> = Vec::new();
            match find_line(&self.lines, id) {
                Some(j) => {
                    proof {
                        lemma_lines_last(self.lines@, j as int);
                    }
                    let src = &self.lines[j].1.entries;
                    let mut k: usize = 0;
                    while k < src.len()
                        invariant
                            k <= src@.len(),
                            columns_view(merged@) == columns_view(src@.take(k as int)),
                        decreases src@.len() - k,
                    {
                        let ghost m0 = merged@;
                        merged.push((src[k].0, src[k].1.clone()));
                        assert(merged@.drop_last() == m0);
                        assert(src@.take(k + 1).drop_last() == src@.take(k as int));
                        k = k + 1;
                    }
                    assert(src@.take(src@.len() as int) == src@);
                },
                None => {
                    proof {
                        lemma_lines_absent(self.lines@, id@);
                    }
                },
            }
            let ghost base = columns_view(merged@);
            append_shifted(&mut merged, &lines[i].1.entries, hc);
            let ghost nv = lines@[i as int].1@;
            let ghost mv = if old_lines.contains_key(id@) {
                old_lines[id@].union_prefer_right(shift_row(nv, hc))
            } else {
                shift_row(nv, hc)
            };
            proof {
                assert(Map::<u32, Seq<char>>::empty().union_prefer_right(shift_row(nv, hc)) =~= shift_row(
                    nv,
                    hc,
                ));
                assert(columns_view(merged@) == mv);
            }
            let ghost l0 = self.lines@;
            let ghost s0 = lines_view(self.lines@);
            self.lines.push((id.clone(), ColumnMap { entries: merged }));
            proof {
                assert(self.lines@.drop_last() == l0);
                assert(lines@.take(i + 1).drop_last() == lines@.take(i as int));
                assert(lines_view(self.lines@) == s0.insert(id@, mv));
                assert(lines_view(lines@.take(i + 1)) == done.insert(id@, nv));
                assert(lines_view(self.lines@) =~= merge_rows(
                    old_lines,
                    lines_view(lines@.take(i + 1)),
                    hc,
                ));
            }
            i = i + 1;
        }
        assert(lines@.take(lines@.len() as int) == lines@);
        let mut k: usize = 0;
        while k < headers.entries.len()
            invariant
                k <= headers.entries@.len(),
                headers@ == st.0,
                columns_fit(hc, st.0, st.1),
                columns_unique(self.headers.entries@),
                lines_view(self.lines@) == merge_rows(old_lines, st.1, hc),
                self.headers@ == old_headers.union_prefer_right(
                    shift_headers(columns_view(headers.entries@.take(k as int)), hc),
                ),
            decreases headers.entries@.len() - k,
        {
            let c = headers.entries[k].0;
            proof {
                lemma_columns_has(headers.entries@, k as int);
            }
            let label = headers.entries[k].1.clone();
            set_column(&mut self.headers.entries, hc + c, label);
            proof {
                assert(headers.entries@.take(k + 1).drop_last() == headers.entries@.take(k as int));
                let prev = columns_view(headers.entries@.take(k as int));
                assert(columns_view(headers.entries@.take(k + 1)) == prev.insert(
                    c,
                    headers.entries@[k as int].1@,
                ));
                assert(shift_headers(prev.insert(c, headers.entries@[k as int].1@), hc)
                    =~= shift_headers(prev, hc).insert(
                    (hc + c) as u32,
                    headers.entries@[k as int].1@,
                ));
                assert(self.headers@ =~= old_headers.union_prefer_right(
                    shift_headers(columns_view(headers.entries@.take(k + 1)), hc),
                ));
            }
            k = k + 1;
        }
        assert(headers.entries@.take(headers.entries@.len() as int) == headers.entries@);
        Ok(())
    }

    /// The values of the row with meta ID `id`.
    pub fn get(&self, id: &String) -> (res: Option<&ColumnMap>)
        ensures
            res is Some <==> self@.1.contains_key(id@),
            res matches Some(r) ==> r@ == self@.1[id@],
    {
        match find_line(&self.lines, id) {
            Some(i) => {
                proof {
                    lemma_lines_last(self.lines@, i as int);
                }
                Some(&self.lines[i].1)
            },
            None => {
                proof {
                    lemma_lines_absent(self.lines@, id@);
                }
                None
            },
        }
    }

    /// The header labels by column.
    pub fn headers(&self) -> (res: &ColumnMap)
        ensures
            res@ == self@.0,
    {
        &self.headers
    }
}

proof fn lemma_lines_keys(s: Seq<(String, ColumnMap)>, k: Seq<char>)
    requires
        lines_view(s).contains_key(k),
    ensures
        exists|j: int| 0 <= j < s.len() && s[j].0@ == k,
    decreases s.len(),
{
    if s.len() > 0 && s.last().0@ != k {
        lemma_lines_keys(s.drop_last(), k);
        let j = choose|j: int| 0 <= j < s.drop_last().len() && s.drop_last()[j].0@ == k;
        assert(s[j].0@ == k);
    }
}

/// Whether the cells `cells` can be read (see [`cells_processable`]).
pub fn can_process(cells: &Vec<Cell>) -> (res: bool)
    ensures
        res == cells_processable(cell_views(cells@)),
{
    let ghost cv = cell_views(cells@);
    let mut row: u32 = 0;
    let mut seen = false;
    let mut k: usize = 0;
    while k < cells.len()
        invariant
            k <= cells@.len(),
            cv == cell_views(cells@),
            slk_fold(cv.take(k as int)).2 == row,
            slk_fold(cv.take(k as int)).4,
            seen ==> slk_fold(cv.take(k as int)).1.contains_key(slk_fold(cv.take(k as int)).3),
            !seen ==> slk_fold(cv.take(k as int)).1 == Map::<Seq<char>, Map<u32, Seq<char>>>::empty(),
        decreases cells@.len() - k,
    {
        let cell = &cells[k];
        proof {
            assert(cv.take(k + 1).drop_last() == cv.take(k as int));
            assert(cv.take(k + 1).last() == cell@);
        }
        match cell.get_row() {
            Some(r) => {
                row = r;
            },
            None => {},
        }
        if row != HEADER_ROW {
            if cell.get_row().is_some() {
                seen = true;
            } else if !seen {
                proof {
                    assert(!slk_fold(cv.take(k + 1)).4);
                    lemma_fold_not_ok(cv, k + 1);
                }
                return false;
            }
        }
        k = k + 1;
    }
    assert(cv.take(cells@.len() as int) == cv);
    true
}

proof fn lemma_fold_not_ok(cells: Seq<CellView>, k: int)
    requires
        0 <= k <= cells.len(),
        !slk_fold(cells.take(k)).4,
    ensures
        !slk_fold(cells).4,
{
    if slk_fold(cells).4 {
        lemma_fold_ok_prefix(cells, k);
    }
}


/// The label of column `c` in a row keyed by labels: its header label, or
/// `Unknown1` for a column without one.
pub open spec fn formatted_label(headers: Map<u32, Seq<char>>, c: u32) -> Seq<char> {
    if headers.contains_key(c) {
        headers[c]
    } else {
        "Unknown1"@
    }
}

/// Whether `c` is the highest column of `row` labelled `k`.
pub open spec fn top_column(headers: Map<u32, Seq<char>>, row: Map<u32, Seq<char>>, k: Seq<char>, c: u32) -> bool {
    &&& row.contains_key(c)
    &&& formatted_label(headers, c) == k
    &&& forall|c2: u32| #[trigger] row.contains_key(c2) && formatted_label(headers, c2) == k ==> c2 <= c
}

/// The row `row` keyed by labels: each label of one of its columns maps to
/// the value of its highest column, the columns being taken in increasing
/// order and a later one overwriting an earlier one of the same label.
pub open spec fn formatted_row(headers: Map<u32, Seq<char>>, row: Map<u32, Seq<char>>) -> Map<Seq<char>, Seq<char>> {
    Map::new(
        |k: Seq<char>| exists|c: u32| #[trigger] row.contains_key(c) && formatted_label(headers, c) == k,
        |k: Seq<char>| row[choose|c: u32| top_column(headers, row, k, c)],
    )
}

/// The map of the `(label, text)` pairs of `s`, a later pair winning.
pub open spec fn labels_view(s: Seq<(String, String)>) -> Map<Seq<char>, Seq<char>>
    decreases s.len(),
{
    if s.len() == 0 {
        Map::empty()
    } else {
        labels_view(s.drop_last()).insert(s.last().0@, s.last().1@)
    }
}

/// Whether no label occurs twice among the pairs `s`.
pub open spec fn labels_distinct(s: Seq<(String, String)>) -> bool {
    forall|i: int, j: int| 0 <= i < j < s.len() ==> #[trigger] s[i].0@ != #[trigger] s[j].0@
}

proof fn lemma_labels_at(s: Seq<(String, String)>, i: int)
    requires
        labels_distinct(s),
        0 <= i < s.len(),
    ensures
        labels_view(s).contains_key(s[i].0@),
        labels_view(s)[s[i].0@] == s[i].1@,
    decreases s.len(),
{
    if i < s.len() - 1 {
        assert(labels_distinct(s.drop_last())) by {
            assert forall|a: int, b: int| 0 <= a < b < s.drop_last().len() implies #[trigger] s.drop_last()[a].0@
                != #[trigger] s.drop_last()[b].0@ by {
                assert(s.drop_last()[a] == s[a] && s.drop_last()[b] == s[b]);
            }
        }
        lemma_labels_at(s.drop_last(), i);
        assert(s[i].0@ != s[s.len() - 1].0@);
    }
}

proof fn lemma_labels_keys(s: Seq<(String, String)>, k: Seq<char>)
    requires
        labels_view(s).contains_key(k),
    ensures
        exists|j: int| 0 <= j < s.len() && s[j].0@ == k,
    decreases s.len(),
{
    if s.len() > 0 && s.last().0@ != k {
        lemma_labels_keys(s.drop_last(), k);
        let j = choose|j: int| 0 <= j < s.drop_last().len() && s.drop_last()[j].0@ == k;
        assert(s[j].0@ == k);
    }
}

/// Whether `b` pairs a label with the highest column of `row` that has it
/// among the first `k` columns of `es`.
spec fn best_entry_ok(
    h: Map<u32, Seq<char>>,
    row: Map<u32, Seq<char>>,
    es: Seq<(u32, String)>,
    b: (String, u32),
    k: int,
) -> bool {
    &&& row.contains_key(b.1)
    &&& formatted_label(h, b.1) == b.0@
    &&& forall|m: int| 0 <= m < k && formatted_label(h, #[trigger] es[m].0) == b.0@ ==> es[m].0 <= b.1
}

/// Position of label `label` among the best columns `best`.
fn find_label(best: &Vec<(String, u32)>, label: &String) -> (res: Option<usize>)
    ensures
        res matches Some(j) ==> j < best@.len() && best@[j as int].0@ == label@,
        res is None ==> forall|j: int| 0 <= j < best@.len() ==> best@[j].0@ != label@,
{
    let mut j: usize = 0;
    while j < best.len()
        invariant
            j <= best@.len(),
            forall|m: int| 0 <= m < j ==> best@[m].0@ != label@,
        decreases best@.len() - j,
    {
        if best[j].0 == *label {
            return Some(j);
        }
        j = j + 1;
    }
    None
}

/// Whether text `a` comes before text `b`: compared character by character
/// by code point, a proper prefix first. This is the order of `String`,
/// whose UTF-8 bytes compare as their code points do.
pub open spec fn text_less(a: Seq<char>, b: Seq<char>) -> bool
    decreases a.len(),
{
    if a.len() == 0 {
        b.len() > 0
    } else if b.len() == 0 {
        false
    } else if a[0] != b[0] {
        a[0] < b[0]
    } else {
        text_less(a.drop_first(), b.drop_first())
    }
}

proof fn lemma_text_less_total(a: Seq<char>, b: Seq<char>)
    ensures
        a != b ==> text_less(a, b) || text_less(b, a),
        !(text_less(a, b) && text_less(b, a)),
        !text_less(a, a),
    decreases a.len(),
{
    if a.len() > 0 {
        lemma_text_less_total(a.drop_first(), a.drop_first());
    }
    if a.len() > 0 && b.len() > 0 {
        lemma_text_less_total(a.drop_first(), b.drop_first());
        if a[0] == b[0] && a != b {
            assert(a.drop_first() != b.drop_first()) by {
                if a.drop_first() == b.drop_first() {
                    assert(a =~= seq![a[0]] + a.drop_first());
                    assert(b =~= seq![b[0]] + b.drop_first());
                }
            }
        }
    } else if a.len() == 0 && b.len() == 0 {
        assert(a =~= b);
    }
}

proof fn lemma_text_less_trans(a: Seq<char>, b: Seq<char>, c: Seq<char>)
    requires
        text_less(a, b),
        text_less(b, c),
    ensures
        text_less(a, c),
    decreases a.len(),
{
    if a.len() > 0 && b.len() > 0 && c.len() > 0 && a[0] == b[0] && b[0] == c[0] {
        lemma_text_less_trans(a.drop_first(), b.drop_first(), c.drop_first());
    }
}

/// Decides [`text_less`].
fn text_less_of(a: &String, b: &String) -> (res: bool)
    ensures
        res == text_less(a@, b@),
{
    let x = chars_of(a.as_str());
    let y = chars_of(b.as_str());
    let mut i: usize = 0;
    proof {
        assert(x@.skip(0) =~= x@);
        assert(y@.skip(0) =~= y@);
    }
    while i < x.len() && i < y.len() && x[i] == y[i]
        invariant
            i <= x@.len(),
            i <= y@.len(),
            x@ == a@,
            y@ == b@,
            text_less(x@, y@) == text_less(x@.skip(i as int), y@.skip(i as int)),
        decreases x@.len() - i,
    {
        proof {
            assert(x@.skip(i as int).drop_first() == x@.skip(i + 1));
            assert(y@.skip(i as int).drop_first() == y@.skip(i + 1));
        }
        i = i + 1;
    }
    proof {
        if i < x.len() {
            assert(x@.skip(i as int)[0] == x@[i as int]);
        }
        if i < y.len() {
            assert(y@.skip(i as int)[0] == y@[i as int]);
        }
    }
    if i == x.len() {
        i < y.len()
    } else if i == y.len() {
        false
    } else {
        x[i] < y[i]
    }
}

/// Whether the labels of the pairs `s` come in strictly increasing order.
pub open spec fn labels_sorted(s: Seq<(String, String)>) -> bool {
    forall|i: int, j: int| 0 <= i < j < s.len() ==> text_less(#[trigger] s[i].0@, #[trigger] s[j].0@)
}

/// Inserts `x`, whose label none of the sorted pairs `out` has, where its
/// label belongs.
fn insert_by_label(out: &mut Vec<(String, String)>, x: (String, String))
    requires
        labels_sorted(old(out)@),
        forall|i: int| 0 <= i < old(out)@.len() ==> (#[trigger] old(out)@[i]).0@ != x.0@,
    ensures
        labels_sorted(final(out)@),
        exists|p: int| 0 <= p <= old(out)@.len() && final(out)@ == old(out)@.insert(p, x),
{
    let mut p: usize = 0;
    while p < out.len() && text_less_of(&out[p].0, &x.0)
        invariant
            p <= out@.len(),
            out@ == old(out)@,
            forall|i: int| 0 <= i < p ==> text_less(#[trigger] out@[i].0@, x.0@),
        decreases out@.len() - p,
    {
        p = p + 1;
    }
    let ghost o0 = out@;
    proof {
        assert forall|j: int| p <= j < o0.len() implies text_less(x.0@, #[trigger] o0[j].0@) by {
            lemma_text_less_total(o0[p as int].0@, x.0@);
            if j > p {
                lemma_text_less_trans(x.0@, o0[p as int].0@, o0[j].0@);
            }
        }
    }
    out.insert(p, x);
    proof {
        assert forall|i: int, j: int| 0 <= i < j < out@.len() implies text_less(#[trigger] out@[i].0@, #[trigger] out@[j].0@) by {
            if j < p {
                assert(out@[i] == o0[i] && out@[j] == o0[j]);
            } else if j == p {
                assert(out@[i] == o0[i]);
            } else if i < p {
                assert(out@[i] == o0[i] && out@[j] == o0[j - 1]);
                lemma_text_less_trans(o0[i].0@, x.0@, o0[j - 1].0@);
            } else if i == p {
                assert(out@[j] == o0[j - 1]);
            } else {
                assert(out@[i] == o0[i - 1] && out@[j] == o0[j - 1]);
            }
        }
    }
}

/// The pairs `v`, whose labels are distinct, in the order of their labels.
fn sort_by_label(v: Vec<(String, String)>) -> (res: Vec<(String, String)>)
    requires
        labels_distinct(v@),
    ensures
        labels_sorted(res@),
        res@.to_multiset() == v@.to_multiset(),
{
    broadcast use vstd::seq_lib::group_to_multiset_ensures;

    let ghost src = v@;
    let mut rest = v;
    let mut out: Vec<(String, String)> = Vec::new();
    let ghost mut taken: Seq<(String, String)> = Seq::empty();
    while rest.len() > 0
        invariant
            src == taken + rest@,
            labels_distinct(src),
            labels_sorted(out@),
            out@.to_multiset() == taken.to_multiset(),
        decreases rest@.len(),
    {
        let ghost r0 = rest@;
        let x = rest.remove(0);
        proof {
            assert(x == src[taken.len() as int]);
            assert forall|i: int| 0 <= i < out@.len() implies (#[trigger] out@[i]).0@ != x.0@ by {
                assert(out@.contains(out@[i]));
                out@.to_multiset_ensures();
                taken.to_multiset_ensures();
                assert(out@.to_multiset().count(out@[i]) > 0);
                assert(taken.contains(out@[i]));
                let j = choose|j: int| 0 <= j < taken.len() && taken[j] == out@[i];
                assert(src[j] == out@[i]);
            }
        }
        let ghost o0 = out@;
        insert_by_label(&mut out, x);
        proof {
            let p = choose|p: int| 0 <= p <= o0.len() && out@ == o0.insert(p, x);
            vstd::seq_lib::to_multiset_insert(o0, p, x);
            taken.to_multiset_ensures();
            assert(taken.push(x).to_multiset() =~= taken.to_multiset().insert(x));
            assert(taken.push(x) + rest@ =~= src);
            taken = taken.push(x);
        }
    }
    proof {
        assert(taken =~= src);
    }
    out
}

proof fn lemma_labels_view_perm(a: Seq<(String, String)>, b: Seq<(String, String)>)
    requires
        labels_distinct(a),
        labels_distinct(b),
        a.to_multiset() == b.to_multiset(),
    ensures
        labels_view(a) == labels_view(b),
{
    broadcast use vstd::seq_lib::group_to_multiset_ensures;

    assert forall|key: Seq<char>| #[trigger] labels_view(a).contains_key(key) implies labels_view(b).contains_key(key)
        && labels_view(b)[key] == labels_view(a)[key] by {
        lemma_labels_keys(a, key);
        let j = choose|j: int| 0 <= j < a.len() && a[j].0@ == key;
        assert(a.contains(a[j]));
        assert(b.to_multiset().count(a[j]) > 0);
        let i = choose|i: int| 0 <= i < b.len() && b[i] == a[j];
        lemma_labels_at(a, j);
        lemma_labels_at(b, i);
    }
    assert forall|key: Seq<char>| #[trigger] labels_view(b).contains_key(key) implies labels_view(a).contains_key(key) by {
        lemma_labels_keys(b, key);
        let i = choose|i: int| 0 <= i < b.len() && b[i].0@ == key;
        assert(b.contains(b[i]));
        assert(a.to_multiset().count(b[i]) > 0);
        let j = choose|j: int| 0 <= j < a.len() && a[j] == b[i];
        lemma_labels_at(a, j);
    }
    assert(labels_view(a) =~= labels_view(b));
}

proof fn lemma_sorted_distinct(s: Seq<(String, String)>)
    requires
        labels_sorted(s),
    ensures
        labels_distinct(s),
{
    assert forall|i: int, j: int| 0 <= i < j < s.len() implies #[trigger] s[i].0@ != #[trigger] s[j].0@ by {
        lemma_text_less_total(s[i].0@, s[j].0@);
    }
}

impl SLKData {
    /// The row with meta ID `id` keyed by labels (see [`formatted_row`]),
    /// as `(label, value)` pairs in the order of their labels.
    #[verifier::rlimit(60)]
    #[verifier::spinoff_prover]
    pub fn get_formatted(&self, id: &String) -> (res: Option<Vec<(String, String)>>)
        ensures
            res is Some <==> self@.1.contains_key(id@),
            res matches Some(v) ==> labels_distinct(v@) && labels_sorted(v@) && labels_view(v@)
                == formatted_row(self@.0, self@.1[id@]),
    {
        let row = match self.get(id) {
            Some(r) => r,
            None => {
                return None;
            },
        };
        let ghost h = self@.0;
        let ghost rv = row@;
        let entries = &row.entries;
        let mut best: Vec<(String, u32)> = Vec::new();
        let mut k: usize = 0;
        while k < entries.len()
            invariant
                k <= entries@.len(),
                h == self@.0,
                h == self.headers@,
                rv == row@,
                rv == columns_view(entries@),
                forall|a: int, b: int| 0 <= a < b < best@.len() ==> #[trigger] best@[a].0@ != #[trigger] best@[b].0@,
                forall|j: int| 0 <= j < best@.len() ==> best_entry_ok(h, rv, entries@, #[trigger] best@[j], k as int),
                forall|m: int| 0 <= m < k ==> exists|j: int| 0 <= j < best@.len() && #[trigger] best@[j].0@ == formatted_label(h, #[trigger] entries@[m].0),
            decreases entries@.len() - k,
        {
            let c = entries[k].0;
            proof {
                lemma_columns_has(entries@, k as int);
            }
            let label = match self.headers.get(c) {
                Some(t) => t.clone(),
                None => String::from_str("Unknown1"),
            };
            assert(label@ == formatted_label(h, c));
            match find_label(&best, &label) {
                Some(j) => {
                    if best[j].1 < c {
                        let ghost b0 = best@;
                        best.set(j, (label, c));
                        proof {
                            assert forall|j2: int| 0 <= j2 < best@.len() implies best_entry_ok(h, rv, entries@, #[trigger] best@[j2], k + 1) by {
                                assert(best_entry_ok(h, rv, entries@, b0[j2], k as int));
                                if j2 != j {
                                    assert(best@[j2] == b0[j2]);
                                    assert(b0[j2].0@ != b0[j as int].0@);
                                }
                            }
                            assert forall|m: int| 0 <= m < k + 1 implies exists|j2: int| 0 <= j2 < best@.len() && #[trigger] best@[j2].0@ == formatted_label(h, #[trigger] entries@[m].0) by {
                                if m < k {
                                    let j2 = choose|j2: int| 0 <= j2 < b0.len() && #[trigger] b0[j2].0@ == formatted_label(h, entries@[m].0);
                                    assert(best@[j2].0@ == b0[j2].0@);
                                } else {
                                    assert(best@[j as int].0@ == formatted_label(h, entries@[m].0));
                                }
                            }
                        }
                    } else {
                        proof {
                            assert forall|j2: int| 0 <= j2 < best@.len() implies best_entry_ok(h, rv, entries@, #[trigger] best@[j2], k + 1) by {
                                assert(best_entry_ok(h, rv, entries@, best@[j2], k as int));
                                if j2 != j {
                                    assert(best@[j2].0@ != best@[j as int].0@);
                                }
                            }
                            assert forall|m: int| 0 <= m < k + 1 implies exists|j2: int| 0 <= j2 < best@.len() && #[trigger] best@[j2].0@ == formatted_label(h, #[trigger] entries@[m].0) by {
                                if m == k {
                                    assert(best@[j as int].0@ == formatted_label(h, entries@[m].0));
                                }
                            }
                        }
                    }
                },
                None => {
                    let ghost b0 = best@;
                    best.push((label, c));
                    proof {
                        assert forall|j2: int| 0 <= j2 < best@.len() implies best_entry_ok(h, rv, entries@, #[trigger] best@[j2], k + 1) by {
                            if j2 < b0.len() {
                                assert(best@[j2] == b0[j2]);
                                assert(best_entry_ok(h, rv, entries@, b0[j2], k as int));
                                assert(b0[j2].0@ != label@);
                            } else {
                                assert forall|m: int| 0 <= m < k + 1 && formatted_label(h, #[trigger] entries@[m].0) == best@[j2].0@ implies entries@[m].0 <= best@[j2].1 by {
                                    if m < k {
                                        let j3 = choose|j3: int| 0 <= j3 < b0.len() && #[trigger] b0[j3].0@ == formatted_label(h, entries@[m].0);
                                        assert(b0[j3].0@ != label@);
                                    }
                                }
                            }
                        }
                        assert forall|m: int| 0 <= m < k + 1 implies exists|j2: int| 0 <= j2 < best@.len() && #[trigger] best@[j2].0@ == formatted_label(h, #[trigger] entries@[m].0) by {
                            if m < k {
                                let j2 = choose|j2: int| 0 <= j2 < b0.len() && #[trigger] b0[j2].0@ == formatted_label(h, entries@[m].0);
                                assert(best@[j2].0@ == b0[j2].0@);
                            } else {
                                assert(best@[b0.len() as int].0@ == formatted_label(h, entries@[m].0));
                            }
                        }
                    }
                },
            }
            k = k + 1;
        }
        proof {
            assert forall|m: int| 0 <= m < entries@.len() implies #[trigger] rv.contains_key(entries@[m].0) by {
                lemma_columns_has(entries@, m);
            }
            assert forall|i: int| 0 <= i < best@.len() implies top_column(h, rv, best@[i].0@, #[trigger] best@[i].1) by {
                assert(best_entry_ok(h, rv, entries@, best@[i], entries@.len() as int));
                assert forall|c2: u32| #[trigger] rv.contains_key(c2) && formatted_label(h, c2) == best@[i].0@ implies c2 <= best@[i].1 by {
                    lemma_columns_keys(entries@, c2);
                    let m = choose|m: int| 0 <= m < entries@.len() && entries@[m].0 == c2;
                    assert(formatted_label(h, entries@[m].0) == best@[i].0@);
                }
            }
            assert forall|c: u32| #[trigger] rv.contains_key(c) implies exists|i: int| 0 <= i < best@.len() && #[trigger] best@[i].0@ == formatted_label(h, c) by {
                lemma_columns_keys(entries@, c);
                let m = choose|m: int| 0 <= m < entries@.len() && entries@[m].0 == c;
                assert(exists|j: int| 0 <= j < best@.len() && #[trigger] best@[j].0@ == formatted_label(h, entries@[m].0));
            }
        }
        let mut out: Vec<(String, String)> = Vec::new();
        let mut j: usize = 0;
        while j < best.len()
            invariant
                j <= best@.len(),
                out@.len() == j,
                forall|m: int| 0 <= m < j ==> #[trigger] out@[m].0@ == best@[m].0@ && out@[m].1@ == rv[best@[m].1],
                forall|a: int, b: int| 0 <= a < b < best@.len() ==> #[trigger] best@[a].0@ != #[trigger] best@[b].0@,
                forall|i: int| 0 <= i < best@.len() ==> #[trigger] rv.contains_key(best@[i].1),
                forall|i: int| 0 <= i < best@.len() ==> top_column(h, rv, best@[i].0@, #[trigger] best@[i].1),
                forall|c: u32| #[trigger] rv.contains_key(c) ==> exists|i: int| 0 <= i < best@.len() && #[trigger] best@[i].0@ == formatted_label(h, c),
                rv == row@,
            decreases best@.len() - j,
        {
            let value = match row.get(best[j].1) {
                Some(t) => t.clone(),
                None => String::new(),
            };
            out.push((best[j].0.clone(), value));
            j = j + 1;
        }
        proof {
            assert(labels_distinct(out@)) by {
                assert forall|a: int, b: int| 0 <= a < b < out@.len() implies #[trigger] out@[a].0@ != #[trigger] out@[b].0@ by {
                    assert(out@[a].0@ == best@[a].0@ && out@[b].0@ == best@[b].0@);
                }
            }
            let f = formatted_row(h, rv);
            assert forall|key: Seq<char>| #[trigger] labels_view(out@).contains_key(key) <==> f.contains_key(key) by {
                if labels_view(out@).contains_key(key) {
                    lemma_labels_keys(out@, key);
                    let i = choose|i: int| 0 <= i < out@.len() && out@[i].0@ == key;
                    assert(out@[i].0@ == best@[i].0@);
                    assert(rv.contains_key(best@[i].1) && formatted_label(h, best@[i].1) == key);
                }
                if f.contains_key(key) {
                    let c = choose|c: u32| #[trigger] rv.contains_key(c) && formatted_label(h, c) == key;
                    let i = choose|i: int| 0 <= i < best@.len() && #[trigger] best@[i].0@ == formatted_label(h, c);
                    assert(out@[i].0@ == key);
                    lemma_labels_at(out@, i);
                }
            }
            assert forall|key: Seq<char>| #[trigger] labels_view(out@).contains_key(key) implies labels_view(out@)[key] == f[key] by {
                lemma_labels_keys(out@, key);
                let i = choose|i: int| 0 <= i < out@.len() && out@[i].0@ == key;
                lemma_labels_at(out@, i);
                assert(out@[i].0@ == best@[i].0@);
                let ci = best@[i].1;
                assert(top_column(h, rv, key, ci));
                let cc = choose|c: u32| top_column(h, rv, key, c);
                assert(top_column(h, rv, key, cc));
                assert(cc <= ci && ci <= cc);
            }
            assert(labels_view(out@) =~= f);
        }
        let sorted = sort_by_label(out);
        proof {
            lemma_sorted_distinct(sorted@);
            lemma_labels_view_perm(sorted@, out@);
        }
        Some(sorted)
    }
}

} // verus!
