//! In-memory aggregate of an SLK file: dimensions (`B` record) and cells
//! (`C` records), in file order.

use vstd::prelude::*;

use crate::slkparser::cell::{Cell, CellView};
use crate::slkparser::error::SLKError;
use crate::slkparser::scanner::{outcome_error, LineOutcome, SLKScanner};
use crate::slkparser::slk_type::{Record, RecordView};

verus! {

/// The abstract content of a document: rows, columns and cells.
pub type DocumentView = (u32, u32, Seq<CellView>);

/// The document that loading the records `outs` into `doc` gives, and the
/// failing record that stopped the load, if any.
pub open spec fn load_records(doc: DocumentView, outs: Seq<(int, LineOutcome)>) -> (
    DocumentView,
    Option<(int, LineOutcome)>,
)
    decreases outs.len(),
{
    if outs.len() == 0 {
        (doc, None)
    } else {
        match outs[0].1 {
            LineOutcome::Rec(RecordView::Info(rows, columns)) => load_records(
                (rows, columns, doc.2),
                outs.drop_first(),
            ),
            LineOutcome::Rec(RecordView::CellContent(c)) => load_records(
                (doc.0, doc.1, doc.2.push(c)),
                outs.drop_first(),
            ),
            LineOutcome::Rec(_) => load_records(doc, outs.drop_first()),
            _ => (doc, Some(outs[0])),
        }
    }
}

/// Contents of a loaded SLK file: dimensions and cells.
#[derive(Debug)]
pub struct Document {
    rows: u32,
    columns: u32,
    contents: Vec<Cell>,
}

impl View for Document {
    type V = DocumentView;

    closed spec fn view(&self) -> DocumentView {
        (self.rows, self.columns, self.contents@.map_values(|c: Cell| c@))
    }
}

impl Default for Document {
    fn default() -> (res: Self)
        ensures
            res@ == (0u32, 0u32, Seq::<CellView>::empty()),
    {
        let res = Document { rows: 0, columns: 0, contents: Vec::new() };
        assert(res@.2 =~= Seq::<CellView>::empty());
        res
    }
}

impl Document {
    /// Loads all records from the scanner. Stops at the first error and
    /// returns it.
    #[verifier::loop_isolation(false)]
    pub fn load(&mut self, scanner: SLKScanner) -> (res: Result<(), SLKError>)
        requires
            scanner.wf(),
        ensures
            final(self)@ == load_records(old(self)@, scanner.remaining()).0,
            match load_records(old(self)@, scanner.remaining()).1 {
                None => res is Ok,
                Some((index, o)) => res matches Err(e) && outcome_error(e, index, o),
            },
    {
        let mut scanner = scanner;
        let ghost all = scanner.remaining();
        let ghost start = self@;
        loop
            invariant
                scanner.wf(),
                load_records(start, all) == load_records(self@, scanner.remaining()),
            decreases scanner.remaining().len(),
        {
            let ghost rest = scanner.remaining();
            let ghost before = self@;
            match scanner.next_record() {
                None => {
                    break ;
                },
                Some(Err(e)) => {
                    return Err(e);
                },
                Some(Ok(record)) => {
                    match record {
                        Record::Info(rows, columns) => {
                            self.rows = rows;
                            self.columns = columns;
                        },
                        Record::CellContent(cell) => {
                            self.contents.push(cell);
                            proof {
                                assert(self@.2 =~= before.2.push(rest[0].1->Rec_0->CellContent_0));
                            }
                        },
                        _ => {},
                    }
                },
            }
        }
        Ok(())
    }

    /// Cells in file order.
    pub fn get_contents(&self) -> (res: &Vec<Cell>)
        ensures
            res@.map_values(|c: Cell| c@) == self@.2,
    {
        &self.contents
    }

    /// Row count announced by the `B` record.
    pub fn row_count(&self) -> (res: u32)
        ensures
            res == self@.0,
    {
        self.rows
    }

    /// Column count announced by the `B` record.
    pub fn column_count(&self) -> (res: u32)
        ensures
            res == self@.1,
    {
        self.columns
    }
}

} // verus!
