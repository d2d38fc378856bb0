//! Scanning of an SLK buffer into records.
//!
//! Records end at `\n`, with an optional `\r` just before, whatever the OS;
//! blank lines are ignored. The scan stops at the `E` record, which is not
//! yielded, or at the end of the buffer: a truncated file without a final
//! `E` is tolerated.

use vstd::prelude::*;

use crate::slkparser::cell::field_label;
use crate::slkparser::error::SLKError;
use crate::slkparser::fields::{split_fields, FieldIter};
use crate::slkparser::slk_type::{
    numeric_error, record_of_fields, record_type_of, Record, RecordType, RecordView,
};
use crate::slkparser::text::utf8_lossy;

verus! {

/// Line feed byte.
pub const LF: u8 = 10u8;
/// Carriage return byte.
pub const CR: u8 = 13u8;

/// Index of the first line feed of `rest` at or after `i`.
pub open spec fn first_lf(rest: Seq<u8>, i: int) -> Option<int>
    decreases rest.len() - i,
{
    if i < 0 || i >= rest.len() {
        None
    } else if rest[i] == LF {
        Some(i)
    } else {
        first_lf(rest, i + 1)
    }
}

/// Length of the line that starts `rest` (line ending excluded) and number
/// of bytes it takes with its ending.
pub open spec fn line_split(rest: Seq<u8>) -> (int, int) {
    match first_lf(rest, 0) {
        Some(nl) => if nl > 0 && rest[nl - 1] == CR {
            (nl - 1, nl + 1)
        } else {
            (nl, nl + 1)
        },
        None => if rest.len() > 0 && rest.last() == CR {
            (rest.len() - 1, rest.len() as int)
        } else {
            (rest.len() as int, rest.len() as int)
        },
    }
}

/// The next non-blank line of `buf` from `pos` on: its start, its length
/// and the position after its ending.
pub open spec fn next_line(buf: Seq<u8>, pos: int) -> Option<(int, int, int)>
    decreases buf.len() - pos,
{
    if pos < 0 || pos >= buf.len() {
        None
    } else {
        let (len, skip) = line_split(buf.skip(pos));
        if len > 0 {
            Some((pos, len, pos + skip))
        } else if 0 < skip && pos + skip <= buf.len() {
            next_line(buf, pos + skip)
        } else {
            None
        }
    }
}

/// What one record line gives.
pub ghost enum LineOutcome {
    /// The `E` record: the scan ends.
    End,
    /// A record.
    Rec(RecordView),
    /// An unknown record type, with its raw RTD.
    BadType(Seq<u8>),
    /// A numeric field that does not parse, in a record of the given type.
    BadNumber(RecordType, Seq<u8>),
}

/// The outcome of the non-empty record line `line`.
pub open spec fn line_outcome(line: Seq<u8>) -> LineOutcome {
    let fs = split_fields(line);
    match record_type_of(fs[0]) {
        None => LineOutcome::BadType(fs[0]),
        Some(t) => if t == RecordType::EOF {
            LineOutcome::End
        } else {
            match record_of_fields(t, fs.drop_first()) {
                Ok(rv) => LineOutcome::Rec(rv),
                Err(f) => LineOutcome::BadNumber(t, f),
            }
        },
    }
}

/// The records (with their 1-based index) that a scan of `buf` yields from
/// position `pos` on, `index` records having been read before.
pub open spec fn records_from(buf: Seq<u8>, pos: int, index: int) -> Seq<(int, LineOutcome)>
    decreases buf.len() - pos,
{
    match next_line(buf, pos) {
        None => Seq::empty(),
        Some((s, l, np)) => {
            let o = line_outcome(buf.subrange(s, s + l));
            if o is End {
                Seq::empty()
            } else if pos < np <= buf.len() {
                seq![(index + 1, o)] + records_from(buf, np, index + 1)
            } else {
                seq![(index + 1, o)]
            }
        },
    }
}

/// Whether `res` is what the scan yields for the outcome `o` of record number `index`.
pub open spec fn outcome_matches(res: Result<Record, SLKError>, index: int, o: LineOutcome) -> bool {
    match o {
        LineOutcome::Rec(rv) => res matches Ok(r) && r@ == rv,
        LineOutcome::BadType(id) => res matches Err(e) && outcome_error(e, index, o),
        LineOutcome::BadNumber(_, _) => res matches Err(e) && outcome_error(e, index, o),
        LineOutcome::End => false,
    }
}

/// Whether `e` is the error that the failing outcome `o` of record number `index` raises.
pub open spec fn outcome_error(e: SLKError, index: int, o: LineOutcome) -> bool {
    match o {
        LineOutcome::BadType(id) => e matches SLKError::InvalidType { record_index, record_type }
            && record_index == index && record_type@ == utf8_lossy(id),
        LineOutcome::BadNumber(t, f) => numeric_error(
            e,
            f.skip(1),
            t,
            field_label(f[0]),
            index as usize,
        ),
        _ => false,
    }
}

/// Bounds of the line that `line_split` finds.
pub proof fn lemma_first_lf(rest: Seq<u8>, i: int)
    requires
        0 <= i,
    ensures
        first_lf(rest, i) matches Some(k) ==> i <= k < rest.len() && rest[k] == LF,
    decreases rest.len() - i,
{
    if i < rest.len() && rest[i] != LF {
        lemma_first_lf(rest, i + 1);
    }
}

/// A line found from `pos` lies within the buffer and is followed by the next position.
pub proof fn lemma_next_line(buf: Seq<u8>, pos: int)
    ensures
        next_line(buf, pos) matches Some((s, l, np)) ==> 0 <= pos <= s && 0 < l && s + l < np + 1
            && np <= buf.len(),
    decreases buf.len() - pos,
{
    if 0 <= pos < buf.len() {
        let rest = buf.skip(pos);
        lemma_first_lf(rest, 0);
        let (len, skip) = line_split(rest);
        if len <= 0 && 0 < skip && pos + skip <= buf.len() {
            lemma_next_line(buf, pos + skip);
        }
    }
}

/// The non-blank lines of `buf` from `pos` on, their endings excluded.
pub open spec fn nonblank_lines(buf: Seq<u8>, pos: int) -> Seq<Seq<u8>>
    decreases buf.len() - pos,
{
    match next_line(buf, pos) {
        None => Seq::empty(),
        Some((s, l, np)) => if pos < np <= buf.len() {
            seq![buf.subrange(s, s + l)] + nonblank_lines(buf, np)
        } else {
            seq![buf.subrange(s, s + l)]
        },
    }
}

#[verifier::spinoff_prover]
proof fn lemma_records_lines(buf: Seq<u8>, pos: int, index: int)
    ensures
        ({
            let rs = records_from(buf, pos, index);
            let ls = nonblank_lines(buf, pos);
            &&& rs.len() <= ls.len()
            &&& forall|k: int| 0 <= k < ls.len() ==> (#[trigger] ls[k]).len() > 0
            &&& forall|k: int|
                0 <= k < rs.len() ==> (#[trigger] rs[k]).0 == index + k + 1 && rs[k].1 == line_outcome(ls[k])
                    && !(line_outcome(ls[k]) is End)
            &&& rs.len() < ls.len() ==> line_outcome(ls[rs.len() as int]) is End
        }),
    decreases buf.len() - pos,
{
    lemma_next_line(buf, pos);
    match next_line(buf, pos) {
        None => {},
        Some((st, l, np)) => {
            let line = buf.subrange(st, st + l);
            let ls = nonblank_lines(buf, pos);
            let rs = records_from(buf, pos, index);
            assert(pos < np <= buf.len());
            if pos < np <= buf.len() {
                lemma_records_lines(buf, np, index + 1);
                let ls2 = nonblank_lines(buf, np);
                let rs2 = records_from(buf, np, index + 1);
                assert(ls == seq![line] + ls2);
                assert(ls[0] == line);
                assert forall|k: int| 0 <= k < ls.len() implies (#[trigger] ls[k]).len() > 0 by {
                    if k > 0 {
                        assert(ls[k] == ls2[k - 1]);
                    }
                }
                if !(line_outcome(line) is End) {
                    assert(rs == seq![(index + 1, line_outcome(line))] + rs2);
                    assert forall|k: int| 0 <= k < rs.len() implies (#[trigger] rs[k]).0 == index + k + 1 && rs[k].1
                        == line_outcome(ls[k]) && !(line_outcome(ls[k]) is End) by {
                        if k > 0 {
                            assert(rs[k] == rs2[k - 1]);
                            assert(ls[k] == ls2[k - 1]);
                        }
                    }
                    if rs.len() < ls.len() {
                        assert(ls[rs.len() as int] == ls2[rs2.len() as int]);
                    }
                }
            }
        },
    }
}

/// A scan of `buf` yields one item for each non-blank line (a line ends at
/// LF, a CR just before it dropped), in order and numbered from one, up to
/// the first `E` record, which ends it; no item is the end record itself.
pub proof fn law_scan_one_item_per_line(buf: Seq<u8>)
    ensures
        ({
            let rs = records_from(buf, 0, 0);
            let ls = nonblank_lines(buf, 0);
            &&& rs.len() <= ls.len()
            &&& forall|k: int| 0 <= k < ls.len() ==> (#[trigger] ls[k]).len() > 0
            &&& forall|k: int|
                0 <= k < rs.len() ==> (#[trigger] rs[k]).0 == k + 1 && rs[k].1 == line_outcome(ls[k]) && !(
                    line_outcome(ls[k]) is End)
            &&& rs.len() < ls.len() ==> line_outcome(ls[rs.len() as int]) is End
        }),
{
    lemma_records_lines(buf, 0, 0);
}

/// Scanner of an SLK buffer: yields fallible records.
pub struct SLKScanner {
    buffer: Vec<u8>,
    pos: usize,
    record_index: usize,
    finished: bool,
}

impl SLKScanner {
    /// The scanned bytes.
    pub closed spec fn buffer(&self) -> Seq<u8> {
        self.buffer@
    }

    /// Internal consistency: the position stays in the buffer and the record
    /// count never passes it.
    pub closed spec fn wf(&self) -> bool {
        &&& self.pos <= self.buffer@.len()
        &&& self.record_index <= self.pos
    }

    /// The records still to be yielded, with their 1-based index.
    pub closed spec fn remaining(&self) -> Seq<(int, LineOutcome)> {
        if self.finished {
            Seq::empty()
        } else {
            records_from(self.buffer@, self.pos as int, self.record_index as int)
        }
    }

    /// Scanner over an in-memory buffer.
    pub fn from_bytes(buffer: Vec<u8>) -> (res: Self)
        ensures
            res.wf(),
            res.buffer() == buffer@,
            res.remaining() == records_from(buffer@, 0, 0),
    {
        SLKScanner { buffer, pos: 0, record_index: 0, finished: false }
    }

    /// Bounds `(start, length)` of the next non-blank line, line ending
    /// excluded.
    fn next_line_bounds(&mut self) -> (res: Option<(usize, usize)>)
        requires
            old(self).wf(),
        ensures
            final(self).buffer == old(self).buffer,
            final(self).record_index == old(self).record_index,
            final(self).finished == old(self).finished,
            final(self).pos <= final(self).buffer@.len(),
            final(self).pos >= old(self).pos,
            match next_line(old(self).buffer@, old(self).pos as int) {
                Some((s, l, np)) => res == Some((s as usize, l as usize)) && final(self).pos == np,
                None => res is None && final(self).pos == final(self).buffer@.len(),
            },
    {
        proof {
            lemma_next_line(self.buffer@, self.pos as int);
        }
        while self.pos < self.buffer.len()
            invariant
                self.pos <= self.buffer@.len(),
                self.pos >= old(self).pos,
                self.buffer == old(self).buffer,
                self.record_index == old(self).record_index,
                self.finished == old(self).finished,
                next_line(self.buffer@, self.pos as int) == next_line(
                    old(self).buffer@,
                    old(self).pos as int,
                ),
            decreases self.buffer@.len() - self.pos,
        {
            let start = self.pos;
            let len = self.buffer.len();
            let ghost rest = self.buffer@.skip(start as int);
            let mut j = start;
            while j < len && self.buffer[j] != LF
                invariant
                    start <= j <= len,
                    len == self.buffer@.len(),
                    rest == self.buffer@.skip(start as int),
                    first_lf(rest, 0) == first_lf(rest, j - start),
                decreases len - j,
            {
                j = j + 1;
            }
            let (line_len, skip) = if j < len {
                let nl = j - start;
                if nl > 0 && self.buffer[j - 1] == CR {
                    (nl - 1, nl + 1)
                } else {
                    (nl, nl + 1)
                }
            } else if len - start > 0 && self.buffer[len - 1] == CR {
                (len - start - 1, len - start)
            } else {
                (len - start, len - start)
            };
            proof {
                assert(first_lf(rest, j - start) == if j < len {
                    Some(j - start)
                } else {
                    None::<int>
                });
                assert(line_split(rest) == (line_len as int, skip as int));
                lemma_next_line(self.buffer@, start as int);
            }
            self.pos = start + skip;
            if line_len > 0 {
                return Some((start, line_len));
            }
        }
        None
    }

    /// Yields the next record, or `None` once the `E` record or the end of
    /// the buffer is reached.
    pub fn next_record(&mut self) -> (res: Option<Result<Record, SLKError>>)
        requires
            old(self).wf(),
        ensures
            final(self).wf(),
            final(self).buffer() == old(self).buffer(),
            old(self).remaining().len() == 0 ==> res is None && final(self).remaining().len() == 0,
            old(self).remaining().len() > 0 ==> {
                &&& res matches Some(r)
                &&& outcome_matches(r, old(self).remaining()[0].0, old(self).remaining()[0].1)
                &&& final(self).remaining() == old(self).remaining().drop_first()
            },
    {
        if self.finished {
            return None;
        }
        let ghost old_pos = self.pos as int;
        let ghost old_index = self.record_index as int;
        proof {
            lemma_next_line(self.buffer@, old_pos);
        }
        let (start, len) = match self.next_line_bounds() {
            Some(b) => b,
            None => {
                return None;
            },
        };
        self.record_index = self.record_index + 1;
        let line = &self.buffer[start..start + len];
        let mut fields = FieldIter::new(line);
        let ghost fs = split_fields(line@);
        let type_field = match fields.next() {
            Some(f) => f,
            None => {
                return None;
            },
        };
        let record_type = match RecordType::from_bytes(type_field.as_slice(), self.record_index) {
            Ok(record_type) => record_type,
            Err(e) => {
                return Some(Err(e));
            },
        };
        if record_type == RecordType::EOF {
            self.finished = true;
            return None;
        }
        Some(Record::from_fields(record_type, fields, self.record_index))
    }

    /// Scans every remaining record, in order.
    #[verifier::loop_isolation(false)]
    pub fn records(self) -> (res: Vec<Result<Record, SLKError>>)
        requires
            self.wf(),
        ensures
            res@.len() == self.remaining().len(),
            forall|k: int|
                0 <= k < res@.len() ==> outcome_matches(
                    #[trigger] res@[k],
                    self.remaining()[k].0,
                    self.remaining()[k].1,
                ),
    {
        let mut scanner = self;
        let ghost all = scanner.remaining();
        let mut out: Vec<Result<Record, SLKError>> = Vec::new();
        loop
            invariant
                scanner.wf(),
                out@.len() + scanner.remaining().len() == all.len(),
                scanner.remaining() == all.skip(out@.len() as int),
                forall|k: int|
                    0 <= k < out@.len() ==> outcome_matches(#[trigger] out@[k], all[k].0, all[k].1),
            decreases scanner.remaining().len(),
        {
            match scanner.next_record() {
                Some(r) => {
                    out.push(r);
                },
                None => {
                    break ;
                },
            }
        }
        out
    }
}

} // verus!
