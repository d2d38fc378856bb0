//! Splitting of an SLK record line into fields.
//!
//! `;` separates fields and `;;` encodes a literal `;` inside a field, so a
//! truly empty field can only stand at the end of a line (`...;`).

use vstd::prelude::*;

verus! {

/// The field separator byte.
pub const SEPARATOR: u8 = 59u8;

/// Scans one field of `line` starting at byte `i`: returns the unescaped
/// content and, when a separator ended the field, the position just after it.
pub open spec fn scan_field(line: Seq<u8>, i: int) -> (Seq<u8>, Option<int>)
    decreases line.len() - i,
{
    if i < 0 || i >= line.len() {
        (Seq::empty(), None)
    } else if line[i] == SEPARATOR {
        if i + 1 < line.len() && line[i + 1] == SEPARATOR {
            let r = scan_field(line, i + 2);
            (seq![SEPARATOR] + r.0, r.1)
        } else {
            (Seq::empty(), Some(i + 1))
        }
    } else {
        let r = scan_field(line, i + 1);
        (seq![line[i]] + r.0, r.1)
    }
}

/// All fields of `line` from byte `pos` on.
pub open spec fn fields_from(line: Seq<u8>, pos: int) -> Seq<Seq<u8>>
    decreases line.len() - pos,
{
    let r = scan_field(line, pos);
    match r.1 {
        Some(p) => if pos < p <= line.len() {
            seq![r.0] + fields_from(line, p)
        } else {
            seq![r.0]
        },
        None => seq![r.0],
    }
}

/// The fields of a whole record line (line ending excluded); an empty line
/// has no field.
pub open spec fn split_fields(line: Seq<u8>) -> Seq<Seq<u8>> {
    if line.len() == 0 {
        Seq::empty()
    } else {
        fields_from(line, 0)
    }
}

/// Whether the field of `line` starting at byte `i` holds an escaped `;;`.
pub open spec fn field_escaped(line: Seq<u8>, i: int) -> bool
    decreases line.len() - i,
{
    if i < 0 || i >= line.len() {
        false
    } else if line[i] == SEPARATOR {
        i + 1 < line.len() && line[i + 1] == SEPARATOR
    } else {
        field_escaped(line, i + 1)
    }
}

/// A separator that ends a field sits strictly after its start, within the line.
pub proof fn lemma_scan_field_next(line: Seq<u8>, i: int)
    requires
        0 <= i,
    ensures
        scan_field(line, i).1 matches Some(p) ==> i < p <= line.len(),
    decreases line.len() - i,
{
    if i < line.len() {
        if line[i] == SEPARATOR {
            if i + 1 < line.len() && line[i + 1] == SEPARATOR {
                lemma_scan_field_next(line, i + 2);
            }
        } else {
            lemma_scan_field_next(line, i + 1);
        }
    }
}

/// Field `f` as a line stores it: each `;` doubled.
pub open spec fn escape_field(f: Seq<u8>) -> Seq<u8>
    decreases f.len(),
{
    if f.len() == 0 {
        Seq::empty()
    } else {
        (if f[0] == SEPARATOR {
            seq![SEPARATOR, SEPARATOR]
        } else {
            seq![f[0]]
        }) + escape_field(f.drop_first())
    }
}

/// The line that stores the fields `fs`: each escaped, joined by `;`.
pub open spec fn join_fields(fs: Seq<Seq<u8>>) -> Seq<u8>
    decreases fs.len(),
{
    if fs.len() == 0 {
        Seq::empty()
    } else if fs.len() == 1 {
        escape_field(fs[0])
    } else {
        escape_field(fs[0]) + seq![SEPARATOR] + join_fields(fs.drop_first())
    }
}

proof fn lemma_scan_join(line: Seq<u8>, i: int)
    requires
        0 <= i <= line.len(),
    ensures
        scan_field(line, i).1 matches Some(p) ==> escape_field(scan_field(line, i).0) + seq![SEPARATOR]
            == line.subrange(i, p),
        scan_field(line, i).1 is None ==> escape_field(scan_field(line, i).0) == line.subrange(
            i,
            line.len() as int,
        ),
    decreases line.len() - i,
{
    lemma_scan_field_next(line, i);
    if i == line.len() {
        assert(line.subrange(i, i) =~= Seq::<u8>::empty());
    } else if line[i] == SEPARATOR {
        if i + 1 < line.len() && line[i + 1] == SEPARATOR {
            lemma_scan_join(line, i + 2);
            let r = scan_field(line, i + 2);
            let c = seq![SEPARATOR] + r.0;
            assert(c[0] == SEPARATOR);
            assert(c.drop_first() =~= r.0);
            lemma_scan_field_next(line, i + 2);
            match r.1 {
                Some(p) => {
                    assert(line.subrange(i, p) =~= seq![SEPARATOR, SEPARATOR] + line.subrange(i + 2, p));
                },
                None => {
                    assert(line.subrange(i, line.len() as int) =~= seq![SEPARATOR, SEPARATOR] + line.subrange(
                        i + 2,
                        line.len() as int,
                    ));
                },
            }
        } else {
            assert(escape_field(Seq::<u8>::empty()) + seq![SEPARATOR] =~= line.subrange(i, i + 1));
        }
    } else {
        lemma_scan_join(line, i + 1);
        let r = scan_field(line, i + 1);
        let c = seq![line[i]] + r.0;
        assert(c[0] == line[i]);
        assert(c.drop_first() =~= r.0);
        lemma_scan_field_next(line, i + 1);
        match r.1 {
            Some(p) => {
                assert(line.subrange(i, p) =~= seq![line[i]] + line.subrange(i + 1, p));
            },
            None => {
                assert(line.subrange(i, line.len() as int) =~= seq![line[i]] + line.subrange(
                    i + 1,
                    line.len() as int,
                ));
            },
        }
    }
}

proof fn lemma_fields_join(line: Seq<u8>, pos: int)
    requires
        0 <= pos <= line.len(),
    ensures
        fields_from(line, pos).len() > 0,
        join_fields(fields_from(line, pos)) == line.subrange(pos, line.len() as int),
    decreases line.len() - pos,
{
    lemma_scan_join(line, pos);
    lemma_scan_field_next(line, pos);
    let r = scan_field(line, pos);
    match r.1 {
        Some(p) => {
            lemma_fields_join(line, p);
            let fs = fields_from(line, pos);
            let rest = fields_from(line, p);
            assert(fs == seq![r.0] + rest);
            assert(fs[0] == r.0);
            assert(fs.drop_first() =~= rest);
            assert(line.subrange(pos, line.len() as int) =~= line.subrange(pos, p) + line.subrange(
                p,
                line.len() as int,
            ));
        },
        None => {},
    }
}

/// Splitting a line into fields and joining them back, each with its `;`
/// doubled, gives the line again; a line has fields exactly when it is not
/// empty.
pub proof fn law_fields_split_join(line: Seq<u8>)
    ensures
        join_fields(split_fields(line)) == line,
        (split_fields(line).len() == 0) == (line.len() == 0),
{
    if line.len() == 0 {
        assert(join_fields(split_fields(line)) =~= line);
    } else {
        lemma_fields_join(line, 0);
        assert(line.subrange(0, line.len() as int) =~= line);
    }
}

/// A field of a record line: borrowed from the line when it holds no escape,
/// owned (unescaped copy) otherwise.
pub enum FieldBytes<'a> {
    Borrowed(&'a [u8]),
    Owned(Vec<u8>),
}

impl<'a> FieldBytes<'a> {
    /// The bytes of the field.
    pub open spec fn bytes(&self) -> Seq<u8> {
        match self {
            FieldBytes::Borrowed(s) => s@,
            FieldBytes::Owned(v) => v@,
        }
    }

    /// The bytes of the field, borrowed.
    pub fn as_slice(&self) -> (res: &[u8])
        ensures
            res@ == self.bytes(),
    {
        match self {
            FieldBytes::Borrowed(s) => s,
            FieldBytes::Owned(v) => v.as_slice(),
        }
    }

    /// The bytes of the field, copied into an owned vector.
    pub fn into_owned(self) -> (res: Vec<u8>)
        ensures
            res@ == self.bytes(),
    {
        match self {
            FieldBytes::Borrowed(s) => copy_bytes(s),
            FieldBytes::Owned(v) => v,
        }
    }
}

/// Copies a byte slice into a new vector.
pub fn copy_bytes(s: &[u8]) -> (res: Vec<u8>)
    ensures
        res@ == s@,
{
    let mut v: Vec<u8> = Vec::with_capacity(s.len());
    let mut k: usize = 0;
    while k < s.len()
        invariant
            k <= s@.len(),
            v@ == s@.subrange(0, k as int),
        decreases s@.len() - k,
    {
        v.push(s[k]);
        k = k + 1;
        assert(v@ == s@.subrange(0, k as int));
    }
    v
}

/// The content gathered so far for the field being scanned from `start` to `i`.
pub open spec fn pending(unescaped: Option<Vec<u8>>, line: Seq<u8>, start: int, i: int) -> Seq<u8> {
    match unescaped {
        Some(buf) => buf@,
        None => line.subrange(start, i),
    }
}

/// Iterator over the fields of a record line (line ending excluded), with
/// `;;` unescaped into `;`.
pub struct FieldIter<'a> {
    line: &'a [u8],
    pos: usize,
    done: bool,
}

impl<'a> FieldIter<'a> {
    /// The line being split.
    pub closed spec fn line(&self) -> Seq<u8> {
        self.line@
    }

    /// The byte position where the next field starts.
    pub closed spec fn position(&self) -> int {
        self.pos as int
    }

    /// Internal consistency: the position never passes the end of the line.
    pub closed spec fn wf(&self) -> bool {
        self.pos <= self.line@.len()
    }

    /// The fields still to be yielded, in order.
    pub closed spec fn remaining(&self) -> Seq<Seq<u8>> {
        if self.done {
            Seq::empty()
        } else {
            fields_from(self.line@, self.pos as int)
        }
    }

    /// Prepares the iteration over the fields of `line`.
    pub fn new(line: &'a [u8]) -> (res: Self)
        ensures
            res.wf(),
            res.line() == line@,
            res.remaining() == split_fields(line@),
    {
        FieldIter { line, pos: 0, done: line.len() == 0 }
    }

    /// Yields the next field, or `None` when every field was yielded.
    pub fn next(&mut self) -> (res: Option<FieldBytes<'a>>)
        requires
            old(self).wf(),
        ensures
            final(self).wf(),
            final(self).line() == old(self).line(),
            old(self).remaining().len() == 0 ==> res is None && final(self).remaining() == old(
                self,
            ).remaining(),
            old(self).remaining().len() > 0 ==> {
                &&& res matches Some(f)
                &&& f.bytes() == old(self).remaining()[0]
                &&& (f is Borrowed <==> !field_escaped(old(self).line(), old(self).position()))
                &&& final(self).remaining() == old(self).remaining().drop_first()
            },
    {
        if self.done {
            return None;
        }
        let start = self.pos;
        let mut unescaped: Option<Vec<u8>> = None;
        let mut i = start;
        proof {
            lemma_scan_field_next(self.line@, start as int);
        }
        while i < self.line.len()
            invariant
                start <= i <= self.line@.len(),
                start == self.pos,
                self.line == old(self).line,
                self.pos == old(self).pos,
                self.done == old(self).done,
                !self.done,
                self.pos <= self.line@.len(),
                unescaped is None ==> field_escaped(self.line@, start as int) == field_escaped(
                    self.line@,
                    i as int,
                ),
                unescaped is Some ==> field_escaped(self.line@, start as int),
                ({
                    let acc = pending(unescaped, self.line@, start as int, i as int);
                    let here = scan_field(self.line@, i as int);
                    scan_field(self.line@, start as int) == (acc + here.0, here.1)
                }),
            decreases self.line@.len() - i,
        {
            let ghost here = scan_field(self.line@, i as int);
            let ghost acc = pending(unescaped, self.line@, start as int, i as int);
            if self.line[i] == SEPARATOR {
                if i + 1 < self.line.len() && self.line[i + 1] == SEPARATOR {
                    let mut buf = match unescaped {
                        Some(b) => b,
                        None => copy_bytes(&self.line[start..i]),
                    };
                    buf.push(SEPARATOR);
                    proof {
                        let next = scan_field(self.line@, i + 2);
                        assert(here == (seq![SEPARATOR] + next.0, next.1));
                        assert(acc + here.0 == buf@ + next.0);
                    }
                    unescaped = Some(buf);
                    i = i + 2;
                    continue;
                }
                self.pos = i + 1;
                proof {
                    assert(here == (Seq::<u8>::empty(), Some(i + 1)));
                    assert(acc + here.0 == acc);
                    lemma_scan_field_next(self.line@, (i + 1) as int);
                    assert(scan_field(self.line@, start as int) == (acc, Some(i + 1)));
                    assert(old(self).remaining() == seq![acc] + fields_from(self.line@, i + 1));
                    assert(old(self).remaining().drop_first() =~= fields_from(self.line@, i + 1));
                }
                return Some(
                    match unescaped {
                        Some(buf) => FieldBytes::Owned(buf),
                        None => FieldBytes::Borrowed(&self.line[start..i]),
                    },
                );
            }
            let ghost next = scan_field(self.line@, i + 1);
            match unescaped {
                Some(mut buf) => {
                    buf.push(self.line[i]);
                    proof {
                        assert(acc + here.0 == buf@ + next.0);
                    }
                    unescaped = Some(buf);
                },
                None => {
                    proof {
                        assert(self.line@.subrange(start as int, i + 1) == acc + seq![self.line@[i as int]]);
                        assert(acc + here.0 == self.line@.subrange(start as int, i + 1) + next.0);
                    }
                },
            }
            i = i + 1;
        }
        self.done = true;
        proof {
            let acc = pending(unescaped, self.line@, start as int, i as int);
            assert(acc + Seq::<u8>::empty() == acc);
            assert(scan_field(self.line@, start as int) == (acc, None::<int>));
            assert(old(self).remaining() == seq![acc]);
        }
        Some(
            match unescaped {
                Some(buf) => FieldBytes::Owned(buf),
                None => FieldBytes::Borrowed(&self.line[start..self.line.len()]),
            },
        )
    }

    /// Yields every remaining field, in order: on a fresh iteration, the
    /// fields of the whole line (see [`split_fields`]).
    #[verifier::loop_isolation(false)]
    pub fn fields(self) -> (res: Vec<FieldBytes<'a>>)
        requires
            self.wf(),
        ensures
            res@.len() == self.remaining().len(),
            forall|k: int| 0 <= k < res@.len() ==> #[trigger] res@[k].bytes() == self.remaining()[k],
    {
        let mut iter = self;
        let ghost all = iter.remaining();
        let mut out: Vec<FieldBytes<'a>> = Vec::new();
        loop
            invariant
                iter.wf(),
                out@.len() + iter.remaining().len() == all.len(),
                iter.remaining() == all.skip(out@.len() as int),
                forall|k: int| 0 <= k < out@.len() ==> #[trigger] out@[k].bytes() == all[k],
            decreases iter.remaining().len(),
        {
            match iter.next() {
                Some(f) => {
                    out.push(f);
                },
                None => {
                    break ;
                },
            }
        }
        out
    }
}

} // verus!
