//! Map strings (`war3map.wts`): texts of the map referred to by number.
//!
//! The file is a list of entries `STRING <number> ... { <text> }`. They are
//! found as the regular expression
//! `STRING\s+([0-9]+)\s*.*\s+\{\s*([^\}]*)\s*\}` finds them, leftmost first,
//! each search starting after the previous entry; the text is trimmed.
//!
//! The strings are held as a vector of `(number, text)` pairs whose numbers
//! are distinct, and contracts speak of its view as a map. vstd gives std's
//! `HashMap` a key model for integer and `bool` keys only; with the `String`
//! keys of the file nothing could be proved of a lookup without an
//! assumption.

use vstd::prelude::*;
use vstd::utf8::{decode_utf8, encode_utf8, valid_utf8};

use crate::formats::binary_reader::BinaryReader;
use crate::formats::binary_writer::{lemma_write_at_concat, write_at, BinaryWriter};
use crate::formats::{MpqError, ReadError, WriteError};
use crate::map::chars::{chars_of, is_white_space, string_of, white_space};
use crate::map::data_ini::{find_char, find_char_of, trimmed_end, trimmed_end_of, white_end, white_end_of};
use crate::map::error::MapError;
use crate::map::slk_datas::{lemma_trimmed_end, lemma_white_end};

verus! {

/// Errors of the map strings file.
#[derive(Debug)]
pub enum MapStringError {
    MpqError(MpqError),
    InitReader(ReadError),
    Parsing(ReadError),
    CaptureId,
    CaptureContent,
    SaveError(WriteError),
}

/// The end of the run of ASCII digits that starts at `i` in `t`.
pub open spec fn digit_end(t: Seq<char>, i: int) -> int
    decreases t.len() - i,
{
    if 0 <= i < t.len() && '0' <= t[i] <= '9' {
        digit_end(t, i + 1)
    } else {
        i
    }
}

/// Whether the word `STRING` stands at `s` in `t`.
pub open spec fn keyword_at(t: Seq<char>, s: int) -> bool {
    &&& 0 <= s && s + 6 <= t.len()
    &&& t[s] == 'S' && t[s + 1] == 'T' && t[s + 2] == 'R'
    &&& t[s + 3] == 'I' && t[s + 4] == 'N' && t[s + 5] == 'G'
}

/// The `{` reached by the white space run that starts at `q`, when a `}`
/// follows it somewhere.
pub open spec fn brace_after(t: Seq<char>, q: int) -> Option<int> {
    if 0 <= q < t.len() && is_white_space(t[q]) {
        let b = white_end(t, q);
        if b < t.len() && t[b] == '{' && find_char(t, '}', b + 1) < t.len() {
            Some(b)
        } else {
            None
        }
    } else {
        None
    }
}

/// The `{` of the white space run starting nearest to `q` at or before it,
/// and not before `a`.
pub open spec fn brace_from_line(t: Seq<char>, a: int, q: int) -> Option<int>
    decreases q - a + 1,
{
    if q < a {
        None
    } else {
        match brace_after(t, q) {
            Some(b) => Some(b),
            None => brace_from_line(t, a, q - 1),
        }
    }
}

/// The `{` that opens the text of an entry whose number ends at `e`: the
/// free part of the line starts at `a` at the latest (after the white space
/// that follows the number) and at `e` at the earliest; it runs to the end
/// of its line, and the latest white space run in it that leads to a `{`
/// wins.
pub open spec fn brace_from(t: Seq<char>, e: int, a: int) -> Option<int>
    decreases a - e + 1,
{
    if a < e {
        None
    } else {
        match brace_from_line(t, a, find_char(t, '\n', a)) {
            Some(b) => Some(b),
            None => brace_from(t, e, a - 1),
        }
    }
}

/// The entry whose `STRING` stands at `s`: where its number starts and
/// ends, its `{` and its `}`.
pub open spec fn entry_at(t: Seq<char>, s: int) -> Option<(int, int, int, int)> {
    if keyword_at(t, s) {
        let w = white_end(t, s + 6);
        let d = digit_end(t, w);
        if w > s + 6 && d > w {
            match brace_from(t, d, white_end(t, d)) {
                Some(b) => Some((w, d, b, find_char(t, '}', b + 1))),
                None => None,
            }
        } else {
            None
        }
    } else {
        None
    }
}

/// No `c` stands between `i` and the first `c` from `i` on.
proof fn lemma_find_char_first(t: Seq<char>, c: char, i: int, k: int)
    requires
        0 <= i <= k < find_char(t, c, i),
    ensures
        t[k] != c,
    decreases k - i,
{
    if i < k {
        lemma_find_char_first(t, c, i + 1, k);
    }
}

/// The digits from `i` on end at `digit_end`.
proof fn lemma_digit_end(t: Seq<char>, i: int)
    requires
        0 <= i <= t.len(),
    ensures
        i <= digit_end(t, i) <= t.len(),
        forall|k: int| i <= k < digit_end(t, i) ==> '0' <= #[trigger] t[k] <= '9',
    decreases t.len() - i,
{
    if i < t.len() && '0' <= t[i] <= '9' {
        lemma_digit_end(t, i + 1);
    }
}

/// An entry of the strings file is the word `STRING`, white space, the
/// number (digits), then, further on, a `{` and the next `}`; its text is
/// what stands between them, without the white space that starts and ends
/// it.
pub proof fn law_map_string_entry(t: Seq<char>, s: int)
    ensures
        entry_at(t, s) matches Some((w, d, b, c)) ==> {
            let (number, text) = entry_text(t, (w, d, b, c));
            &&& keyword_at(t, s)
            &&& s + 6 < w < d <= b < c < t.len()
            &&& forall|k: int| s + 6 <= k < w ==> is_white_space(#[trigger] t[k])
            &&& number == t.subrange(w, d)
            &&& forall|k: int| 0 <= k < number.len() ==> '0' <= #[trigger] number[k] <= '9'
            &&& t[b] == '{' && t[c] == '}'
            &&& forall|k: int| b < k < c ==> #[trigger] t[k] != '}'
            &&& exists|i: int|
                #![trigger t.subrange(b + 1, i)]
                b < i && i + text.len() <= c && t.subrange(i, i + text.len()) == text && (forall|k: int|
                    b < k < i ==> is_white_space(#[trigger] t[k])) && (forall|k: int|
                    i + text.len() <= k < c ==> is_white_space(#[trigger] t[k])) && (text.len() > 0
                    ==> !is_white_space(text[0]) && !is_white_space(text[text.len() - 1]))
        },
{
    if let Some((w, d, b, c)) = entry_at(t, s) {
        lemma_white_end(t, s + 6);
        lemma_digit_end(t, w);
        lemma_white_end_ge(t, d);
        let a = white_end(t, d);
        lemma_brace_from_ge(t, d, a);
        lemma_find_char_ge(t, '}', b + 1);
        assert forall|k: int| b < k < c implies #[trigger] t[k] != '}' by {
            lemma_find_char_first(t, '}', b + 1, k);
        }
        let number = t.subrange(w, d);
        assert forall|k: int| 0 <= k < number.len() implies '0' <= #[trigger] number[k] <= '9' by {
            assert(number[k] == t[w + k]);
        }
        lemma_white_end(t, b + 1);
        let i = white_end(t, b + 1);
        assert(i <= c) by {
            lemma_white_end_le(t, b + 1, c);
        }
        lemma_trimmed_end(t, i, c);
        let e = trimmed_end(t, i, c);
        let text = entry_text(t, (w, d, b, c)).1;
        assert(text == t.subrange(i, e));
        assert(t.subrange(i, i + text.len()) =~= text);
        assert(t.subrange(b + 1, i) == t.subrange(b + 1, i));
    }
}

/// The first entry that starts at or after `s`, with its start.
pub open spec fn next_entry(t: Seq<char>, s: int) -> Option<(int, (int, int, int, int))>
    decreases t.len() - s,
{
    if s < 0 || s >= t.len() {
        None
    } else {
        match entry_at(t, s) {
            Some(e) => Some((s, e)),
            None => next_entry(t, s + 1),
        }
    }
}

/// The number and the trimmed text of the entry `e`.
pub open spec fn entry_text(t: Seq<char>, e: (int, int, int, int)) -> (Seq<char>, Seq<char>) {
    let w = white_end(t, e.2 + 1);
    (t.subrange(e.0, e.1), t.subrange(w, trimmed_end(t, w, e.3)))
}

proof fn lemma_white_end_ge(t: Seq<char>, i: int)
    ensures
        white_end(t, i) >= i,
        0 <= i ==> white_end(t, i) <= t.len() || white_end(t, i) == i,
        white_end(t, i) > i ==> is_white_space(t[i]) && 0 <= i < t.len() && white_end(t, i) <= t.len(),
    decreases t.len() - i,
{
    if 0 <= i < t.len() && is_white_space(t[i]) {
        lemma_white_end_ge(t, i + 1);
    }
}

proof fn lemma_white_end_le(t: Seq<char>, i: int, j: int)
    requires
        i <= j <= t.len(),
        j < t.len() ==> !is_white_space(t[j]),
    ensures
        white_end(t, i) <= j,
    decreases j - i,
{
    if i < j && 0 <= i && is_white_space(t[i]) {
        lemma_white_end_le(t, i + 1, j);
    }
}

proof fn lemma_find_char_ge(t: Seq<char>, c: char, i: int)
    ensures
        0 <= i ==> i <= find_char(t, c, i) <= t.len() || i > t.len(),
        find_char(t, c, i) < t.len() ==> t[find_char(t, c, i)] == c && find_char(t, c, i) >= i,
    decreases t.len() - i,
{
    if 0 <= i < t.len() && t[i] != c {
        lemma_find_char_ge(t, c, i + 1);
    }
}

proof fn lemma_brace_line_ge(t: Seq<char>, a: int, q: int)
    ensures
        brace_from_line(t, a, q) matches Some(b) ==> b >= a && b < t.len() && t[b] == '{'
            && find_char(t, '}', b + 1) < t.len(),
    decreases q - a + 1,
{
    if q >= a {
        lemma_white_end_ge(t, q);
        if brace_after(t, q) is None {
            lemma_brace_line_ge(t, a, q - 1);
        }
    }
}

proof fn lemma_brace_from_ge(t: Seq<char>, e: int, a: int)
    ensures
        brace_from(t, e, a) matches Some(b) ==> b >= e && b < t.len() && t[b] == '{'
            && find_char(t, '}', b + 1) < t.len(),
    decreases a - e + 1,
{
    if a >= e {
        lemma_brace_line_ge(t, a, find_char(t, '\n', a));
        lemma_brace_from_ge(t, e, a - 1);
    }
}

proof fn lemma_entry_bounds(t: Seq<char>, s: int)
    ensures
        entry_at(t, s) matches Some(e) ==> s + 6 < e.0 < e.1 <= e.2 < e.3 < t.len() && t[e.2] == '{'
            && t[e.3] == '}',
{
    if keyword_at(t, s) {
        let w = white_end(t, s + 6);
        let d = digit_end(t, w);
        lemma_white_end_ge(t, s + 6);
        lemma_digit_end_ge(t, w);
        lemma_white_end_ge(t, d);
        lemma_brace_from_ge(t, d, white_end(t, d));
        if let Some(b) = brace_from(t, d, white_end(t, d)) {
            lemma_find_char_ge(t, '}', b + 1);
        }
    }
}

proof fn lemma_digit_end_ge(t: Seq<char>, i: int)
    ensures
        digit_end(t, i) >= i,
        digit_end(t, i) > i ==> 0 <= i && digit_end(t, i) <= t.len(),
    decreases t.len() - i,
{
    if 0 <= i < t.len() && '0' <= t[i] <= '9' {
        lemma_digit_end_ge(t, i + 1);
    }
}

pub proof fn lemma_next_entry_bounds(t: Seq<char>, s: int)
    ensures
        next_entry(t, s) matches Some((s2, e)) ==> s <= s2 && s2 + 6 < e.0 < e.1 <= e.2 < e.3 < t.len()
            && t[e.2] == '{' && t[e.3] == '}',
    decreases t.len() - s,
{
    if 0 <= s < t.len() {
        lemma_entry_bounds(t, s);
        if entry_at(t, s) is None {
            lemma_next_entry_bounds(t, s + 1);
        }
    }
}

/// The number and text of each entry found from `s`, in order: each search
/// starts after the `}` of the entry before.
pub open spec fn entries_from(t: Seq<char>, s: int) -> Seq<(Seq<char>, Seq<char>)>
    decreases t.len() - s,
{
    match next_entry(t, s) {
        None => Seq::empty(),
        Some((s2, e)) => {
            proof {
                lemma_next_entry_bounds(t, s);
            }
            seq![entry_text(t, e)] + entries_from(t, e.3 + 1)
        },
    }
}

/// The stored form of an entry: `STRING <number> {`, the text on lines of
/// its own, `}`.
pub open spec fn entry_chars(id: Seq<char>, text: Seq<char>) -> Seq<char> {
    seq!['S', 'T', 'R', 'I', 'N', 'G', ' '] + id + seq![' ', '{', '\n'] + text + seq!['\n', '}', '\n']
}

/// The stored form of the entries `s`, one after the other.
pub open spec fn strings_bytes(s: Seq<(String, String)>) -> Seq<u8>
    decreases s.len(),
{
    if s.len() == 0 {
        Seq::empty()
    } else {
        strings_bytes(s.drop_last()) + encode_utf8(entry_chars(s.last().0@, s.last().1@))
    }
}

/// The map of the `(number, text)` pairs of `s`, a later pair winning.
pub open spec fn pairs_view(s: Seq<(Seq<char>, Seq<char>)>) -> Map<Seq<char>, Seq<char>>
    decreases s.len(),
{
    if s.len() == 0 {
        Map::empty()
    } else {
        pairs_view(s.drop_last()).insert(s.last().0, s.last().1)
    }
}

/// Whether no number occurs twice among the pairs `s`.
pub open spec fn ids_distinct(s: Seq<(String, String)>) -> bool {
    forall|i: int, j: int| 0 <= i < j < s.len() ==> #[trigger] s[i].0@ != #[trigger] s[j].0@
}

/// An optional index as an optional integer.
pub open spec fn opt_int(o: Option<usize>) -> Option<int> {
    match o {
        Some(v) => Some(v as int),
        None => None,
    }
}

/// [`digit_end`] of `t` from `i`.
fn digit_end_of(t: &Vec<char>, i: usize) -> (res: usize)
    requires
        i <= t@.len(),
    ensures
        res == digit_end(t@, i as int),
        i <= res <= t@.len(),
{
    let mut k = i;
    while k < t.len() && '0' <= t[k] && t[k] <= '9'
        invariant
            i <= k <= t@.len(),
            digit_end(t@, k as int) == digit_end(t@, i as int),
        decreases t@.len() - k,
    {
        k = k + 1;
    }
    k
}

/// [`keyword_at`] of `t` at `s`.
fn keyword_at_of(t: &Vec<char>, s: usize) -> (res: bool)
    ensures
        res == keyword_at(t@, s as int),
{
    if s > t.len() || t.len() - s < 6 {
        return false;
    }
    t[s] == 'S' && t[s + 1] == 'T' && t[s + 2] == 'R' && t[s + 3] == 'I' && t[s + 4] == 'N' && t[s + 5]
        == 'G'
}

/// [`brace_after`] of `t` at `q`.
fn brace_after_of(t: &Vec<char>, q: usize) -> (res: Option<usize>)
    requires
        q <= t@.len(),
    ensures
        opt_int(res) == brace_after(t@, q as int),
{
    if q < t.len() && white_space(t[q]) {
        let b = white_end_of(t, q);
        if b < t.len() && t[b] == '{' && find_char_of(t, '}', b + 1) < t.len() {
            Some(b)
        } else {
            None
        }
    } else {
        None
    }
}

/// [`brace_from_line`] of `t` between `a` and `q`.
fn brace_from_line_of(t: &Vec<char>, a: usize, q: usize) -> (res: Option<usize>)
    requires
        a <= q <= t@.len(),
    ensures
        opt_int(res) == brace_from_line(t@, a as int, q as int),
{
    let mut k = q;
    loop
        invariant
            a <= k <= q <= t@.len(),
            brace_from_line(t@, a as int, q as int) == brace_from_line(t@, a as int, k as int),
        decreases k,
    {
        match brace_after_of(t, k) {
            Some(b) => {
                return Some(b);
            },
            None => {},
        }
        if k == a {
            return None;
        }
        k = k - 1;
    }
}

/// [`brace_from`] of `t` for a number ending at `e`, from `a` down.
fn brace_from_of(t: &Vec<char>, e: usize, a: usize) -> (res: Option<usize>)
    requires
        e <= a <= t@.len(),
    ensures
        opt_int(res) == brace_from(t@, e as int, a as int),
{
    let mut k = a;
    loop
        invariant
            e <= k <= a <= t@.len(),
            brace_from(t@, e as int, a as int) == brace_from(t@, e as int, k as int),
        decreases k,
    {
        let n = find_char_of(t, '\n', k);
        match brace_from_line_of(t, k, n) {
            Some(b) => {
                return Some(b);
            },
            None => {},
        }
        if k == e {
            return None;
        }
        k = k - 1;
    }
}

/// [`entry_at`] of `t` at `s`.
fn entry_at_of(t: &Vec<char>, s: usize) -> (res: Option<(usize, usize, usize, usize)>)
    requires
        s <= t@.len(),
    ensures
        match res {
            Some(e) => entry_at(t@, s as int) == Some((e.0 as int, e.1 as int, e.2 as int, e.3 as int)),
            None => entry_at(t@, s as int) is None,
        },
{
    if !keyword_at_of(t, s) {
        return None;
    }
    let n = t.len();
    assert(s + 6 <= n);
    let w = white_end_of(t, s + 6);
    let d = digit_end_of(t, w);
    if !(w > s + 6 && d > w) {
        return None;
    }
    let a = white_end_of(t, d);
    match brace_from_of(t, d, a) {
        Some(b) => {
            proof {
                assert(brace_from(t@, d as int, a as int) == Some(b as int));
                lemma_brace_from_ge(t@, d as int, a as int);
            }
            let c = find_char_of(t, '}', b + 1);
            Some((w, d, b, c))
        },
        None => None,
    }
}

/// [`next_entry`] of `t` from `s`.
fn next_entry_of(t: &Vec<char>, s: usize) -> (res: Option<(usize, (usize, usize, usize, usize))>)
    requires
        s <= t@.len(),
    ensures
        match res {
            Some((s2, e)) => next_entry(t@, s as int) == Some(
                (s2 as int, (e.0 as int, e.1 as int, e.2 as int, e.3 as int)),
            ),
            None => next_entry(t@, s as int) is None,
        },
{
    let mut k = s;
    while k < t.len()
        invariant
            s <= k <= t@.len(),
            next_entry(t@, s as int) == next_entry(t@, k as int),
        decreases t@.len() - k,
    {
        match entry_at_of(t, k) {
            Some(e) => {
                return Some((k, e));
            },
            None => {},
        }
        k = k + 1;
    }
    None
}

proof fn lemma_pairs_set_existing(s: Seq<(String, String)>, i: int, x: (String, String))
    requires
        ids_distinct(s),
        0 <= i < s.len(),
        s[i].0@ == x.0@,
    ensures
        strings_view(s.update(i, x)) == strings_view(s).insert(x.0@, x.1@),
    decreases s.len(),
{
    let u = s.update(i, x);
    if i == s.len() - 1 {
        assert(u.drop_last() =~= s.drop_last());
        assert(strings_view(u) =~= strings_view(s).insert(x.0@, x.1@));
    } else {
        assert(ids_distinct(s.drop_last())) by {
            assert forall|a: int, b: int| 0 <= a < b < s.drop_last().len() implies #[trigger] s.drop_last()[a].0@
                != #[trigger] s.drop_last()[b].0@ by {
                assert(s.drop_last()[a] == s[a] && s.drop_last()[b] == s[b]);
            }
        }
        lemma_pairs_set_existing(s.drop_last(), i, x);
        assert(u.drop_last() =~= s.drop_last().update(i, x));
        assert(s[i].0@ != s[s.len() - 1].0@);
        assert(strings_view(u) =~= strings_view(s).insert(x.0@, x.1@));
    }
}

/// The map strings, by number; no number occurs twice.
#[derive(Debug)]
pub struct MapStringFile {
    trigger_strings: Vec<(String, String)>,
}

/// The map of the `(number, text)` pairs of `s`, a later pair winning.
pub open spec fn strings_view(s: Seq<(String, String)>) -> Map<Seq<char>, Seq<char>>
    decreases s.len(),
{
    if s.len() == 0 {
        Map::empty()
    } else {
        strings_view(s.drop_last()).insert(s.last().0@, s.last().1@)
    }
}

impl View for MapStringFile {
    type V = Map<Seq<char>, Seq<char>>;

    closed spec fn view(&self) -> Map<Seq<char>, Seq<char>> {
        strings_view(self.trigger_strings@)
    }
}

proof fn lemma_strings_last(s: Seq<(String, String)>, i: int)
    requires
        0 <= i < s.len(),
        forall|j: int| i < j < s.len() ==> s[j].0@ != s[i].0@,
    ensures
        strings_view(s).contains_key(s[i].0@),
        strings_view(s)[s[i].0@] == s[i].1@,
    decreases s.len(),
{
    if i < s.len() - 1 {
        lemma_strings_last(s.drop_last(), i);
    }
}

proof fn lemma_strings_absent(s: Seq<(String, String)>, k: Seq<char>)
    requires
        forall|j: int| 0 <= j < s.len() ==> s[j].0@ != k,
    ensures
        !strings_view(s).contains_key(k),
    decreases s.len(),
{
    if s.len() > 0 {
        lemma_strings_absent(s.drop_last(), k);
    }
}

proof fn lemma_strings_len(s: Seq<(String, String)>)
    requires
        ids_distinct(s),
    ensures
        strings_view(s).dom().finite(),
        strings_view(s).len() == s.len(),
    decreases s.len(),
{
    if s.len() > 0 {
        let t = s.drop_last();
        assert(ids_distinct(t)) by {
            assert forall|a: int, b: int| 0 <= a < b < t.len() implies #[trigger] t[a].0@ != #[trigger] t[b].0@ by {
                assert(t[a] == s[a] && t[b] == s[b]);
            }
        }
        lemma_strings_len(t);
        assert forall|j: int| 0 <= j < t.len() implies t[j].0@ != s.last().0@ by {
            assert(t[j] == s[j]);
        }
        lemma_strings_absent(t, s.last().0@);
        assert(strings_view(s).dom() =~= strings_view(t).dom().insert(s.last().0@));
    }
}

proof fn lemma_strings_bytes_len(s: Seq<(String, String)>, k: int)
    requires
        0 <= k <= s.len(),
    ensures
        strings_bytes(s.take(k)).len() <= strings_bytes(s).len(),
    decreases s.len() - k,
{
    if k < s.len() {
        lemma_strings_bytes_len(s, k + 1);
        assert(s.take(k + 1).drop_last() =~= s.take(k));
    } else {
        assert(s.take(k) =~= s);
    }
}

impl MapStringFile {
    /// Name of the file in the map archive.
    pub const FILE_NAME: &'static str = "war3map.wts";

    #[verifier::type_invariant]
    spec fn distinct(&self) -> bool {
        ids_distinct(self.trigger_strings@)
    }

    /// No map string.
    pub fn empty() -> (res: Self)
        ensures
            res@ == Map::<Seq<char>, Seq<char>>::empty(),
    {
        MapStringFile { trigger_strings: Vec::new() }
    }

    /// Sets the text of string number `id`.
    pub fn set(&mut self, id: String, text: String)
        ensures
            final(self)@ == old(self)@.insert(id@, text@),
    {
        proof {
            use_type_invariant(&*self);
        }
        let mut i: usize = 0;
        while i < self.trigger_strings.len()
            invariant
                i <= self.trigger_strings@.len(),
                self.trigger_strings@ == old(self).trigger_strings@,
                ids_distinct(self.trigger_strings@),
                forall|j: int| 0 <= j < i ==> self.trigger_strings@[j].0@ != id@,
            decreases self.trigger_strings@.len() - i,
        {
            if self.trigger_strings[i].0 == id {
                let ghost s = self.trigger_strings@;
                let ghost x = (id, text);
                proof {
                    lemma_pairs_set_existing(s, i as int, x);
                    assert(ids_distinct(s.update(i as int, x))) by {
                        assert forall|a: int, b: int| 0 <= a < b < s.len() implies #[trigger] s.update(
                            i as int,
                            x,
                        )[a].0@ != #[trigger] s.update(i as int, x)[b].0@ by {}
                    }
                }
                let mut entries: Vec<(String, String)> = Vec::new();
                std::mem::swap(&mut entries, &mut self.trigger_strings);
                entries.set(i, (id, text));
                assert(entries@ == s.update(i as int, x));
                self.trigger_strings = entries;
                assert(self@ == strings_view(s.update(i as int, x)));
                return;
            }
            i = i + 1;
        }
        let ghost s = self.trigger_strings@;
        let ghost x = (id, text);
        proof {
            assert(s.push(x).drop_last() =~= s);
            assert(ids_distinct(s.push(x))) by {
                assert forall|a: int, b: int| 0 <= a < b < s.push(x).len() implies #[trigger] s.push(x)[a].0@
                    != #[trigger] s.push(x)[b].0@ by {
                    if b == s.len() {
                        assert(s.push(x)[a] == s[a]);
                    } else {
                        assert(s.push(x)[a] == s[a] && s.push(x)[b] == s[b]);
                    }
                }
            }
        }
        let mut entries: Vec<(String, String)> = Vec::new();
        std::mem::swap(&mut entries, &mut self.trigger_strings);
        entries.push((id, text));
        self.trigger_strings = entries;
    }

    /// The map strings of the `(number, text)` pairs `entries`, a later pair
    /// of a number winning.
    pub fn new(entries: Vec<(String, String)>) -> (res: Self)
        ensures
            res@ == strings_view(entries@),
    {
        let mut res = MapStringFile::empty();
        let mut i: usize = 0;
        while i < entries.len()
            invariant
                i <= entries@.len(),
                res@ == strings_view(entries@.take(i as int)),
            decreases entries@.len() - i,
        {
            let id = entries[i].0.clone();
            let text = entries[i].1.clone();
            res.set(id, text);
            proof {
                assert(entries@.take(i + 1).drop_last() =~= entries@.take(i as int));
            }
            i = i + 1;
        }
        proof {
            assert(entries@.take(entries@.len() as int) =~= entries@);
        }
        res
    }

    /// The text of string number `id`.
    pub fn get(&self, id: &str) -> (res: Option<&String>)
        ensures
            res is Some <==> self@.contains_key(id@),
            res matches Some(t) ==> t@ == self@[id@],
    {
        proof {
            use_type_invariant(self);
        }
        let key = String::from_str(id);
        let mut i: usize = self.trigger_strings.len();
        while i > 0
            invariant
                i <= self.trigger_strings@.len(),
                key@ == id@,
                forall|j: int| i <= j < self.trigger_strings@.len() ==> self.trigger_strings@[j].0@ != id@,
            decreases i,
        {
            i = i - 1;
            if self.trigger_strings[i].0 == key {
                proof {
                    lemma_strings_last(self.trigger_strings@, i as int);
                }
                return Some(&self.trigger_strings[i].1);
            }
        }
        proof {
            lemma_strings_absent(self.trigger_strings@, id@);
        }
        None
    }

    /// The number of map strings.
    pub fn len(&self) -> (res: usize)
        ensures
            res == self@.len(),
    {
        proof {
            use_type_invariant(self);
            lemma_strings_len(self.trigger_strings@);
        }
        self.trigger_strings.len()
    }

    /// The map strings found in the text `buffer` (see the module's doc).
    #[verifier::spinoff_prover]
    pub fn extract(buffer: &str) -> (res: Result<MapStringFile, MapStringError>)
        ensures
            res matches Ok(f) && f@ == pairs_view(entries_from(buffer@, 0)),
    {
        let t = chars_of(buffer);
        let mut out = MapStringFile::empty();
        let mut s: usize = 0;
        let ghost mut done: Seq<(Seq<char>, Seq<char>)> = Seq::empty();
        proof {
            assert(entries_from(t@, 0) =~= done + entries_from(t@, 0));
        }
        loop
            invariant
                s <= t@.len(),
                t@ == buffer@,
                entries_from(t@, 0) == done + entries_from(t@, s as int),
                out@ == pairs_view(done),
            decreases t@.len() - s,
        {
            match next_entry_of(&t, s) {
                None => {
                    proof {
                        assert(done + entries_from(t@, s as int) =~= done);
                    }
                    return Ok(out);
                },
                Some((_, e)) => {
                    proof {
                        lemma_next_entry_bounds(t@, s as int);
                    }
                    let (w, d, b, c) = e;
                    let id = string_of(t.as_slice(), w, d);
                    let ws = white_end_of(&t, b + 1);
                    proof {
                        lemma_white_end_le(t@, b + 1, c as int);
                    }
                    let te = trimmed_end_of(&t, ws, c);
                    let text = string_of(t.as_slice(), ws, te);
                    let ghost p = entry_text(t@, (w as int, d as int, b as int, c as int));
                    proof {
                        lemma_white_end_ge(t@, b + 1);
                        assert(p == (id@, text@));
                        assert(done.push(p).drop_last() =~= done);
                        assert(done + entries_from(t@, s as int) =~= done.push(p) + entries_from(
                            t@,
                            c + 1,
                        ));
                    }
                    out.set(id, text);
                    proof {
                        done = done.push(p);
                    }
                    assert(c < t@.len());
                    s = c + 1;
                },
            }
        }
    }

    /// Reads the map strings from the whole buffer of the reader, which must
    /// be UTF-8 text.
    pub fn read(reader: &mut BinaryReader) -> (res: Result<Self, MapError>)
        requires
            old(reader).wf(),
        ensures
            final(reader).wf(),
            ({
                let d = old(reader).contents();
                let p = old(reader).position() as int;
                &&& res is Ok <==> (p == 0 && valid_utf8(d))
                &&& res matches Ok(f) ==> f@ == pairs_view(entries_from(decode_utf8(d), 0))
                &&& res matches Err(e) ==> (e matches MapError::MapStrings(MapStringError::Parsing(_)))
            }),
    {
        let n = reader.size();
        proof {
            assert(reader.contents().subrange(0, n as int) =~= reader.contents());
        }
        let text = match reader.read_string_utf8(n) {
            Ok(t) => t,
            Err(e) => {
                return Err(MapError::MapStrings(MapStringError::Parsing(e)));
            },
        };
        proof {
            assert(reader.contents().subrange(0, n as int) =~= reader.contents());
        }
        match Self::extract(text.as_str()) {
            Ok(f) => Ok(f),
            Err(e) => Err(MapError::MapStrings(e)),
        }
    }

    /// The stored map strings in a fresh writer, each number once with its
    /// text, in the order the numbers were first set.
    pub fn prepare_write(&self) -> (res: Result<BinaryWriter, MapError>)
        requires
            self.stored_len() <= usize::MAX,
        ensures
            res matches Ok(w) && w.contents() == self.stored(),
            self.stored() == encode_utf8(strings_chars(self.entries())),
    {
        let mut writer = BinaryWriter::new();
        let ghost s = self.trigger_strings@;
        let mut i: usize = 0;
        proof {
            assert(s.take(0) =~= Seq::<(String, String)>::empty());
        }
        while i < self.trigger_strings.len()
            invariant
                i <= s.len(),
                s == self.trigger_strings@,
                strings_bytes(s).len() <= usize::MAX,
                writer.position() == strings_bytes(s.take(i as int)).len(),
                writer.contents() == strings_bytes(s.take(i as int)),
            decreases s.len() - i,
        {
            let ghost before = writer.contents();
            let mut chars: Vec<char> = vec!['S', 'T', 'R', 'I', 'N', 'G', ' '];
            let id = chars_of(self.trigger_strings[i].0.as_str());
            let text = chars_of(self.trigger_strings[i].1.as_str());
            let mut k: usize = 0;
            while k < id.len()
                invariant
                    k <= id@.len(),
                    chars@ == seq!['S', 'T', 'R', 'I', 'N', 'G', ' '] + id@.take(k as int),
                decreases id@.len() - k,
            {
                chars.push(id[k]);
                k = k + 1;
                assert(chars@ =~= seq!['S', 'T', 'R', 'I', 'N', 'G', ' '] + id@.take(k as int));
            }
            chars.push(' ');
            chars.push('{');
            chars.push('\n');
            let ghost mid = chars@;
            k = 0;
            while k < text.len()
                invariant
                    k <= text@.len(),
                    chars@ == mid + text@.take(k as int),
                decreases text@.len() - k,
            {
                chars.push(text[k]);
                k = k + 1;
                assert(chars@ =~= mid + text@.take(k as int));
            }
            chars.push('\n');
            chars.push('}');
            chars.push('\n');
            proof {
                assert(id@.take(id@.len() as int) =~= id@);
                assert(text@.take(text@.len() as int) =~= text@);
                assert(chars@ =~= entry_chars(s[i as int].0@, s[i as int].1@));
                assert(s.take(i + 1).drop_last() =~= s.take(i as int));
                lemma_strings_bytes_len(s, i + 1);
            }
            let entry = string_of(chars.as_slice(), 0, chars.len());
            proof {
                assert(chars@.subrange(0, chars@.len() as int) =~= chars@);
                assert(write_at(before, before.len() as int, encode_utf8(entry@)) =~= before + encode_utf8(entry@));
            }
            let _ = writer.write_string_utf8(entry.as_str());
            i = i + 1;
        }
        proof {
            assert(s.take(s.len() as int) =~= s);
            lemma_bytes_chars(s);
        }
        Ok(writer)
    }

    /// The bytes that [`MapStringFile::prepare_write`] stores.
    pub closed spec fn stored(&self) -> Seq<u8> {
        strings_bytes(self.trigger_strings@)
    }

    /// Their number.
    pub closed spec fn stored_len(&self) -> nat {
        strings_bytes(self.trigger_strings@).len()
    }
}


/// Whether `id` is a number: one or more ASCII digits.
pub open spec fn is_number(id: Seq<char>) -> bool {
    id.len() > 0 && forall|i: int| 0 <= i < id.len() ==> '0' <= #[trigger] id[i] <= '9'
}

/// Whether text `x` reads back as written: it holds no `}`, and has no
/// white space at either end and no `{` at its start.
pub open spec fn text_round_ok(x: Seq<char>) -> bool {
    &&& forall|i: int| 0 <= i < x.len() ==> #[trigger] x[i] != '}'
    &&& x.len() > 0 ==> !is_white_space(x[0]) && x[0] != '{' && !is_white_space(x[x.len() - 1])
}

/// The stored form of the entries `s` as text, one after the other.
pub open spec fn strings_chars(s: Seq<(Seq<char>, Seq<char>)>) -> Seq<char>
    decreases s.len(),
{
    if s.len() == 0 {
        Seq::empty()
    } else {
        entry_chars(s[0].0, s[0].1) + strings_chars(s.drop_first())
    }
}

proof fn lemma_encode_concat(a: Seq<char>, b: Seq<char>)
    ensures
        encode_utf8(a + b) == encode_utf8(a) + encode_utf8(b),
    decreases a.len(),
{
    if a.len() == 0 {
        assert(a + b =~= b);
        assert(encode_utf8(a) + encode_utf8(b) =~= encode_utf8(b));
    } else {
        assert((a + b)[0] == a[0]);
        assert((a + b).drop_first() =~= a.drop_first() + b);
        lemma_encode_concat(a.drop_first(), b);
        assert(encode_utf8(a + b) =~= encode_utf8(a) + encode_utf8(b));
    }
}

proof fn lemma_white_end_at(t: Seq<char>, i: int, j: int)
    requires
        0 <= i <= j <= t.len(),
        forall|k: int| i <= k < j ==> is_white_space(#[trigger] t[k]),
        j < t.len() ==> !is_white_space(t[j]),
    ensures
        white_end(t, i) == j,
    decreases j - i,
{
    if i < j {
        lemma_white_end_at(t, i + 1, j);
    }
}

proof fn lemma_digit_end_at(t: Seq<char>, i: int, j: int)
    requires
        0 <= i <= j < t.len(),
        forall|k: int| i <= k < j ==> '0' <= #[trigger] t[k] <= '9',
        !('0' <= t[j] <= '9'),
    ensures
        digit_end(t, i) == j,
    decreases j - i,
{
    if i < j {
        lemma_digit_end_at(t, i + 1, j);
    }
}

proof fn lemma_find_char_at(t: Seq<char>, c: char, i: int, j: int)
    requires
        0 <= i <= j < t.len(),
        forall|k: int| i <= k < j ==> #[trigger] t[k] != c,
        t[j] == c,
    ensures
        find_char(t, c, i) == j,
    decreases j - i,
{
    if i < j {
        lemma_find_char_at(t, c, i + 1, j);
    }
}

proof fn lemma_trimmed_end_at(t: Seq<char>, lo: int, j: int, m: int)
    requires
        lo <= m <= j <= t.len(),
        0 <= lo,
        forall|k: int| m <= k < j ==> is_white_space(#[trigger] t[k]),
        m > lo ==> !is_white_space(t[m - 1]),
    ensures
        trimmed_end(t, lo, j) == m,
    decreases j - m,
{
    if m < j {
        lemma_trimmed_end_at(t, lo, j - 1, m);
    }
}


proof fn lemma_entry_chars_parse(t: Seq<char>, o: int, id: Seq<char>, x: Seq<char>)
    requires
        0 <= o,
        o + entry_chars(id, x).len() <= t.len(),
        t.subrange(o, o + entry_chars(id, x).len()) == entry_chars(id, x),
        is_number(id),
        text_round_ok(x),
    ensures
        entries_from(t, o) == seq![(id, x)] + entries_from(t, o + entry_chars(id, x).len()),
{
    let n = id.len() as int;
    let m = x.len() as int;
    let e = entry_chars(id, x);
    let l = e.len() as int;
    let d = o + 7 + n;
    assert(l == n + m + 13);
    assert forall|k: int| 0 <= k < l implies t[o + k] == #[trigger] e[k] by {
        assert(t.subrange(o, o + l)[k] == t[o + k]);
    }
    assert(is_white_space(' ') && is_white_space('\n'));
    assert(!is_white_space('{') && !is_white_space('}') && !is_white_space('S'));
    assert(t[o] == 'S' && t[o + 1] == 'T' && t[o + 2] == 'R') by {
        assert(e[0] == 'S' && e[1] == 'T' && e[2] == 'R');
    }
    assert(t[o + 3] == 'I' && t[o + 4] == 'N' && t[o + 5] == 'G' && t[o + 6] == ' ') by {
        assert(e[3] == 'I' && e[4] == 'N' && e[5] == 'G' && e[6] == ' ');
    }
    assert forall|k: int| o + 7 <= k < d implies t[k] == id[k - o - 7] by {
        assert(e[k - o] == id[k - o - 7]);
    }
    assert(t[d] == ' ' && t[d + 1] == '{' && t[d + 2] == '\n') by {
        assert(e[7 + n] == ' ' && e[8 + n] == '{' && e[9 + n] == '\n');
    }
    assert forall|k: int| d + 3 <= k < d + 3 + m implies t[k] == x[k - d - 3] by {
        assert(e[k - o] == x[k - d - 3]);
    }
    assert(t[d + 3 + m] == '\n' && t[d + 4 + m] == '}' && t[d + 5 + m] == '\n') by {
        assert(e[10 + n + m] == '\n' && e[11 + n + m] == '}' && e[12 + n + m] == '\n');
    }
    assert(keyword_at(t, o));
    assert(!is_white_space(t[o + 7])) by {
        assert(t[o + 7] == id[0]);
    }
    lemma_white_end_at(t, o + 6, o + 7);
    assert forall|k: int| o + 7 <= k < d implies '0' <= #[trigger] t[k] <= '9' by {
        assert(t[k] == id[k - o - 7]);
    }
    lemma_digit_end_at(t, o + 7, d);
    lemma_white_end_at(t, d, d + 1);
    lemma_find_char_at(t, '\n', d + 1, d + 2);
    lemma_find_char_at(t, '\n', d, d + 2);
    assert forall|k: int| d + 2 <= k < d + 4 + m implies #[trigger] t[k] != '}' by {
        if d + 3 <= k < d + 3 + m {
            assert(t[k] == x[k - d - 3]);
        }
    }
    lemma_find_char_at(t, '}', d + 2, d + 4 + m);
    let c = d + 4 + m;
    // the white space run after the line of the number reaches the text, or
    // the closing brace of an empty text
    let w = if m > 0 {
        d + 3
    } else {
        d + 4
    };
    assert(t[w] != '{' && !is_white_space(t[w])) by {
        if m > 0 {
            assert(t[d + 3] == x[0]);
        }
    }
    assert forall|k: int| d + 2 <= k < w implies is_white_space(#[trigger] t[k]) by {}
    lemma_white_end_at(t, d + 2, w);
    assert(brace_after(t, d + 2) is None);
    assert(brace_after(t, d + 1) is None);
    assert(brace_after(t, d) == Some(d + 1));
    assert(brace_from_line(t, d + 1, d) is None);
    assert(brace_from_line(t, d + 1, d + 1) is None);
    assert(brace_from_line(t, d + 1, d + 2) is None);
    assert(brace_from_line(t, d, d) == Some(d + 1));
    assert(brace_from_line(t, d, d + 1) == Some(d + 1));
    assert(brace_from_line(t, d, d + 2) == Some(d + 1));
    assert(brace_from(t, d, d) == Some(d + 1));
    assert(brace_from(t, d, d + 1) == Some(d + 1));
    let en = (o + 7, d, d + 1, c);
    assert(entry_at(t, o) == Some(en));
    assert(next_entry(t, o) == Some((o, en)));
    lemma_white_end_at(t, d + 2, w);
    let te = if m > 0 {
        d + 3 + m
    } else {
        c
    };
    if m > 0 {
        assert(t[d + 2 + m] == x[m - 1]);
        lemma_trimmed_end_at(t, w, c, te);
    }
    assert(trimmed_end(t, w, c) == te);
    assert(t.subrange(o + 7, d) =~= id);
    assert(t.subrange(w, te) =~= x);
    assert(entry_text(t, en) == (id, x));
    // the line end after the closing brace starts no entry
    assert(!keyword_at(t, c + 1));
    assert(next_entry(t, c + 1) == next_entry(t, c + 2));
    assert(entries_from(t, c + 1) == entries_from(t, c + 2));
    assert(c + 2 == o + l);
}


/// The `(number, text)` contents of the pairs `s`.
pub open spec fn pair_views(s: Seq<(String, String)>) -> Seq<(Seq<char>, Seq<char>)> {
    s.map_values(|p: (String, String)| (p.0@, p.1@))
}

proof fn lemma_strings_chars_last(s: Seq<(Seq<char>, Seq<char>)>)
    requires
        s.len() > 0,
    ensures
        strings_chars(s) == strings_chars(s.drop_last()) + entry_chars(s.last().0, s.last().1),
    decreases s.len(),
{
    if s.len() == 1 {
        assert(s.drop_first() =~= Seq::<(Seq<char>, Seq<char>)>::empty());
        assert(s.drop_last() =~= Seq::<(Seq<char>, Seq<char>)>::empty());
        assert(strings_chars(s) =~= strings_chars(s.drop_last()) + entry_chars(s.last().0, s.last().1));
    } else {
        let f = s.drop_first();
        lemma_strings_chars_last(f);
        assert(f.drop_last() =~= s.drop_last().drop_first());
        assert(f.last() == s.last());
        assert(s.drop_last()[0] == s[0]);
        assert(strings_chars(s) =~= strings_chars(s.drop_last()) + entry_chars(s.last().0, s.last().1));
    }
}

proof fn lemma_bytes_chars(s: Seq<(String, String)>)
    ensures
        strings_bytes(s) == encode_utf8(strings_chars(pair_views(s))),
    decreases s.len(),
{
    if s.len() > 0 {
        let init = s.drop_last();
        lemma_bytes_chars(init);
        assert(pair_views(init) =~= pair_views(s).drop_last());
        lemma_strings_chars_last(pair_views(s));
        lemma_encode_concat(strings_chars(pair_views(init)), entry_chars(s.last().0@, s.last().1@));
    } else {
        assert(strings_chars(pair_views(s)) =~= Seq::<char>::empty());
    }
}

proof fn lemma_entries_parse(t: Seq<char>, o: int, s: Seq<(Seq<char>, Seq<char>)>)
    requires
        0 <= o,
        o + strings_chars(s).len() == t.len(),
        t.subrange(o, t.len() as int) == strings_chars(s),
        forall|i: int| 0 <= i < s.len() ==> is_number((#[trigger] s[i]).0) && text_round_ok(s[i].1),
    ensures
        entries_from(t, o) == s,
    decreases s.len(),
{
    if s.len() == 0 {
        assert(next_entry(t, o) is None);
        assert(entries_from(t, o) =~= s);
    } else {
        let e = entry_chars(s[0].0, s[0].1);
        let r = s.drop_first();
        let l = e.len() as int;
        assert(strings_chars(s) == e + strings_chars(r));
        assert(t.subrange(o, o + l) =~= e) by {
            assert(t.subrange(o, o + l) =~= t.subrange(o, t.len() as int).subrange(0, l));
        }
        assert(t.subrange(o + l, t.len() as int) =~= strings_chars(r)) by {
            assert(t.subrange(o + l, t.len() as int) =~= t.subrange(o, t.len() as int).subrange(
                l,
                strings_chars(s).len() as int,
            ));
        }
        lemma_entry_chars_parse(t, o, s[0].0, s[0].1);
        assert forall|i: int| 0 <= i < r.len() implies is_number((#[trigger] r[i]).0) && text_round_ok(r[i].1) by {
            assert(r[i] == s[i + 1]);
        }
        lemma_entries_parse(t, o + l, r);
        assert(entries_from(t, o) =~= s);
    }
}

proof fn lemma_pairs_strings_view(s: Seq<(String, String)>)
    ensures
        pairs_view(pair_views(s)) == strings_view(s),
    decreases s.len(),
{
    if s.len() > 0 {
        lemma_pairs_strings_view(s.drop_last());
        assert(pair_views(s.drop_last()) =~= pair_views(s).drop_last());
    }
}

impl MapStringFile {
    /// The stored `(number, text)` pairs, in the order the numbers were
    /// first set.
    pub closed spec fn entries(&self) -> Seq<(Seq<char>, Seq<char>)> {
        pair_views(self.trigger_strings@)
    }
}

/// Map strings whose numbers are numbers and whose texts read back (no
/// `}`, no white space at either end, no `{` first) are stored as UTF-8
/// text in which the entries are found again, in order, so that reading
/// the stored bytes gives back the map strings.
pub proof fn law_map_strings_write_read(f: MapStringFile)
    requires
        forall|i: int| 0 <= i < f.entries().len() ==> is_number((#[trigger] f.entries()[i]).0) && text_round_ok(
            f.entries()[i].1,
        ),
    ensures
        valid_utf8(f.stored()),
        entries_from(decode_utf8(f.stored()), 0) == f.entries(),
        pairs_view(f.entries()) == f@,
{
    broadcast use vstd::utf8::encode_utf8_valid_utf8, vstd::utf8::encode_utf8_decode_utf8;

    let s = f.trigger_strings@;
    lemma_bytes_chars(s);
    let t = strings_chars(pair_views(s));
    assert(decode_utf8(f.stored()) == t);
    assert(t.subrange(0, t.len() as int) =~= t);
    assert(f.entries() == pair_views(s));
    lemma_entries_parse(t, 0, pair_views(s));
    lemma_pairs_strings_view(s);
}

} // verus!
