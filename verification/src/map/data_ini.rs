//! INI-style game data tables (such as `TriggerData.txt`): named sections of
//! `key=value` properties, merged from one or more texts into a lookup table.
//!
//! A text is cut into lines at each `"\r\n"`. Lines that are empty or start
//! with `//` are skipped. A line matching `^\s*\[(.+)\]\s*$` opens the section
//! named by the bracketed text, emptying it if it was seen before in the same
//! text; a line matching `^\s*([^=]+)=(.*)\s*$` sets a property of the open
//! section, if any.
//!
//! Sections and their properties are held as vectors of pairs whose keys are
//! distinct, and contracts speak of their views as maps. vstd gives std's
//! `HashMap` a key model for integer and `bool` keys only; with `String` keys
//! nothing could be proved of a lookup without an assumption.

use vstd::prelude::*;

use crate::map::chars::{chars_of, is_white_space, string_of, white_space};

verus! {

/// The lines of `t`: the pieces between the `"\r\n"` separators, an empty
/// text giving one empty line.
pub open spec fn text_lines(t: Seq<char>) -> Seq<Seq<char>>
    decreases t.len(),
{
    if t.len() == 0 {
        seq![Seq::empty()]
    } else {
        let prev = text_lines(t.drop_last());
        let cur = prev.last();
        if t.last() == '\n' && cur.len() > 0 && cur.last() == '\r' {
            prev.update(prev.len() - 1, cur.drop_last()).push(Seq::empty())
        } else {
            prev.update(prev.len() - 1, cur.push(t.last()))
        }
    }
}

/// The end of the run of white space that starts at `i` in `t`.
pub open spec fn white_end(t: Seq<char>, i: int) -> int
    decreases t.len() - i,
{
    if 0 <= i < t.len() && is_white_space(t[i]) {
        white_end(t, i + 1)
    } else {
        i
    }
}

/// Where `t[lo..j]` ends once its trailing white space is cut off.
pub open spec fn trimmed_end(t: Seq<char>, lo: int, j: int) -> int
    decreases j - lo,
{
    if lo < j && j <= t.len() && is_white_space(t[j - 1]) {
        trimmed_end(t, lo, j - 1)
    } else {
        j
    }
}

/// Index of the first `c` in `t` at or after `i`, or the length of `t`.
pub open spec fn find_char(t: Seq<char>, c: char, i: int) -> int
    decreases t.len() - i,
{
    if i < 0 || i >= t.len() {
        t.len() as int
    } else if t[i] == c {
        i
    } else {
        find_char(t, c, i + 1)
    }
}

/// The name of the section that line `l` opens, when it matches
/// `^\s*\[(.+)\]\s*$`.
pub open spec fn section_name(l: Seq<char>) -> Option<Seq<char>> {
    let w = white_end(l, 0);
    let e = trimmed_end(l, w, l.len() as int);
    if w < l.len() && l[w] == '[' && e >= w + 3 && l[e - 1] == ']' && find_char(l, '\n', w + 1)
        >= e - 1 {
        Some(l.subrange(w + 1, e - 1))
    } else {
        None
    }
}

/// The key and value that line `l` sets, when it matches
/// `^\s*([^=]+)=(.*)\s*$`: the key runs from the end of the leading white
/// space (or from its last character, when the `=` follows it at once) to the
/// first `=`; the value runs from there to the first line feed, after which
/// only white space may follow.
pub open spec fn property_of(l: Seq<char>) -> Option<(Seq<char>, Seq<char>)> {
    let w = white_end(l, 0);
    let e = find_char(l, '=', 0);
    let s = if e > w {
        w
    } else {
        e - 1
    };
    let n = find_char(l, '\n', e + 1);
    if e < l.len() && e > 0 && white_end(l, n) == l.len() {
        Some((l.subrange(s, e), l.subrange(e + 1, n)))
    } else {
        None
    }
}

/// `find_char` finds the first `c` from `i` on, or gives the length.
proof fn lemma_find_char(t: Seq<char>, c: char, i: int, k: int)
    requires
        0 <= i <= k <= t.len(),
        forall|j: int| i <= j < k ==> t[j] != c,
        k == t.len() || t[k] == c,
    ensures
        find_char(t, c, i) == k,
    decreases k - i,
{
    if i < k {
        lemma_find_char(t, c, i + 1, k);
    }
}

/// Property and section lines: a line `key=value`, whose key is not empty,
/// holds no `=` and does not start with white space, and whose value holds
/// no line feed, sets `key` to `value`; a line `[name]` whose name is not
/// empty and holds no line feed opens the section `name`.
pub proof fn law_ini_lines(key: Seq<char>, value: Seq<char>, name: Seq<char>)
    ensures
        key.len() > 0 && !is_white_space(key[0]) && !key.contains('=') && !value.contains('\n')
            ==> property_of(key + seq!['='] + value) == Some((key, value)),
        name.len() > 0 && !name.contains('\n') ==> section_name(seq!['['] + name + seq![']']) == Some(name),
{
    if key.len() > 0 && !is_white_space(key[0]) && !key.contains('=') && !value.contains('\n') {
        let l = key + seq!['='] + value;
        let e = key.len() as int;
        assert(l[e] == '=');
        assert forall|j: int| 0 <= j < e implies l[j] != '=' by {
            assert(l[j] == key[j]);
            if key[j] == '=' {
                assert(key.contains('='));
            }
        }
        lemma_find_char(l, '=', 0, e);
        assert forall|j: int| e + 1 <= j < l.len() implies l[j] != '\n' by {
            assert(l[j] == value[j - e - 1]);
            if value[j - e - 1] == '\n' {
                assert(value.contains('\n'));
            }
        }
        lemma_find_char(l, '\n', e + 1, l.len() as int);
        assert(l[0] == key[0]);
        assert(white_end(l, 0) == 0);
        assert(white_end(l, l.len() as int) == l.len());
        assert(l.subrange(0, e) =~= key);
        assert(l.subrange(e + 1, l.len() as int) =~= value);
    }
    if name.len() > 0 && !name.contains('\n') {
        let l = seq!['['] + name + seq![']'];
        let n = l.len() as int;
        assert(l[0] == '[');
        assert(white_end(l, 0) == 0);
        assert(l[n - 1] == ']');
        assert(trimmed_end(l, 0, n) == n);
        assert forall|j: int| 1 <= j < n implies l[j] != '\n' by {
            if j < n - 1 {
                assert(l[j] == name[j - 1]);
                if name[j - 1] == '\n' {
                    assert(name.contains('\n'));
                }
            }
        }
        lemma_find_char(l, '\n', 1, n);
        assert(l.subrange(1, n - 1) =~= name);
    }
}

/// Whether line `l` is skipped: empty, or a `//` comment.
pub open spec fn is_skipped(l: Seq<char>) -> bool {
    l.len() == 0 || (l.len() >= 2 && l[0] == '/' && l[1] == '/')
}

/// The sections read so far and the name of the open section (empty when
/// none is open).
pub type IniState = (Map<Seq<char>, Map<Seq<char>, Seq<char>>>, Seq<char>);

/// The effect of reading line `l`.
pub open spec fn ini_step(st: IniState, l: Seq<char>) -> IniState {
    if is_skipped(l) {
        st
    } else if section_name(l) is Some {
        let name = section_name(l)->0;
        (st.0.insert(name, Map::empty()), name)
    } else if property_of(l) is Some && st.1.len() > 0 {
        let (k, v) = property_of(l)->0;
        (st.0.insert(st.1, st.0[st.1].insert(k, v)), st.1)
    } else {
        st
    }
}

/// The state after reading `lines` in order.
pub open spec fn ini_fold(lines: Seq<Seq<char>>) -> IniState
    decreases lines.len(),
{
    if lines.len() == 0 {
        (Map::empty(), Seq::empty())
    } else {
        ini_step(ini_fold(lines.drop_last()), lines.last())
    }
}

/// The sections, each a map from key to value, that text `t` describes.
pub open spec fn ini_of(t: Seq<char>) -> Map<Seq<char>, Map<Seq<char>, Seq<char>>> {
    ini_fold(text_lines(t)).0
}

/// The table `old` after merging the sections `ini` into it: each section of
/// `ini` keeps the properties of `old` that it does not set itself.
pub open spec fn merge_tables(
    old: Map<Seq<char>, Map<Seq<char>, Seq<char>>>,
    ini: Map<Seq<char>, Map<Seq<char>, Seq<char>>>,
) -> Map<Seq<char>, Map<Seq<char>, Seq<char>>> {
    Map::new(
        |k: Seq<char>| old.contains_key(k) || ini.contains_key(k),
        |k: Seq<char>|
            if ini.contains_key(k) {
                if old.contains_key(k) {
                    old[k].union_prefer_right(ini[k])
                } else {
                    ini[k]
                }
            } else {
                old[k]
            },
    )
}

/// Reading INI lines and merging tables: a section line opens its section,
/// empty again; a property line sets its key in the open section, if one is
/// open; skipped lines change nothing. Merging a table into another keeps
/// every section of both; in a section of the merged table, its own values
/// win and the other values of the old section stay.
pub proof fn law_ini_merge(
    st: IniState,
    l: Seq<char>,
    old: Map<Seq<char>, Map<Seq<char>, Seq<char>>>,
    ini: Map<Seq<char>, Map<Seq<char>, Seq<char>>>,
    sec: Seq<char>,
    key: Seq<char>,
)
    ensures
        is_skipped(l) ==> ini_step(st, l) == st,
        !is_skipped(l) ==> (section_name(l) matches Some(n) ==> ini_step(st, l) == (st.0.insert(n, Map::empty()), n)),
        !is_skipped(l) && section_name(l) is None && st.1.len() > 0 ==> (property_of(l) matches Some((k, v))
            ==> ini_step(st, l) == (st.0.insert(st.1, st.0[st.1].insert(k, v)), st.1)),
        merge_tables(old, ini).contains_key(sec) <==> old.contains_key(sec) || ini.contains_key(sec),
        ini.contains_key(sec) && ini[sec].contains_key(key) ==> merge_tables(old, ini)[sec].contains_key(key)
            && merge_tables(old, ini)[sec][key] == ini[sec][key],
        old.contains_key(sec) && old[sec].contains_key(key) && !(ini.contains_key(sec) && ini[sec].contains_key(
            key,
        )) ==> merge_tables(old, ini)[sec].contains_key(key) && merge_tables(old, ini)[sec][key]
            == old[sec][key],
{
}

/// The map of `key=value` pairs listed in `s`, a later pair winning.
pub open spec fn entries_view(s: Seq<(String, String)>) -> Map<Seq<char>, Seq<char>>
    decreases s.len(),
{
    if s.len() == 0 {
        Map::empty()
    } else {
        entries_view(s.drop_last()).insert(s.last().0@, s.last().1@)
    }
}

/// The properties of one section.
#[derive(Debug)]
pub struct IniSection {
    entries: Vec<(String, String)>,
}

impl View for IniSection {
    type V = Map<Seq<char>, Seq<char>>;

    closed spec fn view(&self) -> Map<Seq<char>, Seq<char>> {
        entries_view(self.entries@)
    }
}

/// The map of sections listed in `s`, a later section of a name winning.
pub open spec fn sections_view(s: Seq<(String, IniSection)>) -> Map<
    Seq<char>,
    Map<Seq<char>, Seq<char>>,
>
    decreases s.len(),
{
    if s.len() == 0 {
        Map::empty()
    } else {
        sections_view(s.drop_last()).insert(s.last().0@, s.last().1@)
    }
}

proof fn lemma_entries_last(s: Seq<(String, String)>, i: int)
    requires
        0 <= i < s.len(),
        forall|j: int| i < j < s.len() ==> s[j].0@ != s[i].0@,
    ensures
        entries_view(s).contains_key(s[i].0@),
        entries_view(s)[s[i].0@] == s[i].1@,
    decreases s.len(),
{
    if i < s.len() - 1 {
        lemma_entries_last(s.drop_last(), i);
    }
}

proof fn lemma_entries_absent(s: Seq<(String, String)>, k: Seq<char>)
    requires
        forall|j: int| 0 <= j < s.len() ==> s[j].0@ != k,
    ensures
        !entries_view(s).contains_key(k),
    decreases s.len(),
{
    if s.len() > 0 {
        lemma_entries_absent(s.drop_last(), k);
    }
}

proof fn lemma_entries_concat(a: Seq<(String, String)>, b: Seq<(String, String)>)
    ensures
        entries_view(a + b) == entries_view(a).union_prefer_right(entries_view(b)),
    decreases b.len(),
{
    if b.len() == 0 {
        assert(a + b == a);
        assert(entries_view(a).union_prefer_right(Map::empty()) =~= entries_view(a));
    } else {
        lemma_entries_concat(a, b.drop_last());
        assert((a + b).drop_last() == a + b.drop_last());
        assert(entries_view(a + b) =~= entries_view(a).union_prefer_right(entries_view(b)));
    }
}

proof fn lemma_sections_last(s: Seq<(String, IniSection)>, i: int)
    requires
        0 <= i < s.len(),
        forall|j: int| i < j < s.len() ==> s[j].0@ != s[i].0@,
    ensures
        sections_view(s).contains_key(s[i].0@),
        sections_view(s)[s[i].0@] == s[i].1@,
    decreases s.len(),
{
    if i < s.len() - 1 {
        lemma_sections_last(s.drop_last(), i);
    }
}

proof fn lemma_sections_absent(s: Seq<(String, IniSection)>, k: Seq<char>)
    requires
        forall|j: int| 0 <= j < s.len() ==> s[j].0@ != k,
    ensures
        !sections_view(s).contains_key(k),
    decreases s.len(),
{
    if s.len() > 0 {
        lemma_sections_absent(s.drop_last(), k);
    }
}

proof fn lemma_sections_remove(s: Seq<(String, IniSection)>, i: int)
    requires
        0 <= i < s.len(),
        forall|j: int| 0 <= j < s.len() && j != i ==> s[j].0@ != s[i].0@,
    ensures
        sections_view(s.remove(i)) == sections_view(s).remove(s[i].0@),
    decreases s.len(),
{
    let k = s[i].0@;
    if i == s.len() - 1 {
        assert(s.remove(i) == s.drop_last());
        lemma_sections_absent(s.drop_last(), k);
        assert(sections_view(s.drop_last()) =~= sections_view(s).remove(k));
    } else {
        lemma_sections_remove(s.drop_last(), i);
        assert(s.remove(i).drop_last() == s.drop_last().remove(i));
        assert(s.remove(i).last() == s.last());
        assert(sections_view(s.remove(i)) =~= sections_view(s).remove(k));
    }
}

/// Position of the last entry of `s` whose key is `key`.
fn find_entry(s: &Vec<(String, String)>, key: &String) -> (res: Option<usize>)
    ensures
        res matches Some(i) ==> i < s@.len() && s@[i as int].0@ == key@ && forall|j: int|
            i < j < s@.len() ==> s@[j].0@ != key@,
        res is None ==> forall|j: int| 0 <= j < s@.len() ==> s@[j].0@ != key@,
{
    let mut i: usize = s.len();
    while i > 0
        invariant
            i <= s@.len(),
            forall|j: int| i <= j < s@.len() ==> s@[j].0@ != key@,
        decreases i,
    {
        i = i - 1;
        if s[i].0 == *key {
            return Some(i);
        }
    }
    None
}

/// Position of the last section of `s` named `name`.
fn find_section(s: &Vec<(String, IniSection)>, name: &String) -> (res: Option<usize>)
    ensures
        res matches Some(i) ==> i < s@.len() && s@[i as int].0@ == name@ && forall|j: int|
            i < j < s@.len() ==> s@[j].0@ != name@,
        res is None ==> forall|j: int| 0 <= j < s@.len() ==> s@[j].0@ != name@,
{
    let mut i: usize = s.len();
    while i > 0
        invariant
            i <= s@.len(),
            forall|j: int| i <= j < s@.len() ==> s@[j].0@ != name@,
        decreases i,
    {
        i = i - 1;
        if s[i].0 == *name {
            return Some(i);
        }
    }
    None
}

impl IniSection {
    /// The value of property `id`.
    pub fn get(&self, id: &str) -> (res: Option<&String>)
        ensures
            res is Some <==> self@.contains_key(id@),
            res matches Some(v) ==> v@ == self@[id@],
    {
        let key = String::from_str(id);
        match find_entry(&self.entries, &key) {
            Some(i) => {
                proof {
                    lemma_entries_last(self.entries@, i as int);
                }
                Some(&self.entries[i].1)
            },
            None => {
                proof {
                    lemma_entries_absent(self.entries@, id@);
                }
                None
            },
        }
    }
}


/// The lines of `chars`, as [`text_lines`] cuts them.
fn split_lines(chars: &Vec<char>) -> (res: Vec<Vec<char>>)
    ensures
        res@.len() == text_lines(chars@).len(),
        forall|i: int| 0 <= i < res@.len() ==> #[trigger] res@[i]@ == text_lines(chars@)[i],
{
    let mut lines: Vec<Vec<char>> = Vec::new();
    let mut cur: Vec<char> = Vec::new();
    let mut i: usize = 0;
    while i < chars.len()
        invariant
            i <= chars@.len(),
            lines@.len() + 1 == text_lines(chars@.take(i as int)).len(),
            forall|j: int| 0 <= j < lines@.len() ==> #[trigger] lines@[j]@ == text_lines(
                chars@.take(i as int),
            )[j],
            cur@ == text_lines(chars@.take(i as int)).last(),
        decreases chars@.len() - i,
    {
        let c = chars[i];
        let ghost t = chars@.take(i + 1);
        assert(t.drop_last() == chars@.take(i as int));
        assert(t.last() == c);
        let n = cur.len();
        if c == '\n' && n > 0 && cur[n - 1] == '\r' {
            cur.pop();
            lines.push(cur);
            cur = Vec::new();
        } else {
            cur.push(c);
        }
        i = i + 1;
        proof {
            let prev = text_lines(chars@.take(i - 1));
            assert(text_lines(t).len() == lines@.len() + 1);
            assert forall|j: int| 0 <= j < lines@.len() implies #[trigger] lines@[j]@ == text_lines(
                t,
            )[j] by {
                if j < prev.len() - 1 {
                    assert(lines@[j]@ == prev[j]);
                }
            }
        }
    }
    lines.push(cur);
    assert(chars@.take(chars@.len() as int) == chars@);
    lines
}

/// [`white_end`] of `l` from `i`.
pub(crate) fn white_end_of(l: &Vec<char>, i: usize) -> (res: usize)
    requires
        i <= l@.len(),
    ensures
        res == white_end(l@, i as int),
        i <= res <= l@.len(),
{
    let mut k = i;
    while k < l.len() && white_space(l[k])
        invariant
            i <= k <= l@.len(),
            white_end(l@, k as int) == white_end(l@, i as int),
        decreases l@.len() - k,
    {
        k = k + 1;
    }
    k
}

/// [`trimmed_end`] of `l[lo..j]`.
pub(crate) fn trimmed_end_of(l: &Vec<char>, lo: usize, j: usize) -> (res: usize)
    requires
        lo <= j <= l@.len(),
    ensures
        res == trimmed_end(l@, lo as int, j as int),
        lo <= res <= j,
{
    let mut k = j;
    while k > lo && white_space(l[k - 1])
        invariant
            lo <= k <= j <= l@.len(),
            trimmed_end(l@, lo as int, k as int) == trimmed_end(l@, lo as int, j as int),
        decreases k,
    {
        k = k - 1;
    }
    k
}

/// [`find_char`] of `c` in `l` from `i`.
pub(crate) fn find_char_of(l: &Vec<char>, c: char, i: usize) -> (res: usize)
    requires
        i <= l@.len(),
    ensures
        res == find_char(l@, c, i as int),
        i <= res <= l@.len(),
{
    let mut k = i;
    while k < l.len() && l[k] != c
        invariant
            i <= k <= l@.len(),
            find_char(l@, c, k as int) == find_char(l@, c, i as int),
        decreases l@.len() - k,
    {
        k = k + 1;
    }
    k
}

/// [`section_name`] of line `l`.
fn section_name_of(l: &Vec<char>) -> (res: Option<String>)
    ensures
        res is Some <==> section_name(l@) is Some,
        res matches Some(n) ==> n@ == section_name(l@)->0 && n@.len() > 0,
{
    let w = white_end_of(l, 0);
    let e = trimmed_end_of(l, w, l.len());
    if w < l.len() && l[w] == '[' && e - w >= 3 && l[e - 1] == ']' && find_char_of(l, '\n', w + 1)
        >= e - 1 {
        Some(string_of(l.as_slice(), w + 1, e - 1))
    } else {
        None
    }
}

/// [`property_of`] line `l`.
fn property_of_line(l: &Vec<char>) -> (res: Option<(String, String)>)
    ensures
        res is Some <==> property_of(l@) is Some,
        res matches Some(p) ==> p.0@ == (property_of(l@)->0).0 && p.1@ == (property_of(
            l@,
        )->0).1,
{
    let w = white_end_of(l, 0);
    let e = find_char_of(l, '=', 0);
    if e >= l.len() || e == 0 {
        return None;
    }
    let s = if e > w {
        w
    } else {
        e - 1
    };
    let n = find_char_of(l, '\n', e + 1);
    if white_end_of(l, n) == l.len() {
        Some((string_of(l.as_slice(), s, e), string_of(l.as_slice(), e + 1, n)))
    } else {
        None
    }
}

/// Whether line `l` is skipped.
fn skipped(l: &Vec<char>) -> (res: bool)
    ensures
        res == is_skipped(l@),
{
    l.len() == 0 || (l.len() >= 2 && l[0] == '/' && l[1] == '/')
}


/// The table of `file` with the open section `name` (when not empty) holding
/// `entries`.
pub open spec fn open_view(
    file: Seq<(String, IniSection)>,
    name: Seq<char>,
    entries: Seq<(String, String)>,
) -> Map<Seq<char>, Map<Seq<char>, Seq<char>>> {
    if name.len() > 0 {
        sections_view(file).insert(name, entries_view(entries))
    } else {
        sections_view(file)
    }
}

/// Whether no two sections of `s` share a name.
pub open spec fn names_unique(s: Seq<(String, IniSection)>) -> bool {
    forall|i: int, j: int| 0 <= i < s.len() && 0 <= j < s.len() && i != j ==> s[i].0@ != s[j].0@
}

/// The sections that `text` describes, each name once.
fn parse_ini(text: &str) -> (res: Vec<(String, IniSection)>)
    ensures
        sections_view(res@) == ini_of(text@),
        names_unique(res@),
{
    let chars = chars_of(text);
    let lines = split_lines(&chars);
    let ghost all = text_lines(text@);
    let mut file: Vec<(String, IniSection)> = Vec::new();
    let mut cur_name = String::new();
    let mut cur_entries: Vec<(String, String)> = Vec::new();
    let mut k: usize = 0;
    while k < lines.len()
        invariant
            k <= lines@.len(),
            all == text_lines(text@),
            lines@.len() == all.len(),
            forall|i: int| 0 <= i < lines@.len() ==> #[trigger] lines@[i]@ == all[i],
            names_unique(file@),
            cur_name@.len() > 0 ==> forall|j: int| 0 <= j < file@.len() ==> file@[j].0@ != cur_name@,
            ini_fold(all.take(k as int)) == (open_view(file@, cur_name@, cur_entries@), cur_name@),
        decreases lines@.len() - k,
    {
        let line = &lines[k];
        let ghost st = ini_fold(all.take(k as int));
        assert(all.take(k + 1).drop_last() == all.take(k as int));
        assert(all.take(k + 1).last() == line@);
        if skipped(line) {
        } else {
            match section_name_of(line) {
                Some(name) => {
                    let ghost before = open_view(file@, cur_name@, cur_entries@);
                    if !cur_name.as_str().is_empty() {
                        let ghost f0 = file@;
                        let entries = cur_entries;
                        file.push((cur_name, IniSection { entries }));
                        assert(file@.drop_last() == f0);
                        assert(names_unique(file@)) by {
                            assert forall|i: int, j: int|
                                0 <= i < file@.len() && 0 <= j < file@.len() && i != j implies file@[i].0@
                                != file@[j].0@ by {
                                if i < f0.len() && j < f0.len() {
                                    assert(file@[i] == f0[i] && file@[j] == f0[j]);
                                }
                            }
                        }
                    }
                    cur_entries = Vec::new();
                    assert(sections_view(file@) == before);
                    assert(entries_view(cur_entries@) == Map::<Seq<char>, Seq<char>>::empty());
                    cur_name = name;
                    assert(cur_name@.len() > 0);
                    match find_section(&file, &cur_name) {
                        Some(j) => {
                            let ghost f1 = file@;
                            proof {
                                lemma_sections_remove(file@, j as int);
                            }
                            file.remove(j);
                            assert(file@ == f1.remove(j as int));
                            assert(names_unique(file@)) by {
                                assert forall|a: int, b: int|
                                    0 <= a < file@.len() && 0 <= b < file@.len() && a != b implies file@[a].0@
                                    != file@[b].0@ by {
                                    let a1 = if a < j { a } else { a + 1 };
                                    let b1 = if b < j { b } else { b + 1 };
                                    assert(file@[a] == f1[a1] && file@[b] == f1[b1]);
                                }
                            }
                            assert forall|q: int| 0 <= q < file@.len() implies file@[q].0@ != cur_name@ by {
                                let q1 = if q < j { q } else { q + 1 };
                                assert(file@[q] == f1[q1]);
                            }
                            assert(sections_view(file@) == before.remove(cur_name@));
                        },
                        None => {
                            assert(sections_view(file@) == before);
                        },
                    }
                    assert(open_view(file@, cur_name@, cur_entries@) =~= before.insert(
                        cur_name@,
                        Map::empty(),
                    ));
                },
                None => {
                    if !cur_name.as_str().is_empty() {
                        match property_of_line(line) {
                            Some(p) => {
                                let ghost e0 = cur_entries@;
                                cur_entries.push(p);
                                assert(cur_entries@.drop_last() == e0);
                                assert(open_view(file@, cur_name@, cur_entries@) =~= st.0.insert(
                                    st.1,
                                    st.0[st.1].insert(p.0@, p.1@),
                                ));
                            },
                            None => {},
                        }
                    }
                },
            }
        }
        assert(ini_fold(all.take(k + 1)) == ini_step(st, line@));
        k = k + 1;
    }
    let ghost fin = open_view(file@, cur_name@, cur_entries@);
    if !cur_name.as_str().is_empty() {
        let ghost f0 = file@;
        let entries = cur_entries;
        file.push((cur_name, IniSection { entries }));
        assert(file@.drop_last() == f0);
        assert(names_unique(file@)) by {
            assert forall|i: int, j: int|
                0 <= i < file@.len() && 0 <= j < file@.len() && i != j implies file@[i].0@
                != file@[j].0@ by {
                if i < f0.len() && j < f0.len() {
                    assert(file@[i] == f0[i] && file@[j] == f0[j]);
                }
            }
        }
    }
    assert(sections_view(file@) == fin);
    assert(all.take(lines@.len() as int) == all);
    file
}


/// Calls `Vec::shrink_to_fit`, which frees spare capacity and leaves the
/// elements as they are.
#[verifier::external_body]
fn shrink_vec<T>(v: &mut Vec<T>)
    ensures
        final(v)@ == old(v)@,
{
    v.shrink_to_fit()
}

/// Appends copies of the pairs of `src` to `out`.
fn append_entries(out: &mut Vec<(String, String)>, src: &Vec<(String, String)>)
    ensures
        entries_view(final(out)@) == entries_view(old(out)@).union_prefer_right(entries_view(src@)),
{
    let ghost base = entries_view(out@);
    let mut k: usize = 0;
    while k < src.len()
        invariant
            k <= src@.len(),
            entries_view(out@) == base.union_prefer_right(entries_view(src@.take(k as int))),
        decreases src@.len() - k,
    {
        let ghost o0 = out@;
        let key = src[k].0.clone();
        let value = src[k].1.clone();
        out.push((key, value));
        assert(out@.drop_last() == o0);
        assert(src@.take(k + 1).drop_last() == src@.take(k as int));
        assert(entries_view(out@) =~= base.union_prefer_right(entries_view(src@.take(k + 1))));
        k = k + 1;
    }
    assert(src@.take(src@.len() as int) == src@);
}

/// Game data read from INI-style texts: for each section name, a map from
/// property key to value.
#[derive(Debug)]
pub struct DataIni {
    datas: Vec<(String, IniSection)>,
}

impl View for DataIni {
    type V = Map<Seq<char>, Map<Seq<char>, Seq<char>>>;

    closed spec fn view(&self) -> Map<Seq<char>, Map<Seq<char>, Seq<char>>> {
        sections_view(self.datas@)
    }
}

impl Default for DataIni {
    fn default() -> (res: Self)
        ensures
            res@ == Map::<Seq<char>, Map<Seq<char>, Seq<char>>>::empty(),
    {
        DataIni::new()
    }
}

impl DataIni {
    /// An empty table.
    pub fn new() -> (res: Self)
        ensures
            res@ == Map::<Seq<char>, Map<Seq<char>, Seq<char>>>::empty(),
    {
        DataIni { datas: Vec::new() }
    }

    /// Frees spare memory; the table stays the same.
    pub fn fit(&mut self)
        ensures
            final(self)@ == old(self)@,
    {
        shrink_vec(&mut self.datas);
    }

    /// Merges the sections that `text` describes into the table: a section of
    /// `text` replaces the one of the same name, keeping the properties of the
    /// old one that it does not set.
    pub fn merge(&mut self, text: &str)
        ensures
            final(self)@ == merge_tables(old(self)@, ini_of(text@)),
    {
        let file = parse_ini(text);
        let ghost start = self@;
        let mut i: usize = 0;
        while i < file.len()
            invariant
                i <= file@.len(),
                names_unique(file@),
                sections_view(file@) == ini_of(text@),
                start == old(self)@,
                self@ == merge_tables(start, sections_view(file@.take(i as int))),
            decreases file@.len() - i,
        {
            let name = &file[i].0;
            let ghost done = sections_view(file@.take(i as int));
            proof {
                assert forall|j: int| 0 <= j < file@.take(i as int).len() implies file@.take(
                    i as int,
                )[j].0@ != name@ by {
                    assert(file@.take(i as int)[j] == file@[j]);
                }
                lemma_sections_absent(file@.take(i as int), name@);
            }
            let mut merged: Vec<(String, String)> = Vec::new();
            match find_section(&self.datas, name) {
                Some(j) => {
                    proof {
                        lemma_sections_last(self.datas@, j as int);
                    }
                    append_entries(&mut merged, &self.datas[j].1.entries);
                },
                None => {
                    proof {
                        lemma_sections_absent(self.datas@, name@);
                    }
                },
            }
            append_entries(&mut merged, &file[i].1.entries);
            let ghost fv = file@[i as int].1@;
            let ghost mv = if start.contains_key(name@) {
                start[name@].union_prefer_right(fv)
            } else {
                fv
            };
            proof {
                assert(Map::<Seq<char>, Seq<char>>::empty().union_prefer_right(fv) =~= fv);
                if start.contains_key(name@) {
                    assert(Map::<Seq<char>, Seq<char>>::empty().union_prefer_right(start[name@])
                        =~= start[name@]);
                }
                assert(entries_view(merged@) == mv);
            }
            let ghost d0 = self.datas@;
            let ghost s0 = self@;
            let section = IniSection { entries: merged };
            self.datas.push((name.clone(), section));
            proof {
                assert(self.datas@.drop_last() == d0);
                assert(file@.take(i + 1).drop_last() == file@.take(i as int));
                assert(entries_view(Seq::<(String, String)>::empty()) == Map::<
                    Seq<char>,
                    Seq<char>,
                >::empty());
                assert(Map::<Seq<char>, Seq<char>>::empty().union_prefer_right(file@[i as int].1@)
                    =~= file@[i as int].1@);
                assert(self@ == s0.insert(name@, mv));
                assert(sections_view(file@.take(i + 1)) == done.insert(name@, fv));
                assert(self@ =~= merge_tables(start, sections_view(file@.take(i + 1))));
            }
            i = i + 1;
        }
        assert(file@.take(file@.len() as int) == file@);
    }

    /// The properties of section `sector`.
    pub fn get_sector(&self, sector: &str) -> (res: Option<&IniSection>)
        ensures
            res is Some <==> self@.contains_key(sector@),
            res matches Some(s) ==> s@ == self@[sector@],
    {
        let name = String::from_str(sector);
        match find_section(&self.datas, &name) {
            Some(i) => {
                proof {
                    lemma_sections_last(self.datas@, i as int);
                }
                Some(&self.datas[i].1)
            },
            None => {
                proof {
                    lemma_sections_absent(self.datas@, sector@);
                }
                None
            },
        }
    }

    /// The value of property `id` of section `sector`.
    pub fn get_prop(&self, sector: &str, id: &str) -> (res: Option<&String>)
        ensures
            res is Some <==> self@.contains_key(sector@) && self@[sector@].contains_key(id@),
            res matches Some(v) ==> v@ == self@[sector@][id@],
    {
        match self.get_sector(sector) {
            Some(s) => s.get(id),
            None => None,
        }
    }
}

} // verus!
