//! Custom trigger scripts of `war3map.wct`: a global comment and script
//! (from The Frozen Throne on) and one script per trigger.

use vstd::prelude::*;
use vstd::utf8::{decode_utf8, encode_utf8, valid_utf8};

use crate::formats::binary_reader::{c_string_bytes, u32_at, BinaryReader};
use crate::formats::binary_writer::{lemma_write_at_concat, write_at, BinaryWriter};
use crate::formats::encoding::{le_bytes_u32, lemma_u32_roundtrip};
use crate::formats::binary_reader::nul_index;
use crate::formats::{decimal_text, text_with_number, GameVersion, MpqError, ReadError, WriteError};
use crate::map::triggers::trigger_data::{c_string_at, c_text_ok, has_bytes};

verus! {

/// Errors of the custom trigger scripts file.
#[derive(Debug)]
pub enum TriggerJassError {
    MpqError(MpqError),
    InitReader(ReadError),
    Parsing(ReadError),
}

/// The content of the file: version, global comment and script, and the
/// script of each trigger.
pub type JassView = (GameVersion, Seq<char>, Seq<char>, Seq<Seq<char>>);

/// The custom trigger scripts of a map.
#[derive(Debug)]
pub struct TriggerJassFile {
    pub version: GameVersion,
    pub global_comment: String,
    pub global_script: String,
    pub triggers_script: Vec<String>,
}

impl View for TriggerJassFile {
    type V = JassView;

    open spec fn view(&self) -> JassView {
        (
            self.version,
            self.global_comment@,
            self.global_script@,
            self.triggers_script@.map_values(|s: String| s@),
        )
    }
}

/// The game version of the stored code `n`: 0 for Reign of Chaos, 1 for The
/// Frozen Throne.
pub open spec fn jass_version_of(n: u32) -> Option<GameVersion> {
    if n == 0 {
        Some(GameVersion::RoC)
    } else if n == 1 {
        Some(GameVersion::TFT)
    } else {
        None
    }
}

/// The message for an unknown version code `n`.
pub open spec fn unknown_version(n: u32) -> Seq<char> {
    "Unknown or unsupported game version '"@ + decimal_text(n as nat) + "'"@
}

/// The text of the `n` UTF-8 bytes at `p` in `d`, if they are there.
pub open spec fn utf8_at(d: Seq<u8>, p: int, n: int) -> Option<Seq<char>> {
    if has_bytes(d, p, n) && valid_utf8(d.subrange(p, p + n)) {
        Some(decode_utf8(d.subrange(p, p + n)))
    } else {
        None
    }
}

/// The first `n` length-prefixed scripts stored from `p` in `d`, and where
/// they end.
pub open spec fn jass_scripts(d: Seq<u8>, p: int, n: nat) -> Option<(Seq<Seq<char>>, int)>
    decreases n,
{
    if n == 0 {
        Some((Seq::empty(), p))
    } else {
        match jass_scripts(d, p, (n - 1) as nat) {
            Some((s, q)) => if has_bytes(d, q, 4) {
                match utf8_at(d, q + 4, u32_at(d, q) as int) {
                    Some(t) => Some((s.push(t), q + 4 + u32_at(d, q))),
                    None => None,
                }
            } else {
                None
            },
            None => None,
        }
    }
}

/// The file stored from `p` in `d`, and where it ends.
pub open spec fn jass_decode(d: Seq<u8>, p: int) -> Option<(JassView, int)> {
    if !has_bytes(d, p, 4) {
        None
    } else {
        match jass_version_of(u32_at(d, p)) {
            None => None,
            Some(v) => {
                let header = if v == GameVersion::RoC {
                    Some((Seq::<char>::empty(), Seq::<char>::empty(), p + 4))
                } else {
                    match c_string_at(d, p + 4) {
                        None => None,
                        Some((comment, p1)) => if has_bytes(d, p1, 4) {
                            match utf8_at(d, p1 + 4, u32_at(d, p1) as int) {
                                Some(script) => Some((comment, script, p1 + 4 + u32_at(d, p1))),
                                None => None,
                            }
                        } else {
                            None
                        },
                    }
                };
                match header {
                    None => None,
                    Some((comment, script, q)) => if has_bytes(d, q, 4) {
                        match jass_scripts(d, q + 4, u32_at(d, q) as nat) {
                            Some((scripts, e)) => Some(((v, comment, script, scripts), e)),
                            None => None,
                        }
                    } else {
                        None
                    },
                }
            },
        }
    }
}

/// The layout of the custom script file: its version as a little-endian
/// word; past Reign of Chaos, the global comment as a NUL-terminated text,
/// then the global script as its byte length and its UTF-8 bytes; then the
/// count of trigger scripts, each stored as its byte length and its bytes.
pub proof fn law_jass_layout(d: Seq<u8>, p: int)
    ensures
        jass_decode(d, p) matches Some((x, _)) ==> {
            &&& jass_version_of(u32_at(d, p)) == Some(x.0)
            &&& x.0 == GameVersion::RoC ==> x.1.len() == 0 && x.2.len() == 0
            &&& x.0 != GameVersion::RoC ==> (c_string_at(d, p + 4) matches Some((comment, q)) && x.1
                == comment && utf8_at(d, q + 4, u32_at(d, q) as int) == Some(x.2))
        },
{
}

/// The bytes that store the script `s`: its UTF-8 length, then its bytes.
pub open spec fn script_bytes(s: Seq<char>) -> Seq<u8> {
    le_bytes_u32(encode_utf8(s).len() as u32) + encode_utf8(s)
}

/// The bytes that store the scripts `s`, one after the other.
pub open spec fn scripts_bytes(s: Seq<Seq<char>>) -> Seq<u8>
    decreases s.len(),
{
    if s.len() == 0 {
        Seq::empty()
    } else {
        scripts_bytes(s.drop_last()) + script_bytes(s.last())
    }
}

/// The code of version `v` in the file.
pub open spec fn jass_version_code(v: GameVersion) -> u32 {
    if v == GameVersion::RoC {
        0
    } else {
        1
    }
}

/// The custom script file stores Reign of Chaos as version 0 and The Frozen
/// Throne as 1, and knows no other; the version is the little-endian word
/// that starts the file.
pub proof fn law_jass_versions(code: u32, x: JassView)
    ensures
        jass_version_of(code) == if code == 0 {
            Some(GameVersion::RoC)
        } else if code == 1 {
            Some(GameVersion::TFT)
        } else {
            None::<GameVersion>
        },
        x.0 != GameVersion::Reforged ==> jass_bytes(x).subrange(0, 4) == le_bytes_u32(
            if x.0 == GameVersion::RoC {
                0u32
            } else {
                1u32
            },
        ),
{
    assert(jass_bytes(x).subrange(0, 4) =~= le_bytes_u32(jass_version_code(x.0)));
}

/// The bytes that store the file `x`.
pub open spec fn jass_bytes(x: JassView) -> Seq<u8> {
    le_bytes_u32(jass_version_code(x.0)) + if x.0 == GameVersion::RoC {
        Seq::empty()
    } else {
        c_string_bytes(x.1) + script_bytes(x.2)
    } + le_bytes_u32(x.3.len() as u32) + scripts_bytes(x.3)
}


/// The game version of the stored code `value`; an unknown one fails with
/// its message.
fn to_game_version(value: u32) -> (res: Result<GameVersion, String>)
    ensures
        match jass_version_of(value) {
            Some(v) => res == Ok::<GameVersion, String>(v),
            None => res matches Err(m) && m@ == unknown_version(value),
        },
{
    match value {
        0 => Ok(GameVersion::RoC),
        1 => Ok(GameVersion::TFT),
        _ => {
            let mut m = text_with_number("Unknown or unsupported game version '", value as u64);
            m.append("'");
            Err(m)
        },
    }
}

impl TriggerJassFile {
    /// Name of the file in the map archive.
    pub const FILE_NAME: &'static str = "war3map.wct";

    /// Reads the file, which fills the buffer from the cursor to its end (see
    /// [`TriggerJassFile::read_fields`]).
    pub fn read(reader: &mut BinaryReader) -> (res: Result<Self, ReadError>)
        requires
            old(reader).wf(),
            jass_decode(old(reader).contents(), old(reader).position() as int) matches Some((_, e))
                ==> e == old(reader).contents().len(),
        ensures
            final(reader).wf(),
            final(reader).contents() == old(reader).contents(),
            match jass_decode(old(reader).contents(), old(reader).position() as int) {
                Some((v, e)) => res matches Ok(x) && x@ == v && e == old(reader).contents().len(),
                None => res is Err,
            },
    {
        Self::read_fields(reader)
    }

    /// Reads the file: version, then, from The Frozen Throne on, the global
    /// comment and script, then the length-prefixed script of each trigger.
    /// An unknown version fails with [`ReadError::Reason`].
    #[verifier::loop_isolation(false)]
    pub fn read_fields(reader: &mut BinaryReader) -> (res: Result<Self, ReadError>)
        requires
            old(reader).wf(),
        ensures
            final(reader).wf(),
            final(reader).contents() == old(reader).contents(),
            match jass_decode(old(reader).contents(), old(reader).position() as int) {
                Some((v, e)) => res matches Ok(x) && x@ == v && final(reader).position() == e,
                None => res is Err,
            },
            ({
                let d = old(reader).contents();
                let p = old(reader).position() as int;
                has_bytes(d, p, 4) && jass_version_of(u32_at(d, p)) is None ==> (res matches Err(
                    ReadError::Reason(m),
                ) && m@ == unknown_version(u32_at(d, p)))
            }),
    {
        let ghost d = reader.contents();
        let ghost p0 = reader.position() as int;
        let code = match reader.read_u32() {
            Ok(c) => c,
            Err(e) => {
                return Err(e);
            },
        };
        let version = match to_game_version(code) {
            Ok(v) => v,
            Err(m) => {
                return Err(ReadError::Reason(m));
            },
        };
        let mut global_comment = String::new();
        let mut global_script = String::new();
        match version {
            GameVersion::RoC => {},
            _ => {
                global_comment = match reader.read_c_string_converted() {
                    Ok(t) => t,
                    Err(e) => {
                        return Err(e);
                    },
                };
                let ghost p1 = reader.position() as int;
                assert(c_string_at(d, p0 + 4) == Some((global_comment@, p1)));
                let n = match reader.read_u32() {
                    Ok(n) => n,
                    Err(e) => {
                        return Err(e);
                    },
                };
                global_script = match reader.read_string_utf8(n as usize) {
                    Ok(t) => t,
                    Err(e) => {
                        return Err(e);
                    },
                };
            },
        }
        let ghost q = reader.position() as int;
        assert(version == GameVersion::RoC ==> global_comment@ == Seq::<char>::empty()
            && global_script@ == Seq::<char>::empty());
        let count = match reader.read_u32() {
            Ok(n) => n,
            Err(e) => {
                return Err(e);
            },
        };
        let mut triggers_script: Vec<String> = Vec::new();
        let mut k: u32 = 0;
        while k < count
            invariant
                reader.wf(),
                reader.contents() == d,
                k <= count,
                jass_scripts(d, q + 4, k as nat) == Some(
                    (
                        triggers_script@.map_values(|s: String| s@),
                        reader.position() as int,
                    ),
                ),
            decreases count - k,
        {
            let ghost r = reader.position() as int;
            let length = match reader.read_u32() {
                Ok(n) => n,
                Err(e) => {
                    proof {
                        assert(jass_scripts(d, q + 4, (k + 1) as nat) is None);
                        lemma_scripts_none(d, q + 4, (k + 1) as nat, count as nat);
                    }
                    return Err(e);
                },
            };
            let script = if length == 0 {
                assert(d.subrange(r + 4, r + 4) =~= Seq::<u8>::empty());
                assert(decode_utf8(Seq::<u8>::empty()) =~= Seq::<char>::empty());
                String::new()
            } else {
                match reader.read_string_utf8(length as usize) {
                    Ok(t) => t,
                    Err(e) => {
                        proof {
                            assert(jass_scripts(d, q + 4, (k + 1) as nat) is None);
                            lemma_scripts_none(d, q + 4, (k + 1) as nat, count as nat);
                        }
                        return Err(e);
                    },
                }
            };
            let ghost before = triggers_script@;
            triggers_script.push(script);
            assert(triggers_script@.map_values(|s: String| s@) =~= before.map_values(|s: String| s@).push(
                script@,
            ));
            k = k + 1;
        }
        let res = TriggerJassFile { version, global_comment, global_script, triggers_script };
        assert(res@ == (jass_decode(d, p0)->0).0);
        Ok(res)
    }
}

proof fn lemma_scripts_none(d: Seq<u8>, p: int, k: nat, n: nat)
    requires
        k <= n,
        jass_scripts(d, p, k) is None,
    ensures
        jass_scripts(d, p, n) is None,
    decreases n - k,
{
    if k < n {
        lemma_scripts_none(d, p, k + 1, n);
    }
}


proof fn lemma_scripts_prefix(s: Seq<Seq<char>>, k: int)
    requires
        0 <= k <= s.len(),
    ensures
        scripts_bytes(s.take(k)).len() <= scripts_bytes(s).len(),
    decreases s.len(),
{
    if k < s.len() {
        lemma_scripts_prefix(s.drop_last(), k);
        assert(s.drop_last().take(k) == s.take(k));
    } else {
        assert(s.take(k) == s);
    }
}

impl TriggerJassFile {
    /// Writes the file; fails, with a [`WriteError`], when the global comment
    /// of a The Frozen Throne file holds a NUL.
    pub fn write(&self, writer: &mut BinaryWriter) -> (res: Result<(), WriteError>)
        requires
            old(writer).has_room(jass_bytes(self@).len() as int),
            self.version != GameVersion::Reforged,
        ensures
            (self.version == GameVersion::RoC || c_text_ok(self.global_comment@)) ==> (res is Ok
                && final(writer).contents() == write_at(
                old(writer).contents(),
                old(writer).position() as int,
                jass_bytes(self@),
            ) && final(writer).position() == old(writer).position() + jass_bytes(self@).len()),
            !(self.version == GameVersion::RoC || c_text_ok(self.global_comment@)) ==> res is Err,
    {
        let ghost c0 = writer.contents();
        let ghost p0 = writer.position() as int;
        let ghost x = self@;
        let ghost a = le_bytes_u32(jass_version_code(self.version));
        let ghost b = if x.0 == GameVersion::RoC {
            Seq::<u8>::empty()
        } else {
            c_string_bytes(x.1) + script_bytes(x.2)
        };
        let ghost c = le_bytes_u32(x.3.len() as u32);
        let ghost s = x.3;
        assert(jass_bytes(x) == a + b + c + scripts_bytes(s));
        let code: u32 = match self.version {
            GameVersion::RoC => 0,
            _ => 1,
        };
        let _ = writer.write_u32(code);
        match self.version {
            GameVersion::RoC => {},
            _ => {
                match writer.write_c_string_converted(self.global_comment.as_str()) {
                    Ok(()) => {},
                    Err(e) => {
                        return Err(e);
                    },
                }
                proof {
                    lemma_write_at_concat(c0, p0, a, c_string_bytes(x.1));
                }
                let script = self.global_script.as_str();
                let n = script.len();
                let _ = writer.write_u32(n as u32);
                proof {
                    lemma_write_at_concat(c0, p0, a + c_string_bytes(x.1), le_bytes_u32(n as u32));
                }
                let _ = writer.write_string_utf8(script);
                proof {
                    lemma_write_at_concat(
                        c0,
                        p0,
                        a + c_string_bytes(x.1) + le_bytes_u32(n as u32),
                        encode_utf8(x.2),
                    );
                    assert(a + c_string_bytes(x.1) + le_bytes_u32(n as u32) + encode_utf8(x.2) =~= a
                        + b);
                }
            },
        }
        let count = self.triggers_script.len() as u32;
        let _ = writer.write_u32(count);
        proof {
            lemma_write_at_concat(c0, p0, a + b, c);
        }
        let ghost head = a + b + c;
        let mut k: usize = 0;
        while k < self.triggers_script.len()
            invariant
                k <= s.len(),
                s == self.triggers_script@.map_values(|t: String| t@),
                s.len() == self.triggers_script@.len(),
                0 <= p0,
                p0 + head.len() + scripts_bytes(s).len() <= usize::MAX,
                writer.contents() == write_at(c0, p0, head + scripts_bytes(s.take(k as int))),
                writer.position() == p0 + head.len() + scripts_bytes(s.take(k as int)).len(),
            decreases s.len() - k,
        {
            proof {
                lemma_scripts_prefix(s, k + 1);
                assert(s.take(k + 1).drop_last() == s.take(k as int));
                assert(s.take(k + 1).last() == s[k as int]);
            }
            let script = self.triggers_script[k].as_str();
            assert(script@ == s[k as int]);
            let n = script.len();
            let _ = writer.write_u32(n as u32);
            proof {
                lemma_write_at_concat(
                    c0,
                    p0,
                    head + scripts_bytes(s.take(k as int)),
                    le_bytes_u32(n as u32),
                );
            }
            if !script.is_empty() {
                let _ = writer.write_string_utf8(script);
            }
            proof {
                if script@.len() == 0 {
                    assert(encode_utf8(script@) =~= Seq::<u8>::empty());
                }
                lemma_write_at_concat(
                    c0,
                    p0,
                    head + scripts_bytes(s.take(k as int)) + le_bytes_u32(n as u32),
                    encode_utf8(script@),
                );
                assert(head + scripts_bytes(s.take(k + 1)) =~= head + scripts_bytes(
                    s.take(k as int),
                ) + le_bytes_u32(n as u32) + encode_utf8(script@));
            }
            k = k + 1;
        }
        assert(s.take(s.len() as int) == s);
        Ok(())
    }
}


pub(crate) proof fn lemma_u32_in(d: Seq<u8>, q: int, v: u32)
    requires
        0 <= q,
        q + 4 <= d.len(),
        d.subrange(q, q + 4) == le_bytes_u32(v),
    ensures
        u32_at(d, q) == v,
{
    lemma_u32_roundtrip(v);
    assert(d[q] == d.subrange(q, q + 4)[0]);
    assert(d[q + 1] == d.subrange(q, q + 4)[1]);
    assert(d[q + 2] == d.subrange(q, q + 4)[2]);
    assert(d[q + 3] == d.subrange(q, q + 4)[3]);
}

pub(crate) proof fn lemma_nul_after(d: Seq<u8>, p: int, m: int)
    requires
        0 <= p,
        0 <= m,
        p + m < d.len(),
        forall|i: int| p <= i < p + m ==> d[i] != 0,
        d[p + m] == 0,
    ensures
        nul_index(d, p) == p + m,
    decreases m,
{
    if m > 0 {
        lemma_nul_after(d, p + 1, m - 1);
    }
}

pub(crate) proof fn lemma_c_string_in(d: Seq<u8>, p: int, t: Seq<char>)
    requires
        0 <= p,
        p + c_string_bytes(t).len() <= d.len(),
        d.subrange(p, p + c_string_bytes(t).len()) == c_string_bytes(t),
        c_text_ok(t),
    ensures
        c_string_at(d, p) == Some((t, p + c_string_bytes(t).len())),
{
    broadcast use vstd::utf8::encode_utf8_valid_utf8, vstd::utf8::encode_utf8_decode_utf8;

    let e = encode_utf8(t);
    let m = e.len() as int;
    assert forall|i: int| p <= i < p + m implies d[i] != 0 by {
        assert(d[i] == d.subrange(p, p + m + 1)[i - p]);
        assert(d[i] == e[i - p]);
        if d[i] == 0 {
            assert(e.contains(0u8));
        }
    }
    assert(d[p + m] == d.subrange(p, p + m + 1)[m]);
    lemma_nul_after(d, p, m);
    assert(d.subrange(p, p + m) =~= e);
}

proof fn lemma_utf8_in(d: Seq<u8>, q: int, t: Seq<char>)
    requires
        0 <= q,
        q + encode_utf8(t).len() <= d.len(),
        d.subrange(q, q + encode_utf8(t).len()) == encode_utf8(t),
    ensures
        utf8_at(d, q, encode_utf8(t).len() as int) == Some(t),
{
    broadcast use vstd::utf8::encode_utf8_valid_utf8, vstd::utf8::encode_utf8_decode_utf8;

}

proof fn lemma_scripts_in(d: Seq<u8>, p: int, s: Seq<Seq<char>>)
    requires
        0 <= p,
        p + scripts_bytes(s).len() <= d.len(),
        d.subrange(p, p + scripts_bytes(s).len()) == scripts_bytes(s),
        forall|i: int| 0 <= i < s.len() ==> encode_utf8(#[trigger] s[i]).len() <= u32::MAX,
    ensures
        jass_scripts(d, p, s.len()) == Some((s, p + scripts_bytes(s).len())),
    decreases s.len(),
{
    if s.len() > 0 {
        let t = s.drop_last();
        let last = s.last();
        let a = scripts_bytes(t);
        let e = encode_utf8(last);
        let q = p + a.len();
        assert(scripts_bytes(s) == a + script_bytes(last));
        assert(d.subrange(p, p + a.len()) =~= a) by {
            assert(d.subrange(p, p + a.len()) =~= d.subrange(p, p + scripts_bytes(s).len()).subrange(
                0,
                a.len() as int,
            ));
        }
        assert forall|i: int| 0 <= i < t.len() implies encode_utf8(#[trigger] t[i]).len() <= u32::MAX by {
            assert(t[i] == s[i]);
        }
        lemma_scripts_in(d, p, t);
        assert(encode_utf8(s[s.len() - 1]).len() <= u32::MAX);
        assert(d.subrange(q, q + 4) =~= le_bytes_u32(e.len() as u32)) by {
            assert(d.subrange(q, q + 4) =~= d.subrange(p, p + scripts_bytes(s).len()).subrange(
                a.len() as int,
                a.len() + 4int,
            ));
        }
        lemma_u32_in(d, q, e.len() as u32);
        assert(d.subrange(q + 4, q + 4 + e.len()) =~= e) by {
            assert(d.subrange(q + 4, q + 4 + e.len()) =~= d.subrange(
                p,
                p + scripts_bytes(s).len(),
            ).subrange(a.len() + 4int, a.len() + 4int + e.len()));
        }
        lemma_utf8_in(d, q + 4, last);
        assert(t.push(last) == s);
    }
}

/// The file that reading gives back of `x`: a file of Reign of Chaos stores
/// no global comment nor script.
pub open spec fn stored_view(x: JassView) -> JassView {
    if x.0 == GameVersion::RoC {
        (x.0, Seq::empty(), Seq::empty(), x.3)
    } else {
        x
    }
}

/// Reading back the bytes that [`TriggerJassFile::write`] stores gives the
/// file again, up to the comment and script that Reign of Chaos does not
/// store, and ends at the end of the bytes; for a file of Reign of Chaos or
/// The Frozen Throne whose global comment, when stored, holds no NUL and
/// whose stored lengths fit in a `u32`.
#[verifier::rlimit(40)]
#[verifier::spinoff_prover]
pub proof fn law_jass_write_read(x: JassView)
    requires
        x.0 != GameVersion::Reforged,
        x.0 != GameVersion::RoC ==> c_text_ok(x.1),
        encode_utf8(x.2).len() <= u32::MAX,
        x.3.len() <= u32::MAX,
        forall|i: int| 0 <= i < x.3.len() ==> encode_utf8(#[trigger] x.3[i]).len() <= u32::MAX,
    ensures
        jass_decode(jass_bytes(x), 0) == Some((stored_view(x), jass_bytes(x).len() as int)),
{
    let d = jass_bytes(x);
    let a = le_bytes_u32(jass_version_code(x.0));
    let b = if x.0 == GameVersion::RoC {
        Seq::<u8>::empty()
    } else {
        c_string_bytes(x.1) + script_bytes(x.2)
    };
    let c = le_bytes_u32(x.3.len() as u32);
    let sb = scripts_bytes(x.3);
    assert(d == a + b + c + sb);
    assert(d.subrange(0, 4) =~= a);
    lemma_u32_in(d, 0, jass_version_code(x.0));
    let q: int = 4 + b.len() as int;
    if x.0 != GameVersion::RoC {
        let cs = c_string_bytes(x.1);
        let e = encode_utf8(x.2);
        let cl = cs.len() as int;
        assert(d.subrange(4, 4 + cl) =~= cs);
        lemma_c_string_in(d, 4, x.1);
        let p1: int = 4 + cl;
        assert(d.subrange(p1, p1 + 4) =~= le_bytes_u32(e.len() as u32));
        lemma_u32_in(d, p1, e.len() as u32);
        assert(d.subrange(p1 + 4, p1 + 4 + e.len()) =~= e);
        lemma_utf8_in(d, p1 + 4, x.2);
        assert(q == p1 + 4 + e.len());
    }
    assert(d.subrange(q, q + 4) =~= c);
    lemma_u32_in(d, q, x.3.len() as u32);
    assert(d.subrange(q + 4, q + 4 + sb.len()) =~= sb);
    lemma_scripts_in(d, q + 4, x.3);
}

} // verus!
