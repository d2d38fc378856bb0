//! Sounds of the map (`war3map.w3s`).

use vstd::prelude::*;
use vstd::utf8::encode_utf8;

use crate::formats::binary_reader::{c_string_bytes, u32_at, BinaryReader};
use crate::formats::binary_writer::{lemma_write_at_concat, write_at, BinaryWriter};
use crate::formats::encoding::le_bytes_u32;
use crate::formats::{MpqError, ReadError, WriteError};
use crate::map::error::MapError;
use crate::map::field_roundtrip::{field_reads, kinds, lemma_fields_in, lemma_seq_in, value_ok, values_bytes, FieldValue};
use crate::map::trigger_jass_file::lemma_u32_in;
use crate::map::triggers::trigger_data::{c_text_ok, has_bytes};
use crate::map::unit_map::{lemma_seq_bytes_prefix, lemma_seq_end_none, seq_bytes, seq_end, seq_read};
use crate::map::triggers::trigger_data::c_string_at;
use crate::map::w3i_file::{
    counted_end, counted_read, fields_end, lemma_field_step, lemma_word_run, read_text, read_word, text_field,
    word_field, FieldKind,
};

verus! {

/// The bits of the IEEE 754 single precision number 2^32, the default of
/// the unset real fields of a sound.
pub const DEFAULT_FLOAT: u32 = 0x4F80_0000;

/// Errors of the sounds file.
#[derive(Debug)]
pub enum SoundError {
    MpqError(MpqError),
    InitReader(ReadError),
    Parsing(ReadError),
}

/// A sound of the map. Real numbers are held as the bits of their IEEE 754
/// single precision encoding, which is how the file stores them; the five
/// booleans are the low bits of the stored flags.
#[derive(Debug, PartialEq)]
pub struct Sound {
    pub id: String,
    pub file: String,
    pub effect: String,
    pub flags: i32,
    pub looping: bool,
    pub sound_3d: bool,
    pub stop_oof: bool,
    pub music: bool,
    pub unknown_flag: bool,
    pub fadein: i32,
    pub fadeout: i32,
    pub volume: i32,
    pub pitch: u32,
    pub unknown1: u32,
    pub unknown2: i32,
    pub channel: i32,
    pub min_dist: u32,
    pub max_dist: u32,
    pub dist_cutoff: u32,
    pub unknown3: u32,
    pub unknown4: u32,
    pub unknown5: i32,
    pub unknown6: u32,
    pub unknown7: u32,
    pub unknown8: u32,
}

/// How a sound is stored: three texts, then seventeen words.
pub open spec fn sound_layout() -> Seq<FieldKind> {
    seq![FieldKind::Text, FieldKind::Text, FieldKind::Text, FieldKind::Word, FieldKind::Word, FieldKind::Word, FieldKind::Word, FieldKind::Word, FieldKind::Word, FieldKind::Word, FieldKind::Word, FieldKind::Word, FieldKind::Word, FieldKind::Word, FieldKind::Word, FieldKind::Word, FieldKind::Word, FieldKind::Word, FieldKind::Word, FieldKind::Word]
}

/// Whether `x` is the sound stored at `q`.
pub open spec fn sound_at(d: Seq<u8>, q: int, x: Sound) -> bool {
    let l = sound_layout();
    &&& fields_end(d, q, l) is Some
    &&& x.id@ == text_field(d, q, l, 0)
    &&& x.file@ == text_field(d, q, l, 1)
    &&& x.effect@ == text_field(d, q, l, 2)
    &&& x.flags == word_field(d, q, l, 3) as i32
    &&& x.fadein == word_field(d, q, l, 4) as i32
    &&& x.fadeout == word_field(d, q, l, 5) as i32
    &&& x.volume == word_field(d, q, l, 6) as i32
    &&& x.pitch == word_field(d, q, l, 7)
    &&& x.unknown1 == word_field(d, q, l, 8)
    &&& x.unknown2 == word_field(d, q, l, 9) as i32
    &&& x.channel == word_field(d, q, l, 10) as i32
    &&& x.min_dist == word_field(d, q, l, 11)
    &&& x.max_dist == word_field(d, q, l, 12)
    &&& x.dist_cutoff == word_field(d, q, l, 13)
    &&& x.unknown3 == word_field(d, q, l, 14)
    &&& x.unknown4 == word_field(d, q, l, 15)
    &&& x.unknown5 == word_field(d, q, l, 16) as i32
    &&& x.unknown6 == word_field(d, q, l, 17)
    &&& x.unknown7 == word_field(d, q, l, 18)
    &&& x.unknown8 == word_field(d, q, l, 19)
    &&& x.looping == (x.flags & 1i32 == 1i32)
    &&& x.sound_3d == (x.flags & 2i32 == 2i32)
    &&& x.stop_oof == (x.flags & 4i32 == 4i32)
    &&& x.music == (x.flags & 8i32 == 8i32)
    &&& x.unknown_flag == (x.flags & 16i32 == 16i32)
}

/// The layout of a sound in the sounds file: its id, file and effect as
/// NUL-terminated UTF-8 texts one after the other from byte 0; right after
/// the effect's NUL, seventeen little-endian words: the flags, fade in, fade
/// out, volume, pitch, an unknown word, another unknown word, the channel,
/// the minimum and maximum distances, the distance cutoff and six unknown
/// words, in this order.
pub proof fn law_sound_layout(d: Seq<u8>, q: int, x: Sound)
    requires
        sound_at(d, q, x),
    ensures
        c_string_at(d, q) matches Some((id, e1)) && {
            &&& x.id@ == id
            &&& c_string_at(d, e1) matches Some((file, e2)) && {
                &&& x.file@ == file
                &&& c_string_at(d, e2) matches Some((effect, e)) && {
                    &&& x.effect@ == effect
                    &&& x.flags == u32_at(d, e) as i32
                    &&& x.fadein == u32_at(d, e + 4) as i32
                    &&& x.fadeout == u32_at(d, e + 8) as i32
                    &&& x.volume == u32_at(d, e + 12) as i32
                    &&& x.pitch == u32_at(d, e + 16)
                    &&& x.unknown1 == u32_at(d, e + 20)
                    &&& x.unknown2 == u32_at(d, e + 24) as i32
                    &&& x.channel == u32_at(d, e + 28) as i32
                    &&& x.min_dist == u32_at(d, e + 32)
                    &&& x.max_dist == u32_at(d, e + 36)
                    &&& x.dist_cutoff == u32_at(d, e + 40)
                    &&& x.unknown3 == u32_at(d, e + 44)
                    &&& x.unknown4 == u32_at(d, e + 48)
                    &&& x.unknown5 == u32_at(d, e + 52) as i32
                    &&& x.unknown6 == u32_at(d, e + 56)
                    &&& x.unknown7 == u32_at(d, e + 60)
                    &&& x.unknown8 == u32_at(d, e + 64)
                }
            }
        },
{
    let l = sound_layout();
    assert(l.take(0) =~= Seq::<FieldKind>::empty());
    lemma_field_step(d, q, l, 1);
    lemma_field_step(d, q, l, 2);
    lemma_field_step(d, q, l, 3);
    lemma_word_run(d, q, l, 3, 17);
    let e = fields_end(d, q, l.take(3))->0;
    assert(fields_end(d, q, l.take(4)) == Some(e + 4));
    assert(fields_end(d, q, l.take(5)) == Some(e + 8));
    assert(fields_end(d, q, l.take(6)) == Some(e + 12));
    assert(fields_end(d, q, l.take(7)) == Some(e + 16));
    assert(fields_end(d, q, l.take(8)) == Some(e + 20));
    assert(fields_end(d, q, l.take(9)) == Some(e + 24));
    assert(fields_end(d, q, l.take(10)) == Some(e + 28));
    assert(fields_end(d, q, l.take(11)) == Some(e + 32));
    assert(fields_end(d, q, l.take(12)) == Some(e + 36));
    assert(fields_end(d, q, l.take(13)) == Some(e + 40));
    assert(fields_end(d, q, l.take(14)) == Some(e + 44));
    assert(fields_end(d, q, l.take(15)) == Some(e + 48));
    assert(fields_end(d, q, l.take(16)) == Some(e + 52));
    assert(fields_end(d, q, l.take(17)) == Some(e + 56));
    assert(fields_end(d, q, l.take(18)) == Some(e + 60));
    assert(fields_end(d, q, l.take(19)) == Some(e + 64));
    assert(fields_end(d, q, l.take(20)) == Some(e + 68));
}

/// The flags that the booleans of `x` make.
pub open spec fn sound_flags(x: Sound) -> i32 {
    0i32 | (if x.looping {
        1i32
    } else {
        0i32
    }) | (if x.sound_3d {
        2i32
    } else {
        0i32
    }) | (if x.stop_oof {
        4i32
    } else {
        0i32
    }) | (if x.music {
        8i32
    } else {
        0i32
    }) | (if x.unknown_flag {
        16i32
    } else {
        0i32
    })
}

/// The bytes that store sound `x`: the flags are made from its booleans.
pub open spec fn sound_bytes(x: Sound) -> Seq<u8> {
    c_string_bytes(x.id@) + c_string_bytes(x.file@) + c_string_bytes(x.effect@) + le_bytes_u32(
        sound_flags(x) as u32,
    ) + le_bytes_u32(x.fadein as u32) + le_bytes_u32(x.fadeout as u32) + le_bytes_u32(x.volume as u32) + le_bytes_u32(x.pitch) + le_bytes_u32(x.unknown1) + le_bytes_u32(x.unknown2 as u32) + le_bytes_u32(x.channel as u32) + le_bytes_u32(x.min_dist) + le_bytes_u32(x.max_dist) + le_bytes_u32(x.dist_cutoff) + le_bytes_u32(x.unknown3) + le_bytes_u32(x.unknown4) + le_bytes_u32(x.unknown5 as u32) + le_bytes_u32(x.unknown6) + le_bytes_u32(x.unknown7) + le_bytes_u32(x.unknown8)
}

/// Whether sound `x` can be written: its texts hold no NUL.
pub open spec fn sound_writable(x: Sound) -> bool {
    c_text_ok(x.id@) && c_text_ok(x.file@) && c_text_ok(x.effect@)
}

/// [`sound_bytes`] as a function.
pub open spec fn sound_bytes_of() -> spec_fn(Sound) -> Seq<u8> {
    |x: Sound| sound_bytes(x)
}

/// Where the sounds stored from a position end.
pub open spec fn sound_ends(d: Seq<u8>) -> spec_fn(int) -> Option<int> {
    |q: int| fields_end(d, q, sound_layout())
}

/// Where reading sound `x` from a position ends.
pub open spec fn sound_reads(d: Seq<u8>) -> spec_fn(int, Sound) -> Option<int> {
    |q: int, x: Sound| if sound_at(d, q, x) {
        fields_end(d, q, sound_layout())
    } else {
        None
    }
}

impl Default for Sound {
    fn default() -> (res: Self)
        ensures
            res.id@.len() == 0 && res.file@.len() == 0 && res.effect@.len() == 0,
            res.flags == 0 && !res.looping && !res.sound_3d && !res.stop_oof && !res.music
                && !res.unknown_flag,
            res.fadein == 0 && res.fadeout == 0 && res.volume == 0 && res.unknown2 == 0
                && res.channel == 0 && res.unknown5 == 0,
            res.pitch == DEFAULT_FLOAT && res.unknown1 == DEFAULT_FLOAT && res.min_dist
                == DEFAULT_FLOAT && res.max_dist == DEFAULT_FLOAT && res.unknown6 == DEFAULT_FLOAT
                && res.unknown7 == DEFAULT_FLOAT && res.unknown8 == DEFAULT_FLOAT,
            res.dist_cutoff == 0 && res.unknown3 == 0 && res.unknown4 == 0,
    {
        Sound {
            id: String::new(),
            file: String::new(),
            effect: String::new(),
            flags: 0,
            looping: false,
            sound_3d: false,
            stop_oof: false,
            music: false,
            unknown_flag: false,
            fadein: 0,
            fadeout: 0,
            volume: 0,
            pitch: DEFAULT_FLOAT,
            unknown1: DEFAULT_FLOAT,
            unknown2: 0,
            channel: 0,
            min_dist: DEFAULT_FLOAT,
            max_dist: DEFAULT_FLOAT,
            dist_cutoff: 0,
            unknown3: 0,
            unknown4: 0,
            unknown5: 0,
            unknown6: DEFAULT_FLOAT,
            unknown7: DEFAULT_FLOAT,
            unknown8: DEFAULT_FLOAT,
        }
    }
}

impl Sound {
    /// Reads a sound; a text that is not UTF-8 fails.
    #[verifier::rlimit(40)]
    pub fn read(reader: &mut BinaryReader) -> (res: Result<Self, ReadError>)
        requires
            old(reader).wf(),
        ensures
            final(reader).wf(),
            final(reader).contents() == old(reader).contents(),
            res is Ok <==> fields_end(old(reader).contents(), old(reader).position() as int, sound_layout()) is Some,
            res is Ok ==> fields_end(old(reader).contents(), old(reader).position() as int, sound_layout())
                == Some(final(reader).position() as int),
            res matches Ok(x) ==> sound_at(old(reader).contents(), old(reader).position() as int, x),
    {
        let ghost p = reader.position() as int;
        let ghost l = sound_layout();
        assert(l.take(0) =~= Seq::<FieldKind>::empty());
        let id = match read_text(reader, Ghost(p), Ghost(l), Ghost(0int)) {
            Ok(v) => v,
            Err(e) => {
                return Err(e);
            },
        };
        let file = match read_text(reader, Ghost(p), Ghost(l), Ghost(1int)) {
            Ok(v) => v,
            Err(e) => {
                return Err(e);
            },
        };
        let effect = match read_text(reader, Ghost(p), Ghost(l), Ghost(2int)) {
            Ok(v) => v,
            Err(e) => {
                return Err(e);
            },
        };
        let flags = match read_word(reader, Ghost(p), Ghost(l), Ghost(3int)) {
            Ok(v) => v as i32,
            Err(e) => {
                return Err(e);
            },
        };
        let fadein = match read_word(reader, Ghost(p), Ghost(l), Ghost(4int)) {
            Ok(v) => v as i32,
            Err(e) => {
                return Err(e);
            },
        };
        let fadeout = match read_word(reader, Ghost(p), Ghost(l), Ghost(5int)) {
            Ok(v) => v as i32,
            Err(e) => {
                return Err(e);
            },
        };
        let volume = match read_word(reader, Ghost(p), Ghost(l), Ghost(6int)) {
            Ok(v) => v as i32,
            Err(e) => {
                return Err(e);
            },
        };
        let pitch = match read_word(reader, Ghost(p), Ghost(l), Ghost(7int)) {
            Ok(v) => v,
            Err(e) => {
                return Err(e);
            },
        };
        let unknown1 = match read_word(reader, Ghost(p), Ghost(l), Ghost(8int)) {
            Ok(v) => v,
            Err(e) => {
                return Err(e);
            },
        };
        let unknown2 = match read_word(reader, Ghost(p), Ghost(l), Ghost(9int)) {
            Ok(v) => v as i32,
            Err(e) => {
                return Err(e);
            },
        };
        let channel = match read_word(reader, Ghost(p), Ghost(l), Ghost(10int)) {
            Ok(v) => v as i32,
            Err(e) => {
                return Err(e);
            },
        };
        let min_dist = match read_word(reader, Ghost(p), Ghost(l), Ghost(11int)) {
            Ok(v) => v,
            Err(e) => {
                return Err(e);
            },
        };
        let max_dist = match read_word(reader, Ghost(p), Ghost(l), Ghost(12int)) {
            Ok(v) => v,
            Err(e) => {
                return Err(e);
            },
        };
        let dist_cutoff = match read_word(reader, Ghost(p), Ghost(l), Ghost(13int)) {
            Ok(v) => v,
            Err(e) => {
                return Err(e);
            },
        };
        let unknown3 = match read_word(reader, Ghost(p), Ghost(l), Ghost(14int)) {
            Ok(v) => v,
            Err(e) => {
                return Err(e);
            },
        };
        let unknown4 = match read_word(reader, Ghost(p), Ghost(l), Ghost(15int)) {
            Ok(v) => v,
            Err(e) => {
                return Err(e);
            },
        };
        let unknown5 = match read_word(reader, Ghost(p), Ghost(l), Ghost(16int)) {
            Ok(v) => v as i32,
            Err(e) => {
                return Err(e);
            },
        };
        let unknown6 = match read_word(reader, Ghost(p), Ghost(l), Ghost(17int)) {
            Ok(v) => v,
            Err(e) => {
                return Err(e);
            },
        };
        let unknown7 = match read_word(reader, Ghost(p), Ghost(l), Ghost(18int)) {
            Ok(v) => v,
            Err(e) => {
                return Err(e);
            },
        };
        let unknown8 = match read_word(reader, Ghost(p), Ghost(l), Ghost(19int)) {
            Ok(v) => v,
            Err(e) => {
                return Err(e);
            },
        };
        assert(l.take(20) =~= l);
        let looping = flags & 1i32 == 1i32;
        let sound_3d = flags & 2i32 == 2i32;
        let stop_oof = flags & 4i32 == 4i32;
        let music = flags & 8i32 == 8i32;
        let unknown_flag = flags & 16i32 == 16i32;
        Ok(Sound { id, file, effect, flags, looping, sound_3d, stop_oof, music, unknown_flag, fadein, fadeout, volume, pitch, unknown1, unknown2, channel, min_dist, max_dist, dist_cutoff, unknown3, unknown4, unknown5, unknown6, unknown7, unknown8 })
    }

    /// Writes the sound, with flags made from its booleans; a text that holds
    /// a NUL fails.
    #[verifier::rlimit(60)]
    #[verifier::spinoff_prover]
    pub fn write(&self, writer: &mut BinaryWriter) -> (res: Result<(), WriteError>)
        requires
            old(writer).has_room(sound_bytes(*self).len() as int),
        ensures
            res is Ok <==> sound_writable(*self),
            res is Ok ==> final(writer).contents() == write_at(
                old(writer).contents(),
                old(writer).position() as int,
                sound_bytes(*self),
            ) && final(writer).position() == old(writer).position() + sound_bytes(*self).len(),
    {
        let ghost c0 = writer.contents();
        let ghost p0 = writer.position() as int;
        let ghost mut acc: Seq<u8> = Seq::empty();
        assert(write_at(c0, p0, acc) =~= c0);
        match writer.write_c_string_converted(self.id.as_str()) {
            Ok(()) => {},
            Err(e) => {
                return Err(e);
            },
        }
        proof {
            assert(encode_utf8(self.id@).push(0u8) =~= c_string_bytes(self.id@));
            lemma_write_at_concat(c0, p0, acc, c_string_bytes(self.id@));
            acc = acc + c_string_bytes(self.id@);
        }
        match writer.write_c_string_converted(self.file.as_str()) {
            Ok(()) => {},
            Err(e) => {
                return Err(e);
            },
        }
        proof {
            assert(encode_utf8(self.file@).push(0u8) =~= c_string_bytes(self.file@));
            lemma_write_at_concat(c0, p0, acc, c_string_bytes(self.file@));
            acc = acc + c_string_bytes(self.file@);
        }
        match writer.write_c_string_converted(self.effect.as_str()) {
            Ok(()) => {},
            Err(e) => {
                return Err(e);
            },
        }
        proof {
            assert(encode_utf8(self.effect@).push(0u8) =~= c_string_bytes(self.effect@));
            lemma_write_at_concat(c0, p0, acc, c_string_bytes(self.effect@));
            acc = acc + c_string_bytes(self.effect@);
        }
        let mut flags: i32 = 0;
        flags = flags | if self.looping {
            1
        } else {
            0
        };
        flags = flags | if self.sound_3d {
            2
        } else {
            0
        };
        flags = flags | if self.stop_oof {
            4
        } else {
            0
        };
        flags = flags | if self.music {
            8
        } else {
            0
        };
        flags = flags | if self.unknown_flag {
            16
        } else {
            0
        };
        let _ = writer.write_i32(flags);
        proof {
            lemma_write_at_concat(c0, p0, acc, le_bytes_u32(sound_flags(*self) as u32));
            acc = acc + le_bytes_u32(sound_flags(*self) as u32);
        }
        let _ = writer.write_i32(self.fadein);
        proof {
            lemma_write_at_concat(c0, p0, acc, le_bytes_u32(self.fadein as u32));
            acc = acc + le_bytes_u32(self.fadein as u32);
        }
        let _ = writer.write_i32(self.fadeout);
        proof {
            lemma_write_at_concat(c0, p0, acc, le_bytes_u32(self.fadeout as u32));
            acc = acc + le_bytes_u32(self.fadeout as u32);
        }
        let _ = writer.write_i32(self.volume);
        proof {
            lemma_write_at_concat(c0, p0, acc, le_bytes_u32(self.volume as u32));
            acc = acc + le_bytes_u32(self.volume as u32);
        }
        let _ = writer.write_u32(self.pitch);
        proof {
            lemma_write_at_concat(c0, p0, acc, le_bytes_u32(self.pitch));
            acc = acc + le_bytes_u32(self.pitch);
        }
        let _ = writer.write_u32(self.unknown1);
        proof {
            lemma_write_at_concat(c0, p0, acc, le_bytes_u32(self.unknown1));
            acc = acc + le_bytes_u32(self.unknown1);
        }
        let _ = writer.write_i32(self.unknown2);
        proof {
            lemma_write_at_concat(c0, p0, acc, le_bytes_u32(self.unknown2 as u32));
            acc = acc + le_bytes_u32(self.unknown2 as u32);
        }
        let _ = writer.write_i32(self.channel);
        proof {
            lemma_write_at_concat(c0, p0, acc, le_bytes_u32(self.channel as u32));
            acc = acc + le_bytes_u32(self.channel as u32);
        }
        let _ = writer.write_u32(self.min_dist);
        proof {
            lemma_write_at_concat(c0, p0, acc, le_bytes_u32(self.min_dist));
            acc = acc + le_bytes_u32(self.min_dist);
        }
        let _ = writer.write_u32(self.max_dist);
        proof {
            lemma_write_at_concat(c0, p0, acc, le_bytes_u32(self.max_dist));
            acc = acc + le_bytes_u32(self.max_dist);
        }
        let _ = writer.write_u32(self.dist_cutoff);
        proof {
            lemma_write_at_concat(c0, p0, acc, le_bytes_u32(self.dist_cutoff));
            acc = acc + le_bytes_u32(self.dist_cutoff);
        }
        let _ = writer.write_u32(self.unknown3);
        proof {
            lemma_write_at_concat(c0, p0, acc, le_bytes_u32(self.unknown3));
            acc = acc + le_bytes_u32(self.unknown3);
        }
        let _ = writer.write_u32(self.unknown4);
        proof {
            lemma_write_at_concat(c0, p0, acc, le_bytes_u32(self.unknown4));
            acc = acc + le_bytes_u32(self.unknown4);
        }
        let _ = writer.write_i32(self.unknown5);
        proof {
            lemma_write_at_concat(c0, p0, acc, le_bytes_u32(self.unknown5 as u32));
            acc = acc + le_bytes_u32(self.unknown5 as u32);
        }
        let _ = writer.write_u32(self.unknown6);
        proof {
            lemma_write_at_concat(c0, p0, acc, le_bytes_u32(self.unknown6));
            acc = acc + le_bytes_u32(self.unknown6);
        }
        let _ = writer.write_u32(self.unknown7);
        proof {
            lemma_write_at_concat(c0, p0, acc, le_bytes_u32(self.unknown7));
            acc = acc + le_bytes_u32(self.unknown7);
        }
        let _ = writer.write_u32(self.unknown8);
        proof {
            lemma_write_at_concat(c0, p0, acc, le_bytes_u32(self.unknown8));
            acc = acc + le_bytes_u32(self.unknown8);
        }
        assert(acc =~= sound_bytes(*self));
        Ok(())
    }
}

/// Reads `n` entries.
fn read_sounds(reader: &mut BinaryReader, n: u32) -> (res: Result<Vec<Sound>, ReadError>)
    requires
        old(reader).wf(),
    ensures
        final(reader).wf(),
        final(reader).contents() == old(reader).contents(),
        ({
            let d = old(reader).contents();
            let p = old(reader).position() as int;
            &&& res is Ok <==> seq_end(p, n as nat, sound_ends(d)) is Some
            &&& res is Ok ==> seq_end(p, n as nat, sound_ends(d)) == Some(final(reader).position() as int)
            &&& res matches Ok(s) ==> s@.len() == n && seq_read(p, s@, sound_reads(d)) == Some(
                final(reader).position() as int,
            )
        }),
{
    let ghost d = reader.contents();
    let ghost p0 = reader.position() as int;
    let mut items: Vec<Sound> = Vec::new();
    let mut k: u32 = 0;
    while k < n
        invariant
            reader.wf(),
            reader.contents() == d,
            d == old(reader).contents(),
            p0 == old(reader).position(),
            k <= n,
            items@.len() == k,
            seq_end(p0, k as nat, sound_ends(d)) == Some(reader.position() as int),
            seq_read(p0, items@, sound_reads(d)) == Some(reader.position() as int),
        decreases n - k,
    {
        let x = match Sound::read(reader) {
            Ok(x) => x,
            Err(e) => {
                proof {
                    assert(seq_end(p0, (k + 1) as nat, sound_ends(d)) is None);
                    lemma_seq_end_none(p0, (k + 1) as nat, n as nat, sound_ends(d));
                }
                return Err(e);
            },
        };
        let ghost before = items@;
        items.push(x);
        assert(items@.drop_last() == before);
        k = k + 1;
    }
    Ok(items)
}

/// Writes the entries `items`, one after the other; fails on the first one
/// that cannot be written.
fn write_sounds(writer: &mut BinaryWriter, items: &Vec<Sound>) -> (res: Result<(), WriteError>)
    requires
        old(writer).has_room(seq_bytes(items@, sound_bytes_of()).len() as int),
    ensures
        res is Ok <==> (forall|i: int| 0 <= i < items@.len() ==> #[trigger] sound_writable(items@[i])),
        res is Ok ==> final(writer).contents() == write_at(
            old(writer).contents(),
            old(writer).position() as int,
            seq_bytes(items@, sound_bytes_of()),
        ) && final(writer).position() == old(writer).position() + seq_bytes(items@, sound_bytes_of()).len(),
{
    let ghost c0 = writer.contents();
    let ghost p0 = writer.position() as int;
    let ghost s = items@;
    let ghost f = sound_bytes_of();
    let mut k: usize = 0;
    while k < items.len()
        invariant
            k <= s.len(),
            s == items@,
            f == sound_bytes_of(),
            0 <= p0,
            p0 + seq_bytes(s, f).len() <= usize::MAX,
            writer.contents() == write_at(c0, p0, seq_bytes(s.take(k as int), f)),
            writer.position() == p0 + seq_bytes(s.take(k as int), f).len(),
            forall|i: int| 0 <= i < k ==> #[trigger] sound_writable(s[i]),
        decreases s.len() - k,
    {
        proof {
            lemma_seq_bytes_prefix(s, f, k + 1);
            assert(s.take(k + 1).drop_last() == s.take(k as int));
            assert(s.take(k + 1).last() == s[k as int]);
        }
        match items[k].write(writer) {
            Ok(()) => {},
            Err(e) => {
                return Err(e);
            },
        }
        proof {
            lemma_write_at_concat(c0, p0, seq_bytes(s.take(k as int), f), f(s[k as int]));
        }
        k = k + 1;
    }
    assert(s.take(s.len() as int) == s);
    Ok(())
}

/// The sounds file: its version and sounds.
#[derive(Debug)]
pub struct SoundFile {
    pub version: u32,
    pub sounds: Vec<Sound>,
}

/// Where the sounds file stored at `p` ends, when it can be read.
pub open spec fn sound_file_end(d: Seq<u8>, p: int) -> Option<int> {
    if has_bytes(d, p, 4) {
        counted_end(d, p + 4, sound_ends(d))
    } else {
        None
    }
}

/// The bytes that store sounds file `x`: nothing without sounds.
pub open spec fn sound_file_bytes(x: SoundFile) -> Seq<u8> {
    if x.sounds@.len() == 0 {
        Seq::empty()
    } else {
        le_bytes_u32(x.version) + le_bytes_u32(x.sounds@.len() as u32) + seq_bytes(
            x.sounds@,
            sound_bytes_of(),
        )
    }
}

/// A non-empty sounds file starts with its format version and the count of
/// its sounds as little-endian words at bytes 0 and 4; an empty one is
/// written as no bytes at all.
pub proof fn law_sounds_file_head(x: SoundFile)
    ensures
        x.sounds@.len() == 0 ==> sound_file_bytes(x).len() == 0,
        x.sounds@.len() > 0 ==> sound_file_bytes(x).subrange(0, 4) == le_bytes_u32(x.version) && sound_file_bytes(x).subrange(4, 8)
            == le_bytes_u32(x.sounds@.len() as u32),
{
    if x.sounds@.len() > 0 {
        assert(sound_file_bytes(x).subrange(0, 4) =~= le_bytes_u32(x.version));
        assert(sound_file_bytes(x).subrange(4, 8) =~= le_bytes_u32(x.sounds@.len() as u32));
    }
}

impl SoundFile {
    /// Name of the file in the map archive.
    pub const FILE_NAME: &'static str = "war3map.w3s";

    /// Reads the sounds file at the cursor and leaves the cursor after it.
    pub fn read_fields(reader: &mut BinaryReader) -> (res: Result<Self, ReadError>)
        requires
            old(reader).wf(),
        ensures
            final(reader).wf(),
            final(reader).contents() == old(reader).contents(),
            ({
                let d = old(reader).contents();
                let p = old(reader).position() as int;
                &&& res is Ok <==> sound_file_end(d, p) is Some
                &&& res is Ok ==> sound_file_end(d, p) == Some(final(reader).position() as int)
                &&& res matches Ok(x) ==> x.version == u32_at(d, p) && counted_read(
                    d,
                    p + 4,
                    x.sounds@,
                    sound_reads(d),
                ) == sound_file_end(d, p)
            }),
    {
        let version = match reader.read_u32() {
            Ok(v) => v,
            Err(e) => {
                return Err(e);
            },
        };
        let count = match reader.read_u32() {
            Ok(v) => v,
            Err(e) => {
                return Err(e);
            },
        };
        match read_sounds(reader, count) {
            Ok(sounds) => Ok(SoundFile { version, sounds }),
            Err(e) => Err(e),
        }
    }

    /// Reads the sounds file, which fills the buffer from the cursor to its
    /// end.
    pub fn read(reader: &mut BinaryReader) -> (res: Result<Self, ReadError>)
        requires
            old(reader).wf(),
            sound_file_end(old(reader).contents(), old(reader).position() as int) matches Some(q) ==> q
                == old(reader).contents().len(),
        ensures
            final(reader).wf(),
            final(reader).contents() == old(reader).contents(),
            ({
                let d = old(reader).contents();
                let p = old(reader).position() as int;
                &&& res is Ok <==> sound_file_end(d, p) is Some
                &&& res matches Ok(x) ==> x.version == u32_at(d, p) && counted_read(
                    d,
                    p + 4,
                    x.sounds@,
                    sound_reads(d),
                ) == Some(d.len() as int)
            }),
    {
        Self::read_fields(reader)
    }

    /// Reads the sounds file when there are bytes; an empty buffer has none.
    pub fn read_opt(reader: &mut BinaryReader) -> (res: Result<Option<Self>, MapError>)
        requires
            old(reader).wf(),
            old(reader).contents().len() > 0 ==> (sound_file_end(old(reader).contents(), old(reader).position() as int)
                matches Some(q) ==> q == old(reader).contents().len()),
        ensures
            final(reader).wf(),
            final(reader).contents() == old(reader).contents(),
            ({
                let d = old(reader).contents();
                let p = old(reader).position() as int;
                &&& d.len() == 0 ==> (res matches Ok(None))
                &&& d.len() > 0 ==> (res is Ok <==> sound_file_end(d, p) is Some)
                &&& res matches Ok(Some(x)) ==> x.version == u32_at(d, p) && counted_read(
                    d,
                    p + 4,
                    x.sounds@,
                    sound_reads(d),
                ) == Some(d.len() as int)
                &&& res matches Err(e) ==> (e matches MapError::Sound(SoundError::Parsing(_)))
            }),
    {
        if reader.size() > 0 {
            match Self::read(reader) {
                Ok(x) => Ok(Some(x)),
                Err(e) => Err(MapError::Sound(SoundError::Parsing(e))),
            }
        } else {
            Ok(None)
        }
    }

    /// Writes the sounds file at the cursor: nothing without sounds; a sound
    /// text that holds a NUL fails.
    pub fn write(&self, writer: &mut BinaryWriter) -> (res: Result<(), WriteError>)
        requires
            old(writer).has_room(sound_file_bytes(*self).len() as int),
        ensures
            res is Ok <==> (forall|i: int| 0 <= i < self.sounds@.len() ==> #[trigger] sound_writable(self.sounds@[i])),
            res is Ok ==> final(writer).contents() == write_at(
                old(writer).contents(),
                old(writer).position() as int,
                sound_file_bytes(*self),
            ) && final(writer).position() == old(writer).position() + sound_file_bytes(*self).len(),
    {
        let ghost c0 = writer.contents();
        let ghost p0 = writer.position() as int;
        if self.sounds.len() == 0 {
            assert(write_at(c0, p0, Seq::empty()) =~= c0);
            return Ok(());
        }
        let ghost a = le_bytes_u32(self.version);
        let ghost b = le_bytes_u32(self.sounds@.len() as u32);
        let _ = writer.write_u32(self.version);
        let _ = writer.write_u32(self.sounds.len() as u32);
        proof {
            lemma_write_at_concat(c0, p0, a, b);
        }
        match write_sounds(writer, &self.sounds) {
            Ok(()) => {},
            Err(e) => {
                return Err(e);
            },
        }
        proof {
            lemma_write_at_concat(c0, p0, a + b, seq_bytes(self.sounds@, sound_bytes_of()));
        }
        Ok(())
    }
}


/// The fields of sound `x`, as stored (its flags made from its booleans).
pub open spec fn sound_values(x: Sound) -> Seq<FieldValue> {
    seq![
        (FieldKind::Text, 0u32, x.id@),
        (FieldKind::Text, 0u32, x.file@),
        (FieldKind::Text, 0u32, x.effect@),
        (FieldKind::Word, sound_flags(x) as u32, Seq::empty()),
        (FieldKind::Word, x.fadein as u32, Seq::empty()),
        (FieldKind::Word, x.fadeout as u32, Seq::empty()),
        (FieldKind::Word, x.volume as u32, Seq::empty()),
        (FieldKind::Word, x.pitch, Seq::empty()),
        (FieldKind::Word, x.unknown1, Seq::empty()),
        (FieldKind::Word, x.unknown2 as u32, Seq::empty()),
        (FieldKind::Word, x.channel as u32, Seq::empty()),
        (FieldKind::Word, x.min_dist, Seq::empty()),
        (FieldKind::Word, x.max_dist, Seq::empty()),
        (FieldKind::Word, x.dist_cutoff, Seq::empty()),
        (FieldKind::Word, x.unknown3, Seq::empty()),
        (FieldKind::Word, x.unknown4, Seq::empty()),
        (FieldKind::Word, x.unknown5 as u32, Seq::empty()),
        (FieldKind::Word, x.unknown6, Seq::empty()),
        (FieldKind::Word, x.unknown7, Seq::empty()),
        (FieldKind::Word, x.unknown8, Seq::empty()),
    ]
}

/// Whether sound `a`, as read, holds what sound `b` stores: the same texts,
/// numbers and booleans, and the flags that `b`'s booleans make.
pub open spec fn same_sound(a: Sound, b: Sound) -> bool {
    &&& a.id@ == b.id@ && a.file@ == b.file@ && a.effect@ == b.effect@
    &&& a.flags == sound_flags(b)
    &&& a.looping == b.looping && a.sound_3d == b.sound_3d && a.stop_oof == b.stop_oof
    &&& a.music == b.music && a.unknown_flag == b.unknown_flag
    &&& a.fadein == b.fadein && a.fadeout == b.fadeout && a.volume == b.volume
    &&& a.pitch == b.pitch && a.unknown1 == b.unknown1 && a.unknown2 == b.unknown2
    &&& a.channel == b.channel && a.min_dist == b.min_dist && a.max_dist == b.max_dist
    &&& a.dist_cutoff == b.dist_cutoff && a.unknown3 == b.unknown3 && a.unknown4 == b.unknown4
    &&& a.unknown5 == b.unknown5 && a.unknown6 == b.unknown6 && a.unknown7 == b.unknown7
    &&& a.unknown8 == b.unknown8
}

proof fn lemma_i32_word(v: i32)
    ensures
        (v as u32) as i32 == v,
{
    assert((v as u32) as i32 == v) by (bit_vector);
}

proof fn lemma_flags_bits(a: bool, b: bool, c: bool, d: bool, e: bool)
    ensures
        ({
            let f = 0i32 | (if a { 1i32 } else { 0i32 }) | (if b { 2i32 } else { 0i32 }) | (if c { 4i32 } else { 0i32 })
                | (if d { 8i32 } else { 0i32 }) | (if e { 16i32 } else { 0i32 });
            &&& (f & 1i32 == 1i32) == a
            &&& (f & 2i32 == 2i32) == b
            &&& (f & 4i32 == 4i32) == c
            &&& (f & 8i32 == 8i32) == d
            &&& (f & 16i32 == 16i32) == e
        }),
{
    assert({
        let f = 0i32 | (if a { 1i32 } else { 0i32 }) | (if b { 2i32 } else { 0i32 }) | (if c { 4i32 } else { 0i32 })
            | (if d { 8i32 } else { 0i32 }) | (if e { 16i32 } else { 0i32 });
        &&& (f & 1i32 == 1i32) == a
        &&& (f & 2i32 == 2i32) == b
        &&& (f & 4i32 == 4i32) == c
        &&& (f & 8i32 == 8i32) == d
        &&& (f & 16i32 == 16i32) == e
    }) by (bit_vector);
}

proof fn lemma_sound_in(d: Seq<u8>, q: int, x: Sound)
    requires
        0 <= q,
        q + sound_bytes(x).len() <= d.len(),
        d.subrange(q, q + sound_bytes(x).len()) == sound_bytes(x),
        sound_writable(x),
    ensures
        sound_ends(d)(q) == Some(q + sound_bytes(x).len()),
        forall|y: Sound| #[trigger] sound_reads(d)(q, y) is Some ==> sound_reads(d)(q, y) == Some(
            q + sound_bytes(x).len(),
        ) && same_sound(y, x),
{
    let vs = sound_values(x);
    reveal_with_fuel(values_bytes, 21);
    assert(sound_bytes(x) =~= values_bytes(vs));
    assert(sound_layout() =~= kinds(vs));
    assert forall|i: int| 0 <= i < vs.len() implies value_ok(#[trigger] vs[i]) by {}
    lemma_fields_in(d, q, vs);
    lemma_flags_bits(x.looping, x.sound_3d, x.stop_oof, x.music, x.unknown_flag);
    lemma_i32_word(sound_flags(x));
    lemma_i32_word(x.fadein);
    lemma_i32_word(x.fadeout);
    lemma_i32_word(x.volume);
    lemma_i32_word(x.unknown2);
    lemma_i32_word(x.channel);
    lemma_i32_word(x.unknown5);
    assert forall|y: Sound| #[trigger] sound_reads(d)(q, y) is Some implies sound_reads(d)(q, y) == Some(
        q + sound_bytes(x).len(),
    ) && same_sound(y, x) by {
        let l = sound_layout();
        assert(field_reads(d, q, l, 0, vs[0]));
        assert(field_reads(d, q, l, 1, vs[1]));
        assert(field_reads(d, q, l, 2, vs[2]));
        assert(field_reads(d, q, l, 3, vs[3]));
        assert(field_reads(d, q, l, 4, vs[4]));
        assert(field_reads(d, q, l, 5, vs[5]));
        assert(field_reads(d, q, l, 6, vs[6]));
        assert(field_reads(d, q, l, 7, vs[7]));
        assert(field_reads(d, q, l, 8, vs[8]));
        assert(field_reads(d, q, l, 9, vs[9]));
        assert(field_reads(d, q, l, 10, vs[10]));
        assert(field_reads(d, q, l, 11, vs[11]));
        assert(field_reads(d, q, l, 12, vs[12]));
        assert(field_reads(d, q, l, 13, vs[13]));
        assert(field_reads(d, q, l, 14, vs[14]));
        assert(field_reads(d, q, l, 15, vs[15]));
        assert(field_reads(d, q, l, 16, vs[16]));
        assert(field_reads(d, q, l, 17, vs[17]));
        assert(field_reads(d, q, l, 18, vs[18]));
        assert(field_reads(d, q, l, 19, vs[19]));
    }
}

/// A sound whose texts hold no NUL is written so that reading its bytes
/// goes to their end and gives back its texts, numbers and five booleans,
/// its flags rebuilt from those booleans: its own `flags` field is not
/// written.
pub proof fn law_sound_write_read(x: Sound)
    requires
        sound_writable(x),
    ensures
        fields_end(sound_bytes(x), 0, sound_layout()) == Some(sound_bytes(x).len() as int),
        forall|y: Sound| #[trigger] sound_at(sound_bytes(x), 0, y) ==> same_sound(y, x),
        forall|y: Sound|
            #[trigger] sound_at(sound_bytes(x), 0, y) ==> y.flags == (if x.looping {
                1i32
            } else {
                0i32
            }) | (if x.sound_3d {
                2i32
            } else {
                0i32
            }) | (if x.stop_oof {
                4i32
            } else {
                0i32
            }) | (if x.music {
                8i32
            } else {
                0i32
            }) | (if x.unknown_flag {
                16i32
            } else {
                0i32
            }),
{
    let d = sound_bytes(x);
    assert(d.subrange(0, d.len() as int) =~= d);
    lemma_sound_in(d, 0, x);
    assert forall|y: Sound| #[trigger] sound_at(d, 0, y) implies same_sound(y, x) by {
        assert(sound_reads(d)(0, y) is Some);
    }
    let a = if x.looping { 1i32 } else { 0i32 };
    let b = if x.sound_3d { 2i32 } else { 0i32 };
    let c = if x.stop_oof { 4i32 } else { 0i32 };
    let e = if x.music { 8i32 } else { 0i32 };
    let f = if x.unknown_flag { 16i32 } else { 0i32 };
    assert(0i32 | a | b | c | e | f == a | b | c | e | f) by (bit_vector);
}

/// A sounds file with sounds (at most `u32::MAX`, their texts without NUL)
/// is written so that reading its bytes goes to their end and gives back
/// its version and sounds, their flags made from their booleans.
pub proof fn law_sound_file_write_read(x: SoundFile)
    requires
        0 < x.sounds@.len() <= u32::MAX,
        forall|i: int| 0 <= i < x.sounds@.len() ==> sound_writable(#[trigger] x.sounds@[i]),
    ensures
        ({
            let d = sound_file_bytes(x);
            &&& sound_file_end(d, 0) == Some(d.len() as int)
            &&& forall|y: SoundFile|
                y.version == u32_at(d, 0) && #[trigger] counted_read(d, 4, y.sounds@, sound_reads(d)) == Some(
                    d.len() as int,
                ) ==> y.version == x.version && y.sounds@.len() == x.sounds@.len() && forall|i: int|
                    0 <= i < x.sounds@.len() ==> same_sound(#[trigger] y.sounds@[i], x.sounds@[i])
        }),
{
    let d = sound_file_bytes(x);
    let s = x.sounds@;
    let a = le_bytes_u32(x.version);
    let b = le_bytes_u32(s.len() as u32);
    let c = seq_bytes(s, sound_bytes_of());
    assert(d == a + b + c);
    assert(d.subrange(0, 4) =~= a);
    assert(d.subrange(4, 8) =~= b);
    assert(d.subrange(8, 8 + c.len() as int) =~= c);
    lemma_u32_in(d, 0, x.version);
    lemma_u32_in(d, 4, s.len() as u32);
    let same = |u: Sound, v: Sound| same_sound(u, v);
    assert forall|i: int, q: int|
        0 <= i < s.len() && 0 <= q && q + sound_bytes_of()(s[i]).len() <= d.len() && #[trigger] d.subrange(
            q,
            q + sound_bytes_of()(#[trigger] s[i]).len(),
        ) == sound_bytes_of()(s[i]) implies {
            &&& sound_ends(d)(q) == Some(q + sound_bytes_of()(s[i]).len())
            &&& forall|y: Sound| #[trigger] sound_reads(d)(q, y) is Some ==> sound_reads(d)(q, y) == Some(
                q + sound_bytes_of()(s[i]).len(),
            ) && same(y, s[i])
        } by {
        lemma_sound_in(d, q, s[i]);
    }
    lemma_seq_in(d, 8, s, sound_bytes_of(), sound_ends(d), sound_reads(d), same);
}

} // verus!

