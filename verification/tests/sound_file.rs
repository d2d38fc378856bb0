use wce::formats::binary_reader::BinaryReader;
use wce::formats::binary_writer::BinaryWriter;
use wce::map::sound_file::{Sound, SoundFile, DEFAULT_FLOAT};

fn mock_sounds() -> Vec<Sound> {
        vec![
            Sound {
                id: "gg_snd_RainAmbience".to_string(),
                file: "Sound\\Ambient\\RainAmbience.wav".to_string(),
                effect: "DefaultEAXON".to_string(),
                flags: 0,
                looping: false,
                sound_3d: false,
                stop_oof: false,
                music: false,
                unknown_flag: false,
                fadein: 10,
                fadeout: 10,
                volume: -1,
                pitch: DEFAULT_FLOAT,
                unknown1: DEFAULT_FLOAT,
                unknown2: -1,
                channel: -1,
                min_dist: DEFAULT_FLOAT,
                max_dist: DEFAULT_FLOAT,
                dist_cutoff: DEFAULT_FLOAT,
                unknown3: DEFAULT_FLOAT,
                unknown4: DEFAULT_FLOAT,
                unknown5: -1,
                unknown6: DEFAULT_FLOAT,
                unknown7: DEFAULT_FLOAT,
                unknown8: DEFAULT_FLOAT,
            },
            Sound {
                id: "gg_snd_WindLoopStereo".to_string(),
                file: "Sound\\Ambient\\WindLoopStereo.wav".to_string(),
                effect: "DefaultEAXON".to_string(),
                flags: 0,
                looping: false,
                sound_3d: false,
                stop_oof: false,
                music: false,
                unknown_flag: false,
                fadein: 10,
                fadeout: 10,
                volume: -1,
                pitch: DEFAULT_FLOAT,
                unknown1: DEFAULT_FLOAT,
                unknown2: -1,
                channel: -1,
                min_dist: DEFAULT_FLOAT,
                max_dist: DEFAULT_FLOAT,
                dist_cutoff: DEFAULT_FLOAT,
                unknown3: DEFAULT_FLOAT,
                unknown4: DEFAULT_FLOAT,
                unknown5: -1,
                unknown6: DEFAULT_FLOAT,
                unknown7: DEFAULT_FLOAT,
                unknown8: DEFAULT_FLOAT,
            },
            Sound {
                id: "gg_snd_RainAmbience01".to_string(),
                file: "Sound\\Ambient\\RainAmbience.wav".to_string(),
                effect: "DefaultEAXON".to_string(),
                flags: 0,
                looping: false,
                sound_3d: false,
                stop_oof: false,
                music: false,
                unknown_flag: false,
                fadein: 10,
                fadeout: 10,
                volume: 127,
                pitch: DEFAULT_FLOAT,
                unknown1: DEFAULT_FLOAT,
                unknown2: -1,
                channel: -1,
                min_dist: DEFAULT_FLOAT,
                max_dist: DEFAULT_FLOAT,
                dist_cutoff: DEFAULT_FLOAT,
                unknown3: DEFAULT_FLOAT,
                unknown4: DEFAULT_FLOAT,
                unknown5: -1,
                unknown6: DEFAULT_FLOAT,
                unknown7: DEFAULT_FLOAT,
                unknown8: DEFAULT_FLOAT,
            },
            Sound {
                id: "gg_snd_Avatar".to_string(),
                file: "Abilities\\Spells\\Human\\Avatar\\Avatar.wav".to_string(),
                effect: "SpellsEAX".to_string(),
                flags: 6,
                looping: false,
                sound_3d: true,
                stop_oof: true,
                music: false,
                unknown_flag: false,
                fadein: 10,
                fadeout: 10,
                volume: -1,
                pitch: DEFAULT_FLOAT,
                unknown1: DEFAULT_FLOAT,
                unknown2: -1,
                channel: -1,
                min_dist: 650.0f32.to_bits(),
                max_dist: 10010.0f32.to_bits(),
                dist_cutoff: 3010.0f32.to_bits(),
                unknown3: DEFAULT_FLOAT,
                unknown4: DEFAULT_FLOAT,
                unknown5: -1,
                unknown6: DEFAULT_FLOAT,
                unknown7: DEFAULT_FLOAT,
                unknown8: DEFAULT_FLOAT,
            },
            Sound {
                id: "gg_snd_Credits".to_string(),
                file: "Sound\\Music\\mp3Music\\Credits.mp3".to_string(),
                effect: "".to_string(),
                flags: 8,
                looping: false,
                sound_3d: false,
                stop_oof: false,
                music: true,
                unknown_flag: false,
                fadein: 10,
                fadeout: 10,
                volume: 0,
                pitch: 0.0f32.to_bits(),
                unknown1: DEFAULT_FLOAT,
                unknown2: 0,
                channel: -1,
                min_dist: DEFAULT_FLOAT,
                max_dist: 0.0f32.to_bits(),
                dist_cutoff: 0.0f32.to_bits(),
                unknown3: DEFAULT_FLOAT,
                unknown4: DEFAULT_FLOAT,
                unknown5: 0,
                unknown6: DEFAULT_FLOAT,
                unknown7: DEFAULT_FLOAT,
                unknown8: DEFAULT_FLOAT,
            },
        ]
    }

fn test_sound(looping: bool, sound_3d: bool, stop_oof: bool, music: bool, unknown_flag: bool, flags: i32) -> Sound {
    Sound {
        id: "test".to_string(),
        file: "test.wav".to_string(),
        effect: "TestEAX".to_string(),
        flags,
        looping,
        sound_3d,
        stop_oof,
        music,
        unknown_flag,
        fadein: 0,
        fadeout: 0,
        volume: 0,
        pitch: 1.0f32.to_bits(),
        unknown1: 2.0f32.to_bits(),
        unknown2: 0,
        channel: 0,
        min_dist: 3.0f32.to_bits(),
        max_dist: 4.0f32.to_bits(),
        dist_cutoff: 5.0f32.to_bits(),
        unknown3: 6.0f32.to_bits(),
        unknown4: 7.0f32.to_bits(),
        unknown5: 0,
        unknown6: 8.0f32.to_bits(),
        unknown7: 9.0f32.to_bits(),
        unknown8: 10.0f32.to_bits(),
    }
}

#[test]
fn test_sound_round_trip() {
    let mock_sounds = mock_sounds();
    let mut writer = BinaryWriter::new();
    writer.write_u32(1).unwrap();
    writer.write_u32(mock_sounds.len() as u32).unwrap();
    for s in &mock_sounds {
        s.write(&mut writer).unwrap();
    }
    let mut reader = BinaryReader::new(writer.into_buffer());
    let reconstructed_file = SoundFile::read(&mut reader).unwrap();
    assert_eq!(reconstructed_file.version, 1);
    assert_eq!(reconstructed_file.sounds.len(), mock_sounds.len());
    for (original, recon) in mock_sounds.iter().zip(reconstructed_file.sounds.iter()) {
        assert_eq!(original, recon);
    }
}

#[test]
fn test_sound_file_round_trip() {
    let original_sound_file = SoundFile { version: 1, sounds: mock_sounds() };
    let mut writer = BinaryWriter::new();
    original_sound_file.write(&mut writer).unwrap();
    let buffer = writer.into_buffer();
    let mut reader = BinaryReader::new(buffer);
    let reconstructed_sound_file = SoundFile::read(&mut reader).unwrap();
    assert_eq!(original_sound_file.version, reconstructed_sound_file.version);
    assert_eq!(original_sound_file.sounds.len(), reconstructed_sound_file.sounds.len());
    for (index, (original, reconstructed)) in original_sound_file
        .sounds
        .iter()
        .zip(reconstructed_sound_file.sounds.iter())
        .enumerate()
    {
        assert_eq!(original.id, reconstructed.id, "Sound {index}: id mismatch");
        assert_eq!(original.file, reconstructed.file, "Sound {index}: file mismatch");
        assert_eq!(original.effect, reconstructed.effect, "Sound {index}: effect mismatch");
        assert_eq!(original.looping, reconstructed.looping, "Sound {index}: looping mismatch");
        assert_eq!(original.sound_3d, reconstructed.sound_3d, "Sound {index}: sound_3d mismatch");
        assert_eq!(original.stop_oof, reconstructed.stop_oof, "Sound {index}: stop_oof mismatch");
        assert_eq!(original.music, reconstructed.music, "Sound {index}: music mismatch");
        assert_eq!(original.unknown_flag, reconstructed.unknown_flag, "Sound {index}: unknown_flag mismatch");
        assert_eq!(original.volume, reconstructed.volume, "Sound {index}: volume mismatch");
        assert_eq!(
            f32::from_bits(original.min_dist),
            f32::from_bits(reconstructed.min_dist),
            "Sound {index}: min_dist mismatch"
        );
        assert_eq!(
            f32::from_bits(original.max_dist),
            f32::from_bits(reconstructed.max_dist),
            "Sound {index}: max_dist mismatch"
        );
    }
}

#[test]
fn test_sound_flag_reconstruction() {
    let test_cases = vec![
        (false, false, false, false, false, 0),
        (true, false, false, false, false, 0x00000001),
        (false, true, false, false, false, 0x00000002),
        (false, false, true, false, false, 0x00000004),
        (false, false, false, true, false, 0x00000008),
        (false, false, false, false, true, 0x00000010),
        (true, true, false, false, false, 0x00000003),
        (false, true, true, false, false, 0x00000006),
        (false, false, false, true, false, 0x00000008),
        (true, true, true, true, true, 0x0000001F),
    ];
    for (looping, sound_3d, stop_oof, music, unknown_flag, expected_flags) in test_cases {
        let sound = test_sound(looping, sound_3d, stop_oof, music, unknown_flag, expected_flags);
        let mut writer = BinaryWriter::new();
        sound.write(&mut writer).unwrap();
        let buffer = writer.into_buffer();
        let mut reader = BinaryReader::new(buffer);
        let reconstructed = Sound::read(&mut reader).unwrap();
        assert_eq!(
            reconstructed.flags, expected_flags,
            "Flags mismatch for looping={looping}, sound_3d={sound_3d}, stop_oof={stop_oof}, music={music}, unknown_flag={unknown_flag}"
        );
        assert_eq!(reconstructed.looping, looping);
        assert_eq!(reconstructed.sound_3d, sound_3d);
        assert_eq!(reconstructed.stop_oof, stop_oof);
        assert_eq!(reconstructed.music, music);
        assert_eq!(reconstructed.unknown_flag, unknown_flag);
    }
}

#[test]
fn test_empty_sound_file() {
    let original = SoundFile { version: 42, sounds: vec![] };
    let mut writer = BinaryWriter::new();
    original.write(&mut writer).unwrap();
    let buffer = writer.into_buffer();
    let mut reader = BinaryReader::new(buffer);
    let reconstructed = SoundFile::read_opt(&mut reader).unwrap();
    assert!(reconstructed.is_none(), "Empty buffer shouldn't return sound file.");
}

#[test]
fn test_single_sound_file() {
    let single_sound = Sound {
        id: "single_test".to_string(),
        file: "single.wav".to_string(),
        effect: "SingleEAX".to_string(),
        flags: 0,
        looping: false,
        sound_3d: false,
        stop_oof: false,
        music: false,
        unknown_flag: false,
        fadein: 100,
        fadeout: 200,
        volume: 127,
        pitch: 1.5f32.to_bits(),
        unknown1: DEFAULT_FLOAT,
        unknown2: -1,
        channel: 2,
        min_dist: 500.0f32.to_bits(),
        max_dist: 1000.0f32.to_bits(),
        dist_cutoff: 750.0f32.to_bits(),
        unknown3: DEFAULT_FLOAT,
        unknown4: DEFAULT_FLOAT,
        unknown5: -1,
        unknown6: DEFAULT_FLOAT,
        unknown7: DEFAULT_FLOAT,
        unknown8: DEFAULT_FLOAT,
    };
    let original = SoundFile { version: 1, sounds: vec![single_sound] };
    let mut writer = BinaryWriter::new();
    original.write(&mut writer).unwrap();
    let buffer = writer.into_buffer();
    let mut reader = BinaryReader::new(buffer);
    let reconstructed = SoundFile::read(&mut reader).unwrap();
    assert_eq!(original.version, reconstructed.version);
    assert_eq!(original.sounds.len(), reconstructed.sounds.len());
    assert_eq!(original.sounds[0].id, reconstructed.sounds[0].id);
    assert_eq!(original.sounds[0].volume, reconstructed.sounds[0].volume);
    assert_eq!(
        f32::from_bits(original.sounds[0].pitch),
        f32::from_bits(reconstructed.sounds[0].pitch)
    );
}

#[test]
fn default_float_is_two_to_the_32() {
    assert_eq!(f32::from_bits(DEFAULT_FLOAT), 4294967296.0f32);
}

#[test]
fn sound_flags_ignore_stored_value_on_write() {
    let sound = test_sound(true, false, true, false, false, 0x7F);
    let mut writer = BinaryWriter::new();
    sound.write(&mut writer).unwrap();
    let bytes = writer.into_buffer();
    let off = "test".len() + 1 + "test.wav".len() + 1 + "TestEAX".len() + 1;
    assert_eq!(&bytes[off..off + 4], &5i32.to_le_bytes());
}

#[test]
fn sound_id_with_nul_fails_to_save() {
    let mut sound = test_sound(false, false, false, false, false, 0);
    sound.id = "x\0y".to_string();
    let file = SoundFile { version: 1, sounds: vec![sound] };
    let mut writer = BinaryWriter::new();
    assert!(file.write(&mut writer).is_err());
}
