use std::collections::HashMap;

use regex::Regex;
use wce::formats::binary_reader::BinaryReader;
use wce::map::map_string_file::MapStringFile;

const SAMPLE: &str = r###"
STRING 1
{
Sandbox Roc
}

STRING 2
{
Tous
}

STRING 3
{
Sans description
}

STRING 4
{
Inconnu
}

STRING 5
{
Joueur 1
}

STRING 6
{
Joueur 2
}

STRING 7
{
Force 1
}
        "###;

#[test]
fn extraction_strings() {
    let strings = MapStringFile::extract(SAMPLE).unwrap();
    assert_eq!(strings.len(), 7);
    assert_eq!(strings.get("1"), Some(&"Sandbox Roc".to_string()));
    assert_eq!(strings.get("3"), Some(&"Sans description".to_string()));
}

fn reference(text: &str) -> HashMap<String, String> {
    let reg = Regex::new(r"STRING\s+([0-9]+)\s*.*\s+\{\s*([^\}]*)\s*\}").unwrap();
    let mut out = HashMap::new();
    for caps in reg.captures_iter(text) {
        let id = caps.get(1).unwrap().as_str().to_string();
        let content = caps.get(2).unwrap().as_str().trim().to_string();
        out.insert(id, content);
    }
    out
}

fn same_as_reference(text: &str) {
    let mine = MapStringFile::extract(text).unwrap();
    let expected = reference(text);
    assert_eq!(mine.len(), expected.len(), "count differs for {:?}", text);
    for (id, content) in &expected {
        assert_eq!(mine.get(id), Some(content), "entry {} differs for {:?}", id, text);
    }
}

#[test]
fn map_strings_match_the_pattern_on_edge_cases() {
    let cases = [
        "",
        "STRING",
        "STRING 1 {a}",
        "STRING 1 x {a} {b}\n",
        "STRING 12\n{\n  padded text  \n}\n",
        "STRING 3 {\n{inner\n}\n",
        "STRING 4\n\n{\nx\n}",
        "STRING5 {x}",
        "STRING 6{x}",
        "STRING 7 // comment\n{\nlater\n}\n",
        "STRING 8 {\nno close",
        "STRING 9 {a}\nSTRING 9 {b}\n",
        "xxSTRING 10 { y }zzSTRING 11\t{\tz\t}",
        "STRING 12 \u{a0}{ unicode space }",
        "STRING 13 {\r\nwindows\r\n}\r\n",
        "STRING 14 a\n b {c}",
        "STRING 15 {}",
        "STRING  16  17 {x}",
        "STRING 18 {x} trailing } brace",
        "STRING 19\n{\n}\nSTRING 20\n{\nnext\n}",
    ];
    for c in cases {
        same_as_reference(c);
    }
}

#[test]
fn map_strings_match_the_pattern_on_generated_texts() {
    let pieces = ["STRING", " ", "\n", "{", "}", "1", "23", "a", "\t", "x y", "\r\n", "STRING 5"];
    let mut state: u64 = 0x2545F4914F6CDD1D;
    for _ in 0..3000 {
        let mut text = String::new();
        let n = (state % 14) as usize;
        for _ in 0..n {
            state ^= state << 13;
            state ^= state >> 7;
            state ^= state << 17;
            text.push_str(pieces[(state % pieces.len() as u64) as usize]);
        }
        state = state.wrapping_mul(6364136223846793005).wrapping_add(1442695040888963407);
        same_as_reference(&text);
    }
}

#[test]
fn map_strings_write_then_extract() {
    let file = MapStringFile::new(vec![
        ("1".to_string(), "First".to_string()),
        ("2".to_string(), "Second line\nwith two lines".to_string()),
        ("1".to_string(), "Replaced".to_string()),
    ]);
    assert_eq!(file.len(), 2);
    let bytes = file.prepare_write().unwrap().into_buffer();
    let text = String::from_utf8(bytes.clone()).unwrap();
    assert_eq!(text, "STRING 1 {\nReplaced\n}\nSTRING 2 {\nSecond line\nwith two lines\n}\n");
    let mut reader = BinaryReader::new(bytes);
    let back = MapStringFile::read(&mut reader).unwrap();
    assert_eq!(back.len(), 2);
    assert_eq!(back.get("1"), Some(&"Replaced".to_string()));
    assert_eq!(back.get("2"), Some(&"Second line\nwith two lines".to_string()));
    assert_eq!(back.get("3"), None);
}

#[test]
fn map_strings_invalid_utf8_is_error() {
    let mut reader = BinaryReader::new(vec![b'S', 0xFF, 0xFE]);
    assert!(MapStringFile::read(&mut reader).is_err());
}
