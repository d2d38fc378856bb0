use wce::map::data_ini::DataIni;
use wce::map::game_data::{path_to_data, path_to_slk};
use wce::map::slk_datas::{can_process, SLKData, ScannerAdapter, DocumentAdapter};

const TRIGGER_DATA: &str = "// comment line\r\n[TriggerActions]\r\nDoNothing=0,nothing\r\n  Wait = 1,real\r\n\r\n[TriggerCalls]\r\nGetUnit=1,unit,player\r\n";

#[test]
fn data_ini_sections_and_properties() {
    let mut ini = DataIni::new();
    ini.merge(TRIGGER_DATA);
    assert_eq!(ini.get_prop("TriggerActions", "DoNothing"), Some(&"0,nothing".to_string()));
    assert_eq!(ini.get_prop("TriggerActions", "Wait "), Some(&" 1,real".to_string()));
    assert_eq!(ini.get_prop("TriggerCalls", "GetUnit"), Some(&"1,unit,player".to_string()));
    assert_eq!(ini.get_prop("TriggerCalls", "DoNothing"), None);
    assert!(ini.get_sector("TriggerEvents").is_none());
    assert_eq!(ini.get_sector("TriggerActions").unwrap().get("DoNothing"), Some(&"0,nothing".to_string()));
}

#[test]
fn data_ini_properties_before_any_section_are_dropped() {
    let mut ini = DataIni::new();
    ini.merge("a=1\r\n[S]\r\nb=2\r\n");
    assert_eq!(ini.get_prop("S", "a"), None);
    assert_eq!(ini.get_prop("S", "b"), Some(&"2".to_string()));
}

#[test]
fn data_ini_merge_keeps_old_properties_and_overrides_set_ones() {
    let mut ini = DataIni::new();
    ini.merge("[S]\r\na=1\r\nb=2\r\n[T]\r\nx=9\r\n");
    ini.merge("[S]\r\nb=3\r\nc=4\r\n");
    assert_eq!(ini.get_prop("S", "a"), Some(&"1".to_string()));
    assert_eq!(ini.get_prop("S", "b"), Some(&"3".to_string()));
    assert_eq!(ini.get_prop("S", "c"), Some(&"4".to_string()));
    assert_eq!(ini.get_prop("T", "x"), Some(&"9".to_string()));
    ini.fit();
    assert_eq!(ini.get_prop("S", "b"), Some(&"3".to_string()));
}

#[test]
fn data_ini_repeated_section_in_one_text_restarts_it() {
    let mut ini = DataIni::new();
    ini.merge("[S]\r\na=1\r\n[S]\r\nb=2\r\n");
    assert_eq!(ini.get_prop("S", "a"), None);
    assert_eq!(ini.get_prop("S", "b"), Some(&"2".to_string()));
}

#[test]
fn data_ini_key_is_a_lone_space_when_equal_follows_white_space() {
    let mut ini = DataIni::new();
    ini.merge("[S]\r\n  =v\r\n=w\r\n");
    assert_eq!(ini.get_prop("S", " "), Some(&"v".to_string()));
    assert_eq!(ini.get_prop("S", ""), None);
}

#[test]
fn data_ini_section_name_keeps_inner_brackets() {
    let mut ini = DataIni::new();
    ini.merge(" [a]b] \r\nk=v\r\n[]\r\nz=1\r\n");
    assert_eq!(ini.get_prop("a]b", "k"), Some(&"v".to_string()));
    assert_eq!(ini.get_prop("a]b", "z"), Some(&"1".to_string()));
}

#[test]
fn paths_under_prefix() {
    assert_eq!(path_to_data("res/", "TriggerData.txt"), "res/datas/TriggerData.txt");
    assert_eq!(path_to_slk("res/", "UnitData.slk"), "res/slk/UnitData.slk");
}

const UNIT_SLK: &[u8] = b"ID;PWXL;N;E\r\nB;X3;Y3;D0\r\nC;Y1;X1;K\"unitID\"\r\nC;X2;K\"hp\"\r\nC;X3;K\r\nC;Y2;X1;K\"hfoo\"\r\nC;X2;K420\r\nC;X3;K\" - \"\r\nC;Y3;X1;K\"hkni\"\r\nC;X2;K\"#VALUE!\"\r\nE\r\n";

#[test]
fn slk_load_headers_and_rows() {
    let data = SLKData::load("UnitData.slk", UNIT_SLK.to_vec()).unwrap();
    let headers = data.headers();
    assert_eq!(headers.get(1), Some(&"unitID".to_string()));
    assert_eq!(headers.get(2), Some(&"hp".to_string()));
    assert_eq!(headers.get(3), Some(&"Unknown".to_string()));
    let row = data.get(&"hfoo".to_string()).unwrap();
    assert_eq!(row.get(2), Some(&"420".to_string()));
    assert_eq!(row.get(3), Some(&" - ".to_string()));
    assert_eq!(row.get(1), None);
    assert!(data.get(&"hkni".to_string()).is_some());
    assert!(data.get(&"nope".to_string()).is_none());
}

#[test]
fn slk_merge_shifts_columns_and_cleans_values() {
    let mut data = SLKData::new();
    assert!(data.can_merge(UNIT_SLK.to_vec()));
    data.merge("UnitData.slk", UNIT_SLK.to_vec()).unwrap();
    assert!(data.can_merge(UNIT_SLK.to_vec()));
    data.merge("UnitData.slk", UNIT_SLK.to_vec()).unwrap();
    let headers = data.headers();
    assert_eq!(headers.get(2), Some(&"hp".to_string()));
    assert_eq!(headers.get(5), Some(&"hp".to_string()));
    let row = data.get(&"hfoo".to_string()).unwrap();
    assert_eq!(row.get(2), Some(&"420".to_string()));
    assert_eq!(row.get(5), Some(&"420".to_string()));
    assert_eq!(row.get(3), Some(&"-".to_string()));
    assert_eq!(row.get(6), Some(&"-".to_string()));
    let knight = data.get(&"hkni".to_string()).unwrap();
    assert_eq!(knight.get(2), Some(&"".to_string()));
}

#[test]
fn slk_load_error_names_the_file() {
    let bad = b"ID;P\r\nZ;X1\r\nE\r\n".to_vec();
    match SLKData::load("Bad.slk", bad) {
        Err(wce::slkparser::error::SLKError::InFile { path, .. }) => assert_eq!(path, "Bad.slk"),
        other => panic!("unexpected {:?}", other),
    }
}

#[test]
fn slk_value_before_any_row_is_refused_by_checker() {
    let bad = b"ID;P\r\nC;X2;K1\r\nE\r\n".to_vec();
    assert!(!SLKData::can_load(bad.clone()));
    let document = DocumentAdapter::load(ScannerAdapter::open(bad)).unwrap();
    assert!(!can_process(document.get_contents()));
    assert!(SLKData::can_load(UNIT_SLK.to_vec()));
}

const LABELLED_SLK: &[u8] = b"ID;PWXL;N;E\r\nC;Y1;X1;K\"id\"\r\nC;X2;K\"Name\"\r\nC;X3;K\"Name\"\r\nC;Y2;X1;K\"h000\"\r\nC;X2;K\"A\"\r\nC;X3;K\"B\"\r\nC;X4;K\"C\"\r\nC;X5;K\"D\"\r\nE\r\n";

fn formatted_value(pairs: &[(String, String)], label: &str) -> Option<String> {
    pairs.iter().find(|(l, _)| l == label).map(|(_, v)| v.clone())
}

#[test]
fn slk_get_formatted_keys_by_label() {
    let data = SLKData::load("Labelled.slk", LABELLED_SLK.to_vec()).unwrap();
    let pairs = data.get_formatted(&"h000".to_string()).unwrap();
    // the highest column of a repeated label wins
    assert_eq!(formatted_value(&pairs, "Name"), Some("B".to_string()));
    // every column without a header shares one label
    assert_eq!(formatted_value(&pairs, "Unknown1"), Some("D".to_string()));
    assert_eq!(pairs.len(), 2);
    assert!(data.get_formatted(&"nope".to_string()).is_none());
}

#[test]
fn slk_get_formatted_pairs_come_in_label_order() {
    let data = SLKData::load("Labelled.slk", LABELLED_SLK.to_vec()).unwrap();
    let pairs = data.get_formatted(&"h000".to_string()).unwrap();
    let labels: Vec<&str> = pairs.iter().map(|p| p.0.as_str()).collect();
    let mut expected = labels.clone();
    expected.sort();
    assert_eq!(labels, expected);
    assert_eq!(labels, vec!["Name", "Unknown1"]);
}
