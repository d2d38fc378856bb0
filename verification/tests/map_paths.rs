use wce::map_paths::{is_blizzard_maps, is_custom_maps, paths_blizzard_maps, paths_custom_maps, DirEntry};

fn file(path: &str, name: &str, ext: Option<&str>) -> DirEntry {
    DirEntry {
        path: path.to_string(),
        name: name.to_string(),
        is_dir: false,
        extension: ext.map(|e| e.to_string()),
        children: vec![],
    }
}

fn dir(path: &str, name: &str, children: Vec<DirEntry>) -> DirEntry {
    DirEntry { path: path.to_string(), name: name.to_string(), is_dir: true, extension: None, children }
}

#[test]
fn map_directories_are_recognized() {
    assert!(is_blizzard_maps(true, "Scenario"));
    assert!(is_blizzard_maps(true, "FrozenThrone"));
    assert!(!is_blizzard_maps(false, "Scenario"));
    assert!(!is_blizzard_maps(true, "Download"));
    assert!(is_custom_maps(true, "Download"));
    assert!(!is_custom_maps(false, "Download"));
    assert!(!is_custom_maps(true, "Scenario"));
}

#[test]
fn maps_are_collected_in_searched_directories() {
    let tree = vec![
        file("Maps/a.w3m", "a.w3m", Some("w3m")),
        dir(
            "Maps/Scenario",
            "Scenario",
            vec![file("Maps/Scenario/b.w3x", "b.w3x", Some("w3x")), file("Maps/Scenario/c.txt", "c.txt", Some("txt"))],
        ),
        dir("Maps/Download", "Download", vec![file("Maps/Download/d.w3x", "d.w3x", Some("w3x"))]),
        dir("Maps/Other", "Other", vec![]),
    ];
    assert_eq!(paths_blizzard_maps(&tree), vec!["Maps/a.w3m".to_string(), "Maps/Scenario/b.w3x".to_string()]);
    assert_eq!(paths_custom_maps(&tree), vec!["Maps/a.w3m".to_string(), "Maps/Download/d.w3x".to_string()]);
}
