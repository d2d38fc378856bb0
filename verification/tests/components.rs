use wce::map::components::{is_extra_file, known_component_files, listfile_names};

#[test]
fn archive_internal_files_are_not_carried() {
    assert!(!is_extra_file("(listfile)"));
    assert!(!is_extra_file("(attributes)"));
    assert!(!is_extra_file("(signature)"));
}

#[test]
fn component_files_are_not_carried_whatever_their_case() {
    assert!(!is_extra_file("war3map.w3i"));
    assert!(!is_extra_file("WAR3MAP.W3I"));
    assert!(!is_extra_file("War3MapUnits.doo"));
    assert!(!is_extra_file("war3map.w3d"));
    assert_eq!(known_component_files().len(), 22);
}

#[test]
fn imported_assets_are_carried() {
    assert!(is_extra_file("war3mapImported\\Footman.mdx"));
    assert!(is_extra_file("war3map.j"));
    assert!(is_extra_file("war3map.w3ix"));
    assert!(is_extra_file(""));
    assert!(is_extra_file("x(listfile)"));
}

#[test]
fn listfile_names_are_its_non_empty_lines() {
    let names = listfile_names(b"war3map.w3i\r\n\r\nwar3mapImported\\a.mdx\nlast".to_vec()).unwrap();
    assert_eq!(names, vec!["war3map.w3i", "war3mapImported\\a.mdx", "last"]);
    assert_eq!(listfile_names(b"a\r\nb\r\n".to_vec()).unwrap(), vec!["a", "b"]);
    assert_eq!(listfile_names(Vec::new()).unwrap(), Vec::<String>::new());
    assert!(listfile_names(vec![0xFF, 0x0A]).is_none());
}

#[test]
fn listfile_names_agree_with_str_lines() {
    let texts = ["a\nb", "a\r\nb\r", "\r\n\r\n", "x\r\r\ny", "\n\na", "one"];
    for t in texts {
        let expected: Vec<String> = t.lines().filter(|l| !l.is_empty()).map(String::from).collect();
        assert_eq!(listfile_names(t.as_bytes().to_vec()).unwrap(), expected, "{:?}", t);
    }
}
