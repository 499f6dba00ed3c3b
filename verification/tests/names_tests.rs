use polymutate::{is_json_file_name, mutated_file_name};

#[test]
fn json_extension_follows_path_rules() {
    assert!(is_json_file_name("a.json"));
    assert!(is_json_file_name("x..json"));
    assert!(is_json_file_name("a.b.json"));
    assert!(!is_json_file_name(".json"));
    assert!(!is_json_file_name("json"));
    assert!(!is_json_file_name("a.json.bak"));
    assert!(!is_json_file_name("a.JSON"));
    assert!(!is_json_file_name(""));
}

#[test]
fn json_check_agrees_with_std_path() {
    for name in ["a.json", ".json", "..json", "x.y", "noext", "a.json.json", "é.json", ".", ".."] {
        let std_says = std::path::Path::new(name).extension().and_then(|e| e.to_str()) == Some("json");
        assert_eq!(is_json_file_name(name), std_says, "{}", name);
    }
}

#[test]
fn mutated_names_join_the_group() {
    let group = vec!["x1".to_string(), "x2".to_string()];
    assert_eq!(mutated_file_name("case", "z", &group), "case_z_x1_x2.json");
    assert!(is_json_file_name(&mutated_file_name("", "z", &[])));
}
