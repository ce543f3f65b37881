use envfile::{EnvDeclaration, EnvFile, EnvFileRow, EnvMap};

fn decl(name: &str, value: Option<&str>) -> EnvFileRow {
    EnvFileRow::Declaration(EnvDeclaration {
        name: name.to_string(),
        value: value.map(|v| v.to_string()),
    })
}

#[test]
fn flatten_keeps_last_occurrence() {
    let file = EnvFile(vec![
        decl("A", Some("first")),
        decl("B", Some("kept")),
        decl("A", Some("last")),
        decl("A", None),
    ]);
    let env = file.env();
    assert_eq!(env.get("A"), Some(&"last".to_string()));
    assert_eq!(env.get("B"), Some(&"kept".to_string()));
    assert_eq!(env.len(), 2);
}

#[test]
fn flatten_skips_valueless_declarations() {
    let file = EnvFile(vec![decl("A", None), EnvFileRow::Empty]);
    let env = file.env();
    assert_eq!(env.get("A"), None);
    assert_eq!(env.len(), 0);
}

#[test]
fn existing_value_wins_without_override() {
    let file = EnvFile(vec![decl("A", Some("mine"))]);
    let mut map = EnvMap::new();
    map.insert("A".to_string(), "theirs".to_string());
    let merged = file.apply(&map, false);
    assert_eq!(merged, EnvFile(vec![decl("A", Some("mine"))]));
}

#[test]
fn source_value_wins_with_override() {
    let file = EnvFile(vec![decl("A", Some("mine"))]);
    let mut map = EnvMap::new();
    map.insert("A".to_string(), "theirs".to_string());
    let merged = file.apply(&map, true);
    assert_eq!(merged, EnvFile(vec![decl("A", Some("theirs"))]));
}

#[test]
fn missing_value_is_filled_under_either_policy() {
    let file = EnvFile(vec![decl("A", None)]);
    let mut map = EnvMap::new();
    map.insert("A".to_string(), "filled".to_string());
    assert_eq!(file.apply(&map, false), EnvFile(vec![decl("A", Some("filled"))]));
    assert_eq!(file.apply(&map, true), EnvFile(vec![decl("A", Some("filled"))]));
}

#[test]
fn unmatched_keys_are_appended_once() {
    let file = EnvFile(vec![decl("A", Some("1"))]);
    let mut map = EnvMap::new();
    map.insert("X".to_string(), "x".to_string());
    map.insert("A".to_string(), "a".to_string());
    map.insert("Y".to_string(), "y".to_string());
    let merged = file.apply(&map, false);
    assert_eq!(
        merged,
        EnvFile(vec![
            decl("A", Some("1")),
            EnvFileRow::Empty,
            EnvFileRow::CommentOnly("Additional values".to_string()),
            decl("X", Some("x")),
            decl("Y", Some("y")),
        ])
    );
}

#[test]
fn no_rows_are_appended_when_every_key_matches() {
    let file = EnvFile(vec![decl("A", Some("1")), decl("B", None)]);
    let mut map = EnvMap::new();
    map.insert("A".to_string(), "2".to_string());
    map.insert("B".to_string(), "3".to_string());
    let merged = file.apply(&map, false);
    assert_eq!(merged, EnvFile(vec![decl("A", Some("1")), decl("B", Some("3"))]));
}

#[test]
fn repeated_apply_appends_only_while_leftovers_exist() {
    let mut file = EnvFile(vec![decl("A", Some("1"))]);
    let mut map = EnvMap::new();
    map.insert("X".to_string(), "x".to_string());
    file.apply_assign(&map, false);
    let once = file.clone();
    file.apply_assign(&map, false);
    // the second merge finds X declared and appends nothing
    assert_eq!(file, once);
}

#[test]
fn every_duplicate_declaration_of_a_mapped_name_is_merged() {
    let file = EnvFile(vec![decl("A", None), decl("A", None)]);
    let mut map = EnvMap::new();
    map.insert("A".to_string(), "v".to_string());
    let merged = file.apply(&map, true);
    assert_eq!(merged, EnvFile(vec![decl("A", Some("v")), decl("A", Some("v"))]));
}

#[test]
fn duplicates_fill_independently_without_override() {
    let file = EnvFile(vec![decl("A", Some("kept")), decl("A", None)]);
    let mut map = EnvMap::new();
    map.insert("A".to_string(), "v".to_string());
    let merged = file.apply(&map, false);
    // the filled duplicate keeps its value; the empty one is filled
    assert_eq!(merged, EnvFile(vec![decl("A", Some("kept")), decl("A", Some("v"))]));
}

#[test]
fn apply_is_idempotent_under_either_policy() {
    let file = EnvFile(vec![decl("A", Some("1")), decl("B", None)]);
    let mut map = EnvMap::new();
    map.insert("A".to_string(), "2".to_string());
    map.insert("C".to_string(), "3".to_string());
    let once = file.apply(&map, true);
    assert_eq!(once.apply(&map, true), once);
    let once = file.apply(&map, false);
    assert_eq!(once.apply(&map, false), once);
}

#[test]
fn apply_example_from_parsed_text() {
    let file = EnvFile::from_str("# An example .env file for test\n\nABC=\nBCD=123\n")
        .expect("parse failed");
    let mut map = EnvMap::new();
    map.insert("ABC".to_string(), "1".to_string());
    map.insert("CDE".to_string(), "2".to_string());
    let merged = file.apply(&map, true);
    assert_eq!(
        merged.to_string(),
        "# An example .env file for test\n\nABC=1\nBCD=123\n\n# Additional values\nCDE=2\n"
            .to_string()
    );
}

#[test]
fn pure_apply_leaves_receiver_untouched() {
    let file = EnvFile(vec![decl("A", None)]);
    let mut map = EnvMap::new();
    map.insert("A".to_string(), "v".to_string());
    let _ = file.apply(&map, true);
    assert_eq!(file, EnvFile(vec![decl("A", None)]));
}

#[test]
fn stream_lists_rows_in_order() {
    let file = EnvFile(vec![
        EnvFileRow::CommentOnly("c".to_string()),
        EnvFileRow::Empty,
        decl("A", Some("1")),
    ]);
    assert_eq!(
        file.stream(),
        vec![
            EnvFileRow::CommentOnly("c".to_string()),
            EnvFileRow::Empty,
            decl("A", Some("1")),
        ]
    );
}

#[test]
fn env_map_basics() {
    let mut map = EnvMap::new();
    assert!(map.is_empty());
    map.insert("A".to_string(), "1".to_string());
    map.insert("B".to_string(), "2".to_string());
    map.insert("A".to_string(), "3".to_string());
    assert_eq!(map.len(), 2);
    assert!(map.contains_key("A"));
    assert_eq!(map.get("A"), Some(&"3".to_string()));
    assert_eq!(map.entry_at(0), (&"A".to_string(), &"3".to_string()));
    assert_eq!(map.entry_at(1), (&"B".to_string(), &"2".to_string()));
    map.remove("A");
    assert!(!map.contains_key("A"));
    assert_eq!(map.len(), 1);
    map.remove("A");
    assert_eq!(map.len(), 1);
}
