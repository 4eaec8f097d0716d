use cargo_remote::error::PatchError;
use cargo_remote::manifest::ManifestDocument;

const SAMPLE: &str = r#"# top comment
[package]
name = "demo"   # trailing comment

[patch.crates-io]
local = { path = "/root/ws/local", version = "1" }
git-only = { git = "https://example.org/x" }
odd = { path = 7 }

[patch."https://example.org/repo"]
other = { path = "/root/other/o" }

[patch.crates-io.full]
path = "/root/ws/full"
"#;

#[test]
fn parse_and_render_give_the_text_back() {
    let manifest = ManifestDocument::parse(SAMPLE).unwrap();
    assert_eq!(manifest.render(), SAMPLE);
}

#[test]
fn parse_rejects_what_is_no_manifest() {
    let result = ManifestDocument::parse("a = = 1");
    match result {
        Err(PatchError::Parse { detail }) => assert!(!detail.is_empty()),
        _ => panic!("expected a parse error"),
    }
}

#[test]
fn path_slots_are_read_in_document_order() {
    let manifest = ManifestDocument::parse(SAMPLE).unwrap();
    let slots = manifest.path_slots().unwrap();
    let seen: Vec<(String, String, Option<String>)> = slots
        .into_iter()
        .map(|s| (s.group, s.name, s.path))
        .collect();
    assert_eq!(
        seen,
        vec![
            (
                "crates-io".to_string(),
                "local".to_string(),
                Some("/root/ws/local".to_string())
            ),
            ("crates-io".to_string(), "odd".to_string(), None),
            (
                "crates-io".to_string(),
                "full".to_string(),
                Some("/root/ws/full".to_string())
            ),
            (
                "https://example.org/repo".to_string(),
                "other".to_string(),
                Some("/root/other/o".to_string())
            ),
        ]
    );
}

#[test]
fn path_slots_of_a_manifest_without_override_table() {
    let manifest = ManifestDocument::parse("[package]\nname = \"demo\"\n").unwrap();
    assert!(manifest.path_slots().is_none());
    let other = ManifestDocument::parse("patch = [1, 2]\n").unwrap();
    assert!(other.path_slots().is_none());
    let inline = ManifestDocument::parse("patch = { x = { y = { path = \"/p\" } } }\n").unwrap();
    assert_eq!(inline.path_slots().map(|s| s.len()), Some(1));
    let empty = ManifestDocument::parse("[patch]\n").unwrap();
    assert_eq!(empty.path_slots().map(|s| s.len()), Some(0));
}

#[test]
fn groups_that_are_no_tables_have_no_slots() {
    let manifest =
        ManifestDocument::parse("[patch]\nx = 1\ny = { z = { path = \"/p\" } }\n").unwrap();
    let slots = manifest.path_slots().unwrap();
    assert_eq!(slots.len(), 1);
    assert_eq!(slots[0].group, "y");
    assert_eq!(slots[0].name, "z");
}

#[test]
fn has_override_knows_tables_of_either_form() {
    let manifest = ManifestDocument::parse(SAMPLE).unwrap();
    assert!(manifest.has_override("crates-io", "local"));
    assert!(manifest.has_override("crates-io", "git-only"));
    assert!(manifest.has_override("https://example.org/repo", "other"));
    assert!(manifest.has_override("crates-io", "full"));
    assert!(!manifest.has_override("crates-io", "missing"));
    assert!(!manifest.has_override("missing", "local"));
    let none = ManifestDocument::parse("[package]\nname = \"demo\"\n[patch.x]\ny = 1\n").unwrap();
    assert!(!none.has_override("package", "name"));
    assert!(!none.has_override("x", "y"));
}

#[test]
fn has_path_asks_for_a_text() {
    let manifest = ManifestDocument::parse(SAMPLE).unwrap();
    assert!(manifest.has_path("crates-io", "local"));
    assert!(manifest.has_path("crates-io", "full"));
    assert!(!manifest.has_path("crates-io", "git-only"));
    assert!(!manifest.has_path("crates-io", "odd"));
    assert!(!manifest.has_path("crates-io", "missing"));
}

#[test]
fn set_path_replaces_one_value_and_nothing_else() {
    let mut manifest = ManifestDocument::parse(SAMPLE).unwrap();
    assert!(manifest.set_path("crates-io", "local", "../ws/local"));
    assert_eq!(
        manifest.render(),
        SAMPLE.replace("\"/root/ws/local\"", "\"../ws/local\"")
    );
    assert!(manifest.set_path("crates-io", "full", "../ws/full"));
    assert_eq!(
        manifest.render(),
        SAMPLE
            .replace("\"/root/ws/local\"", "\"../ws/local\"")
            .replace("\"/root/ws/full\"", "\"../ws/full\"")
    );
    let slots = manifest.path_slots().unwrap();
    assert_eq!(slots[0].path, Some("../ws/local".to_string()));
    assert_eq!(slots[3].path, Some("/root/other/o".to_string()));
}

#[test]
fn set_path_without_a_text_path_changes_nothing() {
    let mut manifest = ManifestDocument::parse(SAMPLE).unwrap();
    assert!(!manifest.set_path("crates-io", "git-only", "../g"));
    assert!(!manifest.set_path("crates-io", "odd", "../o"));
    assert!(!manifest.set_path("nowhere", "local", "../ws/local"));
    assert!(!manifest.set_path("crates-io", "nobody", "../ws/local"));
    assert_eq!(manifest.render(), SAMPLE);
    assert_eq!(manifest.path_slots().map(|s| s.len()), Some(4));
}

#[test]
fn set_paths_writes_each_slot_in_turn() {
    let mut manifest = ManifestDocument::parse(SAMPLE).unwrap();
    let slots = manifest.path_slots().unwrap();
    let paths = vec![
        "../a".to_string(),
        "../b".to_string(),
        "../c".to_string(),
        "../d".to_string(),
    ];
    manifest.set_paths(&slots, &paths);
    let after = manifest.path_slots().unwrap();
    let seen: Vec<Option<String>> = after.into_iter().map(|s| s.path).collect();
    assert_eq!(
        seen,
        vec![
            Some("../a".to_string()),
            None,
            Some("../c".to_string()),
            Some("../d".to_string())
        ]
    );
    assert!(manifest.render().contains("git-only = { git = \"https://example.org/x\" }"));
    assert!(manifest.render().contains("odd = { path = 7 }"));
    assert!(manifest.render().starts_with("# top comment\n[package]\nname = \"demo\"   # trailing comment\n"));
}
