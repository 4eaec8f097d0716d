use cargo_remote::error::PatchError;
use cargo_remote::patches::extract_patched_crates_and_adjust_toml;
use std::cell::Cell;
use std::path::{Path, PathBuf};

fn prefix_locator(p: String) -> Result<String, String> {
    let p = PathBuf::from(p);
    if p.starts_with("/some/prefix/a") {
        return Ok("/some/prefix/a".to_string());
    } else if p.starts_with("/some/prefix/a-2") {
        return Ok("/some/prefix/a-2".to_string());
    } else if p.starts_with("/some/prefix/b") {
        return Ok("/some/prefix/b".to_string());
    }
    Err("Invalid Path".to_string())
}

#[test]
fn simple_modification_replaces_path() {
    let input = r#"
"hello" = 'toml!'
[patch.a]
a-crate = { path = "/some/prefix/a/src/a-crate" }
a-other-crate = { path = "/some/prefix/a/src/subfolder/a-other-crate" }
git-patched-crate = { git = "https://some-url/test/test" }
a-crate-different-folder = { path = "/some/prefix/a-2/src/subfolder/a-crate-different-folder" }
[patch.b]
b-crate = { path = "/some/prefix/b/src/b-crate" }
b-other-crate = { path = "/some/prefix/b/src/subfolder/b-other-crate" }
git-patched-crate = { git = "https://some-url/test/test" }
"#
    .to_string();
    let expect = r#"
"hello" = 'toml!'
[patch.a]
a-crate = { path = "../a/src/a-crate" }
a-other-crate = { path = "../a/src/subfolder/a-other-crate" }
git-patched-crate = { git = "https://some-url/test/test" }
a-crate-different-folder = { path = "../a-2/src/subfolder/a-crate-different-folder" }
[patch.b]
b-crate = { path = "../b/src/b-crate" }
b-other-crate = { path = "../b/src/subfolder/b-other-crate" }
git-patched-crate = { git = "https://some-url/test/test" }
"#
    .to_string();

    let result = extract_patched_crates_and_adjust_toml(input, |p| {
        let p = PathBuf::from(p);
        if p.starts_with("/some/prefix/a") {
            return Ok("/some/prefix/a".to_string());
        } else if p.starts_with("/some/prefix/a-2") {
            return Ok("/some/prefix/a-2".to_string());
        } else if p.starts_with("/some/prefix/b") {
            return Ok("/some/prefix/b".to_string());
        }
        Err("Invalid Path".to_string())
    })
    .expect("Toml patching failed")
    .unwrap();
    assert_eq!(result.0.render(), expect);
}

#[test]
fn simple_modification_finds_three_workspaces_in_order() {
    let input = r#"
[patch.a]
a-crate = { path = "/some/prefix/a/src/a-crate" }
a-crate-different-folder = { path = "/some/prefix/a-2/src/subfolder/a-crate-different-folder" }
[patch.b]
b-crate = { path = "/some/prefix/b/src/b-crate" }
"#
    .to_string();
    let (_, projects) = extract_patched_crates_and_adjust_toml(input, prefix_locator)
        .unwrap()
        .unwrap();
    let names: Vec<&str> = projects.iter().map(|p| p.name.as_str()).collect();
    assert_eq!(names, vec!["a", "a-2", "b"]);
    assert_eq!(projects[1].local_path, "/some/prefix/a-2");
    assert_eq!(projects[1].remote_path, "../a-2");
}

#[test]
fn manifest_without_override_table_gives_none_and_asks_nobody() {
    let asked = Cell::new(0);
    let input = "[package]\nname = \"x\"\n\n[dependencies]\nfoo = { path = \"/root/ws/foo\" }\n";
    let result = extract_patched_crates_and_adjust_toml(input.to_string(), |_p| {
        asked.set(asked.get() + 1);
        Err("never".to_string())
    });
    assert!(matches!(result, Ok(None)));
    assert_eq!(asked.get(), 0);
}

#[test]
fn override_key_that_is_no_table_gives_none() {
    let result = extract_patched_crates_and_adjust_toml("patch = 3\n".to_string(), prefix_locator);
    assert!(matches!(result, Ok(None)));
}

#[test]
fn empty_override_table_gives_document_and_no_workspace() {
    let input = "[patch]\n";
    let (doc, projects) = extract_patched_crates_and_adjust_toml(input.to_string(), prefix_locator)
        .unwrap()
        .unwrap();
    assert_eq!(doc.render(), input);
    assert!(projects.is_empty());
}

#[test]
fn single_entry_is_rewritten_to_sibling_of_build_dir() {
    let input = "[patch.crates-io]\ncrate-a = { path = \"/root/ws/crate-a\" }\n";
    let (doc, projects) = extract_patched_crates_and_adjust_toml(input.to_string(), |p| {
        if Path::new(&p).starts_with("/root/ws") {
            Ok("/root/ws".to_string())
        } else {
            Err("unknown".to_string())
        }
    })
    .unwrap()
    .unwrap();
    assert_eq!(
        doc.render(),
        "[patch.crates-io]\ncrate-a = { path = \"../ws/crate-a\" }\n"
    );
    assert_eq!(projects.len(), 1);
    assert_eq!(projects[0].name, "ws");
    assert_eq!(projects[0].local_path, "/root/ws");
    assert_eq!(projects[0].remote_path, "../ws");
}

#[test]
fn entries_under_one_root_share_a_workspace_and_one_locator_call() {
    let asked = Cell::new(0);
    let input = "[patch.crates-io]\na = { path = \"/root/ws/a\" }\nb = { path = \"/root/ws/sub/b\" }\n";
    let (doc, projects) = extract_patched_crates_and_adjust_toml(input.to_string(), |_p| {
        asked.set(asked.get() + 1);
        Ok("/root/ws".to_string())
    })
    .unwrap()
    .unwrap();
    assert_eq!(projects.len(), 1);
    assert_eq!(asked.get(), 1);
    assert_eq!(
        doc.render(),
        "[patch.crates-io]\na = { path = \"../ws/a\" }\nb = { path = \"../ws/sub/b\" }\n"
    );
}

#[test]
fn disjoint_roots_give_workspaces_in_document_order() {
    let input = "[patch.x]\nsecond = { path = \"/root/ws2/s\" }\nfirst = { path = \"/root/ws1/f\" }\nagain = { path = \"/root/ws2/t\" }\n";
    let (_, projects) = extract_patched_crates_and_adjust_toml(input.to_string(), |p| {
        let p = PathBuf::from(p);
        if p.starts_with("/root/ws1") {
            Ok("/root/ws1".to_string())
        } else {
            Ok("/root/ws2".to_string())
        }
    })
    .unwrap()
    .unwrap();
    assert_eq!(projects.len(), 2);
    assert_eq!(projects[0].local_path, "/root/ws2");
    assert_eq!(projects[1].local_path, "/root/ws1");
}

#[test]
fn entry_without_path_is_left_byte_for_byte() {
    let input = "# keep me\n[patch.crates-io]\ngit-only   =   { git = \"https://example.org/x\" ,branch=\"main\" }  # odd spacing\nlocal = { path = \"/root/ws/local\", version = \"1\" }\n";
    let (doc, projects) =
        extract_patched_crates_and_adjust_toml(input.to_string(), |_p| Ok("/root/ws".to_string()))
            .unwrap()
            .unwrap();
    assert_eq!(
        doc.render(),
        "# keep me\n[patch.crates-io]\ngit-only   =   { git = \"https://example.org/x\" ,branch=\"main\" }  # odd spacing\nlocal = { path = \"../ws/local\", version = \"1\" }\n"
    );
    assert_eq!(projects.len(), 1);
}

#[test]
fn locator_failure_is_a_resolution_error_naming_the_path() {
    let input = "[patch.x]\nok = { path = \"/root/ws/ok\" }\nbad = { path = \"/elsewhere/bad\" }\n";
    let result = extract_patched_crates_and_adjust_toml(input.to_string(), |p| {
        if Path::new(&p).starts_with("/root/ws") {
            Ok("/root/ws".to_string())
        } else {
            Err("no workspace here".to_string())
        }
    });
    assert_eq!(
        result.err(),
        Some(PatchError::WorkspaceResolution {
            path: "/elsewhere/bad".to_string(),
            detail: "no workspace here".to_string(),
        })
    );
}

#[test]
fn rewriting_a_rewritten_manifest_is_a_resolution_error() {
    let locate = |p: String| {
        if Path::new(&p).starts_with("/root/ws") {
            Ok("/root/ws".to_string())
        } else {
            Err("not local".to_string())
        }
    };
    let input = "[patch.x]\na = { path = \"/root/ws/a\" }\n";
    let (doc, _) = extract_patched_crates_and_adjust_toml(input.to_string(), locate)
        .unwrap()
        .unwrap();
    let again = extract_patched_crates_and_adjust_toml(doc.render(), locate);
    assert_eq!(
        again.err(),
        Some(PatchError::WorkspaceResolution {
            path: "../ws/a".to_string(),
            detail: "not local".to_string(),
        })
    );
}

#[test]
fn invalid_manifest_is_a_parse_error() {
    let result = extract_patched_crates_and_adjust_toml("[patch\n".to_string(), prefix_locator);
    assert!(matches!(result, Err(PatchError::Parse { .. })));
}

#[test]
fn root_without_name_is_a_resolution_error() {
    let input = "[patch.x]\na = { path = \"/a\" }\n";
    let result = extract_patched_crates_and_adjust_toml(input.to_string(), |_p| Ok("/".to_string()));
    assert_eq!(
        result.err(),
        Some(PatchError::WorkspaceResolution {
            path: "/a".to_string(),
            detail: "Unable to get file name from workspace folder.".to_string(),
        })
    );
}

#[test]
fn root_that_does_not_contain_the_path_is_a_construction_error() {
    let input = "[patch.x]\na = { path = \"/a/bx/c\" }\n";
    let result =
        extract_patched_crates_and_adjust_toml(input.to_string(), |_p| Ok("/a/b".to_string()));
    assert_eq!(
        result.err(),
        Some(PatchError::PathConstruction {
            path: "/a/bx/c".to_string(),
            root: "/a/b".to_string(),
        })
    );
}

#[test]
fn path_that_is_not_text_is_an_error() {
    let input = "[patch.x]\na = { path = 3 }\n";
    let result = extract_patched_crates_and_adjust_toml(input.to_string(), prefix_locator);
    assert_eq!(
        result.err(),
        Some(PatchError::PathNotText {
            group: "x".to_string(),
            name: "a".to_string(),
        })
    );
}

#[test]
fn error_of_an_earlier_entry_comes_first() {
    let input = "[patch.x]\nlost = { path = \"/nowhere/lost\" }\nodd = { path = 3 }\n";
    let result = extract_patched_crates_and_adjust_toml(input.to_string(), prefix_locator);
    assert!(matches!(
        result,
        Err(PatchError::WorkspaceResolution { .. })
    ));
}

#[test]
fn overrides_written_as_tables_are_rewritten() {
    let asked = Cell::new(0);
    let input = "[patch.x.full]\npath = \"/root/ws/full\"  # where it lives\nversion = \"1\"\n\n[patch.x]\ndotted.path = \"/root/ws/dotted\"\n";
    let (doc, projects) = extract_patched_crates_and_adjust_toml(input.to_string(), |_p| {
        asked.set(asked.get() + 1);
        Ok("/root/ws".to_string())
    })
    .unwrap()
    .unwrap();
    assert_eq!(
        doc.render(),
        "[patch.x.full]\npath = \"../ws/full\"  # where it lives\nversion = \"1\"\n\n[patch.x]\ndotted.path = \"../ws/dotted\"\n"
    );
    assert_eq!(projects.len(), 1);
    assert_eq!(projects[0].local_path, "/root/ws");
    assert_eq!(asked.get(), 1);
}

#[test]
fn override_table_written_in_braces_is_rewritten() {
    let input = "patch = { x = { a = { path = \"/root/ws/a\" } } }\n";
    let (doc, projects) =
        extract_patched_crates_and_adjust_toml(input.to_string(), |_p| Ok("/root/ws".to_string()))
            .unwrap()
            .unwrap();
    assert_eq!(doc.render(), "patch = { x = { a = { path = \"../ws/a\" } } }\n");
    assert_eq!(projects.len(), 1);
}

#[test]
fn spacing_and_comments_around_a_rewritten_path_stay() {
    let input = "[patch.x]\na = {path=\"/root/ws/a\"}\nb = {   path   =   \"/root/ws/b\"   ,git=\"u\" } # b\n";
    let (doc, _) =
        extract_patched_crates_and_adjust_toml(input.to_string(), |_p| Ok("/root/ws".to_string()))
            .unwrap()
            .unwrap();
    assert_eq!(
        doc.render(),
        "[patch.x]\na = {path=\"../ws/a\"}\nb = {   path   =   \"../ws/b\"   ,git=\"u\" } # b\n"
    );
}

#[test]
fn carriage_returns_are_not_written_out() {
    let input = "[patch.x]\r\na = { path = \"/root/ws/a\" }\r\n";
    let (doc, _) =
        extract_patched_crates_and_adjust_toml(input.to_string(), |_p| Ok("/root/ws".to_string()))
            .unwrap()
            .unwrap();
    assert_eq!(doc.render(), "[patch.x]\na = { path = \"../ws/a\" }\n");
}

#[test]
fn path_written_unnormalised_is_rewritten_by_its_components() {
    let input = "[patch.x]\na = { path = \"/root/ws/a//b/./c/\" }\n";
    let (doc, _) =
        extract_patched_crates_and_adjust_toml(input.to_string(), |_p| Ok("/root/ws".to_string()))
            .unwrap()
            .unwrap();
    assert_eq!(doc.render(), "[patch.x]\na = { path = \"../ws/a/b/c\" }\n");
}

#[test]
fn path_equal_to_the_root_ends_in_a_separator() {
    let input = "[patch.x]\nws = { path = \"/root/ws\" }\n";
    let (doc, _) =
        extract_patched_crates_and_adjust_toml(input.to_string(), |_p| Ok("/root/ws".to_string()))
            .unwrap()
            .unwrap();
    assert_eq!(doc.render(), "[patch.x]\nws = { path = \"../ws/\" }\n");
}

#[test]
fn two_workspaces_with_one_name_are_an_error() {
    let input = "[patch.x]\na = { path = \"/x/proj/a\" }\nb = { path = \"/y/proj/b\" }\n";
    let result = extract_patched_crates_and_adjust_toml(input.to_string(), |p| {
        Ok(p[..7].to_string())
    });
    assert_eq!(
        result.err(),
        Some(PatchError::RemoteRootTaken {
            root: "/y/proj".to_string(),
            remote_root: "../proj".to_string(),
        })
    );
}
