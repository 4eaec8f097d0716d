use cargo_remote::error::PatchError;
use cargo_remote::manifest::PathSlot;
use cargo_remote::rewrite::{adopt_located, relocate, rewrite_paths, sibling_workspace};
use cargo_remote::workspace::{PatchProject, WorkspaceRegistry};
use std::cell::RefCell;

fn slot(name: &str, path: Option<&str>) -> PathSlot {
    PathSlot {
        group: "g".to_string(),
        name: name.to_string(),
        path: path.map(|p| p.to_string()),
    }
}

#[test]
fn sibling_workspace_is_named_after_its_root() {
    let project = sibling_workspace("/some/prefix/a-2".to_string()).unwrap();
    assert_eq!(project.name, "a-2");
    assert_eq!(project.local_path, "/some/prefix/a-2");
    assert_eq!(project.remote_path, "../a-2");
    let trailing = sibling_workspace("/root/ws/".to_string()).unwrap();
    assert_eq!(trailing.name, "ws");
    assert_eq!(trailing.local_path, "/root/ws/");
    assert_eq!(trailing.remote_path, "../ws");
}

#[test]
fn sibling_workspace_needs_a_name() {
    assert!(sibling_workspace("/".to_string()).is_none());
    assert!(sibling_workspace("".to_string()).is_none());
    assert!(sibling_workspace("/root/..".to_string()).is_none());
}

#[test]
fn relocate_moves_the_suffix_under_the_remote_root() {
    let project = PatchProject::new("ws".to_string(), "/root/ws".to_string(), "../ws".to_string());
    assert_eq!(
        relocate(&project, "/root/ws/sub/b"),
        Ok("../ws/sub/b".to_string())
    );
    assert_eq!(
        relocate(&project, "/root//ws/./sub/b/"),
        Ok("../ws/sub/b".to_string())
    );
    assert_eq!(relocate(&project, "/root/ws"), Ok("../ws/".to_string()));
}

#[test]
fn relocate_rejects_a_path_outside_the_root() {
    let project = PatchProject::new("ws".to_string(), "/root/ws".to_string(), "../ws".to_string());
    assert_eq!(
        relocate(&project, "/root/wsx/a"),
        Err(PatchError::PathConstruction {
            path: "/root/wsx/a".to_string(),
            root: "/root/ws".to_string(),
        })
    );
}

#[test]
fn adopt_located_registers_and_rewrites() {
    let mut registry = WorkspaceRegistry::new();
    let text = adopt_located(&mut registry, "/root/ws/a", Ok("/root/ws".to_string()));
    assert_eq!(text, Ok("../ws/a".to_string()));
    assert_eq!(registry.len(), 1);
    assert_eq!(registry.get(0).name, "ws");
    assert_eq!(registry.get(0).remote_path, "../ws");
}

#[test]
fn adopt_located_passes_the_failure_of_the_locator_on() {
    let mut registry = WorkspaceRegistry::new();
    let text = adopt_located(&mut registry, "/root/ws/a", Err("nothing here".to_string()));
    assert_eq!(
        text,
        Err(PatchError::WorkspaceResolution {
            path: "/root/ws/a".to_string(),
            detail: "nothing here".to_string(),
        })
    );
    assert_eq!(registry.len(), 0);
}

#[test]
fn adopt_located_leaves_the_registry_alone_on_an_error() {
    let mut registry = WorkspaceRegistry::new();
    assert!(adopt_located(&mut registry, "/root/ws/a", Ok("/".to_string())).is_err());
    assert!(adopt_located(&mut registry, "/root/ws/a", Ok("/else/where".to_string())).is_err());
    assert_eq!(registry.len(), 0);
    assert!(adopt_located(&mut registry, "/root/ws/a", Ok("/root/ws".to_string())).is_ok());
    assert_eq!(
        adopt_located(&mut registry, "/root/ws/b", Ok("/root/ws".to_string())),
        Err(PatchError::AlreadyRegistered {
            root: "/root/ws".to_string()
        })
    );
    assert_eq!(registry.len(), 1);
}

#[test]
fn rewrite_paths_asks_once_for_each_workspace() {
    let asked = RefCell::new(Vec::new());
    let slots = vec![
        slot("a", Some("/root/ws/a")),
        slot("b", Some("/root/ws/sub/b")),
        slot("c", Some("/root/two/c")),
        slot("d", Some("/root/ws")),
    ];
    let locate = |p: String| {
        asked.borrow_mut().push(p.clone());
        if p.starts_with("/root/ws") {
            Ok("/root/ws".to_string())
        } else {
            Ok("/root/two".to_string())
        }
    };
    let (paths, projects) = rewrite_paths(&slots, &locate).unwrap();
    assert_eq!(paths, vec!["../ws/a", "../ws/sub/b", "../two/c", "../ws/"]);
    assert_eq!(projects.len(), 2);
    assert_eq!(projects[0].local_path, "/root/ws");
    assert_eq!(projects[1].local_path, "/root/two");
    assert_eq!(*asked.borrow(), vec!["/root/ws/a", "/root/two/c"]);
}

#[test]
fn rewrite_paths_of_no_slots() {
    let locate = |_p: String| -> Result<String, String> { Err("never".to_string()) };
    let (paths, projects) = rewrite_paths(&Vec::new(), &locate).unwrap();
    assert!(paths.is_empty());
    assert!(projects.is_empty());
}

#[test]
fn rewrite_paths_stops_at_the_first_error() {
    let asked = RefCell::new(Vec::new());
    let slots = vec![
        slot("a", Some("/root/ws/a")),
        slot("odd", None),
        slot("c", Some("/root/two/c")),
    ];
    let locate = |p: String| {
        asked.borrow_mut().push(p);
        Ok("/root/ws".to_string())
    };
    assert_eq!(
        rewrite_paths(&slots, &locate).err(),
        Some(PatchError::PathNotText {
            group: "g".to_string(),
            name: "odd".to_string(),
        })
    );
    assert_eq!(asked.borrow().len(), 1);
}

#[test]
fn rewrite_paths_keeps_an_outer_root_found_later() {
    let slots = vec![
        slot("inner", Some("/a/b/c/x")),
        slot("outer", Some("/a/y")),
        slot("again", Some("/a/b/c/z")),
    ];
    let locate = |p: String| {
        if p.starts_with("/a/b/c") {
            Ok("/a/b/c".to_string())
        } else {
            Ok("/a".to_string())
        }
    };
    let (paths, projects) = rewrite_paths(&slots, &locate).unwrap();
    assert_eq!(paths, vec!["../c/x", "../a/y", "../c/z"]);
    assert_eq!(projects.len(), 2);
}

#[test]
fn workspaces_with_one_name_are_an_error() {
    let slots = vec![slot("a", Some("/x/proj/a")), slot("b", Some("/y/proj/b"))];
    let locate = |p: String| Ok(p[..7].to_string());
    assert_eq!(
        rewrite_paths(&slots, &locate).err(),
        Some(PatchError::RemoteRootTaken {
            root: "/y/proj".to_string(),
            remote_root: "../proj".to_string(),
        })
    );
}

#[test]
fn adopt_located_refuses_a_name_that_is_taken() {
    let mut registry = WorkspaceRegistry::new();
    assert!(adopt_located(&mut registry, "/x/proj/a", Ok("/x/proj".to_string())).is_ok());
    assert_eq!(
        adopt_located(&mut registry, "/y/proj/b", Ok("/y/proj".to_string())),
        Err(PatchError::RemoteRootTaken {
            root: "/y/proj".to_string(),
            remote_root: "../proj".to_string(),
        })
    );
    assert_eq!(registry.len(), 1);
}
