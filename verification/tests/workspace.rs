use cargo_remote::error::PatchError;
use cargo_remote::workspace::{PatchProject, WorkspaceRegistry};

fn registered(roots: &[(&str, &str)]) -> WorkspaceRegistry {
    let mut registry = WorkspaceRegistry::new();
    for (name, root) in roots {
        registry
            .register(name.to_string(), root.to_string(), format!("../{}", name))
            .unwrap();
    }
    registry
}

#[test]
fn new_project_holds_what_it_was_given() {
    let project = PatchProject::new("ws".to_string(), "/root/ws".to_string(), "../ws".to_string());
    assert_eq!(project.name, "ws");
    assert_eq!(project.local_path, "/root/ws");
    assert_eq!(project.remote_path, "../ws");
    let copy = project.duplicate();
    assert_eq!(copy.name, "ws");
    assert_eq!(copy.local_path, "/root/ws");
    assert_eq!(copy.remote_path, "../ws");
}

#[test]
fn new_registry_is_empty() {
    let registry = WorkspaceRegistry::new();
    assert_eq!(registry.len(), 0);
    assert_eq!(registry.find_containing("/root/ws/a"), None);
    assert!(registry.into_projects().is_empty());
}

#[test]
fn registry_keeps_the_order_of_registration() {
    let registry = registered(&[("b", "/root/b"), ("a", "/root/a")]);
    assert_eq!(registry.len(), 2);
    assert_eq!(registry.get(0).name, "b");
    assert_eq!(registry.get(1).local_path, "/root/a");
    let projects = registry.into_projects();
    assert_eq!(projects[0].local_path, "/root/b");
    assert_eq!(projects[1].remote_path, "../a");
}

#[test]
fn registry_finds_the_workspace_that_contains_a_path() {
    let registry = registered(&[("b", "/a/b"), ("c", "/a/c")]);
    assert_eq!(registry.find_containing("/a/b/x"), Some(0));
    assert_eq!(registry.find_containing("/a/c"), Some(1));
    assert_eq!(registry.find_containing("/a/c/"), Some(1));
    assert_eq!(registry.find_containing("/a/bx"), None);
    assert_eq!(registry.find_containing("/a"), None);
    assert_eq!(registry.find_containing("a/b/x"), None);
}

#[test]
fn registry_prefers_the_workspace_registered_first() {
    let registry = registered(&[("inner", "/a/b/inner"), ("b", "/a/b")]);
    assert_eq!(registry.find_containing("/a/b/inner/x"), Some(0));
    assert_eq!(registry.find_containing("/a/b/other"), Some(1));
}

#[test]
fn registering_a_root_twice_is_an_error() {
    let mut registry = registered(&[("ws", "/root/ws")]);
    let again = registry.register("ws".to_string(), "/root/ws".to_string(), "../ws".to_string());
    assert_eq!(
        again,
        Err(PatchError::AlreadyRegistered {
            root: "/root/ws".to_string()
        })
    );
    let same_place =
        registry.register("ws".to_string(), "/root//ws/".to_string(), "../ws".to_string());
    assert_eq!(
        same_place,
        Err(PatchError::AlreadyRegistered {
            root: "/root//ws/".to_string()
        })
    );
    assert_eq!(registry.len(), 1);
    assert_eq!(
        registry.register("ws".to_string(), "/other/ws".to_string(), "../ws2".to_string()),
        Ok(())
    );
    assert_eq!(registry.len(), 2);
}

#[test]
fn registering_a_remote_root_twice_is_an_error() {
    let mut registry = registered(&[("ws", "/root/ws")]);
    assert_eq!(
        registry.register("ws".to_string(), "/other/ws".to_string(), "../ws/".to_string()),
        Err(PatchError::RemoteRootTaken {
            root: "/other/ws".to_string(),
            remote_root: "../ws/".to_string(),
        })
    );
    assert_eq!(registry.len(), 1);
    assert_eq!(registry.find_containing("/other/ws/a"), None);
}
