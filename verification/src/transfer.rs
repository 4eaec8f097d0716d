//! What the copy of a project to the build server is made of: the arguments
//! of the `rsync` call, and the places that the workspaces of a rewritten
//! manifest are copied from and to.  Running the copy is left to the caller.

use crate::workspace::{PatchProject, PatchProjectView};
use vstd::prelude::*;
use vstd::string::*;

verus! {

/// The arguments of the `rsync` call that copies `local_dir` to `remote_dir`.
/// The build output is never copied, and hidden files only where `hidden` is
/// set.  On macOS, `rsync` is told what to preserve one by one.
pub open spec fn rsync_arguments_of(
    local_dir: Seq<char>,
    remote_dir: Seq<char>,
    hidden: bool,
    macos: bool,
) -> Seq<Seq<char>> {
    seq![
        if macos {
            "-vrltogD"@
        } else {
            "-a"@
        },
        "-q"@,
        "--delete"@,
        "--compress"@,
        "--info=progress2"@,
        "--exclude"@,
        "target"@,
    ] + (if hidden {
        Seq::empty()
    } else {
        seq!["--exclude"@, ".*"@]
    }) + seq!["--rsync-path"@, "mkdir -p remote-builds && rsync"@, local_dir, remote_dir]
}

/// Where the workspace `project` is copied from: its local root, with a
/// separator behind it so that the contents are copied.
pub open spec fn workspace_source_of(project: PatchProjectView) -> Seq<char> {
    project.local_path + "/"@
}

/// Where the workspace `project` is copied to on `build_server`.
pub open spec fn workspace_destination_of(
    build_server: Seq<char>,
    project: PatchProjectView,
) -> Seq<char> {
    build_server + ":remote-builds/"@ + project.name
}

/// Where the rewritten manifest goes in the build directory `build_path`.
pub open spec fn remote_manifest_path_of(build_path: Seq<char>) -> Seq<char> {
    build_path + "/Cargo.toml"@
}

/// The arguments of the `rsync` call that copies `local_dir` to `remote_dir`.
pub fn rsync_arguments(local_dir: &str, remote_dir: &str, hidden: bool, macos: bool) -> (arguments:
    Vec<String>)
    ensures
        arguments.deep_view() == rsync_arguments_of(local_dir@, remote_dir@, hidden, macos),
{
    let mut arguments: Vec<String> = Vec::new();
    if macos {
        arguments.push("-vrltogD".to_owned());
    } else {
        arguments.push("-a".to_owned());
    }
    arguments.push("-q".to_owned());
    arguments.push("--delete".to_owned());
    arguments.push("--compress".to_owned());
    arguments.push("--info=progress2".to_owned());
    arguments.push("--exclude".to_owned());
    arguments.push("target".to_owned());
    if !hidden {
        arguments.push("--exclude".to_owned());
        arguments.push(".*".to_owned());
    }
    arguments.push("--rsync-path".to_owned());
    arguments.push("mkdir -p remote-builds && rsync".to_owned());
    arguments.push(local_dir.to_owned());
    arguments.push(remote_dir.to_owned());
    assert(arguments.deep_view() =~= rsync_arguments_of(local_dir@, remote_dir@, hidden, macos));
    arguments
}

/// Where the workspace `project` is copied from.
pub fn workspace_source(project: &PatchProject) -> (source: String)
    ensures
        source@ == workspace_source_of(project@),
{
    let mut source = project.local_path.clone();
    source.append("/");
    source
}

/// Where the workspace `project` is copied to on `build_server`.
pub fn workspace_destination(build_server: &str, project: &PatchProject) -> (destination: String)
    ensures
        destination@ == workspace_destination_of(build_server@, project@),
{
    let mut destination = build_server.to_owned();
    destination.append(":remote-builds/");
    destination.append(project.name.as_str());
    destination
}

/// Where the rewritten manifest goes in the build directory `build_path`.
pub fn remote_manifest_path(build_path: &str) -> (path: String)
    ensures
        path@ == remote_manifest_path_of(build_path@),
{
    let mut path = build_path.to_owned();
    path.append("/Cargo.toml");
    path
}

} // verus!
