//! The ways in which rewriting a manifest fails.

use vstd::prelude::*;

verus! {

/// Why a manifest could not be rewritten.  Every failure ends the whole
/// rewrite: no document is handed back with some of its paths rewritten.
#[derive(Debug, Clone, PartialEq, Eq)]
pub enum PatchError {
    /// The manifest text is not valid; `detail` is what the parser said.
    Parse { detail: String },
    /// No workspace could be found for the override path `path`: the locator
    /// failed (then `detail` is its message), or the root it gave has no final
    /// name.
    WorkspaceResolution { path: String, detail: String },
    /// The override path `path` does not lie under `root`, the workspace root
    /// that was found for it.
    PathConstruction { path: String, root: String },
    /// The `path` attribute of the override `name` in the source group `group`
    /// is not text.
    PathNotText { group: String, name: String },
    /// A workspace with the local root `root` is registered already.
    AlreadyRegistered { root: String },
    /// The workspace with the local root `root` would go to `remote_root`,
    /// where another workspace goes already: two workspaces have the same
    /// name.
    RemoteRootTaken { root: String, remote_root: String },
}

/// A `PatchError` with texts in place of strings.
pub enum PatchErrorView {
    Parse { detail: Seq<char> },
    WorkspaceResolution { path: Seq<char>, detail: Seq<char> },
    PathConstruction { path: Seq<char>, root: Seq<char> },
    PathNotText { group: Seq<char>, name: Seq<char> },
    AlreadyRegistered { root: Seq<char> },
    RemoteRootTaken { root: Seq<char>, remote_root: Seq<char> },
}

impl View for PatchError {
    type V = PatchErrorView;

    open spec fn view(&self) -> PatchErrorView {
        match *self {
            PatchError::Parse { detail } => PatchErrorView::Parse { detail: detail@ },
            PatchError::WorkspaceResolution { path, detail } => PatchErrorView::WorkspaceResolution {
                path: path@,
                detail: detail@,
            },
            PatchError::PathConstruction { path, root } => PatchErrorView::PathConstruction {
                path: path@,
                root: root@,
            },
            PatchError::PathNotText { group, name } => PatchErrorView::PathNotText {
                group: group@,
                name: name@,
            },
            PatchError::AlreadyRegistered { root } => PatchErrorView::AlreadyRegistered {
                root: root@,
            },
            PatchError::RemoteRootTaken { root, remote_root } => PatchErrorView::RemoteRootTaken {
                root: root@,
                remote_root: remote_root@,
            },
        }
    }
}

} // verus!
