//! The workspaces that a manifest's override paths point into, and the
//! registry that holds them while a manifest is rewritten.

use crate::error::{PatchError, PatchErrorView};
use crate::path::{components, components_start_with, path_components, starts_with};
use vstd::prelude::*;

verus! {

/// A local project root that has to be copied to the remote side as a unit.
#[derive(Debug, Clone)]
pub struct PatchProject {
    /// The final component of the local root.
    pub name: String,
    /// The root directory of the workspace on this machine.
    pub local_path: String,
    /// Where the workspace goes on the remote side, relative to the build
    /// directory.
    pub remote_path: String,
}

/// A `PatchProject` with texts in place of strings.
pub struct PatchProjectView {
    pub name: Seq<char>,
    pub local_path: Seq<char>,
    pub remote_path: Seq<char>,
}

impl View for PatchProject {
    type V = PatchProjectView;

    open spec fn view(&self) -> PatchProjectView {
        PatchProjectView {
            name: self.name@,
            local_path: self.local_path@,
            remote_path: self.remote_path@,
        }
    }
}

impl DeepView for PatchProject {
    type V = PatchProjectView;

    open spec fn deep_view(&self) -> PatchProjectView {
        self@
    }
}

impl PatchProject {
    /// The workspace `name` with the local root `path`, to be copied to
    /// `remote_path`.
    pub fn new(name: String, path: String, remote_path: String) -> (project: Self)
        ensures
            project@ == (PatchProjectView {
                name: name@,
                local_path: path@,
                remote_path: remote_path@,
            }),
    {
        PatchProject { name, local_path: path, remote_path }
    }

    /// A copy of this workspace.
    pub fn duplicate(&self) -> (copy: Self)
        ensures
            copy@ == self@,
    {
        PatchProject {
            name: self.name.clone(),
            local_path: self.local_path.clone(),
            remote_path: self.remote_path.clone(),
        }
    }
}

/// Whether `path` lies at or below the local root of `project`.
pub open spec fn contains_path(project: PatchProjectView, path: Seq<char>) -> bool {
    starts_with(path, project.local_path)
}

/// The index of the first of `projects` that contains `path`.
pub open spec fn first_containing(projects: Seq<PatchProjectView>, path: Seq<char>) -> Option<int>
    decreases projects.len(),
{
    if projects.len() == 0 {
        None
    } else {
        match first_containing(projects.drop_last(), path) {
            Some(index) => Some(index),
            None => if contains_path(projects.last(), path) {
                Some(projects.len() - 1)
            } else {
                None
            },
        }
    }
}

/// Whether one of `projects` has the local root `root`.  Two texts name the
/// same root when their components are the same.
pub open spec fn has_root(projects: Seq<PatchProjectView>, root: Seq<char>) -> bool {
    exists|index: int|
        0 <= index < projects.len() && components(#[trigger] projects[index].local_path)
            == components(root)
}

/// No two of `projects` have the same local root.
pub open spec fn distinct_roots(projects: Seq<PatchProjectView>) -> bool {
    forall|first: int, second: int|
        0 <= first < second < projects.len() ==> components(
            #[trigger] projects[first].local_path,
        ) != components(#[trigger] projects[second].local_path)
}

/// Whether one of `projects` goes to the remote root `remote`.  Two texts name
/// the same remote root when their components are the same.
pub open spec fn has_remote(projects: Seq<PatchProjectView>, remote: Seq<char>) -> bool {
    exists|index: int|
        0 <= index < projects.len() && components(#[trigger] projects[index].remote_path)
            == components(remote)
}

/// No two of `projects` go to the same remote root.
pub open spec fn distinct_remotes(projects: Seq<PatchProjectView>) -> bool {
    forall|first: int, second: int|
        0 <= first < second < projects.len() ==> components(
            #[trigger] projects[first].remote_path,
        ) != components(#[trigger] projects[second].remote_path)
}

/// `first_containing` gives the least index of a project that contains
/// `path`, and `None` only where no project does.
pub proof fn lemma_first_containing(projects: Seq<PatchProjectView>, path: Seq<char>)
    ensures
        match first_containing(projects, path) {
            Some(index) => {
                &&& 0 <= index < projects.len()
                &&& contains_path(projects[index], path)
                &&& forall|earlier: int|
                    0 <= earlier < index ==> !contains_path(#[trigger] projects[earlier], path)
            },
            None => forall|index: int|
                0 <= index < projects.len() ==> !contains_path(#[trigger] projects[index], path),
        },
    decreases projects.len(),
{
    if projects.len() > 0 {
        lemma_first_containing(projects.drop_last(), path);
        assert forall|index: int| 0 <= index < projects.len() - 1 implies projects.drop_last()[index]
            == projects[index] by {}
    }
}

/// A registered workspace together with the components of its local and of
/// its remote root.
struct RegistryEntry {
    project: PatchProject,
    root_parts: Vec<String>,
    remote_parts: Vec<String>,
}

/// The workspaces found so far, in the order in which they were found.  No two
/// of them have the same local root, and no two go to the same remote root.
pub struct WorkspaceRegistry {
    entries: Vec<RegistryEntry>,
}

/// The workspaces of `entries`.
spec fn entry_projects(entries: Seq<RegistryEntry>) -> Seq<PatchProjectView> {
    Seq::new(entries.len(), |index: int| entries[index].project@)
}

/// Whether `entry` holds the components of its own roots.
spec fn entry_consistent(entry: RegistryEntry) -> bool {
    &&& entry.root_parts.deep_view() == components(entry.project.local_path@)
    &&& entry.remote_parts.deep_view() == components(entry.project.remote_path@)
}

/// Each of `entries` holds the components of its own roots, no two of them
/// have the same local root, and no two go to the same remote root.
spec fn entries_consistent(entries: Seq<RegistryEntry>) -> bool {
    &&& forall|index: int| 0 <= index < entries.len() ==> entry_consistent(#[trigger] entries[index])
    &&& distinct_roots(entry_projects(entries))
    &&& distinct_remotes(entry_projects(entries))
}

impl View for WorkspaceRegistry {
    type V = Seq<PatchProjectView>;

    closed spec fn view(&self) -> Seq<PatchProjectView> {
        entry_projects(self.entries@)
    }
}

/// Whether two lists of components are the same.
fn same_components(first: &Vec<String>, second: &Vec<String>) -> (same: bool)
    ensures
        same == (first.deep_view() == second.deep_view()),
{
    if first.len() != second.len() {
        assert(first.deep_view().len() != second.deep_view().len());
        return false;
    }
    let same = components_start_with(first, second);
    assert(first.deep_view().subrange(0, second.len() as int) =~= first.deep_view());
    same
}

impl WorkspaceRegistry {
    #[verifier::type_invariant]
    spec fn consistent(self) -> bool {
        entries_consistent(self.entries@)
    }

    /// A registry without workspaces.
    pub fn new() -> (registry: Self)
        ensures
            registry@ == Seq::<PatchProjectView>::empty(),
    {
        let registry = WorkspaceRegistry { entries: Vec::new() };
        assert(registry@ =~= Seq::<PatchProjectView>::empty());
        registry
    }

    /// The number of workspaces.
    pub fn len(&self) -> (count: usize)
        ensures
            count == self@.len(),
    {
        self.entries.len()
    }

    /// The workspace at `index`, counted in the order of registration.
    pub fn get(&self, index: usize) -> (project: &PatchProject)
        requires
            index < self@.len(),
        ensures
            project@ == self@[index as int],
    {
        &self.entries[index].project
    }

    /// The workspaces in the order of registration.  No two of them have the
    /// same local root, and no two go to the same remote root.
    pub fn into_projects(self) -> (projects: Vec<PatchProject>)
        ensures
            projects.deep_view() == self@,
            distinct_roots(self@),
            distinct_remotes(self@),
    {
        proof {
            use_type_invariant(&self);
        }
        let mut projects: Vec<PatchProject> = Vec::new();
        let mut index: usize = 0;
        while index < self.entries.len()
            invariant
                index <= self.entries.len(),
                projects.deep_view() == self@.take(index as int),
            decreases self.entries.len() - index,
        {
            let ghost done = projects.deep_view();
            projects.push(self.entries[index].project.duplicate());
            assert(projects.deep_view() =~= done.push(self@[index as int]));
            index = index + 1;
            assert(self@.take(index as int) =~= done.push(self@[index - 1]));
        }
        assert(self@.take(self@.len() as int) =~= self@);
        projects
    }

    /// The first workspace whose local root contains `path`.
    pub fn find_containing(&self, path: &str) -> (found: Option<usize>)
        ensures
            match found {
                Some(index) => first_containing(self@, path@) == Some(index as int),
                None => first_containing(self@, path@) is None,
            },
    {
        let path_parts = path_components(path);
        let mut index: usize = 0;
        proof {
            use_type_invariant(&self);
            assert(self@.take(0) =~= Seq::<PatchProjectView>::empty());
        }
        while index < self.entries.len()
            invariant
                index <= self.entries.len(),
                forall|k: int|
                    0 <= k < self.entries.len() ==> entry_consistent(#[trigger] self.entries[k]),
                path_parts.deep_view() == components(path@),
                first_containing(self@.take(index as int), path@) is None,
            decreases self.entries.len() - index,
        {
            let ghost before = self@.take(index as int);
            let ghost seen = self@.take(index + 1);
            assert(seen.drop_last() =~= before);
            assert(seen.last() == self@[index as int]);
            if components_start_with(&path_parts, &self.entries[index].root_parts) {
                proof {
                    lemma_first_containing(self@, path@);
                    lemma_first_containing(before, path@);
                    assert(contains_path(self@[index as int], path@));
                    assert forall|k: int| 0 <= k < index implies !contains_path(
                        #[trigger] self@[k],
                        path@,
                    ) by {
                        assert(before[k] == self@[k]);
                    }
                }
                return Some(index);
            }
            index = index + 1;
        }
        assert(self@.take(self@.len() as int) =~= self@);
        None
    }

    /// Adds the workspace `name` with the local root `local_root`, to be
    /// copied to `remote_root`.  A local root can be registered once, and so
    /// can a remote root: two workspaces in one place would overwrite each
    /// other.
    pub fn register(&mut self, name: String, local_root: String, remote_root: String) -> (res:
        Result<(), PatchError>)
        ensures
            match res {
                Ok(()) => {
                    &&& !has_root(old(self)@, local_root@)
                    &&& !has_remote(old(self)@, remote_root@)
                    &&& final(self)@ == old(self)@.push(
                        PatchProjectView {
                            name: name@,
                            local_path: local_root@,
                            remote_path: remote_root@,
                        },
                    )
                },
                Err(error) => {
                    &&& final(self)@ == old(self)@
                    &&& if has_root(old(self)@, local_root@) {
                        error@ == (PatchErrorView::AlreadyRegistered { root: local_root@ })
                    } else {
                        &&& has_remote(old(self)@, remote_root@)
                        &&& error@ == (PatchErrorView::RemoteRootTaken {
                            root: local_root@,
                            remote_root: remote_root@,
                        })
                    }
                },
            },
    {
        let root_parts = path_components(local_root.as_str());
        let remote_parts = path_components(remote_root.as_str());
        let mut index: usize = 0;
        proof {
            use_type_invariant(&*self);
        }
        while index < self.entries.len()
            invariant
                index <= self.entries.len(),
                *self == *old(self),
                forall|k: int|
                    0 <= k < self.entries.len() ==> entry_consistent(#[trigger] self.entries[k]),
                root_parts.deep_view() == components(local_root@),
                forall|k: int|
                    0 <= k < index ==> components(#[trigger] self@[k].local_path) != components(
                        local_root@,
                    ),
            decreases self.entries.len() - index,
        {
            if same_components(&self.entries[index].root_parts, &root_parts) {
                assert(components(self@[index as int].local_path) == components(local_root@));
                return Err(PatchError::AlreadyRegistered { root: local_root });
            }
            index = index + 1;
        }
        index = 0;
        while index < self.entries.len()
            invariant
                index <= self.entries.len(),
                *self == *old(self),
                forall|k: int|
                    0 <= k < self.entries.len() ==> entry_consistent(#[trigger] self.entries[k]),
                remote_parts.deep_view() == components(remote_root@),
                !has_root(self@, local_root@),
                forall|k: int|
                    0 <= k < index ==> components(#[trigger] self@[k].remote_path) != components(
                        remote_root@,
                    ),
            decreases self.entries.len() - index,
        {
            if same_components(&self.entries[index].remote_parts, &remote_parts) {
                assert(components(self@[index as int].remote_path) == components(remote_root@));
                return Err(PatchError::RemoteRootTaken { root: local_root, remote_root });
            }
            index = index + 1;
        }
        let ghost before = self@;
        let project = PatchProject::new(name, local_root, remote_root);
        // The entries leave the registry while the new one is added, so that
        // the registry is never seen half-updated.
        let mut entries: Vec<RegistryEntry> = Vec::new();
        assert(entry_projects(entries@) =~= Seq::<PatchProjectView>::empty());
        core::mem::swap(&mut self.entries, &mut entries);
        entries.push(RegistryEntry { project, root_parts, remote_parts });
        proof {
            assert(entry_projects(entries@) =~= before.push(project@));
            assert(distinct_roots(before));
            assert(distinct_roots(before.push(project@)));
            assert(distinct_remotes(before));
            assert(distinct_remotes(before.push(project@)));
        }
        core::mem::swap(&mut self.entries, &mut entries);
        Ok(())
    }
}

} // verus!
