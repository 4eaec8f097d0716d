//! The rewrite of override paths: each path is replaced by a path into the
//! remote copy of the workspace that contains it.
//!
//! Workspaces are found in the order of the override paths.  A path that lies
//! under a workspace found before is rewritten without asking the locator; for
//! any other path the locator is asked for the root of its workspace, and that
//! workspace is registered.

use crate::error::{PatchError, PatchErrorView};
use crate::manifest::{PathSlot, PathSlotView};
use crate::path::{
    are_names, components, components_start_with, file_name, is_name, is_plain, joined, leading,
    lemma_components_of_joined, lemma_joined_concat, lemma_names_are_names,
    lemma_starts_with_transitive, names,
    parent_component, path_components, path_file_name, push_components, pushed, root_component,
    separator, starts_with,
};
use crate::workspace::{
    contains_path, distinct_remotes, distinct_roots, first_containing, has_remote, has_root,
    lemma_first_containing, PatchProject, PatchProjectView, WorkspaceRegistry,
};
use vstd::prelude::*;
use vstd::string::*;

verus! {

/// What the locator says of a path: the root of its workspace, or why none was
/// found.
pub type Answer = Result<Seq<char>, Seq<char>>;

/// The remote path of the directory that holds the remote workspaces, seen
/// from the build directory.
pub open spec fn sibling_prefix() -> Seq<char> {
    "../"@
}

/// What a `WorkspaceResolution` error says where the root that the locator
/// gave has no final name.
pub open spec fn unnamed_root_detail() -> Seq<char> {
    "Unable to get file name from workspace folder."@
}

/// The workspace with the local root `root`: it is named after the final
/// component of `root` and goes beside the build directory under that name.
/// A root without a final name gives no workspace.
pub open spec fn workspace_for(root: Seq<char>) -> Option<PatchProjectView> {
    match file_name(root) {
        Some(name) => Some(
            PatchProjectView { name, local_path: root, remote_path: sibling_prefix() + name },
        ),
        None => None,
    }
}

/// The path that stands for `path` on the remote side, where `path` lies in
/// `project`: the remote root of `project` extended by the components that
/// `path` has beyond the local root.  What `path` has beyond the root is
/// taken by its components and written with one separator between
/// neighbours, whatever stood between them in `path`: `a//b/./c/` is written
/// `a/b/c`.
pub open spec fn relocated(project: PatchProjectView, path: Seq<char>) -> Option<Seq<char>> {
    if starts_with(path, project.local_path) {
        Some(
            pushed(
                project.remote_path,
                components(path).skip(components(project.local_path).len() as int),
            ),
        )
    } else {
        None
    }
}

/// What registering the workspace of `path` gives, where the locator said
/// `located`: the workspaces afterwards and the rewritten path.  A workspace
/// whose name is that of a workspace found before would go to the same
/// remote root; that is an error.
pub open spec fn adopted(
    projects: Seq<PatchProjectView>,
    path: Seq<char>,
    located: Answer,
) -> Result<(Seq<PatchProjectView>, Seq<char>), PatchErrorView> {
    match located {
        Err(detail) => Err(PatchErrorView::WorkspaceResolution { path, detail }),
        Ok(root) => match workspace_for(root) {
            None => Err(
                PatchErrorView::WorkspaceResolution { path, detail: unnamed_root_detail() },
            ),
            Some(project) => match relocated(project, path) {
                None => Err(PatchErrorView::PathConstruction { path, root }),
                Some(text) => if has_root(projects, root) {
                    Err(PatchErrorView::AlreadyRegistered { root })
                } else if has_remote(projects, project.remote_path) {
                    Err(
                        PatchErrorView::RemoteRootTaken { root, remote_root: project.remote_path },
                    )
                } else {
                    Ok((projects.push(project), text))
                },
            },
        },
    }
}

/// What rewriting `path` gives with the workspaces `projects` known: the
/// workspaces afterwards and the rewritten path.  `located` is what the
/// locator says of `path`; it counts only where no known workspace contains
/// `path`.
pub open spec fn resolved(
    projects: Seq<PatchProjectView>,
    path: Seq<char>,
    located: Answer,
) -> Result<(Seq<PatchProjectView>, Seq<char>), PatchErrorView> {
    match first_containing(projects, path) {
        Some(index) => match relocated(projects[index], path) {
            Some(text) => Ok((projects, text)),
            None => Err(
                PatchErrorView::PathConstruction { path, root: projects[index].local_path },
            ),
        },
        None => adopted(projects, path, located),
    }
}

/// The workspace with the local root `root`.
pub fn sibling_workspace(root: String) -> (project: Option<PatchProject>)
    ensures
        match project {
            Some(p) => workspace_for(root@) == Some(p@),
            None => workspace_for(root@) is None,
        },
{
    match path_file_name(root.as_str()) {
        Some(name) => {
            let prefix = "../";
            let mut remote = prefix.to_owned();
            remote.append(name.as_str());
            Some(PatchProject::new(name, root, remote))
        },
        None => None,
    }
}

/// The path that stands for `path` on the remote side, where `path` lies in
/// `project`.
pub fn relocate(project: &PatchProject, path: &str) -> (res: Result<String, PatchError>)
    ensures
        match res {
            Ok(text) => relocated(project@, path@) == Some(text@),
            Err(error) => {
                &&& relocated(project@, path@) is None
                &&& error@ == (PatchErrorView::PathConstruction {
                    path: path@,
                    root: project@.local_path,
                })
            },
        },
{
    let root_parts = path_components(project.local_path.as_str());
    let path_parts = path_components(path);
    if components_start_with(&path_parts, &root_parts) {
        Ok(push_components(project.remote_path.as_str(), &path_parts, root_parts.len()))
    } else {
        Err(
            PatchError::PathConstruction {
                path: path.to_owned(),
                root: project.local_path.clone(),
            },
        )
    }
}

/// Registers the workspace of `path`, where the locator said `located`, and
/// gives the rewritten path.  On an error the registry stays as it was.
pub fn adopt_located(
    registry: &mut WorkspaceRegistry,
    path: &str,
    located: Result<String, String>,
) -> (res: Result<String, PatchError>)
    ensures
        match adopted(old(registry)@, path@, answer_text(located)) {
            Ok((projects, text)) => {
                &&& res matches Ok(rewritten)
                &&& rewritten@ == text
                &&& final(registry)@ == projects
            },
            Err(error) => {
                &&& res matches Err(given)
                &&& given@ == error
                &&& final(registry)@ == old(registry)@
            },
        },
{
    let root = match located {
        Ok(root) => root,
        Err(detail) => {
            return Err(PatchError::WorkspaceResolution { path: path.to_owned(), detail });
        },
    };
    let project = match sibling_workspace(root) {
        Some(project) => project,
        None => {
            let detail = "Unable to get file name from workspace folder.";
            return Err(
                PatchError::WorkspaceResolution {
                    path: path.to_owned(),
                    detail: detail.to_owned(),
                },
            );
        },
    };
    let text = match relocate(&project, path) {
        Ok(text) => text,
        Err(error) => {
            return Err(error);
        },
    };
    match registry.register(project.name, project.local_path, project.remote_path) {
        Ok(()) => Ok(text),
        Err(error) => Err(error),
    }
}

/// `located` with texts in place of strings.
pub open spec fn answer_text(located: Result<String, String>) -> Answer {
    match located {
        Ok(root) => Ok(root@),
        Err(detail) => Err(detail@),
    }
}

/// Whether `locate`, asked for `path`, may say `answer`.
pub open spec fn may_answer<F: Fn(String) -> Result<String, String>>(
    locate: &F,
    path: Seq<char>,
    answer: Answer,
) -> bool {
    exists|asked: String, told: Result<String, String>|
        asked@ == path && #[trigger] call_ensures(locate, (asked,), told) && answer_text(told)
            == answer
}

/// The rewritten paths and the workspaces, in the order in which they were
/// found.
pub type Rewritten = (Seq<Seq<char>>, Seq<PatchProjectView>);

/// What rewriting the paths of `slots` gives, one after the other, where
/// `answers[i]` is what the locator says of the path of `slots[i]`: the
/// rewritten paths, one for each slot, and the workspaces found.  The first
/// error ends the rewrite.
pub open spec fn rewritten(slots: Seq<PathSlotView>, answers: Seq<Answer>) -> Result<
    Rewritten,
    PatchErrorView,
>
    decreases slots.len(),
{
    if slots.len() == 0 {
        Ok((Seq::empty(), Seq::empty()))
    } else {
        match rewritten(slots.drop_last(), answers.drop_last()) {
            Err(error) => Err(error),
            Ok((paths, projects)) => match slots.last().path {
                None => Err(
                    PatchErrorView::PathNotText {
                        group: slots.last().group,
                        name: slots.last().name,
                    },
                ),
                Some(path) => match resolved(projects, path, answers.last()) {
                    Err(error) => Err(error),
                    Ok((found, text)) => Ok((paths.push(text), found)),
                },
            },
        }
    }
}

/// Whether the locator is asked for the path of `slots[index]`: the slots
/// before it were rewritten without an error, and none of the workspaces
/// found by then contains the path.
pub open spec fn consulted(slots: Seq<PathSlotView>, answers: Seq<Answer>, index: int) -> bool {
    &&& 0 <= index < slots.len()
    &&& slots[index].path is Some
    &&& rewritten(slots.take(index), answers.take(index)) matches Ok((_, projects))
    &&& first_containing(projects, slots[index].path->0) is None
}

/// The outcome of a rewrite with texts in place of strings.
pub open spec fn outcome_view(
    outcome: Result<(Vec<String>, Vec<PatchProject>), PatchError>,
) -> Result<Rewritten, PatchErrorView> {
    match outcome {
        Ok((paths, projects)) => Ok((paths.deep_view(), projects.deep_view())),
        Err(error) => Err(error@),
    }
}

/// An error ends the rewrite: what comes after it changes nothing.
pub proof fn lemma_error_is_final(slots: Seq<PathSlotView>, answers: Seq<Answer>, count: int)
    requires
        0 <= count <= slots.len(),
        answers.len() == slots.len(),
        rewritten(slots.take(count), answers.take(count)) is Err,
    ensures
        rewritten(slots, answers) == rewritten(slots.take(count), answers.take(count)),
    decreases slots.len() - count,
{
    if count < slots.len() {
        assert(slots.take(count + 1).drop_last() =~= slots.take(count));
        assert(answers.take(count + 1).drop_last() =~= answers.take(count));
        lemma_error_is_final(slots, answers, count + 1);
    } else {
        assert(slots.take(count) =~= slots);
        assert(answers.take(count) =~= answers);
    }
}

/// A failure of the locator ends the rewrite: where the locator is asked for
/// the path of a slot and fails, the whole rewrite fails with a
/// `WorkspaceResolution` error that names that path and carries what the
/// locator said, whatever stands in the slots after it.
pub proof fn lemma_locator_failure_aborts(
    slots: Seq<PathSlotView>,
    answers: Seq<Answer>,
    index: int,
)
    requires
        answers.len() == slots.len(),
        consulted(slots, answers, index),
        answers[index] is Err,
    ensures
        rewritten(slots, answers) == Err::<Rewritten, PatchErrorView>(
            PatchErrorView::WorkspaceResolution {
                path: slots[index].path->0,
                detail: answers[index]->Err_0,
            },
        ),
{
    assert(slots.take(index + 1).drop_last() =~= slots.take(index));
    assert(answers.take(index + 1).drop_last() =~= answers.take(index));
    assert(slots.take(index + 1).last() == slots[index]);
    assert(answers.take(index + 1).last() == answers[index]);
    lemma_error_is_final(slots, answers, index + 1);
}

/// A path under a workspace that is known already is rewritten without the
/// locator: what the locator would say changes nothing, and no workspace is
/// added.
pub proof fn lemma_known_path_asks_nobody(
    projects: Seq<PatchProjectView>,
    path: Seq<char>,
    first: Answer,
    second: Answer,
)
    requires
        first_containing(projects, path) is Some,
    ensures
        resolved(projects, path, first) == resolved(projects, path, second),
        resolved(projects, path, first) matches Ok((found, _)) && found == projects,
{
    lemma_first_containing(projects, path);
}

/// A rewrite gives one path for each slot.
pub proof fn lemma_rewritten_one_path_per_slot(slots: Seq<PathSlotView>, answers: Seq<Answer>)
    ensures
        rewritten(slots, answers) matches Ok((paths, _)) ==> paths.len() == slots.len(),
    decreases slots.len(),
{
    if slots.len() > 0 {
        lemma_rewritten_one_path_per_slot(slots.drop_last(), answers.drop_last());
    }
}

/// Workspaces are found in the order of the slots and stay where they are:
/// the workspaces found for the first `count` slots are the first workspaces
/// of the whole rewrite.
pub proof fn lemma_rewritten_keeps_order(slots: Seq<PathSlotView>, answers: Seq<Answer>, count: int)
    requires
        0 <= count <= slots.len(),
        answers.len() == slots.len(),
        rewritten(slots, answers) is Ok,
    ensures
        rewritten(slots.take(count), answers.take(count)) matches Ok((_, before))
            && before.is_prefix_of(rewritten(slots, answers)->Ok_0.1),
    decreases slots.len() - count,
{
    if count < slots.len() {
        lemma_rewritten_keeps_order(slots, answers, count + 1);
        assert(slots.take(count + 1).drop_last() =~= slots.take(count));
        assert(answers.take(count + 1).drop_last() =~= answers.take(count));
        let before = rewritten(slots.take(count), answers.take(count))->Ok_0.1;
        let next = rewritten(slots.take(count + 1), answers.take(count + 1))->Ok_0.1;
        let all = rewritten(slots, answers)->Ok_0.1;
        assert(before.is_prefix_of(next));
        assert(before =~= all.subrange(0, before.len() as int));
    } else {
        assert(slots.take(count) =~= slots);
        assert(answers.take(count) =~= answers);
    }
}

/// Whether `project` is the workspace that `workspace_for` makes of its local
/// root: named after the final component of the root, and placed beside the
/// build directory under that name.
pub open spec fn is_sibling(project: PatchProjectView) -> bool {
    workspace_for(project.local_path) == Some(project)
}

/// The workspaces of a rewrite: no two of them have the same local root, no
/// two go to the same remote root, and each is named after its root and
/// placed beside the build directory.
pub proof fn lemma_rewritten_workspaces(slots: Seq<PathSlotView>, answers: Seq<Answer>)
    ensures
        rewritten(slots, answers) matches Ok((_, projects)) ==> {
            &&& distinct_roots(projects)
            &&& distinct_remotes(projects)
            &&& forall|index: int|
                0 <= index < projects.len() ==> is_sibling(#[trigger] projects[index])
        },
    decreases slots.len(),
{
    if slots.len() > 0 {
        lemma_rewritten_workspaces(slots.drop_last(), answers.drop_last());
        if rewritten(slots, answers) is Ok {
            let known = rewritten(slots.drop_last(), answers.drop_last())->Ok_0.1;
            let projects = rewritten(slots, answers)->Ok_0.1;
            if projects != known {
                assert(projects.drop_last() =~= known);
                assert forall|index: int| 0 <= index < projects.len() implies is_sibling(
                    #[trigger] projects[index],
                ) by {
                    if index < known.len() {
                        assert(projects[index] == known[index]);
                    }
                }
                assert forall|first: int, second: int|
                    0 <= first < second < projects.len() implies components(
                    #[trigger] projects[first].local_path,
                ) != components(#[trigger] projects[second].local_path) by {
                    assert(projects[first] == known[first]);
                    if second < known.len() {
                        assert(projects[second] == known[second]);
                    }
                }
                assert forall|first: int, second: int|
                    0 <= first < second < projects.len() implies components(
                    #[trigger] projects[first].remote_path,
                ) != components(#[trigger] projects[second].remote_path) by {
                    assert(projects[first] == known[first]);
                    if second < known.len() {
                        assert(projects[second] == known[second]);
                    }
                }
            }
        }
    }
}

/// What a rewrite makes of each path: the path is moved into the first of
/// the workspaces found that contains it.
pub proof fn lemma_rewritten_paths(slots: Seq<PathSlotView>, answers: Seq<Answer>, index: int)
    requires
        0 <= index < slots.len(),
        rewritten(slots, answers) is Ok,
    ensures
        ({
            let (paths, projects) = rewritten(slots, answers)->Ok_0;
            &&& index < paths.len()
            &&& slots[index].path matches Some(path)
            &&& first_containing(projects, path) matches Some(place)
            &&& 0 <= place < projects.len()
            &&& relocated(projects[place], path) == Some(paths[index])
        }),
    decreases slots.len(),
{
    let (before, known) = rewritten(slots.drop_last(), answers.drop_last())->Ok_0;
    let (paths, projects) = rewritten(slots, answers)->Ok_0;
    lemma_rewritten_one_path_per_slot(slots.drop_last(), answers.drop_last());
    if index < slots.len() - 1 {
        lemma_rewritten_paths(slots.drop_last(), answers.drop_last(), index);
        let path = slots[index].path->0;
        lemma_first_containing(known, path);
        if projects != known {
            assert(projects.drop_last() =~= known);
        }
    } else {
        let path = slots[index].path->0;
        lemma_first_containing(known, path);
        if first_containing(known, path) is None {
            assert(projects.drop_last() =~= known);
        }
    }
}

/// No workspace is registered twice by a rewrite: a root is only registered
/// for a path that no known workspace contains, so that the root cannot be
/// known already.
pub proof fn lemma_resolved_registers_once(
    projects: Seq<PatchProjectView>,
    path: Seq<char>,
    located: Answer,
)
    ensures
        !(resolved(projects, path, located) matches Err(error) && error is AlreadyRegistered),
{
    lemma_first_containing(projects, path);
    if first_containing(projects, path) is None && located is Ok {
        let root = located->Ok_0;
        if workspace_for(root) is Some && relocated(workspace_for(root)->0, path) is Some
            && has_root(projects, root) {
            let known = choose|known: int|
                0 <= known < projects.len() && components(#[trigger] projects[known].local_path)
                    == components(root);
            assert(contains_path(projects[known], path));
        }
    }
}

/// A rewrite never fails because a workspace was registered before.
pub proof fn lemma_rewritten_registers_once(slots: Seq<PathSlotView>, answers: Seq<Answer>)
    ensures
        !(rewritten(slots, answers) matches Err(error) && error is AlreadyRegistered),
    decreases slots.len(),
{
    if slots.len() > 0 {
        lemma_rewritten_registers_once(slots.drop_last(), answers.drop_last());
        if rewritten(slots.drop_last(), answers.drop_last()) is Ok && slots.last().path is Some {
            lemma_resolved_registers_once(
                rewritten(slots.drop_last(), answers.drop_last())->Ok_0.1,
                slots.last().path->0,
                answers.last(),
            );
        }
    }
}

/// No workspace of a rewrite lies at or below a workspace found before it:
/// what lies in a known workspace is never registered as a workspace of its
/// own.
pub proof fn lemma_rewritten_roots_not_nested(slots: Seq<PathSlotView>, answers: Seq<Answer>)
    ensures
        rewritten(slots, answers) matches Ok((_, projects)) ==> forall|first: int, second: int|
            0 <= first < second < projects.len() ==> !starts_with(
                #[trigger] projects[second].local_path,
                #[trigger] projects[first].local_path,
            ),
    decreases slots.len(),
{
    if slots.len() > 0 {
        lemma_rewritten_roots_not_nested(slots.drop_last(), answers.drop_last());
        if rewritten(slots, answers) is Ok {
            let known = rewritten(slots.drop_last(), answers.drop_last())->Ok_0.1;
            let projects = rewritten(slots, answers)->Ok_0.1;
            let path = slots.last().path->0;
            if projects != known {
                assert(projects.drop_last() =~= known);
                lemma_first_containing(known, path);
                assert forall|first: int, second: int|
                    0 <= first < second < projects.len() implies !starts_with(
                    #[trigger] projects[second].local_path,
                    #[trigger] projects[first].local_path,
                ) by {
                    assert(projects[first] == known[first]);
                    if second < known.len() {
                        assert(projects[second] == known[second]);
                    } else if starts_with(projects[second].local_path, projects[first].local_path) {
                        lemma_starts_with_transitive(
                            path,
                            projects[second].local_path,
                            projects[first].local_path,
                        );
                        assert(contains_path(known[first], path));
                    }
                }
            }
        }
    }
}

/// The way from the build directory into the remote copy of the workspace
/// `name`: one level up, then the name.
pub open spec fn way_up(name: Seq<char>) -> Seq<Seq<char>> {
    seq![parent_component(), name]
}

/// The remote root of a workspace is the way up to it, joined, and the way
/// up is made of names.
proof fn lemma_remote_root(root: Seq<char>)
    requires
        workspace_for(root) is Some,
    ensures
        ({
            let project = workspace_for(root)->0;
            &&& are_names(way_up(project.name))
            &&& joined(way_up(project.name)) == project.remote_path
            &&& project.remote_path.len() > 0
            &&& project.remote_path.last() != separator()
            &&& components(root).len() >= 1
        }),
{
    let name = workspace_for(root)->0.name;
    let up = way_up(name);
    lemma_names_are_names(root);
    assert(names(root)[names(root).len() - 1] == name);
    assert(is_plain(name) && is_name(name));
    assert(name[name.len() - 1] != separator());
    assert(parent_component().len() == 2 && parent_component()[0] == '.'
        && parent_component()[1] == '.');
    assert(is_plain(parent_component()) && is_name(parent_component()));
    assert forall|index: int| 0 <= index < up.len() implies is_plain(#[trigger] up[index])
        && is_name(up[index]) by {
        if index == 0 {
            assert(up[index] == parent_component());
        } else {
            assert(up[index] == name);
        }
    }
    reveal_strlit("../");
    let first = seq![parent_component()];
    assert(up.drop_last() =~= first);
    assert(joined(first) == first[0]);
    assert(joined(up) == joined(first).push(separator()) + name);
    assert(sibling_prefix() =~= parent_component().push(separator()));
    assert(joined(up) =~= sibling_prefix() + name);
}

/// What a path has beyond a root that has a name is made of names.
proof fn lemma_beyond_a_root(root: Seq<char>, path: Seq<char>)
    requires
        components(root).len() >= 1,
        starts_with(path, root),
    ensures
        are_names(components(path).skip(components(root).len() as int)),
{
    let count = components(root).len() as int;
    let beyond = components(path).skip(count);
    lemma_names_are_names(path);
    let ahead = leading(path).len() as int;
    assert(ahead <= 1);
    assert forall|index: int| 0 <= index < beyond.len() implies is_plain(
        #[trigger] beyond[index],
    ) && is_name(beyond[index]) by {
        assert(beyond[index] == components(path)[count + index]);
        assert(components(path)[count + index] == names(path)[count + index - ahead]);
    }
}

/// A path that is the root of its workspace is rewritten to the remote root
/// with a separator behind it.
proof fn lemma_relocated_at_root(root: Seq<char>, path: Seq<char>)
    requires
        workspace_for(root) is Some,
        starts_with(path, root),
        components(path).len() == components(root).len(),
    ensures
        relocated(workspace_for(root)->0, path) matches Some(text) && components(text) == way_up(
            workspace_for(root)->0.name,
        ),
{
    let project = workspace_for(root)->0;
    let beyond = components(path).skip(components(root).len() as int);
    lemma_remote_root(root);
    assert(joined(beyond) =~= Seq::<char>::empty());
    assert(relocated(project, path)->0 =~= joined(way_up(project.name)).push(separator()));
    lemma_components_of_joined(way_up(project.name));
}

/// A path below the root of its workspace is rewritten to the way up into
/// the remote copy, and on along what the path has beyond the root.
proof fn lemma_relocated_below_root(root: Seq<char>, path: Seq<char>)
    requires
        workspace_for(root) is Some,
        starts_with(path, root),
        components(path).len() > components(root).len(),
    ensures
        relocated(workspace_for(root)->0, path) matches Some(text) && components(text) == way_up(
            workspace_for(root)->0.name,
        ) + components(path).skip(components(root).len() as int),
{
    let project = workspace_for(root)->0;
    let up = way_up(project.name);
    let beyond = components(path).skip(components(root).len() as int);
    lemma_remote_root(root);
    lemma_beyond_a_root(root, path);
    assert(is_plain(beyond[0]));
    assert(beyond[0] != root_component()) by {
        if beyond[0] == root_component() {
            assert(beyond[0][0] == separator());
        }
    }
    lemma_joined_concat(up, beyond);
    assert forall|index: int| 0 <= index < (up + beyond).len() implies is_plain(
        #[trigger] (up + beyond)[index],
    ) && is_name((up + beyond)[index]) by {
        if index < 2 {
            assert((up + beyond)[index] == up[index]);
        } else {
            assert((up + beyond)[index] == beyond[index - 2]);
        }
    }
    lemma_components_of_joined(up + beyond);
}

/// Where a rewritten path leads: from the build directory one level up, into
/// the remote copy of the workspace, and on along the components that the
/// path has beyond the local root of the workspace.
pub proof fn lemma_relocated_components(root: Seq<char>, path: Seq<char>)
    requires
        workspace_for(root) is Some,
        starts_with(path, root),
    ensures
        ({
            let project = workspace_for(root)->0;
            let beyond = components(path).skip(components(root).len() as int);
            &&& relocated(project, path) matches Some(text)
            &&& components(text) == way_up(project.name) + beyond
        }),
{
    let beyond = components(path).skip(components(root).len() as int);
    if beyond.len() == 0 {
        lemma_relocated_at_root(root, path);
        assert(way_up(workspace_for(root)->0.name) + beyond =~= way_up(
            workspace_for(root)->0.name,
        ));
    } else {
        lemma_relocated_below_root(root, path);
    }
}

/// Where the rewrite of the first slots ended in an error, the answers for
/// them can be filled up to answers for all slots, of which the locator is
/// asked for none of the added ones.
proof fn lemma_stopped<F: Fn(String) -> Result<String, String>>(
    slots: Seq<PathSlotView>,
    answers: Seq<Answer>,
    locate: &F,
) -> (full: Seq<Answer>)
    requires
        answers.len() <= slots.len(),
        forall|index: int|
            0 <= index < answers.len() && consulted(slots, answers, index) ==> may_answer(
                locate,
                slots[index].path->0,
                #[trigger] answers[index],
            ),
        rewritten(slots.take(answers.len() as int), answers) is Err,
    ensures
        full.len() == slots.len(),
        forall|index: int|
            consulted(slots, full, index) ==> may_answer(
                locate,
                slots[index].path->0,
                #[trigger] full[index],
            ),
        rewritten(slots, full) == rewritten(slots.take(answers.len() as int), answers),
{
    let count = answers.len() as int;
    let full = Seq::new(
        slots.len(),
        |index: int|
            if index < count {
                answers[index]
            } else {
                Err(Seq::empty())
            },
    );
    assert(full.take(count) =~= answers);
    lemma_error_is_final(slots, full, count);
    assert forall|index: int| consulted(slots, full, index) implies may_answer(
        locate,
        slots[index].path->0,
        #[trigger] full[index],
    ) by {
        if index < count {
            assert(full.take(index) =~= answers.take(index));
            assert(consulted(slots, answers, index));
        } else {
            assert(slots.take(index).take(count) =~= slots.take(count));
            assert(full.take(index).take(count) =~= answers);
            lemma_error_is_final(slots.take(index), full.take(index), count);
        }
    }
    full
}

/// Rewrites the paths of `slots`, one after the other, and gives the new
/// paths, one for each slot, with the workspaces found, in the order in which
/// they were found.  `locate` is asked for the root of the workspace of each
/// path that no workspace found before contains.  The first error ends the
/// rewrite.
pub fn rewrite_paths<F: Fn(String) -> Result<String, String>>(
    slots: &Vec<PathSlot>,
    locate: &F,
) -> (res: Result<(Vec<String>, Vec<PatchProject>), PatchError>)
    requires
        forall|asked: String| call_requires(locate, (asked,)),
    ensures
        exists|answers: Seq<Answer>|
            {
                &&& answers.len() == slots.len()
                &&& forall|index: int|
                    consulted(slots.deep_view(), answers, index) ==> may_answer(
                        locate,
                        slots.deep_view()[index].path->0,
                        #[trigger] answers[index],
                    )
                &&& outcome_view(res) == rewritten(slots.deep_view(), answers)
            },
        res matches Ok((paths, _)) ==> paths.len() == slots.len(),
{
    let mut registry = WorkspaceRegistry::new();
    let mut paths: Vec<String> = Vec::new();
    let ghost mut answers: Seq<Answer> = Seq::empty();
    let ghost all = slots.deep_view();
    let mut index: usize = 0;
    assert(all.take(0) =~= Seq::<PathSlotView>::empty());
    assert(paths.deep_view() =~= Seq::<Seq<char>>::empty());
    while index < slots.len()
        invariant
            index <= slots.len(),
            all == slots.deep_view(),
            answers.len() == index,
            paths.len() == index,
            forall|asked: String| call_requires(locate, (asked,)),
            forall|k: int|
                0 <= k < index && consulted(all, answers, k) ==> may_answer(
                    locate,
                    all[k].path->0,
                    #[trigger] answers[k],
                ),
            rewritten(all.take(index as int), answers) == Ok::<Rewritten, PatchErrorView>(
                (paths.deep_view(), registry@),
            ),
        decreases slots.len() - index,
    {
        let slot = &slots[index];
        let ghost before = answers;
        let ghost known = registry@;
        let ghost done = paths.deep_view();
        assert(all.take(index + 1).drop_last() =~= all.take(index as int));
        assert(all.take(index + 1).last() == slot@);
        let step: Result<String, PatchError> = match &slot.path {
            None => {
                proof {
                    answers = before.push(Err(Seq::empty()));
                }
                Err(PatchError::PathNotText { group: slot.group.clone(), name: slot.name.clone() })
            },
            Some(path) => match registry.find_containing(path.as_str()) {
                Some(found) => {
                    proof {
                        answers = before.push(Err(Seq::empty()));
                        lemma_first_containing(known, path@);
                    }
                    relocate(registry.get(found), path.as_str())
                },
                None => {
                    let located = locate(path.clone());
                    proof {
                        answers = before.push(answer_text(located));
                    }
                    adopt_located(&mut registry, path.as_str(), located)
                },
            },
        };
        proof {
            assert(answers.drop_last() =~= before);
            assert forall|k: int| 0 <= k < index + 1 && consulted(all, answers, k) implies may_answer(
                locate,
                all[k].path->0,
                #[trigger] answers[k],
            ) by {
                assert(answers.take(k) =~= before.take(k));
                if k < index {
                    assert(consulted(all, before, k));
                } else {
                    assert(before.take(k) =~= before);
                }
            }
        }
        match step {
            Ok(text) => {
                paths.push(text);
                assert(paths.deep_view() =~= done.push(text@));
            },
            Err(error) => {
                proof {
                    let full = lemma_stopped(all, answers, locate);
                    assert(outcome_view(Err(error)) == rewritten(all, full));
                }
                return Err(error);
            },
        }
        index = index + 1;
    }
    assert(all.take(index as int) =~= all);
    Ok((paths, registry.into_projects()))
}

} // verus!
