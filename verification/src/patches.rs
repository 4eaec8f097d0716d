//! Patched dependencies of a manifest: the override paths that point into
//! local workspaces are rewritten to point into the remote copies of those
//! workspaces.

use crate::error::PatchError;
use crate::manifest::{
    lemma_slots_are_in_place, lemma_with_paths_writes_each, manifest_syntax, override_path,
    override_slots, with_paths, ItemView, ManifestDocument, PathSlotView,
};
use crate::rewrite::{
    consulted, is_sibling, lemma_rewritten_paths, lemma_rewritten_workspaces, may_answer,
    outcome_view, relocated, rewrite_paths, rewritten, Answer,
};
use crate::workspace::{
    distinct_remotes, distinct_roots, first_containing, PatchProject, PatchProjectView,
};
use vstd::prelude::*;

verus! {

/// Whether the override at `slot` was moved into `projects`: it had the text
/// that the slot holds as its `path` attribute in the manifest `before`, one
/// of `projects` contains that path, and in the manifest `after` the
/// override holds the path moved into the first of them that does.
pub open spec fn moved(
    before: ItemView,
    after: ItemView,
    slot: PathSlotView,
    projects: Seq<PatchProjectView>,
) -> bool {
    &&& slot.path matches Some(path)
    &&& override_path(before, slot.group, slot.name) == Some(path)
    &&& first_containing(projects, path) matches Some(place)
    &&& 0 <= place < projects.len()
    &&& override_path(after, slot.group, slot.name) == relocated(projects[place], path)
    &&& relocated(projects[place], path) is Some
}

/// Rewrites the override paths of the manifest `manifest_content` and gives
/// the rewritten manifest with the workspaces that have to be copied, in the
/// order in which the override table refers to them.  A manifest without an
/// override table gives `None`.
///
/// Every override with a `path` attribute is rewritten, whether it is
/// written in braces, as a table with a header of its own, or with dotted
/// keys.  `locate_workspace` is asked for the root of the workspace of each
/// path that no workspace found before contains.  The first error ends the
/// rewrite, and then no manifest is given: not one with some of its paths
/// rewritten.
pub fn extract_patched_crates_and_adjust_toml<F: Fn(String) -> Result<String, String>>(
    manifest_content: String,
    locate_workspace: F,
) -> (res: Result<Option<(ManifestDocument, Vec<PatchProject>)>, PatchError>)
    requires
        forall|asked: String| call_requires(locate_workspace, (asked,)),
    ensures
        match manifest_syntax(manifest_content@) {
            None => res matches Err(error) && error is Parse,
            Some(document) => match override_slots(document) {
                None => res matches Ok(None),
                Some(slots) => exists|answers: Seq<Answer>|
                    {
                        &&& answers.len() == slots.len()
                        &&& forall|index: int|
                            consulted(slots, answers, index) ==> may_answer(
                                &locate_workspace,
                                slots[index].path->0,
                                #[trigger] answers[index],
                            )
                        &&& match rewritten(slots, answers) {
                            Err(error) => res matches Err(given) && given@ == error,
                            Ok((paths, projects)) => {
                                &&& res matches Ok(Some((manifest, found)))
                                &&& manifest@ == with_paths(document, slots, paths)
                                &&& found.deep_view() == projects
                                &&& forall|index: int|
                                    0 <= index < slots.len() ==> moved(
                                        document,
                                        manifest@,
                                        #[trigger] slots[index],
                                        projects,
                                    )
                                &&& distinct_roots(projects)
                                &&& distinct_remotes(projects)
                                &&& forall|index: int|
                                    0 <= index < projects.len() ==> is_sibling(
                                        #[trigger] projects[index],
                                    )
                            },
                        }
                    },
            },
        },
{
    let mut manifest = match ManifestDocument::parse(manifest_content.as_str()) {
        Ok(manifest) => manifest,
        Err(error) => {
            return Err(error);
        },
    };
    let slots = match manifest.path_slots() {
        Some(slots) => slots,
        None => {
            return Ok(None);
        },
    };
    let ghost document = manifest@;
    let outcome = rewrite_paths(&slots, &locate_workspace);
    let ghost answers = choose|answers: Seq<Answer>|
        {
            &&& answers.len() == slots.len()
            &&& forall|index: int|
                consulted(slots.deep_view(), answers, index) ==> may_answer(
                    &locate_workspace,
                    slots.deep_view()[index].path->0,
                    #[trigger] answers[index],
                )
            &&& outcome_view(outcome) == rewritten(slots.deep_view(), answers)
        };
    match outcome {
        Ok((paths, projects)) => {
            manifest.set_paths(&slots, &paths);
            proof {
                let places = slots.deep_view();
                let written = paths.deep_view();
                lemma_rewritten_workspaces(places, answers);
                assert forall|index: int| 0 <= index < places.len() implies moved(
                    document,
                    manifest@,
                    #[trigger] places[index],
                    projects.deep_view(),
                ) by {
                    lemma_rewritten_paths(places, answers, index);
                    lemma_slots_are_in_place(document, index);
                    assert forall|other: int|
                        0 <= other < places.len() && other != index implies (
                    #[trigger] places[other]).group != places[index].group || places[other].name
                        != places[index].name by {
                        if other < index {
                            assert(places[other].group != places[index].group || places[other].name
                                != places[index].name);
                        } else {
                            assert(places[index].group != places[other].group || places[index].name
                                != places[other].name);
                        }
                    }
                    lemma_with_paths_writes_each(document, places, written, index);
                }
            }
            Ok(Some((manifest, projects)))
        },
        Err(error) => Err(error),
    }
}

} // verus!
