//! That what contracts see of a value is the value: nothing is left out, moved or made up.
use vstd::prelude::*;

use crate::agenda::{Task, TaskView, tasks_of};
use crate::candidates::{Candidate, candidates_view};
use crate::checker::{BlobTag, Checker, CheckerArch, arches_of, text_of};
use crate::context::dir_of;
use crate::engine::{checkers_of, files_of};
use crate::error::CheckerError;
use crate::extensions::texts_of;
use crate::groups::{Member, ScopeGroup, groups_of, members_of};
use crate::result::CheckResult;
use crate::run::outcome_view;
use crate::scope::{CheckScope, scopes_of};
use crate::sequential::failure_of;
use crate::signature::{SignatureEntry, keys_of};

verus! {

/// A list is seen item by item, in its order.
pub proof fn law_lists_are_seen_item_by_item(
    texts: Seq<String>,
    entries: Seq<SignatureEntry>,
    arches: Seq<CheckerArch>,
    scopes: Seq<CheckScope>,
    checkers: Seq<Checker>,
    members: Seq<Member>,
    groups: Seq<ScopeGroup>,
    tasks: Seq<Task>,
    candidates: Seq<Candidate>,
)
    ensures
        texts_of(texts).len() == texts.len(),
        forall|i: int| 0 <= i < texts.len() ==> #[trigger] texts_of(texts)[i] == texts[i]@,
        keys_of(entries).len() == entries.len(),
        forall|i: int| 0 <= i < entries.len() ==> #[trigger] keys_of(entries)[i] == entries[i].key@,
        arches_of(arches).len() == arches.len(),
        forall|i: int| 0 <= i < arches.len() ==> #[trigger] arches_of(arches)[i] == arches[i].name@,
        scopes_of(scopes).len() == scopes.len(),
        forall|i: int|
            0 <= i < scopes.len() ==> (#[trigger] scopes_of(scopes)[i]).kind == scopes[i].kind
                && scopes_of(scopes)[i].id == scopes[i].id && scopes_of(scopes)[i].with
                == scopes[i].with@,
        checkers_of(checkers).len() == checkers.len(),
        forall|i: int|
            0 <= i < checkers.len() ==> #[trigger] checkers_of(checkers)[i] == checkers[i]@,
        members_of(members).len() == members.len(),
        forall|i: int|
            0 <= i < members.len() ==> (#[trigger] members_of(members)[i]).checker
                == members[i].checker && members_of(members)[i].handler == members[i].handler@,
        groups_of(groups).len() == groups.len(),
        forall|i: int| 0 <= i < groups.len() ==> #[trigger] groups_of(groups)[i] == groups[i]@,
        tasks_of(tasks).len() == tasks.len(),
        forall|i: int| 0 <= i < tasks.len() ==> #[trigger] tasks_of(tasks)[i] == tasks[i]@,
        candidates_view(candidates).len() == candidates.len(),
        forall|i: int|
            0 <= i < candidates.len() ==> (#[trigger] candidates_view(candidates)[i]).function
                == candidates[i].function && candidates_view(candidates)[i].blocks
                == candidates[i].blocks@,
{
}

/// A group is seen with all that its checkers have in common, and with all its members.
pub proof fn law_groups_are_seen_whole(group: ScopeGroup)
    ensures
        group@.key.types is Some <==> group.types is Some,
        group.types matches Some(types) ==> group@.key.types == Some(types@),
        group@.key.tag == group.tag,
        group@.key.kind == group.kind,
        group@.key.scope == group.scope,
        group@.members.len() == group.members@.len(),
        forall|i: int|
            0 <= i < group.members@.len() ==> (#[trigger] group@.members[i]).checker
                == group.members@[i].checker && group@.members[i].handler
                == group.members@[i].handler@,
{
}

/// A task is seen as it is.
pub proof fn law_tasks_are_seen_whole(task: Task)
    ensures
        task matches Task::Scope { group } ==> task@ == (TaskView::Scope { group }),
        task matches Task::Target { group, target, with_jumps } ==> task@ == (TaskView::Target {
            group,
            target,
            with_jumps,
        }),
        task matches Task::Caller { group, function, blocks, admitted } ==> task@ == (
        TaskView::Caller { group, function, blocks: blocks@, admitted }),
        task matches Task::Visit(visit) ==> task@ == TaskView::Visit(visit),
{
}

/// An optional text is seen with its text, if it is there, and so are a path, an error and what came
/// of a run.
pub proof fn law_options_are_seen_whole(
    text: Option<String>,
    path: Option<&str>,
    error: Option<CheckerError>,
    outcome: Result<Vec<CheckResult>, CheckerError>,
)
    ensures
        text_of(text) is Some <==> text is Some,
        text matches Some(text) ==> text_of(Some(text)) == Some(text@),
        dir_of(path) is Some <==> path is Some,
        path matches Some(path) ==> dir_of(Some(path)) == Some(path@),
        failure_of(error) is Some <==> error is Some,
        error matches Some(error) ==> failure_of(Some(error)) == Some(error@),
        outcome_view(outcome) is Ok <==> outcome is Ok,
        outcome matches Ok(checks) ==> outcome_view(outcome)->Ok_0 == checks@,
        outcome matches Err(error) ==> outcome_view(outcome)->Err_0 == error@,
{
}

/// The signature files of a tag are seen under that tag, file by file.
pub proof fn law_files_are_seen_by_tag(files: Map<BlobTag, Vec<String>>, tag: BlobTag)
    ensures
        files_of(files).contains_key(tag) <==> files.contains_key(tag),
        files.contains_key(tag) ==> files_of(files)[tag].len() == files[tag]@.len() && forall|
            i: int,
        | 0 <= i < files[tag]@.len() ==> #[trigger] files_of(files)[tag][i] == files[tag]@[i]@,
{
}

} // verus!
