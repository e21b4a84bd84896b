//! How the visits of a run are shared out between those made in parallel and the others.
use vstd::prelude::*;

use crate::agenda::{
    Place, Reply, TaskView, Visit, caller_tasks, fits, lemma_call_visits_possible, target_tasks,
};
use crate::candidates::{CandidateView, candidates_of};
use crate::engine::EngineView;
use crate::groups::GroupView;
use crate::parallel::{
    SearchView, checkers_in, fresh_search, lemma_fresh_search, lemma_stays_search,
};
use crate::plan::{
    Project, lemma_ahead_last, lemma_ahead_stacked, lemma_caller_tasks, lemma_target_tasks,
};
use crate::scope::ScopeKind;
use crate::seqs::{
    lemma_filter_all, lemma_filter_none, lemma_filter_same, lemma_flat_map_all,
    lemma_flat_map_filter, lemma_flat_map_same, lemma_flat_map_twice,
};

verus! {

impl EngineView {
    /// Whether `visit` can be made in parallel: it is to a call site, and does without the
    /// decompiler.
    pub open spec fn is_parallel_visit(self, visit: Visit) -> bool {
        visit.place is CallSite && !self.heavy(visit.checker as int)
    }

    /// Those of `visits` that can be made in parallel.
    pub open spec fn parallel_visits(self, visits: Seq<Visit>) -> Seq<Visit> {
        visits.filter(|visit: Visit| self.is_parallel_visit(visit))
    }

    /// Those of `visits` that cannot be made in parallel.
    pub open spec fn other_visits(self, visits: Seq<Visit>) -> Seq<Visit> {
        visits.filter(|visit: Visit| !self.is_parallel_visit(visit))
    }
}

/// Whether a run that does not run the checkers in `skip` at call sites makes `visit`.
pub open spec fn is_kept(skip: Set<usize>, visit: Visit) -> bool {
    !(visit.place is CallSite && skip.contains(visit.checker))
}

/// Those of `visits` that are kept.
pub open spec fn kept(skip: Set<usize>, visits: Seq<Visit>) -> Seq<Visit> {
    visits.filter(|visit: Visit| is_kept(skip, visit))
}

proof fn lemma_visits_at_skip(group: GroupView, place: usize, at: Place, skip: Set<usize>)
    ensures
        group.visits_at(place, at, Set::empty()) == group.all_visits_at(place, at),
        at is CallSite ==> group.visits_at(place, at, skip) == kept(
            skip,
            group.visits_at(place, at, Set::empty()),
        ),
        !(at is CallSite) ==> kept(skip, group.visits_at(place, at, Set::empty()))
            == group.visits_at(place, at, Set::empty()),
{
    let all = group.all_visits_at(place, at);
    lemma_filter_all(all, |visit: Visit| !Set::<usize>::empty().contains(visit.checker));
    let keep = |visit: Visit| is_kept(skip, visit);
    if at is CallSite {
        lemma_filter_same(all, |visit: Visit| !skip.contains(visit.checker), keep);
    } else {
        lemma_filter_all(all, keep);
    }
}

proof fn lemma_call_visits_skip(
    group: GroupView,
    place: usize,
    function: u64,
    blocks: Seq<u64>,
    skip: Set<usize>,
)
    ensures
        group.call_visits(place, function, blocks, skip) == kept(
            skip,
            group.call_visits(place, function, blocks, Set::empty()),
        ),
{
    let all = |block: u64|
        group.visits_at(place, Place::CallSite { function, block }, Set::empty());
    let some = |block: u64| group.visits_at(place, Place::CallSite { function, block }, skip);
    let keep = |visit: Visit| is_kept(skip, visit);
    lemma_flat_map_filter(blocks, all, keep);
    let filtered = |block: u64| all(block).filter(keep);
    assert forall|i: int| 0 <= i < blocks.len() implies some(#[trigger] blocks[i]) == filtered(
        blocks[i],
    ) by {
        lemma_visits_at_skip(group, place, Place::CallSite { function, block: blocks[i] }, skip);
    }
    lemma_flat_map_same(blocks, some, filtered);
}

proof fn lemma_function_visits_skip(
    group: GroupView,
    place: usize,
    functions: Seq<u64>,
    skip: Set<usize>,
)
    ensures
        kept(skip, group.function_visits(place, functions)) == group.function_visits(
            place,
            functions,
        ),
{
    let all = |function: u64| group.visits_at(place, Place::Function { function }, Set::empty());
    let keep = |visit: Visit| is_kept(skip, visit);
    lemma_flat_map_filter(functions, all, keep);
    let filtered = |function: u64| all(function).filter(keep);
    assert forall|i: int| 0 <= i < functions.len() implies all(#[trigger] functions[i])
        == filtered(functions[i]) by {
        lemma_visits_at_skip(group, place, Place::Function { function: functions[i] }, skip);
    }
    lemma_flat_map_same(functions, all, filtered);
}

proof fn lemma_target_visits_skip(
    project: Project,
    groups: Seq<GroupView>,
    skip: Set<usize>,
    group: usize,
    target: u64,
    with_jumps: bool,
)
    ensures
        project.target_visits(groups, skip, group, target, with_jumps) == kept(
            skip,
            project.target_visits(groups, Set::empty(), group, target, with_jumps),
        ),
{
    let list = candidates_of((project.edges)(group, target), with_jumps);
    let all = |candidate: CandidateView|
        project.caller_visits(
            groups,
            Set::empty(),
            group,
            candidate.function,
            candidate.blocks,
        );
    let some = |candidate: CandidateView|
        project.caller_visits(groups, skip, group, candidate.function, candidate.blocks);
    let keep = |visit: Visit| is_kept(skip, visit);
    lemma_flat_map_filter(list, all, keep);
    let filtered = |candidate: CandidateView| all(candidate).filter(keep);
    assert forall|i: int| 0 <= i < list.len() implies some(#[trigger] list[i]) == filtered(
        list[i],
    ) by {
        let candidate = list[i];
        if (project.admits)(group, candidate.function) {
            lemma_call_visits_skip(
                groups[group as int],
                group,
                candidate.function,
                candidate.blocks,
                skip,
            );
        } else {
            lemma_filter_none(Seq::empty(), keep);
        }
    }
    lemma_flat_map_same(list, some, filtered);
}

proof fn lemma_group_visits_skip(
    project: Project,
    groups: Seq<GroupView>,
    skip: Set<usize>,
    group: usize,
)
    ensures
        project.group_visits(groups, skip, group) == kept(
            skip,
            project.group_visits(groups, Set::empty(), group),
        ),
{
    let keep = |visit: Visit| is_kept(skip, visit);
    match groups[group as int].key.kind {
        ScopeKind::Calls => {
            let (list, with_jumps) = (project.targets)(group);
            let all = |target: u64|
                project.target_visits(
                    groups,
                    Set::empty(),
                    group,
                    target,
                    (project.targets)(group).1,
                );
            let some = |target: u64|
                project.target_visits(groups, skip, group, target, (project.targets)(group).1);
            lemma_flat_map_filter(list, all, keep);
            let filtered = |target: u64| all(target).filter(keep);
            assert forall|i: int| 0 <= i < list.len() implies some(#[trigger] list[i]) == filtered(
                list[i],
            ) by {
                lemma_target_visits_skip(project, groups, skip, group, list[i], with_jumps);
            }
            lemma_flat_map_same(list, some, filtered);
        },
        ScopeKind::FunctionWith { .. } => {
            lemma_function_visits_skip(
                groups[group as int],
                group,
                (project.functions)(group),
                skip,
            );
        },
        ScopeKind::ProjectWith => {
            lemma_visits_at_skip(groups[group as int], group, Place::Project, skip);
        },
    }
}

/// A run that does not run some checkers at call sites makes all other visits, and no more.
pub proof fn law_skipping_leaves_the_rest(project: Project, engine: EngineView, skip: Set<usize>)
    ensures
        project.plan(engine, skip) == kept(skip, project.plan(engine, Set::empty())),
{
    let places = engine.group_places();
    let all = |group: usize| project.group_visits(engine.groups, Set::empty(), group);
    let some = |group: usize| project.group_visits(engine.groups, skip, group);
    let keep = |visit: Visit| is_kept(skip, visit);
    lemma_flat_map_filter(places, all, keep);
    let filtered = |group: usize| all(group).filter(keep);
    assert forall|i: int| 0 <= i < places.len() implies some(#[trigger] places[i]) == filtered(
        places[i],
    ) by {
        lemma_group_visits_skip(project, engine.groups, skip, places[i]);
    }
    lemma_flat_map_same(places, some, filtered);
}

/// The visits that are made in parallel and those that a run makes which does not run their checkers
/// at call sites share out the visits of the engine: those are the ones that can be made in
/// parallel, these the others, both in the order of the plan.
pub proof fn law_parallel_work_is_shared_out(project: Project, engine: EngineView)
    ensures
        ({
            let all = project.plan(engine, Set::empty());
            let items = engine.parallel_visits(all);
            project.plan(engine, checkers_in(items)) == engine.other_visits(all)
        }),
{
    let all = project.plan(engine, Set::empty());
    let items = engine.parallel_visits(all);
    let skip = checkers_in(items);
    let alone = |visit: Visit| engine.is_parallel_visit(visit);
    law_skipping_leaves_the_rest(project, engine, skip);
    assert forall|i: int| 0 <= i < all.len() implies is_kept(skip, #[trigger] all[i])
        == !engine.is_parallel_visit(all[i]) by {
        let visit = all[i];
        if engine.is_parallel_visit(visit) {
            all.lemma_filter_contains(alone, i);
            let k = choose|k: int| 0 <= k < items.len() && items[k] == visit;
            assert(items.map_values(|visit: Visit| visit.checker)[k] == visit.checker);
        } else if visit.place is CallSite && skip.contains(visit.checker) {
            let ids = items.map_values(|visit: Visit| visit.checker);
            let k = choose|k: int| 0 <= k < ids.len() && ids[k] == visit.checker;
            all.lemma_filter_pred(alone, k);
            assert(alone(items[k]));
        }
    }
    lemma_filter_same(
        all,
        |visit: Visit| is_kept(skip, visit),
        |visit: Visit| !engine.is_parallel_visit(visit),
    );
}

proof fn lemma_not_at_calls(group: GroupView, place: usize, at: Place)
    requires
        !(at is CallSite),
    ensures
        forall|k: int|
            0 <= k < group.visits_at(place, at, Set::empty()).len() ==> !((
            #[trigger] group.visits_at(place, at, Set::empty())[k]).place is CallSite),
{
    lemma_visits_at_skip(group, place, at, Set::empty());
}

proof fn lemma_functions_not_at_calls(group: GroupView, place: usize, functions: Seq<u64>)
    ensures
        forall|k: int|
            0 <= k < group.function_visits(place, functions).len() ==> !((
            #[trigger] group.function_visits(place, functions)[k]).place is CallSite),
{
    let all = |function: u64| group.visits_at(place, Place::Function { function }, Set::empty());
    let elsewhere = |visit: Visit| !(visit.place is CallSite);
    assert forall|i: int, j: int|
        #![trigger all(functions[i])[j]]
        0 <= i < functions.len() && 0 <= j < all(functions[i]).len() implies elsewhere(
        all(functions[i])[j],
    ) by {
        lemma_not_at_calls(group, place, Place::Function { function: functions[i] });
    }
    lemma_flat_map_all(functions, all, elsewhere);
    assert forall|k: int| 0 <= k < group.function_visits(place, functions).len() implies !((
    #[trigger] group.function_visits(place, functions)[k]).place is CallSite) by {
        assert(elsewhere(functions.flat_map(all)[k]));
    }
}

/// The parallel visits that the fresh search of an engine has ahead are those of the plan.
pub(crate) proof fn lemma_search_ahead_fresh(project: Project, engine: EngineView)
    ensures
        engine.parallel_visits(
            project.visits_ahead(engine.groups, Set::empty(), fresh_search(engine).agenda),
        ) == engine.parallel_visits(project.plan(engine, Set::empty())),
{
    let groups = engine.groups;
    let none = Set::<usize>::empty();
    let places = engine.group_places();
    let alone = |visit: Visit| engine.is_parallel_visit(visit);
    let lead = |task: TaskView| project.task_visits(groups, none, task);
    let tasks = |group: usize| engine.parallel_tasks(group);
    let own = |group: usize| project.group_visits(groups, none, group);
    let both = |group: usize| tasks(group).flat_map(lead);
    lemma_ahead_stacked(project, groups, none, Seq::empty(), engine.all_parallel_tasks());
    assert(project.visits_ahead(groups, none, Seq::empty()) =~= Seq::<Visit>::empty());
    lemma_flat_map_twice(places, tasks, lead);
    assert(project.visits_ahead(groups, none, fresh_search(engine).agenda) =~= places.flat_map(
        both,
    ));
    lemma_flat_map_filter(places, both, alone);
    lemma_flat_map_filter(places, own, alone);
    let of_tasks = |group: usize| both(group).filter(alone);
    let of_own = |group: usize| own(group).filter(alone);
    assert forall|i: int| 0 <= i < places.len() implies of_tasks(#[trigger] places[i]) == of_own(
        places[i],
    ) by {
        let group = places[i];
        let list = tasks(group);
        match groups[group as int].key.kind {
            ScopeKind::Calls => {
                assert(list =~= seq![TaskView::Scope { group }]);
                list.lemma_flat_map_singleton(lead);
            },
            ScopeKind::FunctionWith { .. } => {
                assert(list.flat_map(lead) =~= Seq::<Visit>::empty());
                lemma_functions_not_at_calls(
                    groups[group as int],
                    group,
                    (project.functions)(group),
                );
                lemma_filter_none(own(group), alone);
                lemma_filter_none(both(group), alone);
            },
            ScopeKind::ProjectWith => {
                assert(list.flat_map(lead) =~= Seq::<Visit>::empty());
                lemma_not_at_calls(groups[group as int], group, Place::Project);
                lemma_filter_none(own(group), alone);
                lemma_filter_none(both(group), alone);
            },
        }
    }
    lemma_flat_map_same(places, of_tasks, of_own);
}

/// A search takes down the parallel visits that it has ahead, one after the other: those that it has
/// found, followed by those that it has ahead, stay the same.
pub proof fn law_search_ahead(
    project: Project,
    engine: EngineView,
    search: SearchView,
    reply: Reply,
)
    requires
        engine.valid(),
        search.is_search_of(engine),
        fits(search.request(), reply),
        project.answers(search.request(), reply),
        search.after(engine, reply).failure is None,
    ensures
        ({
            let after = search.after(engine, reply);
            search.items + engine.parallel_visits(
                project.visits_ahead(engine.groups, Set::empty(), search.agenda),
            ) == after.items + engine.parallel_visits(
                project.visits_ahead(engine.groups, Set::empty(), after.agenda),
            )
        }),
{
    let groups = engine.groups;
    let none = Set::<usize>::empty();
    let rest = search.agenda.drop_last();
    let alone = |visit: Visit| engine.is_parallel_visit(visit);
    let after = search.after(engine, reply);
    assert(engine.can_search(search.agenda[search.agenda.len() - 1]));
    lemma_ahead_last(project, groups, none, search.agenda);
    match (search.agenda.last(), reply) {
        (TaskView::Scope { group }, Reply::Targets(Ok(targets))) => {
            let tasks = target_tasks(group, targets.functions@, targets.with_jumps);
            lemma_target_tasks(project, groups, none, group, targets.functions@, targets.with_jumps);
            lemma_ahead_stacked(project, groups, none, rest, tasks);
        },
        (TaskView::Target { group, with_jumps, .. }, Reply::Edges(edges)) => {
            let candidates = candidates_of(edges@, with_jumps);
            lemma_caller_tasks(project, groups, none, group, candidates);
            lemma_ahead_stacked(project, groups, none, rest, caller_tasks(group, candidates));
        },
        (TaskView::Caller { group, function, blocks, .. }, Reply::Where(Ok(admitted))) => {
            let tasks = if admitted {
                seq![TaskView::Caller { group, function, blocks, admitted }]
            } else {
                Seq::empty()
            };
            lemma_ahead_stacked(project, groups, none, rest, tasks);
            if admitted {
                tasks.lemma_flat_map_singleton(
                    |task: TaskView| project.task_visits(groups, none, task),
                );
            } else {
                assert(project.tasks_visits(groups, none, tasks) =~= Seq::<Visit>::empty());
            }
        },
        (TaskView::Caller { group, function, blocks, .. }, Reply::Analysed) => {
            let visits = groups[group as int].call_visits(group, function, blocks, none);
            lemma_call_visits_possible(engine, group, function, blocks, none);
            lemma_filter_same(
                visits,
                |visit: Visit| !engine.heavy(visit.checker as int),
                alone,
            );
            Seq::filter_distributes_over_add(
                visits,
                project.visits_ahead(groups, none, rest),
                alone,
            );
            assert(after.items =~= search.items + visits.filter(alone));
            assert(search.items + engine.parallel_visits(
                project.visits_ahead(groups, none, search.agenda),
            ) =~= after.items + engine.parallel_visits(project.visits_ahead(groups, none, rest)));
        },
        _ => {},
    }
}

/// The search `search` of `engine` after `replies` were taken as the answers to what it needed.
pub open spec fn searching_after(
    engine: EngineView,
    search: SearchView,
    replies: Seq<Reply>,
) -> SearchView
    decreases replies.len(),
{
    if replies.len() == 0 {
        search
    } else {
        searching_after(engine, search, replies.drop_last()).after(engine, replies.last())
    }
}

/// Whether `replies` are answers to what the search `search` of `engine` needs, and what `project`
/// answers.
pub open spec fn project_says_to_search(
    project: Project,
    engine: EngineView,
    search: SearchView,
    replies: Seq<Reply>,
) -> bool
    decreases replies.len(),
{
    replies.len() == 0 || {
        let asked = searching_after(engine, search, replies.drop_last());
        &&& project_says_to_search(project, engine, search, replies.drop_last())
        &&& fits(asked.request(), replies.last())
        &&& project.answers(asked.request(), replies.last())
    }
}

proof fn lemma_searching(
    project: Project,
    engine: EngineView,
    search: SearchView,
    replies: Seq<Reply>,
)
    requires
        engine.valid(),
        search.is_search_of(engine),
        project_says_to_search(project, engine, search, replies),
        searching_after(engine, search, replies).failure is None,
    ensures
        ({
            let after = searching_after(engine, search, replies);
            &&& after.is_search_of(engine)
            &&& search.items + engine.parallel_visits(
                project.visits_ahead(engine.groups, Set::empty(), search.agenda),
            ) == after.items + engine.parallel_visits(
                project.visits_ahead(engine.groups, Set::empty(), after.agenda),
            )
        }),
    decreases replies.len(),
{
    if replies.len() > 0 {
        let asked = searching_after(engine, search, replies.drop_last());
        lemma_searching(project, engine, search, replies.drop_last());
        lemma_stays_search(engine, asked, replies.last());
        law_search_ahead(project, engine, asked, replies.last());
    }
}

/// A search that ends without an error has found exactly the visits of the plan that can be made in
/// parallel, in its order, and the checkers that they are of.
pub proof fn law_search_finds_parallel_visits(
    project: Project,
    engine: EngineView,
    replies: Seq<Reply>,
)
    requires
        engine.valid(),
        project_says_to_search(project, engine, fresh_search(engine), replies),
        searching_after(engine, fresh_search(engine), replies).failure is None,
        searching_after(engine, fresh_search(engine), replies).agenda.len() == 0,
    ensures
        ({
            let after = searching_after(engine, fresh_search(engine), replies);
            &&& after.items == engine.parallel_visits(project.plan(engine, Set::empty()))
            &&& after.processed == checkers_in(after.items)
        }),
{
    let search = fresh_search(engine);
    let after = searching_after(engine, search, replies);
    lemma_fresh_search(engine);
    lemma_searching(project, engine, search, replies);
    lemma_search_ahead_fresh(project, engine);
    assert(project.visits_ahead(engine.groups, Set::empty(), after.agenda) =~= Seq::<
        Visit,
    >::empty());
    lemma_filter_none(
        Seq::<Visit>::empty(),
        |visit: Visit| engine.is_parallel_visit(visit),
    );
    assert(after.items =~= engine.parallel_visits(project.plan(engine, Set::empty())));
}

} // verus!
