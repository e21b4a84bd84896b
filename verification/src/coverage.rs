//! That a run makes each visit of the engine's plan exactly once.
use vstd::prelude::*;

use crate::agenda::{Reply, Visit, fits};
use crate::caches::CacheView;
use crate::drive::state_after;
use crate::engine::EngineView;
use crate::parallel::{SearchView, checkers_in};
use crate::partition::{law_parallel_work_is_shared_out, law_search_ahead, lemma_search_ahead_fresh};
use crate::plan::{Project, law_visits_ahead, lemma_ahead_fresh, visit_made};
use crate::run::{
    RunReply, RunRequest, RunView, WorkResult, lemma_settled, lemma_stays_run, new_run,
    remaining_run,
};
use crate::seqs::{
    lemma_filter_all, lemma_filter_both, lemma_filter_none, lemma_filter_same, lemma_flat_map_same,
};
use crate::sequential::{SequentialView, fresh_run};

verus! {

impl Project {
    /// Whether `reply` is what this project answers to what `run` needs.
    pub open spec fn answers_run(self, engine: EngineView, run: RunView, reply: RunReply) -> bool {
        match (run.request(engine), reply) {
            (RunRequest::Step(request), RunReply::Step(reply)) => self.answers(request, reply),
            (RunRequest::Dispatch, RunReply::Dispatched(Ok(results))) => match run {
                RunView::Dispatching { items, .. } => self.finds_in(items, results@),
                _ => true,
            },
            _ => true,
        }
    }

    /// Whether `results` are what handlers find at the visits `items`: each result is of a visit at
    /// which that is found, and each visit at which something is found has a result.
    pub open spec fn finds_in(self, items: Seq<Visit>, results: Seq<WorkResult>) -> bool {
        &&& forall|k: int|
            0 <= k < results.len() ==> (self.finds)(items[(#[trigger] results[k]).item as int])
                == Some(results[k].result.finding)
        &&& forall|i: int|
            0 <= i < items.len() && (self.finds)(#[trigger] items[i]) is Some ==> exists|k: int|
                0 <= k < results.len() && (#[trigger] results[k]).item == i
    }

    /// All visits of a run of `engine`: the plan, with those that can be made in parallel in front
    /// if the engine runs in parallel.
    pub open spec fn all_visits(self, engine: EngineView) -> Seq<Visit> {
        let all = self.plan(engine, Set::empty());
        if engine.parallel {
            engine.parallel_visits(all) + engine.other_visits(all)
        } else {
            all
        }
    }

    /// The visits that the run `run` of `engine` has ahead.
    pub open spec fn run_ahead(self, engine: EngineView, run: RunView) -> Seq<Visit> {
        match run {
            RunView::Running { run, .. } => self.visits_ahead(engine.groups, run.skip, run.agenda),
            RunView::Finished(_) => Seq::empty(),
            _ => self.all_visits(engine),
        }
    }

    /// What is known of a run of `engine` between its answers: a search for visits that can be made
    /// in parallel has found, or has ahead, those of the plan.
    pub open spec fn is_on_plan(self, engine: EngineView, run: RunView) -> bool {
        let wanted = engine.parallel_visits(self.plan(engine, Set::empty()));
        match run {
            RunView::Searching(search) => engine.parallel && search.items + engine.parallel_visits(
                self.visits_ahead(engine.groups, Set::empty(), search.agenda),
            ) == wanted,
            RunView::Dispatching { items, .. } => engine.parallel && items == wanted,
            _ => true,
        }
    }
}

/// The visits that are made when `run` is answered `reply`.
pub open spec fn visits_by(engine: EngineView, run: RunView, reply: RunReply) -> Seq<Visit> {
    if !run.accepts(engine, reply) {
        Seq::empty()
    } else {
        match (run, reply) {
            (RunView::Dispatching { items, .. }, RunReply::Dispatched(Ok(_))) => items,
            (RunView::Running { run, .. }, RunReply::Step(reply)) => visit_made(engine, run, reply),
            _ => Seq::empty(),
        }
    }
}

/// The visits that are made when `run` is answered `replies`.
pub open spec fn run_visits(engine: EngineView, run: RunView, replies: Seq<RunReply>) -> Seq<Visit>
    decreases replies.len(),
{
    if replies.len() == 0 {
        Seq::empty()
    } else {
        let (asking, asked) = state_after(engine, run, replies.drop_last());
        run_visits(engine, run, replies.drop_last()) + visits_by(asking, asked, replies.last())
    }
}

/// Whether `replies` are what `project` answers to what `run` needs.
pub open spec fn project_says_to_run(
    project: Project,
    engine: EngineView,
    run: RunView,
    replies: Seq<RunReply>,
) -> bool
    decreases replies.len(),
{
    replies.len() == 0 || {
        let (asking, asked) = state_after(engine, run, replies.drop_last());
        &&& project_says_to_run(project, engine, run, replies.drop_last())
        &&& project.answers_run(asking, asked, replies.last())
    }
}

/// What of an engine decides its visits: neither the Lua states nor the mappings do.
pub open spec fn same_visits(a: EngineView, b: EngineView) -> bool {
    &&& a.groups == b.groups
    &&& a.checkers == b.checkers
    &&& a.parallel == b.parallel
}

/// Engines with the same groups have the same plan.
pub(crate) proof fn lemma_same_plan(
    project: Project,
    a: EngineView,
    b: EngineView,
    skip: Set<usize>,
)
    requires
        a.groups == b.groups,
    ensures
        project.plan(a, skip) == project.plan(b, skip),
{
    let places = a.group_places();
    assert(places =~= b.group_places());
    lemma_flat_map_same(
        places,
        |group: usize| project.group_visits(a.groups, skip, group),
        |group: usize| project.group_visits(b.groups, skip, group),
    );
}

proof fn lemma_same_visits(project: Project, a: EngineView, b: EngineView)
    requires
        same_visits(a, b),
    ensures
        project.all_visits(a) == project.all_visits(b),
        forall|run: RunView| #[trigger]
            project.is_on_plan(a, run) == project.is_on_plan(b, run),
        forall|run: RunView| #[trigger] project.run_ahead(a, run) == project.run_ahead(b, run),
{
    assert forall|skip: Set<usize>| #[trigger]
        project.plan(a, skip) == project.plan(b, skip) by {
        lemma_same_plan(project, a, b, skip);
    }
    assert forall|visits: Seq<Visit>| #[trigger]
        a.parallel_visits(visits) == b.parallel_visits(visits) by {
        lemma_filter_same(
            visits,
            |visit: Visit| a.is_parallel_visit(visit),
            |visit: Visit| b.is_parallel_visit(visit),
        );
    }
    assert forall|visits: Seq<Visit>| #[trigger]
        a.other_visits(visits) == b.other_visits(visits) by {
        lemma_filter_same(
            visits,
            |visit: Visit| !a.is_parallel_visit(visit),
            |visit: Visit| !b.is_parallel_visit(visit),
        );
    }
}

/// Whether `after` has ahead what `before` has, unless an error has ended the run.
spec fn has_same_ahead(
    project: Project,
    engine: EngineView,
    before: RunView,
    after: RunView,
) -> bool {
    &&& project.is_on_plan(engine, after)
    &&& !(after matches RunView::Finished(Err(_))) ==> project.run_ahead(engine, after)
        == project.run_ahead(engine, before)
}

proof fn lemma_past_caches(project: Project, engine: EngineView, run: RunView)
    requires
        project.is_on_plan(engine, run),
    ensures
        has_same_ahead(project, engine, run, run.past_caches(engine)),
{
    let none = Set::<usize>::empty();
    let all = project.plan(engine, none);
    if run is Caches {
        lemma_ahead_fresh(project, engine, none);
        lemma_search_ahead_fresh(project, engine);
        assert(Seq::<Visit>::empty() + engine.parallel_visits(all) =~= engine.parallel_visits(all));
    }
}

proof fn lemma_nothing_ahead(project: Project, engine: EngineView, skip: Set<usize>)
    ensures
        project.visits_ahead(engine.groups, skip, Seq::empty()) == Seq::<Visit>::empty(),
        engine.parallel_visits(Seq::empty()) == Seq::<Visit>::empty(),
{
    assert(project.visits_ahead(engine.groups, skip, Seq::empty()) =~= Seq::<Visit>::empty());
    lemma_filter_none(Seq::<Visit>::empty(), |visit: Visit| engine.is_parallel_visit(visit));
}

/// If no visit can be made in parallel, all are made one after the other.
proof fn lemma_nothing_parallel(engine: EngineView, visits: Seq<Visit>)
    requires
        engine.parallel_visits(visits).len() == 0,
    ensures
        engine.other_visits(visits) == visits,
{
    let alone = |visit: Visit| engine.is_parallel_visit(visit);
    assert forall|i: int| 0 <= i < visits.len() implies !alone(#[trigger] visits[i]) by {
        if alone(visits[i]) {
            visits.lemma_filter_contains(alone, i);
            assert(visits.filter(alone).contains(visits[i]));
        }
    }
    lemma_filter_all(visits, |visit: Visit| !engine.is_parallel_visit(visit));
}

proof fn lemma_search_over(project: Project, engine: EngineView, search: SearchView)
    requires
        project.is_on_plan(engine, RunView::Searching(search)),
        search.agenda.len() == 0,
    ensures
        search.items == engine.parallel_visits(project.plan(engine, Set::empty())),
{
    assert(search.agenda =~= Seq::empty());
    lemma_nothing_ahead(project, engine, Set::empty());
    assert(search.items + Seq::<Visit>::empty() =~= search.items);
}

/// If no visit can be made in parallel, the run that is left has all visits ahead.
proof fn lemma_all_in_turn(project: Project, engine: EngineView)
    requires
        engine.parallel_visits(project.plan(engine, Set::empty())).len() == 0,
    ensures
        project.all_visits(engine) == project.run_ahead(
            engine,
            remaining_run(engine, Seq::empty(), Set::empty()),
        ),
{
    let all = project.plan(engine, Set::empty());
    lemma_ahead_fresh(project, engine, Set::empty());
    assert(project.all_visits(engine) == all) by {
        lemma_nothing_parallel(engine, all);
        assert(engine.parallel_visits(all) =~= Seq::<Visit>::empty());
        assert(Seq::<Visit>::empty() + all =~= all);
    }
}

proof fn lemma_past_search(project: Project, engine: EngineView, run: RunView)
    requires
        project.is_on_plan(engine, run),
    ensures
        has_same_ahead(project, engine, run, run.past_search(engine)),
{
    if let RunView::Searching(search) = run {
        if search.failure is None && search.agenda.len() == 0 {
            lemma_search_over(project, engine, search);
            if search.items.len() == 0 {
                lemma_found_nothing(project, engine, search);
            }
        }
    }
}

proof fn lemma_found_nothing(project: Project, engine: EngineView, search: SearchView)
    requires
        search.failure is None,
        search.agenda.len() == 0,
        search.items.len() == 0,
        engine.parallel_visits(project.plan(engine, Set::empty())).len() == 0,
    ensures
        has_same_ahead(
            project,
            engine,
            RunView::Searching(search),
            RunView::Searching(search).past_search(engine),
        ),
{
    lemma_all_in_turn(project, engine);
}

proof fn lemma_past_visits(project: Project, engine: EngineView, run: RunView)
    requires
        project.is_on_plan(engine, run),
    ensures
        has_same_ahead(project, engine, run, run.past_visits()),
{
    if let RunView::Running { run: last, .. } = run {
        if last.failure is None && last.agenda.len() == 0 {
            assert(last.agenda =~= Seq::empty());
            lemma_nothing_ahead(project, engine, last.skip);
        }
    }
}

/// Getting past what has ended changes nothing of what a run has ahead.
proof fn lemma_settled_ahead(project: Project, engine: EngineView, run: RunView)
    requires
        project.is_on_plan(engine, run),
    ensures
        has_same_ahead(project, engine, run, run.settled(engine)),
{
    let first = run.past_caches(engine);
    let second = first.past_search(engine);
    lemma_past_caches(project, engine, run);
    lemma_past_search(project, engine, first);
    lemma_past_visits(project, engine, second);
}

proof fn lemma_search_stepped(
    project: Project,
    engine: EngineView,
    search: SearchView,
    reply: Reply,
)
    requires
        engine.valid(),
        search.is_search_of(engine),
        fits(search.request(), reply),
        project.answers(search.request(), reply),
        project.is_on_plan(engine, RunView::Searching(search)),
    ensures
        project.is_on_plan(engine, RunView::Searching(search.after(engine, reply))),
{
    if search.after(engine, reply).failure is None {
        law_search_ahead(project, engine, search, reply);
    }
}

proof fn lemma_visits_stepped(
    project: Project,
    engine: EngineView,
    run: SequentialView,
    reply: Reply,
)
    requires
        engine.valid(),
        run.is_run_of(engine),
        fits(run.request(engine), reply),
        project.answers(run.request(engine), reply),
    ensures
        ({
            let after = run.after(engine, reply);
            project.visits_ahead(engine.groups, run.skip, run.agenda) == visit_made(
                engine,
                run,
                reply,
            ) + project.visits_ahead(engine.groups, after.skip, after.agenda)
        }),
{
    let ahead = project.visits_ahead(engine.groups, run.skip, run.agenda);
    if run.after(engine, reply).failure is None {
        law_visits_ahead(project, engine, run, reply);
    } else {
        assert(ahead =~= Seq::<Visit>::empty() + ahead);
    }
}

proof fn lemma_dispatch_stepped(
    project: Project,
    engine: EngineView,
    items: Seq<Visit>,
    processed: Set<usize>,
)
    requires
        processed == checkers_in(items),
        project.is_on_plan(engine, RunView::Dispatching { items, processed }),
    ensures
        project.all_visits(engine) == items + project.visits_ahead(
            engine.groups,
            processed,
            fresh_run(engine, processed).agenda,
        ),
{
    lemma_ahead_fresh(project, engine, processed);
    law_parallel_work_is_shared_out(project, engine);
}

/// What a run has ahead is what an answer makes it visit, followed by what it has ahead then.
proof fn lemma_stepped_ahead(project: Project, engine: EngineView, run: RunView, reply: RunReply)
    requires
        engine.valid(),
        run.is_part_of(engine),
        run.accepts(engine, reply),
        project.is_on_plan(engine, run),
        project.answers_run(engine, run, reply),
    ensures
        ({
            let stepped = run.stepped(engine, reply);
            &&& project.is_on_plan(engine, stepped)
            &&& stepped is Finished || project.run_ahead(engine, run) == visits_by(
                engine,
                run,
                reply,
            ) + project.run_ahead(engine, stepped)
        }),
{
    let all = project.all_visits(engine);
    match (run, reply) {
        (RunView::Caches(_), RunReply::Cache(_)) => {
            assert(all =~= Seq::<Visit>::empty() + all);
        },
        (RunView::Searching(search), RunReply::Step(reply)) => {
            lemma_search_stepped(project, engine, search, reply);
            assert(all =~= Seq::<Visit>::empty() + all);
        },
        (RunView::Dispatching { items, processed }, RunReply::Dispatched(_)) => {
            lemma_dispatch_stepped(project, engine, items, processed);
        },
        (RunView::Running { run, .. }, RunReply::Step(reply)) => {
            lemma_visits_stepped(project, engine, run, reply);
        },
        _ => {},
    }
}

proof fn lemma_stepped_finished(engine: EngineView, run: RunView, reply: RunReply)
    requires
        run.accepts(engine, reply),
        run.stepped(engine, reply) is Finished,
    ensures
        run.after(engine, reply) matches RunView::Finished(Err(_)),
{
}

proof fn lemma_run_ahead(project: Project, engine: EngineView, run: RunView, reply: RunReply)
    requires
        engine.valid(),
        run.is_run_of(engine),
        project.is_on_plan(engine, run),
        project.answers_run(engine, run, reply),
    ensures
        ({
            let next = run.engine_after(engine, reply);
            let after = run.after(engine, reply);
            &&& same_visits(next, engine)
            &&& project.is_on_plan(next, after)
            &&& !(after matches RunView::Finished(Err(_))) ==> project.run_ahead(engine, run)
                == visits_by(engine, run, reply) + project.run_ahead(next, after)
        }),
{
    let next = run.engine_after(engine, reply);
    let stepped = run.stepped(engine, reply);
    assert(same_visits(next, engine));
    lemma_same_visits(project, next, engine);
    if run.accepts(engine, reply) {
        lemma_stepped_ahead(project, engine, run, reply);
        lemma_settled_ahead(project, next, stepped);
        if stepped is Finished {
            lemma_stepped_finished(engine, run, reply);
        }
    } else {
        let ahead = project.run_ahead(engine, run);
        assert(ahead =~= Seq::<Visit>::empty() + ahead);
    }
}

/// What is known of a run of `engine` that was answered `replies`: it stays on its plan, and what it
/// has visited and has ahead is all that it visits.
spec fn has_visited(project: Project, engine: EngineView, replies: Seq<RunReply>) -> bool {
    let (next, after) = state_after(engine, new_run(engine), replies);
    &&& next.valid()
    &&& after.is_run_of(next)
    &&& same_visits(next, engine)
    &&& project.is_on_plan(next, after)
    &&& !(after matches RunView::Finished(Err(_))) ==> project.all_visits(engine) == run_visits(
        engine,
        new_run(engine),
        replies,
    ) + project.run_ahead(next, after)
}

proof fn lemma_nothing_visited(project: Project, engine: EngineView)
    requires
        engine.valid(),
    ensures
        has_visited(project, engine, Seq::empty()),
{
    let fresh = RunView::Caches(CacheView { merging: None, failure: None });
    let all = project.all_visits(engine);
    lemma_settled(engine, fresh);
    lemma_settled_ahead(project, engine, fresh);
    assert(all =~= Seq::<Visit>::empty() + all);
}

proof fn lemma_more_visited(project: Project, engine: EngineView, replies: Seq<RunReply>)
    requires
        replies.len() > 0,
        has_visited(project, engine, replies.drop_last()),
        ({
            let (asking, asked) = state_after(engine, new_run(engine), replies.drop_last());
            project.answers_run(asking, asked, replies.last())
        }),
    ensures
        has_visited(project, engine, replies),
{
    let reply = replies.last();
    let (asking, asked) = state_after(engine, new_run(engine), replies.drop_last());
    let next = asked.engine_after(asking, reply);
    let after = asked.after(asking, reply);
    let before = run_visits(engine, new_run(engine), replies.drop_last());
    let made = visits_by(asking, asked, reply);
    assert(state_after(engine, new_run(engine), replies) == (next, after));
    lemma_stays_run(asking, asked, reply);
    lemma_run_ahead(project, asking, asked, reply);
    if !(after matches RunView::Finished(Err(_))) {
        assert(!(asked matches RunView::Finished(Err(_))));
        let rest = project.run_ahead(next, after);
        assert(before + (made + rest) =~= (before + made) + rest);
    }
}

proof fn lemma_run_visits(project: Project, engine: EngineView, replies: Seq<RunReply>)
    requires
        engine.valid(),
        project_says_to_run(project, engine, new_run(engine), replies),
    ensures
        has_visited(project, engine, replies),
    decreases replies.len(),
{
    if replies.len() == 0 {
        assert(replies =~= Seq::empty());
        lemma_nothing_visited(project, engine);
    } else {
        lemma_run_visits(project, engine, replies.drop_last());
        lemma_more_visited(project, engine, replies);
    }
}

/// A run that ends without an error has made exactly the visits of the engine's plan: in its order
/// or, if the engine runs in parallel, first those that can be made in parallel and then the others,
/// each part in the order of the plan.
pub proof fn law_run_makes_each_visit_once(
    project: Project,
    engine: EngineView,
    replies: Seq<RunReply>,
)
    requires
        engine.valid(),
        project_says_to_run(project, engine, new_run(engine), replies),
        state_after(engine, new_run(engine), replies).1 matches RunView::Finished(Ok(_)),
    ensures
        run_visits(engine, new_run(engine), replies) == project.all_visits(engine),
{
    lemma_run_visits(project, engine, replies);
    assert(run_visits(engine, new_run(engine), replies) + Seq::<Visit>::empty() =~= run_visits(
        engine,
        new_run(engine),
        replies,
    ));
}

/// Whether an engine runs in parallel changes the order of its visits, but neither which they are
/// nor how often each is made: they are those of the plan.
pub proof fn law_parallel_changes_only_the_order(project: Project, engine: EngineView)
    ensures
        project.all_visits(engine).to_multiset() == project.plan(
            engine,
            Set::empty(),
        ).to_multiset(),
{
    let all = project.plan(engine, Set::empty());
    let alone = |visit: Visit| engine.is_parallel_visit(visit);
    let others = |visit: Visit| !engine.is_parallel_visit(visit);
    lemma_filter_both(all, alone);
    lemma_filter_same(all, |visit: Visit| !alone(visit), others);
}

} // verus!
