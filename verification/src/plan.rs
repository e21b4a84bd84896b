//! Which visits a run makes: what its answers amount to, without the order in which it asks.
use vstd::prelude::*;

use crate::agenda::{
    Reply, Request, TaskView, Visit, caller_tasks, fits, stacked, target_tasks, visit_tasks,
};
use crate::candidates::{CandidateView, Edge, candidates_of};
use crate::engine::EngineView;
use crate::groups::GroupView;
use crate::result::CheckResult;
use crate::scope::ScopeKind;
use crate::seqs::{
    lemma_flat_map_concat, lemma_flat_map_first, lemma_flat_map_same, lemma_flat_map_twice,
};
use crate::sequential::{SequentialView, fresh_run, lemma_fresh_run, lemma_stays_run};

verus! {

/// What a project answers, and what handlers find in it, whenever they are asked.
pub struct Project {
    /// The functions that the query of a calls scope finds, and whether branches count as calls.
    pub targets: spec_fn(usize) -> (Seq<u64>, bool),
    /// The edges into the entry block of a function.
    pub edges: spec_fn(usize, u64) -> Seq<Edge>,
    /// Whether the filter of a calls scope admits a function.
    pub admits: spec_fn(usize, u64) -> bool,
    /// The functions of a function scope.
    pub functions: spec_fn(usize) -> Seq<u64>,
    /// What a handler finds at a visit, if it finds anything.
    pub finds: spec_fn(Visit) -> Option<usize>,
}

impl Project {
    /// Whether `reply` is what this project answers to `request`. What does not concern the project
    /// can be anything.
    pub open spec fn answers(self, request: Request, reply: Reply) -> bool {
        match (request, reply) {
            (Request::Targets { group }, Reply::Targets(Ok(targets))) => (
                targets.functions@,
                targets.with_jumps,
            ) == (self.targets)(group),
            (Request::Edges { group, target }, Reply::Edges(edges)) => edges@ == (self.edges)(
                group,
                target,
            ),
            (Request::Where { group, function }, Reply::Where(Ok(admitted))) => admitted == (
            self.admits)(group, function),
            (Request::Functions { group }, Reply::Functions(Ok(functions))) => functions@ == (
            self.functions)(group),
            (Request::AllFunctions { group }, Reply::Functions(Ok(functions))) => functions@ == (
            self.functions)(group),
            (Request::Invoke { visit }, Reply::Invoked(Ok(found))) => (self.finds)(visit) == (
            match found {
                Some(found) => Some(found.finding),
                None => None,
            }),
            _ => true,
        }
    }

    /// The visits at the calls in `blocks` of `function`.
    pub open spec fn caller_visits(
        self,
        groups: Seq<GroupView>,
        skip: Set<usize>,
        group: usize,
        function: u64,
        blocks: Seq<u64>,
    ) -> Seq<Visit> {
        if (self.admits)(group, function) {
            groups[group as int].call_visits(group, function, blocks, skip)
        } else {
            Seq::empty()
        }
    }

    /// The visits at the calls of `target`.
    pub open spec fn target_visits(
        self,
        groups: Seq<GroupView>,
        skip: Set<usize>,
        group: usize,
        target: u64,
        with_jumps: bool,
    ) -> Seq<Visit> {
        candidates_of((self.edges)(group, target), with_jumps).flat_map(
            |candidate: CandidateView|
                self.caller_visits(groups, skip, group, candidate.function, candidate.blocks),
        )
    }

    /// The visits of `group`.
    pub open spec fn group_visits(
        self,
        groups: Seq<GroupView>,
        skip: Set<usize>,
        group: usize,
    ) -> Seq<Visit> {
        match groups[group as int].key.kind {
            ScopeKind::Calls => (self.targets)(group).0.flat_map(
                |target: u64|
                    self.target_visits(groups, skip, group, target, (self.targets)(group).1),
            ),
            ScopeKind::FunctionWith { .. } => groups[group as int].function_visits(
                group,
                (self.functions)(group),
            ),
            ScopeKind::ProjectWith => groups[group as int].project_visits(group),
        }
    }

    /// The visits of a run of `engine` that does not run the checkers in `skip` at call sites.
    pub open spec fn plan(self, engine: EngineView, skip: Set<usize>) -> Seq<Visit> {
        engine.group_places().flat_map(
            |group: usize| self.group_visits(engine.groups, skip, group),
        )
    }

    /// The visits that `task` leads to.
    pub open spec fn task_visits(
        self,
        groups: Seq<GroupView>,
        skip: Set<usize>,
        task: TaskView,
    ) -> Seq<Visit> {
        match task {
            TaskView::Scope { group } => self.group_visits(groups, skip, group),
            TaskView::Target { group, target, with_jumps } => self.target_visits(
                groups,
                skip,
                group,
                target,
                with_jumps,
            ),
            TaskView::Caller { group, function, blocks, admitted } => if admitted {
                groups[group as int].call_visits(group, function, blocks, skip)
            } else {
                self.caller_visits(groups, skip, group, function, blocks)
            },
            TaskView::Visit(visit) => seq![visit],
        }
    }

    /// The visits that `tasks` lead to, one after the other.
    pub open spec fn tasks_visits(
        self,
        groups: Seq<GroupView>,
        skip: Set<usize>,
        tasks: Seq<TaskView>,
    ) -> Seq<Visit> {
        tasks.flat_map(|task: TaskView| self.task_visits(groups, skip, task))
    }

    /// The visits that `agenda` leads to.
    pub open spec fn visits_ahead(
        self,
        groups: Seq<GroupView>,
        skip: Set<usize>,
        agenda: Seq<TaskView>,
    ) -> Seq<Visit> {
        self.tasks_visits(groups, skip, agenda.reverse())
    }
}

pub(crate) proof fn lemma_ahead_stacked(
    project: Project,
    groups: Seq<GroupView>,
    skip: Set<usize>,
    agenda: Seq<TaskView>,
    tasks: Seq<TaskView>,
)
    ensures
        project.visits_ahead(groups, skip, stacked(agenda, tasks)) == project.tasks_visits(
            groups,
            skip,
            tasks,
        ) + project.visits_ahead(groups, skip, agenda),
{
    assert(stacked(agenda, tasks).reverse() =~= tasks + agenda.reverse());
    lemma_flat_map_concat(
        tasks,
        agenda.reverse(),
        |task: TaskView| project.task_visits(groups, skip, task),
    );
}

pub(crate) proof fn lemma_ahead_last(
    project: Project,
    groups: Seq<GroupView>,
    skip: Set<usize>,
    agenda: Seq<TaskView>,
)
    requires
        agenda.len() > 0,
    ensures
        project.visits_ahead(groups, skip, agenda) == project.task_visits(
            groups,
            skip,
            agenda.last(),
        ) + project.visits_ahead(groups, skip, agenda.drop_last()),
{
    lemma_flat_map_first(
        agenda.reverse(),
        |task: TaskView| project.task_visits(groups, skip, task),
    );
    assert(agenda.reverse().skip(1) =~= agenda.drop_last().reverse());
}

proof fn lemma_visit_tasks(
    project: Project,
    groups: Seq<GroupView>,
    skip: Set<usize>,
    visits: Seq<Visit>,
)
    ensures
        project.tasks_visits(groups, skip, visit_tasks(visits)) == visits,
    decreases visits.len(),
{
    let lead = |task: TaskView| project.task_visits(groups, skip, task);
    let tasks = visit_tasks(visits);
    if visits.len() > 0 {
        lemma_flat_map_first(tasks, lead);
        assert(tasks.skip(1) =~= visit_tasks(visits.skip(1)));
        lemma_visit_tasks(project, groups, skip, visits.skip(1));
        assert(tasks.flat_map(lead) =~= visits);
    } else {
        assert(tasks.flat_map(lead) =~= visits);
    }
}

pub(crate) proof fn lemma_target_tasks(
    project: Project,
    groups: Seq<GroupView>,
    skip: Set<usize>,
    group: usize,
    targets: Seq<u64>,
    with_jumps: bool,
)
    ensures
        project.tasks_visits(groups, skip, target_tasks(group, targets, with_jumps))
            == targets.flat_map(
            |target: u64| project.target_visits(groups, skip, group, target, with_jumps),
        ),
{
    let lead = |task: TaskView| project.task_visits(groups, skip, task);
    let own = |target: u64| project.target_visits(groups, skip, group, target, with_jumps);
    assert(target_tasks(group, targets, with_jumps).map_values(lead) =~= targets.map_values(own));
}

pub(crate) proof fn lemma_caller_tasks(
    project: Project,
    groups: Seq<GroupView>,
    skip: Set<usize>,
    group: usize,
    candidates: Seq<CandidateView>,
)
    ensures
        project.tasks_visits(groups, skip, caller_tasks(group, candidates)) == candidates.flat_map(
            |candidate: CandidateView|
                project.caller_visits(groups, skip, group, candidate.function, candidate.blocks),
        ),
{
    let lead = |task: TaskView| project.task_visits(groups, skip, task);
    let own = |candidate: CandidateView|
        project.caller_visits(groups, skip, group, candidate.function, candidate.blocks);
    assert(caller_tasks(group, candidates).map_values(lead) =~= candidates.map_values(own));
}

/// The visits that the fresh run of an engine has ahead are its plan.
pub(crate) proof fn lemma_ahead_fresh(project: Project, engine: EngineView, skip: Set<usize>)
    ensures
        project.visits_ahead(engine.groups, skip, fresh_run(engine, skip).agenda) == project.plan(
            engine,
            skip,
        ),
{
    let groups = engine.groups;
    let places = engine.group_places();
    let lead = |task: TaskView| project.task_visits(groups, skip, task);
    let opening = |group: usize| engine.opening_tasks(group);
    let own = |group: usize| project.group_visits(groups, skip, group);
    lemma_ahead_stacked(project, groups, skip, Seq::empty(), engine.all_tasks());
    assert(project.visits_ahead(groups, skip, Seq::empty()) =~= Seq::<Visit>::empty());
    lemma_flat_map_twice(places, opening, lead);
    let both = |group: usize| opening(group).flat_map(lead);
    assert forall|i: int| 0 <= i < places.len() implies both(#[trigger] places[i]) == own(
        places[i],
    ) by {
        let group = places[i];
        if groups[group as int].key.kind is ProjectWith {
            lemma_visit_tasks(project, groups, skip, groups[group as int].project_visits(group));
        } else {
            let tasks = opening(group);
            assert(tasks =~= seq![TaskView::Scope { group }]);
            tasks.lemma_flat_map_singleton(lead);
        }
    }
    lemma_flat_map_same(places, both, own);
}

/// The visit that a run makes when it is answered `reply`, if it makes one.
pub open spec fn visit_made(engine: EngineView, run: SequentialView, reply: Reply) -> Seq<Visit> {
    match (run.request(engine), reply) {
        (Request::Invoke { visit }, Reply::Invoked(Ok(_))) => seq![visit],
        _ => Seq::empty(),
    }
}

/// A run makes the visits that it has ahead, one after the other: what it has ahead is what an answer
/// makes it visit, followed by what it has ahead then.
pub proof fn law_visits_ahead(
    project: Project,
    engine: EngineView,
    run: SequentialView,
    reply: Reply,
)
    requires
        engine.valid(),
        run.is_run_of(engine),
        fits(run.request(engine), reply),
        project.answers(run.request(engine), reply),
        run.after(engine, reply).failure is None,
    ensures
        project.visits_ahead(engine.groups, run.skip, run.agenda) == visit_made(engine, run, reply)
            + project.visits_ahead(
            run.engine_after(engine, reply).groups,
            run.after(engine, reply).skip,
            run.after(engine, reply).agenda,
        ),
{
    let groups = engine.groups;
    let skip = run.skip;
    let rest = run.agenda.drop_last();
    let made = visit_made(engine, run, reply);
    assert(engine.can_have(run.agenda[run.agenda.len() - 1]));
    lemma_ahead_last(project, groups, skip, run.agenda);
    match (run.agenda.last(), reply) {
        (TaskView::Scope { group }, Reply::Targets(Ok(targets))) => {
            let tasks = target_tasks(group, targets.functions@, targets.with_jumps);
            lemma_target_tasks(project, groups, skip, group, targets.functions@, targets.with_jumps);
            lemma_ahead_stacked(project, groups, skip, rest, tasks);
        },
        (TaskView::Scope { group }, Reply::Functions(Ok(functions))) => {
            let visits = groups[group as int].function_visits(group, functions@);
            lemma_visit_tasks(project, groups, skip, visits);
            lemma_ahead_stacked(project, groups, skip, rest, visit_tasks(visits));
        },
        (TaskView::Target { group, with_jumps, .. }, Reply::Edges(edges)) => {
            let candidates = candidates_of(edges@, with_jumps);
            lemma_caller_tasks(project, groups, skip, group, candidates);
            lemma_ahead_stacked(project, groups, skip, rest, caller_tasks(group, candidates));
        },
        (TaskView::Caller { group, function, blocks, .. }, Reply::Where(Ok(admitted))) => {
            let tasks = if admitted {
                seq![TaskView::Caller { group, function, blocks, admitted }]
            } else {
                Seq::empty()
            };
            lemma_ahead_stacked(project, groups, skip, rest, tasks);
            if admitted {
                tasks.lemma_flat_map_singleton(
                    |task: TaskView| project.task_visits(groups, skip, task),
                );
            } else {
                assert(project.tasks_visits(groups, skip, tasks) =~= Seq::<Visit>::empty());
            }
        },
        (TaskView::Caller { group, function, blocks, .. }, Reply::Analysed) => {
            let visits = groups[group as int].call_visits(group, function, blocks, skip);
            lemma_visit_tasks(project, groups, skip, visits);
            lemma_ahead_stacked(project, groups, skip, rest, visit_tasks(visits));
        },
        _ => {},
    }
    assert(project.visits_ahead(groups, skip, run.agenda) =~= made + project.visits_ahead(
        groups,
        skip,
        run.after(engine, reply).agenda,
    ));
}

/// The engine and the run `run` of it after `replies` were taken as the answers to what the run
/// needed.
pub open spec fn visiting_after(engine: EngineView, run: SequentialView, replies: Seq<Reply>) -> (
    EngineView,
    SequentialView,
)
    decreases replies.len(),
{
    if replies.len() == 0 {
        (engine, run)
    } else {
        let (engine, run) = visiting_after(engine, run, replies.drop_last());
        (run.engine_after(engine, replies.last()), run.after(engine, replies.last()))
    }
}

/// Whether `replies` are answers to what the run `run` of `engine` needs, and what `project` answers.
pub open spec fn project_says(
    project: Project,
    engine: EngineView,
    run: SequentialView,
    replies: Seq<Reply>,
) -> bool
    decreases replies.len(),
{
    replies.len() == 0 || {
        let (asking, asked) = visiting_after(engine, run, replies.drop_last());
        &&& project_says(project, engine, run, replies.drop_last())
        &&& fits(asked.request(asking), replies.last())
        &&& project.answers(asked.request(asking), replies.last())
    }
}

/// The visits that `run` makes when it is answered `replies`.
pub open spec fn visits_made(engine: EngineView, run: SequentialView, replies: Seq<Reply>) -> Seq<
    Visit,
>
    decreases replies.len(),
{
    if replies.len() == 0 {
        Seq::empty()
    } else {
        let (asking, asked) = visiting_after(engine, run, replies.drop_last());
        visits_made(engine, run, replies.drop_last()) + visit_made(asking, asked, replies.last())
    }
}

/// What the visits find that `run` makes when it is answered `replies`, each finding put down to the
/// checker that was run.
pub open spec fn checks_made(engine: EngineView, run: SequentialView, replies: Seq<Reply>) -> Seq<
    CheckResult,
>
    decreases replies.len(),
{
    if replies.len() == 0 {
        Seq::empty()
    } else {
        let (asking, asked) = visiting_after(engine, run, replies.drop_last());
        let before = checks_made(engine, run, replies.drop_last());
        match (asked.request(asking), replies.last()) {
            (Request::Invoke { visit }, Reply::Invoked(Ok(Some(found)))) => before.push(
                CheckResult { rule: Some(visit.checker), finding: found.finding },
            ),
            _ => before,
        }
    }
}

proof fn lemma_visiting(
    project: Project,
    engine: EngineView,
    run: SequentialView,
    replies: Seq<Reply>,
)
    requires
        engine.valid(),
        run.is_run_of(engine),
        project_says(project, engine, run, replies),
        visiting_after(engine, run, replies).1.failure is None,
    ensures
        ({
            let (next, after) = visiting_after(engine, run, replies);
            &&& next.valid()
            &&& after.is_run_of(next)
            &&& next.groups == engine.groups
            &&& after.skip == run.skip
            &&& after.checks == run.checks + checks_made(engine, run, replies)
            &&& project.visits_ahead(engine.groups, run.skip, run.agenda) == visits_made(
                engine,
                run,
                replies,
            ) + project.visits_ahead(engine.groups, run.skip, after.agenda)
        }),
    decreases replies.len(),
{
    if replies.len() > 0 {
        let (asking, asked) = visiting_after(engine, run, replies.drop_last());
        lemma_visiting(project, engine, run, replies.drop_last());
        lemma_stays_run(asking, asked, replies.last());
        law_visits_ahead(project, asking, asked, replies.last());
        assert(asking.can_have(asked.agenda[asked.agenda.len() - 1]));
        let (next, after) = visiting_after(engine, run, replies);
        assert(after.checks =~= run.checks + checks_made(engine, run, replies));
        assert(project.visits_ahead(engine.groups, run.skip, run.agenda) =~= visits_made(
            engine,
            run,
            replies,
        ) + project.visits_ahead(engine.groups, run.skip, after.agenda));
    } else {
        assert(run.checks =~= run.checks + Seq::<CheckResult>::empty());
        assert(project.visits_ahead(engine.groups, run.skip, run.agenda) =~= Seq::<Visit>::empty()
            + project.visits_ahead(engine.groups, run.skip, run.agenda));
    }
}

/// A run that ends without an error has made exactly the visits of its plan, in its order, and has
/// found what they found, in that order.
pub proof fn law_run_follows_plan(
    project: Project,
    engine: EngineView,
    skip: Set<usize>,
    replies: Seq<Reply>,
)
    requires
        engine.valid(),
        project_says(project, engine, fresh_run(engine, skip), replies),
        visiting_after(engine, fresh_run(engine, skip), replies).1.failure is None,
        visiting_after(engine, fresh_run(engine, skip), replies).1.agenda.len() == 0,
    ensures
        visits_made(engine, fresh_run(engine, skip), replies) == project.plan(engine, skip),
        visiting_after(engine, fresh_run(engine, skip), replies).1.checks == checks_made(
            engine,
            fresh_run(engine, skip),
            replies,
        ),
{
    let run = fresh_run(engine, skip);
    lemma_fresh_run(engine, skip);
    lemma_visiting(project, engine, run, replies);
    lemma_ahead_fresh(project, engine, skip);
    let after = visiting_after(engine, run, replies).1;
    assert(project.visits_ahead(engine.groups, skip, after.agenda) =~= Seq::<Visit>::empty());
}

} // verus!
