//! What a run still has before it: a measure that every answer lowers.
use vstd::prelude::*;

use crate::agenda::{Reply, TaskView, caller_tasks, fits, stacked, target_tasks, visit_tasks};
use crate::caches::{CacheReply, CacheView, fits_cache, lemma_first_unready};
use crate::candidates::candidates_of;
use crate::engine::EngineView;
use crate::parallel::SearchView;
use crate::run::{RunReply, RunView};
use crate::seqs::lemma_filter_none;
use crate::sequential::{Progress, SequentialView};

verus! {

/// What a run still has before it, the weightiest part first.
pub struct Effort {
    /// The parts of the run.
    pub phases: nat,
    /// The scopes to be searched, or the groups whose mappings have to be built.
    pub scopes: nat,
    /// The functions whose callers have to be found.
    pub targets: nat,
    /// The callers that the filter of their scope has not seen.
    pub callers: nat,
    /// The callers that it has admitted.
    pub admitted: nat,
    /// The visits to be made.
    pub visits: nat,
    /// What has to be done before the next visit can be made, or the next group is ready.
    pub preparation: nat,
}

/// Whether `a` is less than `b`: the weightiest part that differs decides.
pub open spec fn is_less(a: Effort, b: Effort) -> bool {
    decreases_to!(
        b.phases, b.scopes, b.targets, b.callers, b.admitted, b.visits, b.preparation
        => a.phases, a.scopes, a.targets, a.callers, a.admitted, a.visits, a.preparation
    )
}

/// How much a task weighs: it is replaced by tasks that weigh less.
pub open spec fn weight(task: TaskView) -> int {
    match task {
        TaskView::Scope { .. } => 4,
        TaskView::Target { .. } => 3,
        TaskView::Caller { admitted, .. } => if admitted {
            1
        } else {
            2
        },
        TaskView::Visit(_) => 0,
    }
}

/// The number of tasks of `agenda` that weigh `weighing`.
pub open spec fn count_of(agenda: Seq<TaskView>, weighing: int) -> nat {
    agenda.filter(|task: TaskView| weight(task) == weighing).len()
}

/// What a run with the agenda `agenda` has before it.
pub open spec fn agenda_effort(phases: nat, agenda: Seq<TaskView>, preparation: nat) -> Effort {
    Effort {
        phases,
        scopes: count_of(agenda, 4),
        targets: count_of(agenda, 3),
        callers: count_of(agenda, 2),
        admitted: count_of(agenda, 1),
        visits: count_of(agenda, 0),
        preparation,
    }
}

impl SequentialView {
    /// What has to be done before the next visit can be made.
    pub open spec fn preparation(self, engine: EngineView) -> nat {
        if self.agenda.len() == 0 || !(self.agenda.last() is Visit) {
            0
        } else {
            let checker = self.agenda.last()->Visit_0.checker as int;
            let state: nat = if engine.contexts[checker] is None {
                1
            } else {
                0
            };
            let decompiler: nat = if !engine.heavy(checker) {
                0
            } else {
                match self.progress {
                    Progress::Fresh => 2,
                    Progress::Acquired => 1,
                    Progress::Configured => 0,
                }
            };
            state + decompiler
        }
    }
}

impl CacheView {
    /// What has to be done before the next group is ready.
    pub open spec fn preparation(self, engine: EngineView) -> nat {
        let group = engine.first_unready(0);
        let merging: nat = if self.merging is Some {
            1
        } else {
            0
        };
        let symbols: nat = if group < engine.groups.len() && !engine.symbols.contains_key(
            engine.groups[group].key.tag,
        ) {
            1
        } else {
            0
        };
        merging + symbols
    }
}

impl RunView {
    /// What this run of `engine` has before it.
    pub open spec fn effort(self, engine: EngineView) -> Effort {
        match self {
            RunView::Caches(build) => Effort {
                phases: 4,
                scopes: (engine.groups.len() - engine.first_unready(0)) as nat,
                targets: 0,
                callers: 0,
                admitted: 0,
                visits: 0,
                preparation: build.preparation(engine),
            },
            RunView::Searching(search) => agenda_effort(3, search.agenda, 0),
            RunView::Dispatching { .. } => agenda_effort(2, Seq::empty(), 0),
            RunView::Running { run, .. } => agenda_effort(1, run.agenda, run.preparation(engine)),
            RunView::Finished(_) => agenda_effort(0, Seq::empty(), 0),
        }
    }
}

proof fn lemma_count_dropped(agenda: Seq<TaskView>, weighing: int)
    requires
        agenda.len() > 0,
    ensures
        count_of(agenda, weighing) == count_of(agenda.drop_last(), weighing) + (if weight(
            agenda.last(),
        ) == weighing {
            1nat
        } else {
            0nat
        }),
{
    let same = |task: TaskView| weight(task) == weighing;
    agenda.drop_last().lemma_filter_push(agenda.last(), same);
    assert(agenda.drop_last().push(agenda.last()) =~= agenda);
}

proof fn lemma_count_stacked(agenda: Seq<TaskView>, tasks: Seq<TaskView>, weighing: int)
    requires
        forall|i: int| 0 <= i < tasks.len() ==> weight(#[trigger] tasks[i]) != weighing,
    ensures
        count_of(stacked(agenda, tasks), weighing) == count_of(agenda, weighing),
{
    let same = |task: TaskView| weight(task) == weighing;
    let added = tasks.reverse();
    assert forall|i: int| 0 <= i < added.len() implies !same(#[trigger] added[i]) by {
        assert(added[i] == tasks[tasks.len() - 1 - i]);
    }
    lemma_filter_none(added, same);
    Seq::filter_distributes_over_add(agenda, added, same);
}

/// Replacing the next task by ones that weigh less lowers what a run has before it.
proof fn lemma_unfolding_lowers(
    phases: nat,
    agenda: Seq<TaskView>,
    tasks: Seq<TaskView>,
    before: nat,
    after: nat,
)
    requires
        agenda.len() > 0,
        forall|i: int| 0 <= i < tasks.len() ==> weight(#[trigger] tasks[i]) < weight(agenda.last()),
    ensures
        is_less(
            agenda_effort(phases, stacked(agenda.drop_last(), tasks), after),
            agenda_effort(phases, agenda, before),
        ),
{
    let w = weight(agenda.last());
    assert forall|k: int| w <= k <= 4 implies #[trigger] count_of(
        stacked(agenda.drop_last(), tasks),
        k,
    ) == count_of(agenda, k) - (if k == w {
        1int
    } else {
        0int
    }) by {
        lemma_count_dropped(agenda, k);
        lemma_count_stacked(agenda.drop_last(), tasks, k);
    }
    let next = stacked(agenda.drop_last(), tasks);
    assert(w == 0 || w == 1 || w == 2 || w == 3 || w == 4);
    assert(count_of(next, 4) == count_of(agenda, 4) - (if w == 4 { 1int } else { 0int }));
}

proof fn lemma_search_advances(engine: EngineView, search: SearchView, reply: Reply)
    requires
        fits(search.request(), reply),
        search.after(engine, reply).failure is None,
    ensures
        is_less(
            agenda_effort(3, search.after(engine, reply).agenda, 0),
            agenda_effort(3, search.agenda, 0),
        ),
{
    let rest = search.agenda.drop_last();
    match (search.agenda.last(), reply) {
        (TaskView::Scope { group }, Reply::Targets(Ok(targets))) => {
            let tasks = target_tasks(group, targets.functions@, targets.with_jumps);
            lemma_unfolding_lowers(3, search.agenda, tasks, 0, 0);
        },
        (TaskView::Target { group, with_jumps, .. }, Reply::Edges(edges)) => {
            let tasks = caller_tasks(group, candidates_of(edges@, with_jumps));
            lemma_unfolding_lowers(3, search.agenda, tasks, 0, 0);
        },
        (TaskView::Caller { group, function, blocks, .. }, Reply::Where(Ok(admitted))) => {
            let tasks = if admitted {
                seq![TaskView::Caller { group, function, blocks, admitted }]
            } else {
                Seq::empty()
            };
            lemma_unfolding_lowers(3, search.agenda, tasks, 0, 0);
        },
        (TaskView::Caller { .. }, Reply::Analysed) => {
            assert(stacked(rest, Seq::empty()) =~= rest);
            lemma_unfolding_lowers(3, search.agenda, Seq::empty(), 0, 0);
        },
        _ => {},
    }
}

proof fn lemma_visits_advance(engine: EngineView, run: SequentialView, reply: Reply)
    requires
        engine.valid(),
        run.is_run_of(engine),
        fits(run.request(engine), reply),
        run.after(engine, reply).failure is None,
    ensures
        is_less(
            agenda_effort(
                1,
                run.after(engine, reply).agenda,
                run.after(engine, reply).preparation(run.engine_after(engine, reply)),
            ),
            agenda_effort(1, run.agenda, run.preparation(engine)),
        ),
{
    let rest = run.agenda.drop_last();
    let next = run.engine_after(engine, reply);
    let before = run.preparation(engine);
    let after = run.after(engine, reply).preparation(next);
    assert(engine.can_have(run.agenda[run.agenda.len() - 1]));
    match (run.agenda.last(), reply) {
        (TaskView::Scope { group }, Reply::Targets(Ok(targets))) => {
            let tasks = target_tasks(group, targets.functions@, targets.with_jumps);
            lemma_unfolding_lowers(1, run.agenda, tasks, before, after);
        },
        (TaskView::Scope { group }, Reply::Functions(Ok(functions))) => {
            let tasks = visit_tasks(
                engine.groups[group as int].function_visits(group, functions@),
            );
            lemma_unfolding_lowers(1, run.agenda, tasks, before, after);
        },
        (TaskView::Target { group, with_jumps, .. }, Reply::Edges(edges)) => {
            let tasks = caller_tasks(group, candidates_of(edges@, with_jumps));
            lemma_unfolding_lowers(1, run.agenda, tasks, before, after);
        },
        (TaskView::Caller { group, function, blocks, .. }, Reply::Where(Ok(admitted))) => {
            let tasks = if admitted {
                seq![TaskView::Caller { group, function, blocks, admitted }]
            } else {
                Seq::empty()
            };
            lemma_unfolding_lowers(1, run.agenda, tasks, before, after);
        },
        (TaskView::Caller { group, function, blocks, .. }, Reply::Analysed) => {
            let tasks = visit_tasks(
                engine.groups[group as int].call_visits(group, function, blocks, run.skip),
            );
            lemma_unfolding_lowers(1, run.agenda, tasks, before, after);
        },
        (TaskView::Visit(_), Reply::Invoked(Ok(_))) => {
            assert(stacked(rest, Seq::empty()) =~= rest);
            lemma_unfolding_lowers(1, run.agenda, Seq::empty(), before, after);
        },
        _ => {},
    }
}

proof fn lemma_building_advances(engine: EngineView, build: CacheView, reply: CacheReply)
    requires
        fits_cache(build.request(engine), reply),
        build.after(engine, reply).failure is None,
    ensures
        is_less(
            RunView::Caches(build.after(engine, reply)).effort(build.engine_after(engine, reply)),
            RunView::Caches(build).effort(engine),
        ),
{
    let next = build.engine_after(engine, reply);
    lemma_first_unready(engine, 0);
    lemma_first_unready(next, 0);
    assert forall|group: int| engine.is_ready(group) implies #[trigger] next.is_ready(group) by {}
    let group = engine.first_unready(0);
    assert(next.first_unready(0) >= group);
}

/// Every answer lowers what a run has before it, so a run ends.
pub proof fn law_answers_lower_effort(engine: EngineView, run: RunView, reply: RunReply)
    requires
        engine.valid(),
        run.is_run_of(engine),
        run.accepts(engine, reply),
    ensures
        is_less(
            run.after(engine, reply).effort(run.engine_after(engine, reply)),
            run.effort(engine),
        ),
{
    let next = run.engine_after(engine, reply);
    let stepped = run.stepped(engine, reply);
    match (run, reply) {
        (RunView::Caches(build), RunReply::Cache(reply)) => {
            if build.after(engine, reply).failure is None {
                lemma_building_advances(engine, build, reply);
            }
        },
        (RunView::Searching(search), RunReply::Step(reply)) => {
            if search.after(engine, reply).failure is None {
                lemma_search_advances(engine, search, reply);
            }
        },
        (RunView::Running { run, .. }, RunReply::Step(reply)) => {
            if run.after(engine, reply).failure is None {
                lemma_visits_advance(engine, run, reply);
            }
        },
        _ => {},
    }
}

} // verus!
