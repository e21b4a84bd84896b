//! A run of the checkers, one handler after the other.
use std::collections::BTreeSet;

use vstd::prelude::*;

use crate::agenda::{
    Place, Reply, Request, Task, TaskView, Visit, add_visits, caller_tasks, fits, is_answer,
    lemma_call_visits_possible, lemma_function_visits_possible, lemma_stacked_twice,
    lemma_visits_possible, stack_callers, stack_targets, stack_visits, stacked, target_tasks,
    tasks_of, visit_tasks, visits_at_calls, visits_at_functions,
};
use crate::candidates::{candidates_of, find_candidates};
use crate::engine::{Engine, EngineView};
use crate::error::{CheckerError, ErrorKind, ErrorView, error_of};
use crate::result::CheckResult;
use crate::scope::ScopeKind;
use crate::seqs::{lemma_flat_map_all, lemma_flat_map_first};

verus! {

/// How far the decompiler has been made ready for the next visit.
#[derive(Debug, Clone, Copy, PartialEq, Eq, Structural)]
pub enum Progress {
    /// Nothing has been done.
    Fresh,
    /// There is an empty decompiler.
    Acquired,
    /// The decompiler has been set up.
    Configured,
}

/// A run of the checkers, one handler after the other. It is asked what it needs next, and told
/// what came of it, until it needs nothing.
pub struct SequentialRun {
    agenda: Vec<Task>,
    skip: BTreeSet<usize>,
    decompiler: bool,
    progress: Progress,
    checks: Vec<CheckResult>,
    failure: Option<CheckerError>,
}

/// A [`SequentialRun`] as contracts see it.
#[verifier::ext_equal]
pub struct SequentialView {
    /// What is left to do, next one last.
    pub agenda: Seq<TaskView>,
    /// The checkers that are not run at call sites.
    pub skip: Set<usize>,
    /// Whether there is a decompiler.
    pub decompiler: bool,
    pub progress: Progress,
    /// What has been found.
    pub checks: Seq<CheckResult>,
    /// The error that ended the run.
    pub failure: Option<ErrorView>,
}

/// `error` as contracts see it.
pub open spec fn failure_of(error: Option<CheckerError>) -> Option<ErrorView> {
    match error {
        Some(error) => Some(error@),
        None => None,
    }
}

impl View for SequentialRun {
    type V = SequentialView;

    closed spec fn view(&self) -> SequentialView {
        SequentialView {
            agenda: tasks_of(self.agenda@),
            skip: self.skip@,
            decompiler: self.decompiler,
            progress: self.progress,
            checks: self.checks@,
            failure: failure_of(self.failure),
        }
    }
}

impl EngineView {
    /// Whether `task` is one that this engine can have.
    pub open spec fn can_have(self, task: TaskView) -> bool {
        match task {
            TaskView::Scope { group } => group < self.groups.len()
                && !(self.groups[group as int].key.kind is ProjectWith),
            TaskView::Target { group, .. } => group < self.groups.len(),
            TaskView::Caller { group, .. } => group < self.groups.len(),
            TaskView::Visit(visit) => self.can_make(visit),
        }
    }

    /// The tasks that the search of `group` starts with.
    pub open spec fn opening_tasks(self, group: usize) -> Seq<TaskView> {
        if self.groups[group as int].key.kind is ProjectWith {
            visit_tasks(self.groups[group as int].project_visits(group))
        } else {
            seq![TaskView::Scope { group }]
        }
    }

    /// The places of the groups.
    pub open spec fn group_places(self) -> Seq<usize> {
        Seq::new(self.groups.len(), |group: int| group as usize)
    }

    /// The tasks that a run starts with: the groups, one after the other.
    pub open spec fn all_tasks(self) -> Seq<TaskView> {
        self.group_places().flat_map(|group: usize| self.opening_tasks(group))
    }
}

impl SequentialView {
    /// Whether this is a run of `engine`.
    pub open spec fn is_run_of(self, engine: EngineView) -> bool {
        &&& forall|i: int| 0 <= i < self.agenda.len() ==> engine.can_have(#[trigger] self.agenda[i])
        &&& self.progress is Fresh || (self.agenda.len() > 0 && self.agenda.last() is Visit)
    }

    /// This run, ended by `error`.
    pub open spec fn failed(self, error: ErrorView) -> SequentialView {
        SequentialView { failure: Some(error), ..self }
    }

    /// This run with `tasks` in place of the task that was next.
    pub open spec fn unfolded(self, tasks: Seq<TaskView>) -> SequentialView {
        SequentialView { agenda: stacked(self.agenda.drop_last(), tasks), ..self }
    }

    /// What has to be done to the decompiler before `visit`, if anything has.
    pub open spec fn decompiler_request(self, engine: EngineView, visit: Visit) -> Option<Request> {
        if !engine.heavy(visit.checker as int) {
            None
        } else {
            match self.progress {
                Progress::Fresh => Some(
                    if self.decompiler {
                        Request::ClearDecompiler
                    } else {
                        Request::CreateDecompiler
                    },
                ),
                Progress::Acquired => Some(Request::ConfigureDecompiler { group: visit.group }),
                Progress::Configured => None,
            }
        }
    }

    /// The Lua state that has to be made before `visit`, if one has.
    pub open spec fn context_request(self, engine: EngineView, visit: Visit) -> Option<Request> {
        if engine.contexts[visit.checker as int] is None {
            Some(Request::Context { checker: visit.checker })
        } else {
            None
        }
    }

    /// What is needed next for `visit`: at a call site the Lua state comes before the decompiler,
    /// elsewhere after it; the handler is run when both are ready.
    pub open spec fn visit_request(self, engine: EngineView, visit: Visit) -> Request {
        let context = self.context_request(engine, visit);
        let decompiler = self.decompiler_request(engine, visit);
        let (first, second) = if visit.place is CallSite {
            (context, decompiler)
        } else {
            (decompiler, context)
        };
        if first is Some {
            first->0
        } else if second is Some {
            second->0
        } else {
            Request::Invoke { visit }
        }
    }

    /// What is needed next for `task`.
    pub open spec fn task_request(self, engine: EngineView, task: TaskView) -> Request {
        match task {
            TaskView::Scope { group } => match engine.groups[group as int].key.kind {
                ScopeKind::Calls => Request::Targets { group },
                ScopeKind::FunctionWith { targeted } => if targeted {
                    Request::Functions { group }
                } else {
                    Request::AllFunctions { group }
                },
                ScopeKind::ProjectWith => Request::Nothing,
            },
            TaskView::Target { group, target, .. } => Request::Edges { group, target },
            TaskView::Caller { group, function, admitted, .. } => if admitted {
                Request::Analyse { group, function }
            } else {
                Request::Where { group, function }
            },
            TaskView::Visit(visit) => self.visit_request(engine, visit),
        }
    }

    /// What is needed next.
    pub open spec fn request(self, engine: EngineView) -> Request {
        if self.failure is Some || self.agenda.len() == 0 {
            Request::Nothing
        } else {
            self.task_request(engine, self.agenda.last())
        }
    }

    /// What the run becomes when `reply` is the answer to what it needed. Making a Lua state
    /// changes only the engine.
    pub open spec fn after(self, engine: EngineView, reply: Reply) -> SequentialView {
        if !fits(self.request(engine), reply) {
            self
        } else {
            match (self.agenda.last(), reply) {
                (TaskView::Scope { group }, Reply::Targets(Ok(targets))) => self.unfolded(
                    target_tasks(group, targets.functions@, targets.with_jumps),
                ),
                (TaskView::Scope { group }, Reply::Functions(Ok(functions))) => self.unfolded(
                    visit_tasks(engine.groups[group as int].function_visits(group, functions@)),
                ),
                (TaskView::Target { group, with_jumps, .. }, Reply::Edges(edges)) => self.unfolded(
                    caller_tasks(group, candidates_of(edges@, with_jumps)),
                ),
                (
                    TaskView::Caller { group, function, blocks, .. },
                    Reply::Where(Ok(admitted)),
                ) => if admitted {
                    self.unfolded(seq![TaskView::Caller { group, function, blocks, admitted }])
                } else {
                    self.unfolded(Seq::empty())
                },
                (TaskView::Caller { group, function, blocks, .. }, Reply::Analysed) =>
                self.unfolded(
                    visit_tasks(
                        engine.groups[group as int].call_visits(
                            group,
                            function,
                            blocks,
                            self.skip,
                        ),
                    ),
                ),
                (_, Reply::Decompiler(Ok(_))) => SequentialView {
                    decompiler: true,
                    progress: Progress::Acquired,
                    ..self
                },
                (_, Reply::Configured(Ok(_))) => SequentialView {
                    progress: Progress::Configured,
                    ..self
                },
                (TaskView::Visit(visit), Reply::Invoked(Ok(result))) => SequentialView {
                    agenda: self.agenda.drop_last(),
                    progress: Progress::Fresh,
                    checks: match result {
                        Some(found) => self.checks.push(
                            CheckResult { rule: Some(visit.checker), finding: found.finding },
                        ),
                        None => self.checks,
                    },
                    ..self
                },
                (_, Reply::Decompiler(Err(text))) => self.failed(
                    error_of(ErrorKind::Decompiler, text@),
                ),
                (_, Reply::Targets(Err(error))) => self.failed(error@),
                (_, Reply::Functions(Err(error))) => self.failed(error@),
                (_, Reply::Where(Err(error))) => self.failed(error@),
                (_, Reply::Context(Err(error))) => self.failed(error@),
                (_, Reply::Configured(Err(error))) => self.failed(error@),
                (_, Reply::Invoked(Err(error))) => self.failed(error@),
                _ => self,
            }
        }
    }

    /// What the engine becomes when `reply` is the answer to what this run needed: a Lua state that
    /// was made is kept, and nothing else changes.
    pub open spec fn engine_after(self, engine: EngineView, reply: Reply) -> EngineView {
        match (self.request(engine), reply) {
            (Request::Context { checker }, Reply::Context(Ok(context))) => EngineView {
                contexts: engine.contexts.update(checker as int, Some(context)),
                ..engine
            },
            _ => engine,
        }
    }
}

/// The run of the checkers of `engine` that does not run those in `skip` at call sites, before
/// anything has been done.
pub open spec fn fresh_run(engine: EngineView, skip: Set<usize>) -> SequentialView {
    SequentialView {
        agenda: stacked(Seq::empty(), engine.all_tasks()),
        skip,
        decompiler: false,
        progress: Progress::Fresh,
        checks: Seq::empty(),
        failure: None,
    }
}

proof fn lemma_stacked_possible(engine: EngineView, agenda: Seq<TaskView>, tasks: Seq<TaskView>)
    requires
        forall|i: int| 0 <= i < agenda.len() ==> engine.can_have(#[trigger] agenda[i]),
        forall|i: int| 0 <= i < tasks.len() ==> engine.can_have(#[trigger] tasks[i]),
    ensures
        forall|i: int|
            0 <= i < stacked(agenda, tasks).len() ==> engine.can_have(
                #[trigger] stacked(agenda, tasks)[i],
            ),
{
    assert forall|i: int| 0 <= i < stacked(agenda, tasks).len() implies engine.can_have(
        #[trigger] stacked(agenda, tasks)[i],
    ) by {
        if i < agenda.len() {
            assert(stacked(agenda, tasks)[i] == agenda[i]);
        } else {
            assert(stacked(agenda, tasks)[i] == tasks[tasks.len() - 1 - (i - agenda.len())]);
        }
    }
}

proof fn lemma_visit_tasks_possible(engine: EngineView, visits: Seq<Visit>)
    requires
        forall|k: int| 0 <= k < visits.len() ==> engine.can_make(#[trigger] visits[k]),
    ensures
        forall|i: int|
            0 <= i < visit_tasks(visits).len() ==> engine.can_have(
                #[trigger] visit_tasks(visits)[i],
            ),
{
    assert forall|i: int| 0 <= i < visit_tasks(visits).len() implies engine.can_have(
        #[trigger] visit_tasks(visits)[i],
    ) by {
        assert(engine.can_make(visits[i]));
    }
}

/// A run of an engine stays one, whatever it is answered.
pub proof fn lemma_stays_run(engine: EngineView, run: SequentialView, reply: Reply)
    requires
        engine.valid(),
        run.is_run_of(engine),
    ensures
        run.after(engine, reply).is_run_of(run.engine_after(engine, reply)),
        run.engine_after(engine, reply).valid(),
{
    let next = run.engine_after(engine, reply);
    if fits(run.request(engine), reply) {
        let rest = run.agenda.drop_last();
        assert forall|i: int| 0 <= i < rest.len() implies engine.can_have(#[trigger] rest[i]) by {
            assert(rest[i] == run.agenda[i]);
        }
        match (run.agenda.last(), reply) {
            (TaskView::Scope { group }, Reply::Targets(Ok(targets))) => {
                lemma_stacked_possible(
                    engine,
                    rest,
                    target_tasks(group, targets.functions@, targets.with_jumps),
                );
            },
            (TaskView::Scope { group }, Reply::Functions(Ok(functions))) => {
                lemma_function_visits_possible(engine, group, functions@);
                let visits = engine.groups[group as int].function_visits(group, functions@);
                lemma_visit_tasks_possible(engine, visits);
                lemma_stacked_possible(engine, rest, visit_tasks(visits));
            },
            (TaskView::Target { group, with_jumps, .. }, Reply::Edges(edges)) => {
                lemma_stacked_possible(
                    engine,
                    rest,
                    caller_tasks(group, candidates_of(edges@, with_jumps)),
                );
            },
            (TaskView::Caller { group, function, blocks, .. }, Reply::Where(Ok(admitted))) => {
                let tasks = if admitted {
                    seq![TaskView::Caller { group, function, blocks, admitted }]
                } else {
                    Seq::empty()
                };
                lemma_stacked_possible(engine, rest, tasks);
            },
            (TaskView::Caller { group, function, blocks, .. }, Reply::Analysed) => {
                lemma_call_visits_possible(engine, group, function, blocks, run.skip);
                let visits = engine.groups[group as int].call_visits(
                    group,
                    function,
                    blocks,
                    run.skip,
                );
                lemma_visit_tasks_possible(engine, visits);
                lemma_stacked_possible(engine, rest, visit_tasks(visits));
            },
            _ => {},
        }
        let after = run.after(engine, reply);
        assert forall|i: int| 0 <= i < after.agenda.len() implies next.can_have(
            #[trigger] after.agenda[i],
        ) by {
            assert(engine.can_have(after.agenda[i]));
        }
    }
}

/// The tasks that a run starts with are ones that the engine can have.
pub proof fn lemma_all_tasks_possible(engine: EngineView)
    requires
        engine.valid(),
    ensures
        forall|i: int|
            0 <= i < engine.all_tasks().len() ==> engine.can_have(#[trigger] engine.all_tasks()[i]),
{
    let places = engine.group_places();
    let opening = |group: usize| engine.opening_tasks(group);
    let possible = |task: TaskView| engine.can_have(task);
    assert forall|i: int, j: int|
        #![trigger opening(places[i])[j]]
        0 <= i < places.len() && 0 <= j < opening(places[i]).len() implies possible(
        opening(places[i])[j],
    ) by {
        let group = places[i];
        if engine.groups[group as int].key.kind is ProjectWith {
            lemma_visits_possible(engine, group, Place::Project, Set::empty());
            lemma_visit_tasks_possible(engine, engine.groups[group as int].project_visits(group));
        }
    }
    lemma_flat_map_all(places, opening, possible);
    assert forall|i: int| 0 <= i < engine.all_tasks().len() implies engine.can_have(
        #[trigger] engine.all_tasks()[i],
    ) by {
        assert(possible(places.flat_map(opening)[i]));
    }
}

/// The fresh run of an engine is a run of it.
pub proof fn lemma_fresh_run(engine: EngineView, skip: Set<usize>)
    requires
        engine.valid(),
    ensures
        fresh_run(engine, skip).is_run_of(engine),
{
    lemma_all_tasks_possible(engine);
    lemma_stacked_possible(engine, Seq::empty(), engine.all_tasks());
}

impl SequentialRun {
    /// A run of the checkers of `engine` that does not run those in `skip` at call sites.
    pub fn new(engine: &Engine, skip: BTreeSet<usize>) -> (res: Self)
        requires
            engine.wf(),
        ensures
            res@ == fresh_run(engine@, skip@),
            res@.is_run_of(engine@),
    {
        proof {
            engine.lemma_valid();
            lemma_fresh_run(engine@, skip@);
        }
        let ghost places = engine@.group_places();
        let ghost opening = |group: usize| engine@.opening_tasks(group);
        let none: BTreeSet<usize> = BTreeSet::new();
        let mut agenda: Vec<Task> = Vec::new();
        let mut group: usize = engine.group_count();
        proof {
            assert(places.skip(group as int).flat_map(opening) =~= Seq::<TaskView>::empty());
            assert(tasks_of(agenda@) =~= stacked(Seq::empty(), Seq::empty()));
        }
        while group > 0
            invariant
                group <= engine@.groups.len(),
                places == engine@.group_places(),
                places.len() <= usize::MAX,
                opening == (|group: usize| engine@.opening_tasks(group)),
                none@ == Set::<usize>::empty(),
                tasks_of(agenda@) == stacked(
                    Seq::empty(),
                    places.skip(group as int).flat_map(opening),
                ),
            decreases group,
        {
            let ghost later = places.skip(group as int).flat_map(opening);
            let ghost before = tasks_of(agenda@);
            group -= 1;
            match engine.group(group).kind {
                ScopeKind::ProjectWith => {
                    let mut visits: Vec<Visit> = Vec::new();
                    add_visits(&mut visits, engine, group, Place::Project, &none);
                    assert(visits@ =~= engine@.groups[group as int].project_visits(group));
                    stack_visits(&mut agenda, &visits);
                },
                _ => {
                    agenda.push(Task::Scope { group });
                    assert(tasks_of(agenda@) =~= stacked(before, opening(group)));
                },
            }
            proof {
                assert(tasks_of(agenda@) == stacked(before, opening(group)));
                lemma_flat_map_first(places.skip(group as int), opening);
                assert(places.skip(group as int).skip(1) =~= places.skip(group + 1));
                lemma_stacked_twice(Seq::empty(), opening(group), later);
            }
        }
        proof {
            assert(places.skip(0) =~= places);
        }
        SequentialRun {
            agenda,
            skip,
            decompiler: false,
            progress: Progress::Fresh,
            checks: Vec::new(),
            failure: None,
        }
    }

    /// What is needed next for `visit`.
    fn visit_request(&self, engine: &Engine, visit: Visit) -> (res: Request)
        requires
            engine.wf(),
            engine@.can_make(visit),
        ensures
            res == self@.visit_request(engine@, visit),
    {
        proof {
            engine.lemma_valid();
        }
        let context = match engine.context(visit.checker) {
            Some(_) => None,
            None => Some(Request::Context { checker: visit.checker }),
        };
        let decompiler = if !engine.needs_decompiler(visit.checker) {
            None
        } else {
            match self.progress {
                Progress::Fresh => if self.decompiler {
                    Some(Request::ClearDecompiler)
                } else {
                    Some(Request::CreateDecompiler)
                },
                Progress::Acquired => Some(Request::ConfigureDecompiler { group: visit.group }),
                Progress::Configured => None,
            }
        };
        let (first, second) = match visit.place {
            Place::CallSite { .. } => (context, decompiler),
            _ => (decompiler, context),
        };
        match (first, second) {
            (Some(request), _) => request,
            (None, Some(request)) => request,
            (None, None) => Request::Invoke { visit },
        }
    }

    /// What is needed next.
    pub fn pending(&self, engine: &Engine) -> (res: Request)
        requires
            engine.wf(),
            self@.is_run_of(engine@),
        ensures
            res == self@.request(engine@),
    {
        if self.failure.is_some() || self.agenda.len() == 0 {
            return Request::Nothing;
        }
        let last = self.agenda.len() - 1;
        assert(engine@.can_have(self@.agenda[last as int]));
        assert(self@.agenda.last() == self.agenda[last as int]@);
        match &self.agenda[last] {
            Task::Scope { group } => match engine.group(*group).kind {
                ScopeKind::Calls => Request::Targets { group: *group },
                ScopeKind::FunctionWith { targeted } => if targeted {
                    Request::Functions { group: *group }
                } else {
                    Request::AllFunctions { group: *group }
                },
                ScopeKind::ProjectWith => Request::Nothing,
            },
            Task::Target { group, target, .. } => Request::Edges { group: *group, target: *target },
            Task::Caller { group, function, admitted, .. } => if *admitted {
                Request::Analyse { group: *group, function: *function }
            } else {
                Request::Where { group: *group, function: *function }
            },
            Task::Visit(visit) => self.visit_request(engine, *visit),
        }
    }

    /// Takes `reply` as the answer to what is needed; a reply that does not answer it changes
    /// nothing.
    pub fn answer(&mut self, engine: &mut Engine, reply: Reply)
        requires
            old(engine).wf(),
            old(self)@.is_run_of(old(engine)@),
        ensures
            final(engine).wf(),
            final(engine)@ == old(self)@.engine_after(old(engine)@, reply),
            final(self)@ == old(self)@.after(old(engine)@, reply),
            final(self)@.is_run_of(final(engine)@),
    {
        let ghost before = self@;
        let ghost known = engine@;
        proof {
            engine.lemma_valid();
            lemma_stays_run(known, before, reply);
        }
        let request = self.pending(engine);
        if !is_answer(&request, &reply) {
            return;
        }
        let ghost rest = before.agenda.drop_last();
        assert(engine@.can_have(before.agenda[before.agenda.len() - 1]));
        assert(before.agenda.last() == self.agenda@.last()@);
        assert(tasks_of(self.agenda@.drop_last()) =~= rest);
        match reply {
            Reply::Targets(Ok(targets)) => {
                if let Some(Task::Scope { group }) = self.agenda.pop() {
                    stack_targets(
                        &mut self.agenda,
                        group,
                        &targets.functions,
                        targets.with_jumps,
                    );
                }
            },
            Reply::Functions(Ok(functions)) => {
                if let Some(Task::Scope { group }) = self.agenda.pop() {
                    let visits = visits_at_functions(engine, group, &functions);
                    stack_visits(&mut self.agenda, &visits);
                }
            },
            Reply::Edges(edges) => {
                if let Some(Task::Target { group, with_jumps, .. }) = self.agenda.pop() {
                    let candidates = find_candidates(&edges, with_jumps);
                    stack_callers(&mut self.agenda, group, candidates);
                }
            },
            Reply::Where(Ok(admitted)) => {
                if let Some(Task::Caller { group, function, blocks, .. }) = self.agenda.pop() {
                    let ghost seen = blocks@;
                    if admitted {
                        self.agenda.push(Task::Caller { group, function, blocks, admitted });
                        assert(tasks_of(self.agenda@) =~= stacked(
                            rest,
                            seq![TaskView::Caller { group, function, blocks: seen, admitted }],
                        ));
                    } else {
                        assert(rest =~= stacked(rest, Seq::empty()));
                    }
                }
            },
            Reply::Analysed => {
                if let Some(Task::Caller { group, function, blocks, .. }) = self.agenda.pop() {
                    let visits = visits_at_calls(engine, group, function, &blocks, &self.skip);
                    stack_visits(&mut self.agenda, &visits);
                }
            },
            Reply::Context(Ok(context)) => {
                if let Request::Context { checker } = request {
                    engine.set_context(checker, context);
                }
            },
            Reply::Decompiler(Ok(_)) => {
                self.decompiler = true;
                self.progress = Progress::Acquired;
            },
            Reply::Configured(Ok(_)) => {
                self.progress = Progress::Configured;
            },
            Reply::Invoked(Ok(result)) => {
                if let Some(Task::Visit(visit)) = self.agenda.pop() {
                    self.progress = Progress::Fresh;
                    if let Some(found) = result {
                        self.checks.push(found.with_rule(visit.checker));
                    }
                }
            },
            Reply::Decompiler(Err(text)) => {
                self.failure = Some(CheckerError::decompiler_with(text));
            },
            Reply::Targets(Err(error)) => {
                self.failure = Some(error);
            },
            Reply::Functions(Err(error)) => {
                self.failure = Some(error);
            },
            Reply::Where(Err(error)) => {
                self.failure = Some(error);
            },
            Reply::Context(Err(error)) => {
                self.failure = Some(error);
            },
            Reply::Configured(Err(error)) => {
                self.failure = Some(error);
            },
            Reply::Invoked(Err(error)) => {
                self.failure = Some(error);
            },
        }
        assert(self@ =~= before.after(known, reply));
    }

    /// What came of the run: the error that ended it, what has been found if nothing is left to do,
    /// and the run itself while something is.
    pub fn outcome(self) -> (res: Result<Result<Vec<CheckResult>, CheckerError>, Self>)
        ensures
            match res {
                Ok(Err(error)) => self@.failure == Some(error@),
                Ok(Ok(checks)) => self@.failure is None && self@.agenda.len() == 0 && checks@
                    == self@.checks,
                Err(run) => run == self && self@.failure is None && self@.agenda.len() > 0,
            },
    {
        if self.failure.is_none() && self.agenda.len() > 0 {
            return Err(self);
        }
        match self.failure {
            Some(error) => Ok(Err(error)),
            None => Ok(Ok(self.checks)),
        }
    }
}

} // verus!
