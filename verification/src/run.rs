//! A run of the engine, from building what the checkers share to the last handler.
use std::collections::BTreeSet;

use vstd::prelude::*;

use crate::agenda::{Reply, Request, Visit, fits};
use crate::caches::{
    CacheBuild, CacheReply, CacheRequest, CacheView, fits_cache, lemma_first_unready,
};
use crate::engine::{Engine, EngineView};
use crate::error::{CheckerError, ErrorView};
use crate::parallel::{
    ParallelSearch, ParallelWork, SearchView, checkers_in, fresh_search, lemma_fresh_search,
    lemma_stays_search,
};
use crate::result::CheckResult;
use crate::sequential::{SequentialRun, SequentialView, fresh_run, lemma_fresh_run};

verus! {

/// What a run needs next.
#[derive(Debug, Clone, Copy, PartialEq, Eq, Structural)]
pub enum RunRequest {
    /// Something that the checkers share.
    Cache(CacheRequest),
    /// Something for the search of a scope, or for a visit.
    Step(Request),
    /// What the visits give that can be made in parallel.
    Dispatch,
    /// Nothing.
    Nothing,
}

/// What one of the visits that were made in parallel gave.
#[derive(Debug, Clone, Copy)]
pub struct WorkResult {
    /// The place of the visit among those that were made in parallel.
    pub item: usize,
    pub result: CheckResult,
}

/// The answer to a [`RunRequest`].
pub enum RunReply {
    Cache(CacheReply),
    Step(Reply),
    /// What the visits gave, in the order in which they did.
    Dispatched(Result<Vec<WorkResult>, CheckerError>),
}

enum Phase {
    Caches(CacheBuild),
    Searching(ParallelSearch),
    Dispatching(ParallelWork),
    Running { found: Vec<CheckResult>, run: SequentialRun },
    Finished(Result<Vec<CheckResult>, CheckerError>),
}

/// A run of the engine. It is asked what it needs next, and told what came of it, until it is
/// finished.
pub struct Run {
    phase: Phase,
}

/// A [`Run`] as contracts see it.
pub enum RunView {
    /// What the checkers share is built.
    Caches(CacheView),
    /// Visits are looked for that can be made in parallel.
    Searching(SearchView),
    /// Such visits are made.
    Dispatching { items: Seq<Visit>, processed: Set<usize> },
    /// The other visits are made, one after the other.
    Running { found: Seq<CheckResult>, run: SequentialView },
    /// The run has ended.
    Finished(Result<Seq<CheckResult>, ErrorView>),
}

/// `outcome` as contracts see it.
pub open spec fn outcome_view(outcome: Result<Vec<CheckResult>, CheckerError>) -> Result<
    Seq<CheckResult>,
    ErrorView,
> {
    match outcome {
        Ok(checks) => Ok(checks@),
        Err(error) => Err(error@),
    }
}

impl View for Run {
    type V = RunView;

    closed spec fn view(&self) -> RunView {
        match self.phase {
            Phase::Caches(build) => RunView::Caches(build@),
            Phase::Searching(search) => RunView::Searching(search@),
            Phase::Dispatching(work) => RunView::Dispatching {
                items: work.items@,
                processed: work.processed_ids@,
            },
            Phase::Running { found, run } => RunView::Running { found: found@, run: run@ },
            Phase::Finished(outcome) => RunView::Finished(outcome_view(outcome)),
        }
    }
}

/// What the visits `items` gave, each result put down to the checker that its visit was of.
pub open spec fn concluded(items: Seq<Visit>, results: Seq<WorkResult>) -> Seq<CheckResult> {
    results.map_values(
        |given: WorkResult|
            CheckResult {
                rule: Some(items[given.item as int].checker),
                finding: given.result.finding,
            },
    )
}

/// Whether `results` are results of the visits `items`, at most one of each.
pub open spec fn are_results_of(items: Seq<Visit>, results: Seq<WorkResult>) -> bool {
    &&& forall|i: int| 0 <= i < results.len() ==> (#[trigger] results[i]).item < items.len()
    &&& forall|i: int, j: int|
        0 <= i < j < results.len() ==> (#[trigger] results[i]).item != (#[trigger] results[j]).item
}

/// The run of the remaining checks of `engine`, after those of the checkers in `processed` have
/// found `found` at call sites.
pub open spec fn remaining_run(
    engine: EngineView,
    found: Seq<CheckResult>,
    processed: Set<usize>,
) -> RunView {
    RunView::Running { found, run: fresh_run(engine, processed) }
}

impl RunView {
    /// What is needed next.
    pub open spec fn request(self, engine: EngineView) -> RunRequest {
        match self {
            RunView::Caches(build) => RunRequest::Cache(build.request(engine)),
            RunView::Searching(search) => RunRequest::Step(search.request()),
            RunView::Dispatching { .. } => RunRequest::Dispatch,
            RunView::Running { run, .. } => RunRequest::Step(run.request(engine)),
            RunView::Finished(_) => RunRequest::Nothing,
        }
    }

    /// Whether `reply` is an answer to what is needed.
    pub open spec fn accepts(self, engine: EngineView, reply: RunReply) -> bool {
        match (self, reply) {
            (RunView::Caches(build), RunReply::Cache(reply)) => fits_cache(
                build.request(engine),
                reply,
            ),
            (RunView::Searching(search), RunReply::Step(reply)) => fits(search.request(), reply),
            (RunView::Dispatching { items, .. }, RunReply::Dispatched(results)) => match results {
                Ok(results) => are_results_of(items, results@),
                Err(_) => true,
            },
            (RunView::Running { run, .. }, RunReply::Step(reply)) => fits(
                run.request(engine),
                reply,
            ),
            _ => false,
        }
    }

    /// This run, past the building of what the checkers share if that has ended: call sites are
    /// searched for visits that can be made in parallel only if the engine runs in parallel.
    pub open spec fn past_caches(self, engine: EngineView) -> RunView {
        match self {
            RunView::Caches(build) => if build.failure is Some {
                RunView::Finished(Err(build.failure->0))
            } else if !(build.request(engine) is Nothing) {
                self
            } else if engine.parallel {
                RunView::Searching(fresh_search(engine))
            } else {
                remaining_run(engine, Seq::empty(), Set::empty())
            },
            _ => self,
        }
    }

    /// This run, past the search for visits that can be made in parallel if that has ended: if there
    /// are none, all are made one after the other.
    pub open spec fn past_search(self, engine: EngineView) -> RunView {
        match self {
            RunView::Searching(search) => if search.failure is Some {
                RunView::Finished(Err(search.failure->0))
            } else if search.agenda.len() > 0 {
                self
            } else if search.items.len() == 0 {
                remaining_run(engine, Seq::empty(), Set::empty())
            } else {
                RunView::Dispatching { items: search.items, processed: search.processed }
            },
            _ => self,
        }
    }

    /// This run, finished if the visits that are made one after the other have ended: what they
    /// found comes after what those found that were made in parallel.
    pub open spec fn past_visits(self) -> RunView {
        match self {
            RunView::Running { found, run } => if run.failure is Some {
                RunView::Finished(Err(run.failure->0))
            } else if run.agenda.len() > 0 {
                self
            } else {
                RunView::Finished(Ok(found + run.checks))
            },
            _ => self,
        }
    }

    /// This run, past all that has ended.
    pub open spec fn settled(self, engine: EngineView) -> RunView {
        self.past_caches(engine).past_search(engine).past_visits()
    }

    /// What `reply` makes of the part of the run that is under way.
    pub open spec fn stepped(self, engine: EngineView, reply: RunReply) -> RunView {
        match (self, reply) {
            (RunView::Caches(build), RunReply::Cache(reply)) => RunView::Caches(
                build.after(engine, reply),
            ),
            (RunView::Searching(search), RunReply::Step(reply)) => RunView::Searching(
                search.after(engine, reply),
            ),
            (RunView::Dispatching { items, processed }, RunReply::Dispatched(results)) =>
            match results {
                Ok(results) => remaining_run(engine, concluded(items, results@), processed),
                Err(error) => RunView::Finished(Err(error@)),
            },
            (RunView::Running { found, run }, RunReply::Step(reply)) => RunView::Running {
                found,
                run: run.after(engine, reply),
            },
            _ => self,
        }
    }

    /// What the engine becomes when `reply` is the answer to what this run needed.
    pub open spec fn engine_after(self, engine: EngineView, reply: RunReply) -> EngineView {
        match (self, reply) {
            (RunView::Caches(build), RunReply::Cache(reply)) => build.engine_after(engine, reply),
            (RunView::Running { run, .. }, RunReply::Step(reply)) => run.engine_after(
                engine,
                reply,
            ),
            _ => engine,
        }
    }

    /// What the run becomes when `reply` is the answer to what it needed; a reply that does not
    /// answer it changes nothing.
    pub open spec fn after(self, engine: EngineView, reply: RunReply) -> RunView {
        if self.accepts(engine, reply) {
            self.stepped(engine, reply).settled(self.engine_after(engine, reply))
        } else {
            self
        }
    }

    /// Whether the parts of this run are parts of a run of `engine`.
    pub open spec fn is_part_of(self, engine: EngineView) -> bool {
        match self {
            RunView::Caches(_) => true,
            RunView::Searching(search) => search.is_search_of(engine),
            RunView::Dispatching { items, processed } => {
                &&& items.len() > 0
                &&& processed == checkers_in(items)
                &&& forall|i: int|
                    0 <= i < items.len() ==> engine.can_make(#[trigger] items[i])
                        && items[i].place is CallSite && !engine.heavy(items[i].checker as int)
            },
            RunView::Running { run, .. } => run.is_run_of(engine),
            RunView::Finished(_) => true,
        }
    }

    /// Whether this is a run of `engine`.
    pub open spec fn is_run_of(self, engine: EngineView) -> bool {
        self.is_part_of(engine) && self.settled(engine) == self
    }
}

/// A run of `engine`, before anything has been answered.
pub open spec fn new_run(engine: EngineView) -> RunView {
    RunView::Caches(CacheView { merging: None, failure: None }).settled(engine)
}

/// What is past all that has ended is a run of the engine.
pub proof fn lemma_settled(engine: EngineView, run: RunView)
    requires
        engine.valid(),
        run.is_part_of(engine),
    ensures
        run.settled(engine).is_run_of(engine),
{
    lemma_first_unready(engine, 0);
    lemma_fresh_search(engine);
    assert forall|skip: Set<usize>| (#[trigger] fresh_run(engine, skip)).is_run_of(engine) by {
        lemma_fresh_run(engine, skip);
    }
}

/// A run of an engine stays one, whatever it is answered.
pub proof fn lemma_stays_run(engine: EngineView, run: RunView, reply: RunReply)
    requires
        engine.valid(),
        run.is_run_of(engine),
    ensures
        run.after(engine, reply).is_run_of(run.engine_after(engine, reply)),
        run.engine_after(engine, reply).valid(),
{
    let next = run.engine_after(engine, reply);
    match (run, reply) {
        (RunView::Caches(build), RunReply::Cache(reply)) => {
            lemma_first_unready(engine, 0);
        },
        (RunView::Searching(search), RunReply::Step(reply)) => {
            lemma_stays_search(engine, search, reply);
        },
        (RunView::Running { run, .. }, RunReply::Step(reply)) => {
            crate::sequential::lemma_stays_run(engine, run, reply);
        },
        (RunView::Dispatching { processed, .. }, _) => {
            lemma_fresh_run(engine, processed);
        },
        _ => {},
    }
    if run.accepts(engine, reply) {
        lemma_settled(next, run.stepped(engine, reply));
    }
}

impl Run {
    /// This run, past the building of what the checkers share if that has ended.
    fn past_caches(self, engine: &Engine) -> (res: Run)
        requires
            engine.wf(),
        ensures
            res@ == self@.past_caches(engine@),
    {
        proof {
            lemma_first_unready(engine@, 0);
        }
        let phase = match self.phase {
            Phase::Caches(build) => match build.outcome(engine) {
                Err(build) => Phase::Caches(build),
                Ok(Err(error)) => Phase::Finished(Err(error)),
                Ok(Ok(_)) => if engine.is_parallel() {
                    Phase::Searching(ParallelSearch::new(engine))
                } else {
                    Phase::Running {
                        found: Vec::new(),
                        run: SequentialRun::new(engine, BTreeSet::new()),
                    }
                },
            },
            phase => phase,
        };
        Run { phase }
    }

    /// This run, past the search for visits that can be made in parallel if that has ended.
    fn past_search(self, engine: &Engine) -> (res: Run)
        requires
            engine.wf(),
        ensures
            res@ == self@.past_search(engine@),
    {
        let phase = match self.phase {
            Phase::Searching(search) => match search.outcome() {
                Err(search) => Phase::Searching(search),
                Ok(Err(error)) => Phase::Finished(Err(error)),
                Ok(Ok(work)) => if work.items.len() == 0 {
                    Phase::Running {
                        found: Vec::new(),
                        run: SequentialRun::new(engine, BTreeSet::new()),
                    }
                } else {
                    Phase::Dispatching(work)
                },
            },
            phase => phase,
        };
        Run { phase }
    }

    /// This run, finished if the visits that are made one after the other have ended.
    fn past_visits(self) -> (res: Run)
        ensures
            res@ == self@.past_visits(),
    {
        let phase = match self.phase {
            Phase::Running { found, run } => match run.outcome() {
                Err(run) => Phase::Running { found, run },
                Ok(Err(error)) => Phase::Finished(Err(error)),
                Ok(Ok(checks)) => {
                    let mut all = found;
                    let mut rest = checks;
                    all.append(&mut rest);
                    Phase::Finished(Ok(all))
                },
            },
            phase => phase,
        };
        Run { phase }
    }

    /// This run, past all that has ended.
    fn settled(self, engine: &Engine) -> (res: Run)
        requires
            engine.wf(),
        ensures
            res@ == self@.settled(engine@),
    {
        self.past_caches(engine).past_search(engine).past_visits()
    }

    /// A run of `engine`.
    pub fn new(engine: &Engine) -> (res: Run)
        requires
            engine.wf(),
        ensures
            res@ == new_run(engine@),
            res@.is_run_of(engine@),
    {
        let run = Run { phase: Phase::Caches(CacheBuild::new()) };
        proof {
            engine.lemma_valid();
            lemma_settled(engine@, run@);
        }
        run.settled(engine)
    }

    /// What is needed next.
    pub fn pending(&self, engine: &Engine) -> (res: RunRequest)
        requires
            engine.wf(),
            self@.is_run_of(engine@),
        ensures
            res == self@.request(engine@),
    {
        match &self.phase {
            Phase::Caches(build) => RunRequest::Cache(build.pending(engine)),
            Phase::Searching(search) => RunRequest::Step(search.pending()),
            Phase::Dispatching(_) => RunRequest::Dispatch,
            Phase::Running { run, .. } => RunRequest::Step(run.pending(engine)),
            Phase::Finished(_) => RunRequest::Nothing,
        }
    }

    /// Whether visits are looked for that can be made in parallel.
    pub fn is_searching(&self) -> (res: bool)
        ensures
            res == (self@ is Searching),
    {
        match &self.phase {
            Phase::Searching(_) => true,
            _ => false,
        }
    }

    /// The visits that have to be made in parallel now.
    pub fn work(&self) -> (res: &[Visit])
        ensures
            res@ == (match self@ {
                RunView::Dispatching { items, .. } => items,
                _ => Seq::empty(),
            }),
    {
        match &self.phase {
            Phase::Dispatching(work) => work.items.as_slice(),
            _ => &[],
        }
    }

    /// This run after `reply` was taken as the answer to what is needed; a reply that does not answer
    /// it changes nothing.
    pub fn answer(self, engine: &mut Engine, reply: RunReply) -> (res: Run)
        requires
            old(engine).wf(),
            self@.is_run_of(old(engine)@),
        ensures
            final(engine).wf(),
            final(engine)@ == self@.engine_after(old(engine)@, reply),
            res@ == self@.after(old(engine)@, reply),
            res@.is_run_of(final(engine)@),
    {
        let ghost known = engine@;
        proof {
            engine.lemma_valid();
            lemma_stays_run(known, self@, reply);
        }
        let phase = match (self.phase, reply) {
            (Phase::Caches(build), RunReply::Cache(reply)) => {
                let mut build = build;
                build.answer(engine, reply);
                Phase::Caches(build)
            },
            (Phase::Searching(search), RunReply::Step(reply)) => {
                let mut search = search;
                search.answer(engine, reply);
                Phase::Searching(search)
            },
            (Phase::Dispatching(work), RunReply::Dispatched(Ok(results))) => {
                match conclude_work(&work.items, &results) {
                    Some(found) => Phase::Running {
                        found,
                        run: SequentialRun::new(engine, work.processed_ids),
                    },
                    None => Phase::Dispatching(work),
                }
            },
            (Phase::Dispatching(_), RunReply::Dispatched(Err(error))) => Phase::Finished(
                Err(error),
            ),
            (Phase::Running { found, run }, RunReply::Step(reply)) => {
                let mut run = run;
                run.answer(engine, reply);
                Phase::Running { found, run }
            },
            (phase, _) => phase,
        };
        Run { phase }.settled(engine)
    }

    /// What came of the run: the error that ended it, or all that was found, once it is finished;
    /// the run itself while it is not.
    pub fn outcome(self) -> (res: Result<Result<Vec<CheckResult>, CheckerError>, Run>)
        ensures
            match res {
                Ok(outcome) => self@ == RunView::Finished(outcome_view(outcome)),
                Err(run) => run == self && !(self@ is Finished),
            },
    {
        match self.phase {
            Phase::Finished(outcome) => Ok(outcome),
            phase => Err(Run { phase }),
        }
    }
}

/// What the visits `items` gave, each result put down to the checker that its visit was of; nothing
/// if a result is of none of them, or two are of the same.
fn conclude_work(items: &Vec<Visit>, results: &Vec<WorkResult>) -> (res: Option<Vec<CheckResult>>)
    ensures
        match res {
            Some(found) => are_results_of(items@, results@) && found@ == concluded(
                items@,
                results@,
            ),
            None => !are_results_of(items@, results@),
        },
{
    let mut seen: BTreeSet<usize> = BTreeSet::new();
    let mut found: Vec<CheckResult> = Vec::new();
    let mut n: usize = 0;
    while n < results.len()
        invariant
            n <= results.len(),
            found@ == concluded(items@, results@.take(n as int)),
            are_results_of(items@, results@.take(n as int)),
            forall|item: usize| #[trigger]
                seen@.contains(item) <==> exists|i: int|
                    0 <= i < n && (#[trigger] results[i]).item == item,
        decreases results.len() - n,
    {
        let given = results[n];
        let ghost before = results@.take(n as int);
        let ghost now = results@.take(n + 1);
        if given.item >= items.len() {
            assert(results@[n as int].item >= items.len());
            return None;
        }
        if seen.contains(&given.item) {
            proof {
                let i = choose|i: int| 0 <= i < n && (#[trigger] results[i]).item == given.item;
                assert(results@[i].item == results@[n as int].item);
            }
            return None;
        }
        let ghost known = seen@;
        seen.insert(given.item);
        found.push(given.result.with_rule(items[given.item].checker));
        proof {
            assert(found@ =~= concluded(items@, now));
            assert forall|i: int| 0 <= i < now.len() implies (#[trigger] now[i]).item
                < items.len() by {
                if i < n {
                    assert(before[i] == now[i]);
                }
            }
            assert forall|i: int, j: int| 0 <= i < j < now.len() implies (#[trigger] now[i]).item
                != (#[trigger] now[j]).item by {
                if j < n {
                    assert(before[i].item != before[j].item);
                } else {
                    assert(now[i] == results[i]);
                    assert(!known.contains(given.item));
                }
            }
            assert forall|item: usize| #[trigger] seen@.contains(item) <==> exists|i: int|
                0 <= i < n + 1 && (#[trigger] results[i]).item == item by {
                if item == given.item {
                    assert(results[n as int].item == item);
                }
                if known.contains(item) {
                    let i = choose|i: int| 0 <= i < n && (#[trigger] results[i]).item == item;
                    assert(results[i].item == item);
                }
            }
        }
        n += 1;
    }
    proof {
        assert(results@.take(n as int) =~= results@);
    }
    Some(found)
}

} // verus!
