//! Finding the visits to call sites that do not depend on each other and can be made in parallel.
use std::collections::BTreeSet;

use vstd::prelude::*;

use crate::agenda::{
    Reply, Request, Task, TaskView, Visit, caller_tasks, fits, is_answer,
    lemma_call_visits_possible, lemma_stacked_twice, stack_callers, stack_targets, stacked,
    target_tasks, tasks_of, visits_at_calls,
};
use crate::candidates::{candidates_of, find_candidates};
use crate::engine::{Engine, EngineView};
use crate::error::{CheckerError, ErrorView};
use crate::scope::ScopeKind;
use crate::seqs::{lemma_flat_map_all, lemma_flat_map_first};
use crate::sequential::failure_of;

verus! {

/// The visits that can be made in parallel.
#[derive(Debug)]
pub struct ParallelWork {
    pub items: Vec<Visit>,
    /// The checkers that they are of.
    pub processed_ids: BTreeSet<usize>,
}

/// A search for the visits that can be made in parallel. It is asked what it needs next, and told
/// what came of it, until it needs nothing.
pub struct ParallelSearch {
    agenda: Vec<Task>,
    items: Vec<Visit>,
    processed_ids: BTreeSet<usize>,
    failure: Option<CheckerError>,
}

/// A [`ParallelSearch`] as contracts see it.
#[verifier::ext_equal]
pub struct SearchView {
    /// What is left to do, next one last.
    pub agenda: Seq<TaskView>,
    /// The visits that have been found.
    pub items: Seq<Visit>,
    /// The checkers that they are of.
    pub processed: Set<usize>,
    /// The error that ended the search.
    pub failure: Option<ErrorView>,
}

impl View for ParallelSearch {
    type V = SearchView;

    closed spec fn view(&self) -> SearchView {
        SearchView {
            agenda: tasks_of(self.agenda@),
            items: self.items@,
            processed: self.processed_ids@,
            failure: failure_of(self.failure),
        }
    }
}

/// The checkers that `visits` are of.
pub open spec fn checkers_in(visits: Seq<Visit>) -> Set<usize> {
    visits.map_values(|visit: Visit| visit.checker).to_set()
}

impl EngineView {
    /// Those of `visits` that do without the decompiler.
    pub open spec fn light(self, visits: Seq<Visit>) -> Seq<Visit> {
        visits.filter(|visit: Visit| !self.heavy(visit.checker as int))
    }

    /// The task that a search for parallel work has for `group`, if it has one.
    pub open spec fn parallel_tasks(self, group: usize) -> Seq<TaskView> {
        if self.groups[group as int].key.kind is Calls {
            seq![TaskView::Scope { group }]
        } else {
            Seq::empty()
        }
    }

    /// The tasks that a search for parallel work starts with: the groups with a calls scope, one
    /// after the other.
    pub open spec fn all_parallel_tasks(self) -> Seq<TaskView> {
        self.group_places().flat_map(|group: usize| self.parallel_tasks(group))
    }

    /// Whether `task` is one that a search for parallel work can have.
    pub open spec fn can_search(self, task: TaskView) -> bool {
        match task {
            TaskView::Scope { group } => group < self.groups.len()
                && self.groups[group as int].key.kind is Calls,
            TaskView::Target { group, .. } => group < self.groups.len(),
            TaskView::Caller { group, .. } => group < self.groups.len(),
            TaskView::Visit(_) => false,
        }
    }
}

impl SearchView {
    /// Whether this is a search of `engine`.
    pub open spec fn is_search_of(self, engine: EngineView) -> bool {
        &&& forall|i: int| 0 <= i < self.agenda.len() ==> engine.can_search(#[trigger] self.agenda[i])
        &&& self.processed == checkers_in(self.items)
        &&& forall|i: int|
            0 <= i < self.items.len() ==> engine.can_make(#[trigger] self.items[i])
                && self.items[i].place is CallSite && !engine.heavy(self.items[i].checker as int)
    }

    /// This search with `tasks` in place of the task that was next.
    pub open spec fn unfolded(self, tasks: Seq<TaskView>) -> SearchView {
        SearchView { agenda: stacked(self.agenda.drop_last(), tasks), ..self }
    }

    /// This search, ended by `error`.
    pub open spec fn failed(self, error: ErrorView) -> SearchView {
        SearchView { failure: Some(error), ..self }
    }

    /// What is needed next.
    pub open spec fn request(self) -> Request {
        if self.failure is Some || self.agenda.len() == 0 {
            Request::Nothing
        } else {
            match self.agenda.last() {
                TaskView::Scope { group } => Request::Targets { group },
                TaskView::Target { group, target, .. } => Request::Edges { group, target },
                TaskView::Caller { group, function, admitted, .. } => if admitted {
                    Request::Analyse { group, function }
                } else {
                    Request::Where { group, function }
                },
                TaskView::Visit(_) => Request::Nothing,
            }
        }
    }

    /// What the search becomes when `reply` is the answer to what it needed.
    pub open spec fn after(self, engine: EngineView, reply: Reply) -> SearchView {
        if !fits(self.request(), reply) {
            self
        } else {
            match (self.agenda.last(), reply) {
                (TaskView::Scope { group }, Reply::Targets(Ok(targets))) => self.unfolded(
                    target_tasks(group, targets.functions@, targets.with_jumps),
                ),
                (TaskView::Target { group, with_jumps, .. }, Reply::Edges(edges)) => self.unfolded(
                    caller_tasks(group, candidates_of(edges@, with_jumps)),
                ),
                (
                    TaskView::Caller { group, function, blocks, .. },
                    Reply::Where(Ok(admitted)),
                ) => if admitted {
                    self.unfolded(seq![TaskView::Caller { group, function, blocks, admitted }])
                } else {
                    self.unfolded(Seq::empty())
                },
                (TaskView::Caller { group, function, blocks, .. }, Reply::Analysed) => {
                    let found = engine.light(
                        engine.groups[group as int].call_visits(
                            group,
                            function,
                            blocks,
                            Set::empty(),
                        ),
                    );
                    SearchView {
                        agenda: self.agenda.drop_last(),
                        items: self.items + found,
                        processed: self.processed + checkers_in(found),
                        ..self
                    }
                },
                (_, Reply::Targets(Err(error))) => self.failed(error@),
                (_, Reply::Where(Err(error))) => self.failed(error@),
                _ => self,
            }
        }
    }
}

/// The search for the parallel work of `engine`, before anything has been done.
pub open spec fn fresh_search(engine: EngineView) -> SearchView {
    SearchView {
        agenda: stacked(Seq::empty(), engine.all_parallel_tasks()),
        items: Seq::empty(),
        processed: Set::empty(),
        failure: None,
    }
}

proof fn lemma_checkers_in(a: Seq<Visit>, b: Seq<Visit>)
    ensures
        checkers_in(a + b) == checkers_in(a) + checkers_in(b),
{
    let checker = |visit: Visit| visit.checker;
    let both = (a + b).map_values(checker);
    assert(both =~= a.map_values(checker) + b.map_values(checker));
    assert forall|id: usize| checkers_in(a + b).contains(id) <==> (checkers_in(a)
        + checkers_in(b)).contains(id) by {
        if a.map_values(checker).contains(id) {
            let k = choose|k: int|
                0 <= k < a.len() && a.map_values(checker)[k] == id;
            assert(both[k] == id);
        }
        if b.map_values(checker).contains(id) {
            let k = choose|k: int|
                0 <= k < b.len() && b.map_values(checker)[k] == id;
            assert(both[a.len() + k] == id);
        }
        if both.contains(id) {
            let k = choose|k: int| 0 <= k < both.len() && both[k] == id;
            if k < a.len() {
                assert(a.map_values(checker)[k] == id);
            } else {
                assert(b.map_values(checker)[k - a.len()] == id);
            }
        }
    }
    assert(checkers_in(a + b) =~= checkers_in(a) + checkers_in(b));
}

proof fn lemma_stacked_searchable(engine: EngineView, agenda: Seq<TaskView>, tasks: Seq<TaskView>)
    requires
        forall|i: int| 0 <= i < agenda.len() ==> engine.can_search(#[trigger] agenda[i]),
        forall|i: int| 0 <= i < tasks.len() ==> engine.can_search(#[trigger] tasks[i]),
    ensures
        forall|i: int|
            0 <= i < stacked(agenda, tasks).len() ==> engine.can_search(
                #[trigger] stacked(agenda, tasks)[i],
            ),
{
    assert forall|i: int| 0 <= i < stacked(agenda, tasks).len() implies engine.can_search(
        #[trigger] stacked(agenda, tasks)[i],
    ) by {
        if i < agenda.len() {
            assert(stacked(agenda, tasks)[i] == agenda[i]);
        } else {
            assert(stacked(agenda, tasks)[i] == tasks[tasks.len() - 1 - (i - agenda.len())]);
        }
    }
}

proof fn lemma_light_possible(
    engine: EngineView,
    group: usize,
    function: u64,
    blocks: Seq<u64>,
)
    requires
        engine.valid(),
        group < engine.groups.len(),
    ensures
        ({
            let found = engine.light(
                engine.groups[group as int].call_visits(group, function, blocks, Set::empty()),
            );
            forall|i: int|
                0 <= i < found.len() ==> engine.can_make(#[trigger] found[i])
                    && found[i].place is CallSite && !engine.heavy(found[i].checker as int)
        }),
{
    let all = engine.groups[group as int].call_visits(group, function, blocks, Set::empty());
    let keep = |visit: Visit| !engine.heavy(visit.checker as int);
    let found = engine.light(all);
    lemma_call_visits_possible(engine, group, function, blocks, Set::empty());
    assert forall|i: int| 0 <= i < found.len() implies engine.can_make(#[trigger] found[i])
        && found[i].place is CallSite && !engine.heavy(found[i].checker as int) by {
        assert(all.filter(keep).contains(found[i]));
        all.lemma_filter_contains_rev(keep, found[i]);
        let k = choose|k: int| 0 <= k < all.len() && all[k] == found[i];
        assert(engine.can_make(all[k]));
        all.lemma_filter_pred(keep, i);
    }
}

/// A search of an engine stays one, whatever it is answered.
pub proof fn lemma_stays_search(engine: EngineView, search: SearchView, reply: Reply)
    requires
        engine.valid(),
        search.is_search_of(engine),
    ensures
        search.after(engine, reply).is_search_of(engine),
{
    if fits(search.request(), reply) {
        let rest = search.agenda.drop_last();
        assert forall|i: int| 0 <= i < rest.len() implies engine.can_search(#[trigger] rest[i]) by {
            assert(rest[i] == search.agenda[i]);
        }
        match (search.agenda.last(), reply) {
            (TaskView::Scope { group }, Reply::Targets(Ok(targets))) => {
                lemma_stacked_searchable(
                    engine,
                    rest,
                    target_tasks(group, targets.functions@, targets.with_jumps),
                );
            },
            (TaskView::Target { group, with_jumps, .. }, Reply::Edges(edges)) => {
                lemma_stacked_searchable(
                    engine,
                    rest,
                    caller_tasks(group, candidates_of(edges@, with_jumps)),
                );
            },
            (TaskView::Caller { group, function, blocks, .. }, Reply::Where(Ok(admitted))) => {
                let tasks = if admitted {
                    seq![TaskView::Caller { group, function, blocks, admitted }]
                } else {
                    Seq::empty()
                };
                lemma_stacked_searchable(engine, rest, tasks);
            },
            (TaskView::Caller { group, function, blocks, .. }, Reply::Analysed) => {
                let found = engine.light(
                    engine.groups[group as int].call_visits(group, function, blocks, Set::empty()),
                );
                lemma_light_possible(engine, group, function, blocks);
                lemma_checkers_in(search.items, found);
                let items = search.items + found;
                assert forall|i: int| 0 <= i < items.len() implies engine.can_make(
                    #[trigger] items[i],
                ) && items[i].place is CallSite && !engine.heavy(items[i].checker as int) by {
                    if i >= search.items.len() {
                        assert(items[i] == found[i - search.items.len()]);
                    }
                }
            },
            _ => {},
        }
    }
}

/// The tasks that a search starts with are ones that it can have.
proof fn lemma_all_tasks_searchable(engine: EngineView)
    requires
        engine.valid(),
    ensures
        forall|i: int|
            0 <= i < engine.all_parallel_tasks().len() ==> engine.can_search(
                #[trigger] engine.all_parallel_tasks()[i],
            ),
{
    let places = engine.group_places();
    let tasks = |group: usize| engine.parallel_tasks(group);
    let possible = |task: TaskView| engine.can_search(task);
    assert forall|i: int, j: int|
        #![trigger tasks(places[i])[j]]
        0 <= i < places.len() && 0 <= j < tasks(places[i]).len() implies possible(
        tasks(places[i])[j],
    ) by {
    }
    lemma_flat_map_all(places, tasks, possible);
    assert forall|i: int| 0 <= i < engine.all_parallel_tasks().len() implies engine.can_search(
        #[trigger] engine.all_parallel_tasks()[i],
    ) by {
        assert(possible(places.flat_map(tasks)[i]));
    }
}

/// Adds those of `visits` that do without the decompiler to `items`, and their checkers to
/// `processed`.
fn add_items(
    items: &mut Vec<Visit>,
    processed: &mut BTreeSet<usize>,
    engine: &Engine,
    visits: &Vec<Visit>,
)
    requires
        forall|i: int| 0 <= i < visits.len() ==> engine@.can_make(#[trigger] visits[i]),
    ensures
        final(items)@ == old(items)@ + engine@.light(visits@),
        final(processed)@ == old(processed)@ + checkers_in(engine@.light(visits@)),
{
    let ghost first = items@;
    let ghost known = processed@;
    let ghost keep = |visit: Visit| !engine@.heavy(visit.checker as int);
    proof {
        reveal(Seq::filter);
        assert(visits@.take(0).filter(keep) =~= Seq::<Visit>::empty());
        assert(checkers_in(Seq::empty()) =~= Set::<usize>::empty());
    }
    let mut n: usize = 0;
    while n < visits.len()
        invariant
            n <= visits.len(),
            keep == (|visit: Visit| !engine@.heavy(visit.checker as int)),
            forall|i: int| 0 <= i < visits.len() ==> engine@.can_make(#[trigger] visits[i]),
            items@ == first + visits@.take(n as int).filter(keep),
            processed@ == known + checkers_in(visits@.take(n as int).filter(keep)),
        decreases visits.len() - n,
    {
        let visit = visits[n];
        let ghost so_far = visits@.take(n as int).filter(keep);
        proof {
            assert(visits@.take(n + 1) =~= visits@.take(n as int).push(visit));
            visits@.take(n as int).lemma_filter_push(visit, keep);
        }
        if !engine.needs_decompiler(visit.checker) {
            processed.insert(visit.checker);
            items.push(visit);
            proof {
                lemma_checkers_in(so_far, seq![visit]);
                assert(so_far + seq![visit] =~= so_far.push(visit));
                assert(seq![visit].map_values(|visit: Visit| visit.checker) =~= seq![
                    visit.checker,
                ]);
                assert(seq![visit.checker].contains(visit.checker)) by {
                    assert(seq![visit.checker][0] == visit.checker);
                }
                assert(checkers_in(seq![visit]) =~= set![visit.checker]);
            }
        }
        n += 1;
    }
    proof {
        assert(visits@.take(n as int) =~= visits@);
    }
}

/// The fresh search of an engine is a search of it.
pub proof fn lemma_fresh_search(engine: EngineView)
    requires
        engine.valid(),
    ensures
        fresh_search(engine).is_search_of(engine),
{
    lemma_all_tasks_searchable(engine);
    lemma_stacked_searchable(engine, Seq::empty(), engine.all_parallel_tasks());
    assert(checkers_in(Seq::empty()) =~= Set::<usize>::empty());
}

impl ParallelSearch {
    /// A search for the parallel work of `engine`.
    pub fn new(engine: &Engine) -> (res: Self)
        requires
            engine.wf(),
        ensures
            res@ == fresh_search(engine@),
            res@.is_search_of(engine@),
    {
        proof {
            engine.lemma_valid();
            lemma_fresh_search(engine@);
        }
        let ghost places = engine@.group_places();
        let ghost tasks = |group: usize| engine@.parallel_tasks(group);
        let mut agenda: Vec<Task> = Vec::new();
        let mut group: usize = engine.group_count();
        proof {
            assert(places.skip(group as int).flat_map(tasks) =~= Seq::<TaskView>::empty());
            assert(tasks_of(agenda@) =~= stacked(Seq::empty(), Seq::empty()));
        }
        while group > 0
            invariant
                group <= engine@.groups.len(),
                places == engine@.group_places(),
                places.len() <= usize::MAX,
                tasks == (|group: usize| engine@.parallel_tasks(group)),
                tasks_of(agenda@) == stacked(
                    Seq::empty(),
                    places.skip(group as int).flat_map(tasks),
                ),
            decreases group,
        {
            let ghost later = places.skip(group as int).flat_map(tasks);
            let ghost before = tasks_of(agenda@);
            group -= 1;
            match engine.group(group).kind {
                ScopeKind::Calls => {
                    agenda.push(Task::Scope { group });
                },
                _ => {},
            }
            proof {
                assert(tasks_of(agenda@) =~= stacked(before, tasks(group)));
                lemma_flat_map_first(places.skip(group as int), tasks);
                assert(places.skip(group as int).skip(1) =~= places.skip(group + 1));
                lemma_stacked_twice(Seq::empty(), tasks(group), later);
            }
        }
        proof {
            assert(places.skip(0) =~= places);
        }
        ParallelSearch {
            agenda,
            items: Vec::new(),
            processed_ids: BTreeSet::new(),
            failure: None,
        }
    }

    /// What is needed next.
    pub fn pending(&self) -> (res: Request)
        ensures
            res == self@.request(),
    {
        if self.failure.is_some() || self.agenda.len() == 0 {
            return Request::Nothing;
        }
        let last = self.agenda.len() - 1;
        assert(self@.agenda.last() == self.agenda[last as int]@);
        match &self.agenda[last] {
            Task::Scope { group } => Request::Targets { group: *group },
            Task::Target { group, target, .. } => Request::Edges { group: *group, target: *target },
            Task::Caller { group, function, admitted, .. } => if *admitted {
                Request::Analyse { group: *group, function: *function }
            } else {
                Request::Where { group: *group, function: *function }
            },
            Task::Visit(_) => Request::Nothing,
        }
    }

    /// Takes `reply` as the answer to what is needed; a reply that does not answer it changes
    /// nothing.
    pub fn answer(&mut self, engine: &Engine, reply: Reply)
        requires
            engine.wf(),
            old(self)@.is_search_of(engine@),
        ensures
            final(self)@ == old(self)@.after(engine@, reply),
            final(self)@.is_search_of(engine@),
    {
        let ghost before = self@;
        proof {
            engine.lemma_valid();
            lemma_stays_search(engine@, before, reply);
        }
        let request = self.pending();
        if !is_answer(&request, &reply) {
            return;
        }
        let ghost rest = before.agenda.drop_last();
        assert(engine@.can_search(before.agenda[before.agenda.len() - 1]));
        assert(before.agenda.last() == self.agenda@.last()@);
        assert(tasks_of(self.agenda@.drop_last()) =~= rest);
        match reply {
            Reply::Targets(Ok(targets)) => {
                if let Some(Task::Scope { group }) = self.agenda.pop() {
                    stack_targets(
                        &mut self.agenda,
                        group,
                        &targets.functions,
                        targets.with_jumps,
                    );
                }
            },
            Reply::Edges(edges) => {
                if let Some(Task::Target { group, with_jumps, .. }) = self.agenda.pop() {
                    let candidates = find_candidates(&edges, with_jumps);
                    stack_callers(&mut self.agenda, group, candidates);
                }
            },
            Reply::Where(Ok(admitted)) => {
                if let Some(Task::Caller { group, function, blocks, .. }) = self.agenda.pop() {
                    let ghost seen = blocks@;
                    if admitted {
                        self.agenda.push(Task::Caller { group, function, blocks, admitted });
                        assert(tasks_of(self.agenda@) =~= stacked(
                            rest,
                            seq![TaskView::Caller { group, function, blocks: seen, admitted }],
                        ));
                    } else {
                        assert(rest =~= stacked(rest, Seq::empty()));
                    }
                }
            },
            Reply::Analysed => {
                if let Some(Task::Caller { group, function, blocks, .. }) = self.agenda.pop() {
                    let none: BTreeSet<usize> = BTreeSet::new();
                    let visits = visits_at_calls(engine, group, function, &blocks, &none);
                    proof {
                        lemma_call_visits_possible(
                            engine@,
                            group,
                            function,
                            blocks@,
                            Set::empty(),
                        );
                        assert(none@ =~= Set::<usize>::empty());
                    }
                    add_items(&mut self.items, &mut self.processed_ids, engine, &visits);
                }
            },
            Reply::Targets(Err(error)) => {
                self.failure = Some(error);
            },
            Reply::Where(Err(error)) => {
                self.failure = Some(error);
            },
            _ => {},
        }
        assert(self@ =~= before.after(engine@, reply));
    }

    /// What came of the search: the error that ended it, what has been found if nothing is left to
    /// do, and the search itself while something is.
    pub fn outcome(self) -> (res: Result<Result<ParallelWork, CheckerError>, Self>)
        ensures
            match res {
                Ok(Err(error)) => self@.failure == Some(error@),
                Ok(Ok(work)) => self@.failure is None && self@.agenda.len() == 0 && work.items@
                    == self@.items && work.processed_ids@ == self@.processed,
                Err(search) => search == self && self@.failure is None && self@.agenda.len() > 0,
            },
    {
        if self.failure.is_none() && self.agenda.len() > 0 {
            return Err(self);
        }
        match self.failure {
            Some(error) => Ok(Err(error)),
            None => Ok(Ok(ParallelWork { items: self.items, processed_ids: self.processed_ids })),
        }
    }
}

} // verus!
