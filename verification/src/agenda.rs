//! What a run still has to do: scopes to be searched and handlers to be run, next one last.
use std::collections::BTreeSet;

use vstd::prelude::*;

use crate::candidates::{Candidate, CandidateView, Edge, candidates_view};
use crate::context::CheckerContext;
use crate::engine::{Engine, EngineView};
use crate::error::CheckerError;
use crate::groups::{GroupView, lemma_members_in_range};
use crate::result::CheckResult;
use crate::seqs::lemma_flat_map_all;

verus! {

/// Where a handler is run.
#[derive(Debug, Clone, Copy, PartialEq, Eq, Structural)]
pub enum Place {
    /// On the call that a block makes.
    CallSite { function: u64, block: u64 },
    /// On a function.
    Function { function: u64 },
    /// On the project.
    Project,
}

/// One run of a handler.
#[derive(Debug, Clone, Copy, PartialEq, Eq, Structural)]
pub struct Visit {
    pub group: usize,
    /// The place of the checker and its handler in the group.
    pub member: usize,
    pub checker: usize,
    pub place: Place,
}

/// Something that a run has to do.
#[derive(Debug)]
pub enum Task {
    /// Search the scope of a group.
    Scope { group: usize },
    /// Find the callers of a function that the scope's query found.
    Target { group: usize, target: u64, with_jumps: bool },
    /// Look at a function that calls a target; the scope's filter may already have admitted it.
    Caller { group: usize, function: u64, blocks: Vec<u64>, admitted: bool },
    /// Run a handler.
    Visit(Visit),
}

/// A [`Task`] as contracts see it.
pub enum TaskView {
    Scope { group: usize },
    Target { group: usize, target: u64, with_jumps: bool },
    Caller { group: usize, function: u64, blocks: Seq<u64>, admitted: bool },
    Visit(Visit),
}

impl View for Task {
    type V = TaskView;

    open spec fn view(&self) -> TaskView {
        match *self {
            Task::Scope { group } => TaskView::Scope { group },
            Task::Target { group, target, with_jumps } => TaskView::Target {
                group,
                target,
                with_jumps,
            },
            Task::Caller { group, function, blocks, admitted } => TaskView::Caller {
                group,
                function,
                blocks: blocks@,
                admitted,
            },
            Task::Visit(visit) => TaskView::Visit(visit),
        }
    }
}

/// The tasks of `list` as contracts see them.
pub open spec fn tasks_of(list: Seq<Task>) -> Seq<TaskView> {
    list.map_values(|task: Task| task@)
}

/// `agenda` with `tasks` to be done first, in their order.
pub open spec fn stacked(agenda: Seq<TaskView>, tasks: Seq<TaskView>) -> Seq<TaskView> {
    agenda + tasks.reverse()
}

/// The tasks for the functions `targets` that the query of a group found.
pub open spec fn target_tasks(group: usize, targets: Seq<u64>, with_jumps: bool) -> Seq<TaskView> {
    targets.map_values(|target: u64| TaskView::Target { group, target, with_jumps })
}

/// The tasks for the callers `candidates`.
pub open spec fn caller_tasks(group: usize, candidates: Seq<CandidateView>) -> Seq<TaskView> {
    candidates.map_values(
        |candidate: CandidateView|
            TaskView::Caller {
                group,
                function: candidate.function,
                blocks: candidate.blocks,
                admitted: false,
            },
    )
}

/// The tasks for `visits`.
pub open spec fn visit_tasks(visits: Seq<Visit>) -> Seq<TaskView> {
    visits.map_values(|visit: Visit| TaskView::Visit(visit))
}

impl GroupView {
    /// One visit at `place` for each member of this group, the group with the place `group`.
    pub open spec fn all_visits_at(self, group: usize, place: Place) -> Seq<Visit> {
        Seq::new(
            self.members.len(),
            |member: int|
                Visit {
                    group,
                    member: member as usize,
                    checker: self.members[member].checker,
                    place,
                },
        )
    }

    /// One visit at `place` for each member whose checker is not in `skip`.
    pub open spec fn visits_at(self, group: usize, place: Place, skip: Set<usize>) -> Seq<Visit> {
        self.all_visits_at(group, place).filter(|visit: Visit| !skip.contains(visit.checker))
    }

    /// The visits at the calls that the blocks `blocks` of `function` make.
    pub open spec fn call_visits(
        self,
        group: usize,
        function: u64,
        blocks: Seq<u64>,
        skip: Set<usize>,
    ) -> Seq<Visit> {
        blocks.flat_map(
            |block: u64| self.visits_at(group, Place::CallSite { function, block }, skip),
        )
    }

    /// The visits at the functions `functions`.
    pub open spec fn function_visits(self, group: usize, functions: Seq<u64>) -> Seq<Visit> {
        functions.flat_map(
            |function: u64| self.visits_at(group, Place::Function { function }, Set::empty()),
        )
    }

    /// The visits at the project.
    pub open spec fn project_visits(self, group: usize) -> Seq<Visit> {
        self.visits_at(group, Place::Project, Set::empty())
    }
}

impl EngineView {
    /// Whether `visit` is one that a member of a group can make.
    pub open spec fn can_make(self, visit: Visit) -> bool {
        &&& visit.group < self.groups.len()
        &&& visit.member < self.groups[visit.group as int].members.len()
        &&& visit.checker == self.groups[visit.group as int].members[visit.member as int].checker
        &&& visit.checker < self.checkers.len()
    }
}

/// What the query of a calls scope found.
#[derive(Debug)]
pub struct Targets {
    pub functions: Vec<u64>,
    /// Whether branches count as calls.
    pub with_jumps: bool,
}

/// What a run asks for next.
#[derive(Debug, Clone, Copy, PartialEq, Eq, Structural)]
pub enum Request {
    /// The functions that the query of a calls scope finds.
    Targets { group: usize },
    /// The edges into the entry block of `target`.
    Edges { group: usize, target: u64 },
    /// Whether the filter of a calls scope admits `function`.
    Where { group: usize, function: u64 },
    /// The types of the values that `function` handles.
    Analyse { group: usize, function: u64 },
    /// The functions that the query of a function scope finds.
    Functions { group: usize },
    /// All functions.
    AllFunctions { group: usize },
    /// A Lua state for `checker`.
    Context { checker: usize },
    /// A decompiler.
    CreateDecompiler,
    /// The decompiler, emptied.
    ClearDecompiler,
    /// The decompiler, set up with the symbols and types of `group`.
    ConfigureDecompiler { group: usize },
    /// A run of a handler.
    Invoke { visit: Visit },
    /// Nothing.
    Nothing,
}

/// The answer to a [`Request`].
pub enum Reply {
    Targets(Result<Targets, CheckerError>),
    Edges(Vec<Edge>),
    Where(Result<bool, CheckerError>),
    Analysed,
    Functions(Result<Vec<u64>, CheckerError>),
    Context(Result<CheckerContext, CheckerError>),
    Decompiler(Result<(), String>),
    Configured(Result<(), CheckerError>),
    Invoked(Result<Option<CheckResult>, CheckerError>),
}

/// Whether `reply` is an answer to `request`.
pub open spec fn fits(request: Request, reply: Reply) -> bool {
    match request {
        Request::Targets { .. } => reply is Targets,
        Request::Edges { .. } => reply is Edges,
        Request::Where { .. } => reply is Where,
        Request::Analyse { .. } => reply is Analysed,
        Request::Functions { .. } => reply is Functions,
        Request::AllFunctions { .. } => reply matches Reply::Functions(Ok(_)),
        Request::Context { .. } => reply is Context,
        Request::CreateDecompiler => reply is Decompiler,
        Request::ClearDecompiler => reply is Decompiler,
        Request::ConfigureDecompiler { .. } => reply is Configured,
        Request::Invoke { .. } => reply is Invoked,
        Request::Nothing => false,
    }
}

/// Putting some tasks on an agenda and then others is putting all of them there at once.
pub proof fn lemma_stacked_twice(agenda: Seq<TaskView>, first: Seq<TaskView>, second: Seq<TaskView>)
    ensures
        stacked(stacked(agenda, second), first) == stacked(agenda, first + second),
{
    assert(stacked(stacked(agenda, second), first) =~= stacked(agenda, first + second));
}

/// Whether `reply` is an answer to `request`.
pub fn is_answer(request: &Request, reply: &Reply) -> (res: bool)
    ensures
        res == fits(*request, *reply),
{
    match (request, reply) {
        (Request::Targets { .. }, Reply::Targets(_)) => true,
        (Request::Edges { .. }, Reply::Edges(_)) => true,
        (Request::Where { .. }, Reply::Where(_)) => true,
        (Request::Analyse { .. }, Reply::Analysed) => true,
        (Request::Functions { .. }, Reply::Functions(_)) => true,
        (Request::AllFunctions { .. }, Reply::Functions(Ok(_))) => true,
        (Request::Context { .. }, Reply::Context(_)) => true,
        (Request::CreateDecompiler, Reply::Decompiler(_)) => true,
        (Request::ClearDecompiler, Reply::Decompiler(_)) => true,
        (Request::ConfigureDecompiler { .. }, Reply::Configured(_)) => true,
        (Request::Invoke { .. }, Reply::Invoked(_)) => true,
        _ => false,
    }
}

proof fn lemma_filter_keeps_order(visits: Seq<Visit>, keep: spec_fn(Visit) -> bool)
    requires
        forall|i: int, j: int|
            0 <= i < j < visits.len() ==> (#[trigger] visits[i]).member < (
            #[trigger] visits[j]).member,
    ensures
        forall|i: int, j: int|
            0 <= i < j < visits.filter(keep).len() ==> (#[trigger] visits.filter(keep)[i]).member
                < (#[trigger] visits.filter(keep)[j]).member,
        forall|i: int|
            0 <= i < visits.filter(keep).len() ==> visits.contains(
                #[trigger] visits.filter(keep)[i],
            ) && keep(visits.filter(keep)[i]),
    decreases visits.len(),
{
    reveal(Seq::filter);
    let kept = visits.filter(keep);
    assert forall|i: int| 0 <= i < kept.len() implies visits.contains(#[trigger] kept[i]) && keep(
        kept[i],
    ) by {
        assert(kept.contains(kept[i]));
        visits.lemma_filter_contains_rev(keep, kept[i]);
        visits.lemma_filter_pred(keep, i);
    }
    if visits.len() > 0 {
        let before = visits.drop_last();
        lemma_filter_keeps_order(before, keep);
        let first = before.filter(keep);
        assert forall|i: int, j: int| 0 <= i < j < kept.len() implies (#[trigger] kept[i]).member
            < (#[trigger] kept[j]).member by {
            if j < first.len() {
                assert(kept[i] == first[i] && kept[j] == first[j]);
            } else {
                assert(kept[i] == first[i]);
                assert(before.contains(first[i]));
                let k = choose|k: int| 0 <= k < before.len() && before[k] == first[i];
                assert(visits[k].member < visits[visits.len() - 1].member);
            }
        }
    }
}

/// At a place each member of a group whose checker is not skipped is run exactly once, with its own
/// checker, in the order of the members; no other is.
pub proof fn law_members_are_run_once_at_a_place(
    group: GroupView,
    index: usize,
    place: Place,
    skip: Set<usize>,
)
    requires
        group.members.len() <= usize::MAX,
    ensures
        ({
            let visits = group.visits_at(index, place, skip);
            &&& forall|k: int|
                0 <= k < visits.len() ==> {
                    let visit = #[trigger] visits[k];
                    &&& visit.group == index
                    &&& visit.place == place
                    &&& visit.member < group.members.len()
                    &&& visit.checker == group.members[visit.member as int].checker
                    &&& !skip.contains(visit.checker)
                }
            &&& forall|k: int, l: int|
                0 <= k < l < visits.len() ==> (#[trigger] visits[k]).member < (
                #[trigger] visits[l]).member
            &&& forall|m: int|
                0 <= m < group.members.len() && !skip.contains(
                    (#[trigger] group.members[m]).checker,
                ) ==> exists|k: int| 0 <= k < visits.len() && (#[trigger] visits[k]).member == m
        }),
{
    let visits = group.visits_at(index, place, skip);
    let all = group.all_visits_at(index, place);
    let keep = |visit: Visit| !skip.contains(visit.checker);
    assert forall|i: int, j: int| 0 <= i < j < all.len() implies (#[trigger] all[i]).member < (
    #[trigger] all[j]).member by {
        assert(all[i].member == i && all[j].member == j);
    }
    lemma_filter_keeps_order(all, keep);
    assert(visits == all.filter(keep));
    assert forall|k: int| 0 <= k < visits.len() implies {
        let visit = #[trigger] visits[k];
        &&& visit.group == index
        &&& visit.place == place
        &&& visit.member < group.members.len()
        &&& visit.checker == group.members[visit.member as int].checker
        &&& !skip.contains(visit.checker)
    } by {
        assert(all.contains(visits[k]) && keep(visits[k]));
        let m = choose|m: int| 0 <= m < all.len() && all[m] == visits[k];
        assert(all[m].member == m);
    }
    assert forall|m: int|
        0 <= m < group.members.len() && !skip.contains(
            (#[trigger] group.members[m]).checker,
        ) implies exists|k: int| 0 <= k < visits.len() && (#[trigger] visits[k]).member == m by {
        assert(keep(all[m]));
        all.lemma_filter_contains(keep, m);
        assert(visits.contains(all[m]));
        let k = choose|k: int| 0 <= k < visits.len() && visits[k] == all[m];
        assert(visits[k].member == m);
    }
}

/// The visits at the calls of a function are those at its blocks, one block after the other: one
/// more block adds the visits at its call at the end, and without blocks there are none.
pub proof fn law_call_visits_go_block_by_block(
    group: GroupView,
    index: usize,
    function: u64,
    blocks: Seq<u64>,
    block: u64,
    skip: Set<usize>,
)
    ensures
        group.call_visits(index, function, Seq::empty(), skip) == Seq::<Visit>::empty(),
        group.call_visits(index, function, blocks.push(block), skip) == group.call_visits(
            index,
            function,
            blocks,
            skip,
        ) + group.visits_at(index, Place::CallSite { function, block }, skip),
{
    let at = |block: u64| group.visits_at(index, Place::CallSite { function, block }, skip);
    assert(Seq::<u64>::empty().flat_map(at) =~= Seq::<Visit>::empty());
    blocks.lemma_flat_map_push(at, block);
}

/// The visits at functions are those at each of them, one function after the other, of all members:
/// one more function adds the visits at it at the end, and without functions there are none.
pub proof fn law_function_visits_go_one_by_one(
    group: GroupView,
    index: usize,
    functions: Seq<u64>,
    function: u64,
)
    ensures
        group.function_visits(index, Seq::empty()) == Seq::<Visit>::empty(),
        group.function_visits(index, functions.push(function)) == group.function_visits(
            index,
            functions,
        ) + group.visits_at(index, Place::Function { function }, Set::empty()),
        group.project_visits(index) == group.visits_at(index, Place::Project, Set::empty()),
{
    let at = |function: u64| group.visits_at(index, Place::Function { function }, Set::empty());
    assert(Seq::<u64>::empty().flat_map(at) =~= Seq::<Visit>::empty());
    functions.lemma_flat_map_push(at, function);
}

/// Every visit at the calls of a function is one of the group's members at a call that one of the
/// blocks makes, and of a checker that is not skipped.
pub proof fn law_call_visits_are_at_the_calls(
    group: GroupView,
    index: usize,
    function: u64,
    blocks: Seq<u64>,
    skip: Set<usize>,
)
    requires
        group.members.len() <= usize::MAX,
    ensures
        forall|k: int|
            0 <= k < group.call_visits(index, function, blocks, skip).len() ==> {
                let visit = #[trigger] group.call_visits(index, function, blocks, skip)[k];
                &&& visit.group == index
                &&& visit.place matches Place::CallSite { function: f, block } && f == function
                    && blocks.contains(block)
                &&& visit.member < group.members.len()
                &&& visit.checker == group.members[visit.member as int].checker
                &&& !skip.contains(visit.checker)
            },
{
    let at = |block: u64| group.visits_at(index, Place::CallSite { function, block }, skip);
    let holds = |visit: Visit|
        {
            &&& visit.group == index
            &&& visit.place matches Place::CallSite { function: f, block } && f == function
                && blocks.contains(block)
            &&& visit.member < group.members.len()
            &&& visit.checker == group.members[visit.member as int].checker
            &&& !skip.contains(visit.checker)
        };
    assert forall|i: int, j: int|
        #![trigger at(blocks[i])[j]]
        0 <= i < blocks.len() && 0 <= j < at(blocks[i]).len() implies holds(at(blocks[i])[j]) by {
        law_members_are_run_once_at_a_place(
            group,
            index,
            Place::CallSite { function, block: blocks[i] },
            skip,
        );
        assert(blocks.contains(blocks[i]));
    }
    lemma_flat_map_all(blocks, at, holds);
    assert forall|k: int| 0 <= k < group.call_visits(index, function, blocks, skip).len() implies {
        let visit = #[trigger] group.call_visits(index, function, blocks, skip)[k];
        &&& visit.group == index
        &&& visit.place matches Place::CallSite { function: f, block } && f == function
            && blocks.contains(block)
        &&& visit.member < group.members.len()
        &&& visit.checker == group.members[visit.member as int].checker
        &&& !skip.contains(visit.checker)
    } by {
        assert(holds(blocks.flat_map(at)[k]));
    }
}

/// The visits of a group are ones that its members can make.
pub proof fn lemma_visits_possible(engine: EngineView, group: usize, place: Place, skip: Set<usize>)
    requires
        engine.valid(),
        group < engine.groups.len(),
    ensures
        forall|k: int|
            0 <= k < engine.groups[group as int].visits_at(group, place, skip).len()
                ==> engine.can_make(
                #[trigger] engine.groups[group as int].visits_at(group, place, skip)[k],
            ) && engine.groups[group as int].visits_at(group, place, skip)[k].place == place,
{
    let own = engine.groups[group as int];
    let all = own.all_visits_at(group, place);
    let kept = |visit: Visit| !skip.contains(visit.checker);
    lemma_members_in_range(engine.checkers, engine.architecture);
    assert forall|k: int| 0 <= k < own.visits_at(group, place, skip).len() implies engine.can_make(
        #[trigger] own.visits_at(group, place, skip)[k],
    ) && own.visits_at(group, place, skip)[k].place == place by {
        let visit = own.visits_at(group, place, skip)[k];
        assert(all.filter(kept).contains(visit));
        all.lemma_filter_contains_rev(kept, visit);
        let m = choose|m: int| 0 <= m < all.len() && all[m] == visit;
        assert(own.members[m].checker < engine.checkers.len());
    }
}

/// The visits of a group at calls are ones that its members can make.
pub proof fn lemma_call_visits_possible(
    engine: EngineView,
    group: usize,
    function: u64,
    blocks: Seq<u64>,
    skip: Set<usize>,
)
    requires
        engine.valid(),
        group < engine.groups.len(),
    ensures
        forall|k: int|
            0 <= k < engine.groups[group as int].call_visits(group, function, blocks, skip).len()
                ==> engine.can_make(
                #[trigger] engine.groups[group as int].call_visits(
                    group,
                    function,
                    blocks,
                    skip,
                )[k],
            ) && engine.groups[group as int].call_visits(
                group,
                function,
                blocks,
                skip,
            )[k].place is CallSite,
{
    let own = engine.groups[group as int];
    let at = |block: u64| own.visits_at(group, Place::CallSite { function, block }, skip);
    let possible = |visit: Visit| engine.can_make(visit) && visit.place is CallSite;
    assert forall|i: int, j: int|
        #![trigger at(blocks[i])[j]]
        0 <= i < blocks.len() && 0 <= j < at(blocks[i]).len() implies possible(
        at(blocks[i])[j],
    ) by {
        lemma_visits_possible(engine, group, Place::CallSite { function, block: blocks[i] }, skip);
    }
    lemma_flat_map_all(blocks, at, possible);
    assert forall|k: int|
        0 <= k < own.call_visits(group, function, blocks, skip).len() implies engine.can_make(
        #[trigger] own.call_visits(group, function, blocks, skip)[k],
    ) && own.call_visits(group, function, blocks, skip)[k].place is CallSite by {
        assert(possible(blocks.flat_map(at)[k]));
    }
}

/// The visits of a group at functions are ones that its members can make.
pub proof fn lemma_function_visits_possible(engine: EngineView, group: usize, functions: Seq<u64>)
    requires
        engine.valid(),
        group < engine.groups.len(),
    ensures
        forall|k: int|
            0 <= k < engine.groups[group as int].function_visits(group, functions).len()
                ==> engine.can_make(
                #[trigger] engine.groups[group as int].function_visits(group, functions)[k],
            ),
{
    let own = engine.groups[group as int];
    let at = |function: u64| own.visits_at(group, Place::Function { function }, Set::empty());
    let possible = |visit: Visit| engine.can_make(visit);
    assert forall|i: int, j: int|
        #![trigger at(functions[i])[j]]
        0 <= i < functions.len() && 0 <= j < at(functions[i]).len() implies possible(
        at(functions[i])[j],
    ) by {
        lemma_visits_possible(
            engine,
            group,
            Place::Function { function: functions[i] },
            Set::empty(),
        );
    }
    lemma_flat_map_all(functions, at, possible);
    assert forall|k: int|
        0 <= k < own.function_visits(group, functions).len() implies engine.can_make(
        #[trigger] own.function_visits(group, functions)[k],
    ) by {
        assert(possible(functions.flat_map(at)[k]));
    }
}

/// Adds to `visits` one visit at `place` for each member of `group` whose checker is not in `skip`.
pub fn add_visits(
    visits: &mut Vec<Visit>,
    engine: &Engine,
    group: usize,
    place: Place,
    skip: &BTreeSet<usize>,
)
    requires
        group < engine@.groups.len(),
    ensures
        final(visits)@ == old(visits)@ + engine@.groups[group as int].visits_at(
            group,
            place,
            skip@,
        ),
{
    let ghost start = visits@;
    let ghost all = engine@.groups[group as int].all_visits_at(group, place);
    let ghost kept = |visit: Visit| !skip@.contains(visit.checker);
    let members = &engine.group(group).members;
    proof {
        reveal(Seq::filter);
        assert(all.take(0).filter(kept) =~= Seq::<Visit>::empty());
    }
    let mut m: usize = 0;
    while m < members.len()
        invariant
            m <= members.len(),
            members.len() == all.len(),
            all == engine@.groups[group as int].all_visits_at(group, place),
            forall|i: int|
                0 <= i < members.len() ==> (#[trigger] all[i]) == (Visit {
                    group,
                    member: i as usize,
                    checker: members[i].checker,
                    place,
                }),
            kept == (|visit: Visit| !skip@.contains(visit.checker)),
            visits@ == start + all.take(m as int).filter(kept),
        decreases members.len() - m,
    {
        let checker = members[m].checker;
        proof {
            assert(all.take(m + 1) =~= all.take(m as int).push(all[m as int]));
            all.take(m as int).lemma_filter_push(all[m as int], kept);
        }
        if !skip.contains(&checker) {
            visits.push(Visit { group, member: m, checker, place });
        }
        assert(visits@ =~= start + all.take(m + 1).filter(kept));
        m += 1;
    }
    proof {
        assert(all.take(m as int) =~= all);
    }
}

/// The visits of `group` at the calls that the blocks `blocks` of `function` make, without those of
/// the checkers in `skip`.
pub fn visits_at_calls(
    engine: &Engine,
    group: usize,
    function: u64,
    blocks: &Vec<u64>,
    skip: &BTreeSet<usize>,
) -> (res: Vec<Visit>)
    requires
        group < engine@.groups.len(),
    ensures
        res@ == engine@.groups[group as int].call_visits(group, function, blocks@, skip@),
{
    let ghost at = |block: u64|
        engine@.groups[group as int].visits_at(group, Place::CallSite { function, block }, skip@);
    let mut visits: Vec<Visit> = Vec::new();
    proof {
        assert(blocks@.take(0).flat_map(at) =~= Seq::<Visit>::empty());
    }
    let mut n: usize = 0;
    while n < blocks.len()
        invariant
            n <= blocks.len(),
            group < engine@.groups.len(),
            at == (|block: u64|
                engine@.groups[group as int].visits_at(
                    group,
                    Place::CallSite { function, block },
                    skip@,
                )),
            visits@ == blocks@.take(n as int).flat_map(at),
        decreases blocks.len() - n,
    {
        add_visits(
            &mut visits,
            engine,
            group,
            Place::CallSite { function, block: blocks[n] },
            skip,
        );
        proof {
            blocks@.lemma_flat_map_take_append(at, n as int);
        }
        n += 1;
    }
    proof {
        assert(blocks@.take(n as int) =~= blocks@);
    }
    visits
}

/// The visits of `group` at the functions `functions`.
pub fn visits_at_functions(engine: &Engine, group: usize, functions: &Vec<u64>) -> (res: Vec<Visit>)
    requires
        group < engine@.groups.len(),
    ensures
        res@ == engine@.groups[group as int].function_visits(group, functions@),
{
    let none: BTreeSet<usize> = BTreeSet::new();
    let ghost at = |function: u64|
        engine@.groups[group as int].visits_at(group, Place::Function { function }, Set::empty());
    let mut visits: Vec<Visit> = Vec::new();
    proof {
        assert(functions@.take(0).flat_map(at) =~= Seq::<Visit>::empty());
    }
    let mut n: usize = 0;
    while n < functions.len()
        invariant
            n <= functions.len(),
            group < engine@.groups.len(),
            none@ == Set::<usize>::empty(),
            at == (|function: u64|
                engine@.groups[group as int].visits_at(
                    group,
                    Place::Function { function },
                    Set::empty(),
                )),
            visits@ == functions@.take(n as int).flat_map(at),
        decreases functions.len() - n,
    {
        add_visits(&mut visits, engine, group, Place::Function { function: functions[n] }, &none);
        proof {
            functions@.lemma_flat_map_take_append(at, n as int);
        }
        n += 1;
    }
    proof {
        assert(functions@.take(n as int) =~= functions@);
    }
    visits
}

/// Puts `visits` on `agenda`, to be made first.
pub fn stack_visits(agenda: &mut Vec<Task>, visits: &Vec<Visit>)
    ensures
        tasks_of(final(agenda)@) == stacked(tasks_of(old(agenda)@), visit_tasks(visits@)),
{
    let ghost start = tasks_of(agenda@);
    let ghost tasks = visit_tasks(visits@);
    let mut n: usize = visits.len();
    proof {
        assert(stacked(start, tasks.skip(n as int)) =~= start);
    }
    while n > 0
        invariant
            n <= visits.len(),
            tasks == visit_tasks(visits@),
            tasks_of(agenda@) == stacked(start, tasks.skip(n as int)),
        decreases n,
    {
        n -= 1;
        agenda.push(Task::Visit(visits[n]));
        proof {
            assert(tasks_of(agenda@) =~= stacked(start, tasks.skip(n + 1)).push(tasks[n as int]));
            assert(stacked(start, tasks.skip(n as int)) =~= stacked(start, tasks.skip(n + 1)).push(
                tasks[n as int],
            ));
        }
    }
    proof {
        assert(tasks.skip(0) =~= tasks);
    }
}

/// Puts the functions `targets` that the query of `group` found on `agenda`, to be looked at first.
pub fn stack_targets(agenda: &mut Vec<Task>, group: usize, targets: &Vec<u64>, with_jumps: bool)
    ensures
        tasks_of(final(agenda)@) == stacked(
            tasks_of(old(agenda)@),
            target_tasks(group, targets@, with_jumps),
        ),
{
    let ghost start = tasks_of(agenda@);
    let ghost tasks = target_tasks(group, targets@, with_jumps);
    let mut n: usize = targets.len();
    proof {
        assert(stacked(start, tasks.skip(n as int)) =~= start);
    }
    while n > 0
        invariant
            n <= targets.len(),
            tasks == target_tasks(group, targets@, with_jumps),
            tasks_of(agenda@) == stacked(start, tasks.skip(n as int)),
        decreases n,
    {
        n -= 1;
        agenda.push(Task::Target { group, target: targets[n], with_jumps });
        proof {
            assert(tasks_of(agenda@) =~= stacked(start, tasks.skip(n + 1)).push(tasks[n as int]));
            assert(stacked(start, tasks.skip(n as int)) =~= stacked(start, tasks.skip(n + 1)).push(
                tasks[n as int],
            ));
        }
    }
    proof {
        assert(tasks.skip(0) =~= tasks);
    }
}

/// Puts the callers `candidates` on `agenda`, to be looked at first.
pub fn stack_callers(agenda: &mut Vec<Task>, group: usize, candidates: Vec<Candidate>)
    ensures
        tasks_of(final(agenda)@) == stacked(
            tasks_of(old(agenda)@),
            caller_tasks(group, candidates_view(candidates@)),
        ),
{
    let ghost start = tasks_of(agenda@);
    let ghost all = candidates_view(candidates@);
    let ghost tasks = caller_tasks(group, all);
    let mut rest = candidates;
    proof {
        assert(stacked(start, tasks.skip(rest.len() as int)) =~= start);
    }
    while rest.len() > 0
        invariant
            rest.len() <= all.len(),
            candidates_view(rest@) == all.take(rest.len() as int),
            tasks == caller_tasks(group, all),
            tasks_of(agenda@) == stacked(start, tasks.skip(rest.len() as int)),
        decreases rest.len(),
    {
        let ghost before = rest@;
        match rest.pop() {
            Some(candidate) => {
                let ghost n = rest.len() as int;
                assert(candidate@ == candidates_view(before)[n]);
                assert(candidate@ == all[n]);
                agenda.push(
                    Task::Caller {
                        group,
                        function: candidate.function,
                        blocks: candidate.blocks,
                        admitted: false,
                    },
                );
                proof {
                    assert(candidates_view(rest@) =~= all.take(n));
                    assert(tasks_of(agenda@) =~= stacked(start, tasks.skip(n + 1)).push(tasks[n]));
                    assert(stacked(start, tasks.skip(n)) =~= stacked(
                        start,
                        tasks.skip(n + 1),
                    ).push(tasks[n]));
                }
            },
            None => {},
        }
    }
    proof {
        assert(tasks.skip(0) =~= tasks);
    }
}

} // verus!
