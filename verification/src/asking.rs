//! What a run asks for, and what it makes of the answers, told from the task that is next.
use vstd::prelude::*;

use crate::agenda::{
    Place, Reply, Request, TaskView, Visit, fits, law_call_visits_are_at_the_calls,
    law_members_are_run_once_at_a_place,
};
use crate::candidates::candidates_of;
use crate::engine::EngineView;
use crate::error::{ErrorKind, ErrorView};
use crate::parallel::{SearchView, fresh_search, lemma_stays_search};
use crate::scope::ScopeKind;
use crate::seqs::lemma_flat_map_contains;
use crate::sequential::{Progress, SequentialView, fresh_run};

verus! {

/// Only an answer of the kind that was asked for is taken: each request has its own, and no answer
/// is taken where nothing was asked.
pub proof fn law_answers_are_of_their_kind(request: Request, reply: Reply)
    requires
        fits(request, reply),
    ensures
        request is Targets <==> reply is Targets,
        request is Edges <==> reply is Edges,
        request is Where <==> reply is Where,
        request is Analyse <==> reply is Analysed,
        request is Functions || request is AllFunctions <==> reply is Functions,
        request is Context <==> reply is Context,
        request is CreateDecompiler || request is ClearDecompiler <==> reply is Decompiler,
        request is ConfigureDecompiler <==> reply is Configured,
        request is Invoke <==> reply is Invoked,
        !(request is Nothing),
        request is AllFunctions ==> reply->Functions_0 is Ok,
{
}

/// Every answer of the kind that was asked for is taken, also one that says that something failed.
pub proof fn law_answers_are_taken(request: Request, reply: Reply)
    ensures
        request is Targets && reply is Targets ==> fits(request, reply),
        request is Edges && reply is Edges ==> fits(request, reply),
        request is Where && reply is Where ==> fits(request, reply),
        request is Analyse && reply is Analysed ==> fits(request, reply),
        request is Functions && reply is Functions ==> fits(request, reply),
        request is AllFunctions && reply is Functions && reply->Functions_0 is Ok ==> fits(
            request,
            reply,
        ),
        request is Context && reply is Context ==> fits(request, reply),
        request is CreateDecompiler && reply is Decompiler ==> fits(request, reply),
        request is ClearDecompiler && reply is Decompiler ==> fits(request, reply),
        request is ConfigureDecompiler && reply is Configured ==> fits(request, reply),
        request is Invoke && reply is Invoked ==> fits(request, reply),
{
}

/// A run asks for something exactly as long as no error has ended it and something is left to do.
pub proof fn law_runs_ask_while_there_is_work(engine: EngineView, run: SequentialView)
    requires
        engine.valid(),
        run.is_run_of(engine),
    ensures
        run.request(engine) is Nothing <==> run.failure is Some || run.agenda.len() == 0,
{
    if run.agenda.len() > 0 {
        assert(engine.can_have(run.agenda[run.agenda.len() - 1]));
    }
}

/// A scope is searched by its kind: a calls scope for the functions whose calls are looked at, a
/// function scope for the functions that its query finds or, if it has none, for all functions.
pub proof fn law_scopes_are_searched_by_kind(engine: EngineView, run: SequentialView)
    requires
        engine.valid(),
        run.is_run_of(engine),
    ensures
        run.request(engine) matches Request::Targets { group } ==> run.agenda.last()
            == (TaskView::Scope { group }) && engine.groups[group as int].key.kind
            == ScopeKind::Calls,
        run.request(engine) matches Request::Functions { group } ==> run.agenda.last()
            == (TaskView::Scope { group }) && engine.groups[group as int].key.kind
            == (ScopeKind::FunctionWith { targeted: true }),
        run.request(engine) matches Request::AllFunctions { group } ==> run.agenda.last()
            == (TaskView::Scope { group }) && engine.groups[group as int].key.kind
            == (ScopeKind::FunctionWith { targeted: false }),
{
}

/// The edges are asked for of the target that is next; a caller is put to the filter of its scope
/// unless that has admitted it, and is analysed only once it has.
pub proof fn law_callers_are_filtered_before_analysis(engine: EngineView, run: SequentialView)
    ensures
        run.request(engine) matches Request::Edges { group, target } ==> (
        run.agenda.last() matches TaskView::Target { group: g, target: t, .. } && g == group && t
            == target),
        run.request(engine) matches Request::Where { group, function } ==> (
        run.agenda.last() matches TaskView::Caller { group: g, function: f, admitted, .. } && g
            == group && f == function && !admitted),
        run.request(engine) matches Request::Analyse { group, function } ==> (
        run.agenda.last() matches TaskView::Caller { group: g, function: f, admitted, .. } && g
            == group && f == function && admitted),
{
}

/// The decompiler is set up for the group of the visit that is next, and for no other: only for a
/// checker whose extensions hold the decompiler's bit, after an empty decompiler was made or
/// emptied, and, at a call site, once the checker's Lua state is there.
pub proof fn law_decompiler_is_set_up_for_the_visit(engine: EngineView, run: SequentialView)
    ensures
        run.request(engine) matches Request::ConfigureDecompiler { group } ==> (
        run.agenda.last() matches TaskView::Visit(visit) && group == visit.group
            && run.progress == Progress::Acquired && engine.checkers[visit.checker as
            int].extensions.bits % 2 == 1 && (visit.place is CallSite
            ==> engine.contexts[visit.checker as int] is Some)),
        run.request(engine) is CreateDecompiler ==> (run.agenda.last() matches TaskView::Visit(
            visit,
        ) && !run.decompiler && run.progress == Progress::Fresh && engine.checkers[visit.checker as
            int].extensions.bits % 2 == 1 && (visit.place is CallSite
            ==> engine.contexts[visit.checker as int] is Some)),
        run.request(engine) is ClearDecompiler ==> (run.agenda.last() matches TaskView::Visit(visit)
            && run.decompiler && run.progress == Progress::Fresh && engine.checkers[visit.checker as
            int].extensions.bits % 2 == 1 && (visit.place is CallSite
            ==> engine.contexts[visit.checker as int] is Some)),
{
    lemma_heavy(engine, run);
}

/// A Lua state is asked for the checker of the visit that is next, if that has none: at a call site
/// before anything is done to the decompiler, elsewhere once that is set up if it is needed.
pub proof fn law_state_is_made_for_the_visit(engine: EngineView, run: SequentialView)
    ensures
        run.request(engine) matches Request::Context { checker } ==> (
        run.agenda.last() matches TaskView::Visit(visit) && checker == visit.checker
            && engine.contexts[checker as int] is None && (visit.place is CallSite
            || engine.checkers[checker as int].extensions.bits % 2 == 0 || run.progress
            == Progress::Configured)),
{
    lemma_heavy(engine, run);
}

/// The handler that is run is that of the visit that is next, in a state that is there, and with a
/// decompiler that has been set up if the checker's extensions hold its bit.
pub proof fn law_handler_is_run_for_the_visit(engine: EngineView, run: SequentialView)
    ensures
        run.request(engine) matches Request::Invoke { visit } ==> run.agenda.last()
            == TaskView::Visit(visit) && engine.contexts[visit.checker as int] is Some && (
        engine.checkers[visit.checker as int].extensions.bits % 2 == 1 ==> run.progress
            == Progress::Configured),
{
    lemma_heavy(engine, run);
}

proof fn lemma_heavy(engine: EngineView, run: SequentialView)
    ensures
        run.agenda.last() matches TaskView::Visit(visit) ==> engine.heavy(visit.checker as int) == (
        engine.checkers[visit.checker as int].extensions.bits % 2 == 1),
{
    if let TaskView::Visit(visit) = run.agenda.last() {
        law_heavy_is_the_bit(engine, visit.checker as int);
    }
}

/// A checker needs the decompiler exactly if the lowest bit of its extensions is set.
pub proof fn law_heavy_is_the_bit(engine: EngineView, index: int)
    ensures
        engine.heavy(index) <==> engine.checkers[index].extensions.bits % 2 == 1,
{
    let bits = engine.checkers[index].extensions.bits;
    assert(bits & 1u8 == 1u8 <==> bits % 2 == 1) by (bit_vector);
}

/// Whether `now` is `before` with `count` tasks in place of the one that was next, where nothing but
/// the agenda has changed.
pub open spec fn is_unfolded(before: SequentialView, now: SequentialView, count: nat) -> bool {
    &&& now.agenda.len() == before.agenda.len() - 1 + count
    &&& forall|i: int| 0 <= i < before.agenda.len() - 1 ==> now.agenda[i] == before.agenda[i]
    &&& now.skip == before.skip
    &&& now.decompiler == before.decompiler
    &&& now.progress == before.progress
    &&& now.checks == before.checks
    &&& now.failure == before.failure
}

/// The functions that a calls scope finds come next, one after the other, each to be looked at with
/// branches as calls exactly if the query said so.
pub proof fn law_targets_come_next(engine: EngineView, run: SequentialView, reply: Reply)
    requires
        fits(run.request(engine), reply),
        run.request(engine) is Targets,
        reply->Targets_0 is Ok,
    ensures
        ({
            let now = run.after(engine, reply);
            let found = reply->Targets_0->Ok_0;
            let group = run.request(engine)->Targets_group;
            &&& is_unfolded(run, now, found.functions@.len())
            &&& forall|j: int|
                0 <= j < found.functions@.len() ==> #[trigger] now.agenda[now.agenda.len() - 1 - j]
                    == (TaskView::Target {
                    group,
                    target: found.functions@[j],
                    with_jumps: found.with_jumps,
                })
        }),
{
}

/// The callers of a target come next, by their numbers, none of them admitted yet.
pub proof fn law_callers_come_next(engine: EngineView, run: SequentialView, reply: Reply)
    requires
        fits(run.request(engine), reply),
        run.request(engine) is Edges,
    ensures
        ({
            let now = run.after(engine, reply);
            let with_jumps = run.agenda.last()->Target_with_jumps;
            let callers = candidates_of(reply->Edges_0@, with_jumps);
            let group = run.request(engine)->Edges_group;
            &&& is_unfolded(run, now, callers.len())
            &&& forall|j: int|
                0 <= j < callers.len() ==> #[trigger] now.agenda[now.agenda.len() - 1 - j] == (
                TaskView::Caller {
                    group,
                    function: callers[j].function,
                    blocks: callers[j].blocks,
                    admitted: false,
                })
        }),
{
}

/// A caller that the filter of its scope admits is next, as it was but for that; one that it does
/// not admit is dropped.
pub proof fn law_filter_decides(engine: EngineView, run: SequentialView, reply: Reply)
    requires
        fits(run.request(engine), reply),
        run.request(engine) is Where,
        reply->Where_0 is Ok,
    ensures
        ({
            let now = run.after(engine, reply);
            let before = run.agenda.last();
            &&& !(reply->Where_0->Ok_0) ==> is_unfolded(run, now, 0)
            &&& reply->Where_0->Ok_0 ==> is_unfolded(run, now, 1) && now.agenda.last() == (
            TaskView::Caller {
                group: before->Caller_group,
                function: before->Caller_function,
                blocks: before->Caller_blocks,
                admitted: true,
            })
        }),
{
}

/// The visits of a group at the calls of a caller that was analysed come next, those of the checkers
/// that are skipped left out.
pub proof fn law_call_visits_come_next(engine: EngineView, run: SequentialView, reply: Reply)
    requires
        fits(run.request(engine), reply),
        run.request(engine) is Analyse,
    ensures
        ({
            let now = run.after(engine, reply);
            let before = run.agenda.last();
            let group = run.request(engine)->Analyse_group;
            let visits = engine.groups[group as int].call_visits(
                group,
                run.request(engine)->Analyse_function,
                before->Caller_blocks,
                run.skip,
            );
            &&& is_unfolded(run, now, visits.len())
            &&& forall|j: int|
                0 <= j < visits.len() ==> #[trigger] now.agenda[now.agenda.len() - 1 - j]
                    == TaskView::Visit(visits[j])
        }),
{
}

/// The visits of a group at the functions that were found come next; no checker is skipped there.
pub proof fn law_function_visits_come_next(engine: EngineView, run: SequentialView, reply: Reply)
    requires
        fits(run.request(engine), reply),
        run.request(engine) is Functions || run.request(engine) is AllFunctions,
        reply->Functions_0 is Ok,
    ensures
        ({
            let now = run.after(engine, reply);
            let group = run.agenda.last()->Scope_group;
            let visits = engine.groups[group as int].function_visits(
                group,
                reply->Functions_0->Ok_0@,
            );
            &&& is_unfolded(run, now, visits.len())
            &&& forall|j: int|
                0 <= j < visits.len() ==> #[trigger] now.agenda[now.agenda.len() - 1 - j]
                    == TaskView::Visit(visits[j])
        }),
{
}

/// A handler that was run is done with: what it found, if anything, is added at the end, put down to
/// the checker of the visit, and the next visit finds the decompiler not made ready.
pub proof fn law_findings_are_added(engine: EngineView, run: SequentialView, reply: Reply)
    requires
        fits(run.request(engine), reply),
        run.request(engine) is Invoke,
        reply->Invoked_0 is Ok,
    ensures
        ({
            let now = run.after(engine, reply);
            let visit = run.request(engine)->visit;
            &&& now.agenda == run.agenda.drop_last()
            &&& now.progress == Progress::Fresh
            &&& now.decompiler == run.decompiler
            &&& now.skip == run.skip
            &&& now.failure == run.failure
            &&& match reply->Invoked_0->Ok_0 {
                None => now.checks == run.checks,
                Some(found) => {
                    &&& now.checks.len() == run.checks.len() + 1
                    &&& now.checks.drop_last() == run.checks
                    &&& now.checks.last().rule == Some(visit.checker)
                    &&& now.checks.last().finding == found.finding
                },
            }
        }),
{
    let now = run.after(engine, reply);
    if reply->Invoked_0->Ok_0 is Some {
        assert(now.checks.drop_last() =~= run.checks);
    }
}

/// Making the decompiler ready changes nothing but how far it is: an empty one is there after it was
/// made or emptied, and it is ready once it has been set up.
pub proof fn law_decompiler_is_made_ready(engine: EngineView, run: SequentialView, reply: Reply)
    requires
        fits(run.request(engine), reply),
    ensures
        ({
            let now = run.after(engine, reply);
            &&& reply matches Reply::Decompiler(Ok(_)) ==> now == (SequentialView {
                agenda: run.agenda,
                skip: run.skip,
                decompiler: true,
                progress: Progress::Acquired,
                checks: run.checks,
                failure: run.failure,
            })
            &&& reply matches Reply::Configured(Ok(_)) ==> now == (SequentialView {
                agenda: run.agenda,
                skip: run.skip,
                decompiler: run.decompiler,
                progress: Progress::Configured,
                checks: run.checks,
                failure: run.failure,
            })
            &&& reply matches Reply::Context(Ok(_)) ==> now == run
        }),
{
}

/// An answer that says that something failed ends a run with that error, and changes nothing else.
pub proof fn law_errors_end_a_run(engine: EngineView, run: SequentialView, reply: Reply)
    requires
        fits(run.request(engine), reply),
    ensures
        ({
            let now = run.after(engine, reply);
            let error: Option<ErrorView> = match reply {
                Reply::Targets(Err(error)) => Some(error@),
                Reply::Where(Err(error)) => Some(error@),
                Reply::Functions(Err(error)) => Some(error@),
                Reply::Context(Err(error)) => Some(error@),
                Reply::Decompiler(Err(text)) => Some(
                    ErrorView { kind: ErrorKind::Decompiler, text: text@ },
                ),
                Reply::Configured(Err(error)) => Some(error@),
                Reply::Invoked(Err(error)) => Some(error@),
                _ => None,
            };
            &&& error is Some ==> now == (SequentialView {
                agenda: run.agenda,
                skip: run.skip,
                decompiler: run.decompiler,
                progress: run.progress,
                checks: run.checks,
                failure: error,
            })
            &&& error is None ==> now.failure is None
        }),
{
}

/// An answer changes of the engine nothing but the Lua state that was asked for, which is kept as
/// that of its checker; one that does not answer what was asked changes nothing at all.
pub proof fn law_answers_change_only_the_state(
    engine: EngineView,
    run: SequentialView,
    reply: Reply,
)
    requires
        engine.valid(),
        run.is_run_of(engine),
    ensures
        ({
            let now = run.engine_after(engine, reply);
            let made = run.request(engine) is Context && reply matches Reply::Context(Ok(_));
            &&& now.checkers == engine.checkers
            &&& now.groups == engine.groups
            &&& now.files == engine.files
            &&& now.symbols == engine.symbols
            &&& now.types == engine.types
            &&& now.architecture == engine.architecture
            &&& now.module_dir == engine.module_dir
            &&& now.decompiler_config == engine.decompiler_config
            &&& now.parallel == engine.parallel
            &&& !made ==> now.contexts == engine.contexts
            &&& made ==> {
                let checker = run.request(engine)->Context_checker as int;
                &&& now.contexts.len() == engine.contexts.len()
                &&& now.contexts[checker] == Some(reply->Context_0->Ok_0)
                &&& forall|i: int|
                    0 <= i < engine.contexts.len() && i != checker ==> now.contexts[i]
                        == engine.contexts[i]
            }
            &&& !fits(run.request(engine), reply) ==> run.after(engine, reply) == run
        }),
{
    if run.agenda.len() > 0 {
        assert(engine.can_have(run.agenda[run.agenda.len() - 1]));
    }
}

/// A search asks for the next task, and for nothing else: for the targets of a scope, for the edges
/// into a target, whether a caller is admitted, and, once it is, for its analysis.
pub proof fn law_searches_ask_for_the_next_task(engine: EngineView, search: SearchView)
    requires
        search.is_search_of(engine),
    ensures
        search.request() is Nothing <==> search.failure is Some || search.agenda.len() == 0,
        search.request() matches Request::Targets { group } ==> search.agenda.last()
            == (TaskView::Scope { group }) && engine.groups[group as int].key.kind
            == ScopeKind::Calls,
        search.request() matches Request::Edges { group, target } ==> (
        search.agenda.last() matches TaskView::Target { group: g, target: t, .. } && g == group && t
            == target),
        search.request() matches Request::Where { group, function } ==> (
        search.agenda.last() matches TaskView::Caller { group: g, function: f, admitted, .. } && g
            == group && f == function && !admitted),
        search.request() matches Request::Analyse { group, function } ==> (
        search.agenda.last() matches TaskView::Caller { group: g, function: f, admitted, .. } && g
            == group && f == function && admitted),
        !(search.request() is Functions),
        !(search.request() is AllFunctions),
        !(search.request() is Context),
        !(search.request() is CreateDecompiler),
        !(search.request() is ClearDecompiler),
        !(search.request() is ConfigureDecompiler),
        !(search.request() is Invoke),
{
    if search.agenda.len() > 0 {
        assert(engine.can_search(search.agenda[search.agenda.len() - 1]));
    }
}

/// What a search has found grows only at its end, and only when a caller was analysed: by visits of
/// that caller's group to calls that the caller makes, of checkers whose extensions do not hold the
/// decompiler's bit. Their checkers are taken down, and no others.
pub proof fn law_searches_take_down_light_visits(
    engine: EngineView,
    search: SearchView,
    reply: Reply,
)
    requires
        engine.valid(),
        search.is_search_of(engine),
    ensures
        ({
            let now = search.after(engine, reply);
            let before = search.items.len();
            &&& now.items.len() >= before
            &&& now.items.take(before as int) == search.items
            &&& !(search.request() is Analyse && reply is Analysed) ==> now.items == search.items
            &&& forall|i: int|
                before <= i < now.items.len() ==> {
                    let visit = #[trigger] now.items[i];
                    &&& visit.group == search.request()->Analyse_group
                    &&& visit.place matches Place::CallSite { function, block } && function
                        == search.request()->Analyse_function
                        && search.agenda.last()->Caller_blocks.contains(block)
                    &&& visit.checker == engine.groups[visit.group as int].members[visit.member as
                        int].checker
                    &&& engine.checkers[visit.checker as int].extensions.bits % 2 == 0
                }
            &&& forall|id: usize|
                now.processed.contains(id) <==> exists|i: int|
                    0 <= i < now.items.len() && (#[trigger] now.items[i]).checker == id
        }),
{
    let now = search.after(engine, reply);
    assert(now.items.take(search.items.len() as int) =~= search.items);
    lemma_stays_search(engine, search, reply);
    let ids = now.items.map_values(|visit: Visit| visit.checker);
    assert forall|id: usize| now.processed.contains(id) <==> exists|i: int|
        0 <= i < now.items.len() && (#[trigger] now.items[i]).checker == id by {
        if now.processed.contains(id) {
            let i = choose|i: int| 0 <= i < ids.len() && ids[i] == id;
            assert(now.items[i].checker == id);
        }
        if exists|i: int| 0 <= i < now.items.len() && (#[trigger] now.items[i]).checker == id {
            let i = choose|i: int|
                0 <= i < now.items.len() && (#[trigger] now.items[i]).checker == id;
            assert(ids[i] == id);
        }
    }
    if search.request() is Analyse && reply is Analysed {
        assert(engine.can_search(search.agenda[search.agenda.len() - 1]));
        let group = search.request()->Analyse_group;
        let function = search.request()->Analyse_function;
        let blocks = search.agenda.last()->Caller_blocks;
        let all = engine.groups[group as int].call_visits(group, function, blocks, Set::empty());
        let keep = |visit: Visit| !engine.heavy(visit.checker as int);
        let found = engine.light(all);
        law_call_visits_are_at_the_calls(
            engine.groups[group as int],
            group,
            function,
            blocks,
            Set::empty(),
        );
        assert forall|i: int| search.items.len() <= i < now.items.len() implies {
            let visit = #[trigger] now.items[i];
            &&& visit.group == group
            &&& visit.place matches Place::CallSite { function: f, block } && f == function
                && blocks.contains(block)
            &&& visit.checker == engine.groups[visit.group as int].members[visit.member as
                int].checker
            &&& engine.checkers[visit.checker as int].extensions.bits % 2 == 0
        } by {
            let k = i - search.items.len();
            assert(now.items[i] == found[k]);
            assert(all.filter(keep).contains(found[k]));
            all.lemma_filter_contains_rev(keep, found[k]);
            let j = choose|j: int| 0 <= j < all.len() && all[j] == found[k];
            assert(all[j].group == group);
            all.lemma_filter_pred(keep, k);
            law_heavy_is_the_bit(engine, found[k].checker as int);
        }
    }
}

/// Whether `now` is `before` with `count` tasks in place of the one that was next, where nothing but
/// the agenda has changed.
pub open spec fn is_search_unfolded(before: SearchView, now: SearchView, count: nat) -> bool {
    &&& now.agenda.len() == before.agenda.len() - 1 + count
    &&& forall|i: int| 0 <= i < before.agenda.len() - 1 ==> now.agenda[i] == before.agenda[i]
    &&& now.items == before.items
    &&& now.processed == before.processed
    &&& now.failure == before.failure
}

/// A search goes on as a run does: the functions that a scope finds come next, then the callers of
/// each, none of them admitted; a caller that the filter does not admit is dropped, and one that was
/// analysed is done with.
pub proof fn law_searches_go_from_targets_to_callers(
    engine: EngineView,
    search: SearchView,
    reply: Reply,
)
    requires
        fits(search.request(), reply),
    ensures
        ({
            let now = search.after(engine, reply);
            let next = search.agenda.last();
            &&& reply matches Reply::Targets(Ok(found)) ==> {
                &&& is_search_unfolded(search, now, found.functions@.len())
                &&& forall|j: int|
                    0 <= j < found.functions@.len() ==> #[trigger] now.agenda[now.agenda.len() - 1
                        - j] == (TaskView::Target {
                        group: next->Scope_group,
                        target: found.functions@[j],
                        with_jumps: found.with_jumps,
                    })
            }
            &&& reply matches Reply::Edges(edges) ==> {
                let callers = candidates_of(edges@, next->Target_with_jumps);
                &&& is_search_unfolded(search, now, callers.len())
                &&& forall|j: int|
                    0 <= j < callers.len() ==> #[trigger] now.agenda[now.agenda.len() - 1 - j] == (
                    TaskView::Caller {
                        group: next->Target_group,
                        function: callers[j].function,
                        blocks: callers[j].blocks,
                        admitted: false,
                    })
            }
            &&& reply matches Reply::Where(Ok(admitted)) ==> {
                &&& !admitted ==> is_search_unfolded(search, now, 0)
                &&& admitted ==> is_search_unfolded(search, now, 1) && now.agenda.last() == (
                TaskView::Caller {
                    group: next->Caller_group,
                    function: next->Caller_function,
                    blocks: next->Caller_blocks,
                    admitted: true,
                })
            }
            &&& reply is Analysed ==> {
                &&& now.agenda == search.agenda.drop_last()
                &&& now.failure == search.failure
            }
        }),
{
}

/// Once a caller was analysed, every member of its group whose checker does without the decompiler
/// has been taken down for every call that the caller makes.
pub proof fn law_searches_leave_out_no_light_visit(
    engine: EngineView,
    search: SearchView,
    reply: Reply,
    b: int,
    m: int,
)
    requires
        engine.valid(),
        search.is_search_of(engine),
        search.request() is Analyse,
        reply is Analysed,
        0 <= b < search.agenda.last()->Caller_blocks.len(),
        0 <= m < engine.groups[search.request()->Analyse_group as int].members.len(),
        engine.checkers[engine.groups[search.request()->Analyse_group as int].members[m].checker as
            int].extensions.bits % 2 == 0,
    ensures
        search.after(engine, reply).items.contains(
            Visit {
                group: search.request()->Analyse_group,
                member: m as usize,
                checker: engine.groups[search.request()->Analyse_group as int].members[m].checker,
                place: Place::CallSite {
                    function: search.request()->Analyse_function,
                    block: search.agenda.last()->Caller_blocks[b],
                },
            },
        ),
{
    assert(engine.can_search(search.agenda[search.agenda.len() - 1]));
    let index = search.request()->Analyse_group;
    let group = engine.groups[index as int];
    let function = search.request()->Analyse_function;
    let blocks = search.agenda.last()->Caller_blocks;
    let place = Place::CallSite { function, block: blocks[b] };
    let wanted = Visit { group: index, member: m as usize, checker: group.members[m].checker, place };
    let at = |block: u64| group.visits_at(index, Place::CallSite { function, block }, Set::empty());
    let keep = |visit: Visit| !engine.heavy(visit.checker as int);
    let all = group.call_visits(index, function, blocks, Set::empty());
    law_members_are_run_once_at_a_place(group, index, place, Set::empty());
    assert(!Set::<usize>::empty().contains(group.members[m].checker));
    let k = choose|k: int|
        0 <= k < at(blocks[b]).len() && (#[trigger] at(blocks[b])[k]).member == m;
    assert(at(blocks[b])[k] == wanted);
    lemma_flat_map_contains(blocks, at, b, k);
    let j = choose|j: int| 0 <= j < all.len() && all[j] == wanted;
    law_heavy_is_the_bit(engine, wanted.checker as int);
    assert(keep(all[j]));
    all.lemma_filter_contains(keep, j);
    let found = engine.light(all);
    assert(found.contains(wanted));
    let i = choose|i: int| 0 <= i < found.len() && found[i] == wanted;
    let now = search.after(engine, reply);
    assert(now.items[search.items.len() + i] == wanted);
}

/// An answer that says that something failed ends a search with that error; one that does not answer
/// what was asked changes nothing.
pub proof fn law_errors_end_a_search(engine: EngineView, search: SearchView, reply: Reply)
    ensures
        ({
            let now = search.after(engine, reply);
            &&& reply matches Reply::Targets(Err(error)) ==> search.request() is Targets ==> now == (
            SearchView {
                agenda: search.agenda,
                items: search.items,
                processed: search.processed,
                failure: Some(error@),
            })
            &&& reply matches Reply::Where(Err(error)) ==> search.request() is Where ==> now == (
            SearchView {
                agenda: search.agenda,
                items: search.items,
                processed: search.processed,
                failure: Some(error@),
            })
            &&& now.failure != search.failure ==> reply is Targets || reply is Where
            &&& !fits(search.request(), reply) ==> now == search
        }),
{
}

/// A run starts with the first group and goes through the groups in their order; a project scope is
/// made up of its visits, any other is to be searched. Nothing has been found or made yet.
pub proof fn law_runs_start_with_all_groups(engine: EngineView, skip: Set<usize>)
    requires
        engine.valid(),
    ensures
        ({
            let run = fresh_run(engine, skip);
            &&& run.skip == skip
            &&& !run.decompiler
            &&& run.progress == Progress::Fresh
            &&& run.checks.len() == 0
            &&& run.failure is None
            &&& run.agenda.len() == tasks_before(engine, engine.groups.len() as int).len()
            &&& forall|j: int|
                0 <= j < run.agenda.len() ==> run.agenda[run.agenda.len() - 1 - j] == (
                #[trigger] tasks_before(engine, engine.groups.len() as int)[j])
        }),
{
    lemma_all_tasks(engine, engine.groups.len() as int);
    assert(engine.group_places().take(engine.groups.len() as int) =~= engine.group_places());
}

/// What a run has to do for the groups before `count`, one group after the other.
pub open spec fn tasks_before(engine: EngineView, count: int) -> Seq<TaskView>
    decreases count,
{
    if count <= 0 {
        Seq::empty()
    } else {
        let group = (count - 1) as usize;
        let before = tasks_before(engine, count - 1);
        match engine.groups[count - 1].key.kind {
            ScopeKind::ProjectWith => {
                let visits = engine.groups[count - 1].visits_at(
                    group,
                    Place::Project,
                    Set::empty(),
                );
                before + Seq::new(visits.len(), |i: int| TaskView::Visit(visits[i]))
            },
            _ => before.push(TaskView::Scope { group }),
        }
    }
}

proof fn lemma_all_tasks(engine: EngineView, count: int)
    requires
        engine.valid(),
        0 <= count <= engine.groups.len(),
    ensures
        engine.group_places().take(count).flat_map(|group: usize| engine.opening_tasks(group))
            == tasks_before(engine, count),
    decreases count,
{
    let places = engine.group_places();
    let opening = |group: usize| engine.opening_tasks(group);
    if count == 0 {
        assert(places.take(0).flat_map(opening) =~= Seq::<TaskView>::empty());
    } else {
        lemma_all_tasks(engine, count - 1);
        places.lemma_flat_map_take_append(opening, count - 1);
        let own = opening(places[count - 1]);
        assert(tasks_before(engine, count) =~= tasks_before(engine, count - 1) + own);
    }
}

/// A search starts with the first group that has a calls scope and goes through those groups in
/// their order. Nothing has been found yet.
pub proof fn law_searches_start_with_calls_scopes(engine: EngineView)
    requires
        engine.valid(),
    ensures
        ({
            let search = fresh_search(engine);
            &&& search.items.len() == 0
            &&& search.failure is None
            &&& forall|id: usize| !search.processed.contains(id)
            &&& forall|i: int|
                0 <= i < search.agenda.len() ==> ((#[trigger] search.agenda[i]) matches
                    TaskView::Scope { group } && group < engine.groups.len()
                    && engine.groups[group as int].key.kind == ScopeKind::Calls)
            &&& forall|i: int, j: int|
                0 <= i < j < search.agenda.len() ==> (#[trigger] search.agenda[i])->Scope_group > (
                #[trigger] search.agenda[j])->Scope_group
            &&& forall|g: int|
                0 <= g < engine.groups.len() && (#[trigger] engine.groups[g]).key.kind
                    == ScopeKind::Calls ==> search.agenda.contains(
                    TaskView::Scope { group: g as usize },
                )
        }),
{
    let count = engine.groups.len() as int;
    lemma_calls_tasks(engine, count);
    let places = engine.group_places();
    assert(places.take(count) =~= places);
    let tasks = engine.all_parallel_tasks();
    let agenda = fresh_search(engine).agenda;
    assert(agenda =~= tasks.reverse());
    assert forall|i: int| 0 <= i < agenda.len() implies ((#[trigger] agenda[i]) matches
        TaskView::Scope { group } && group < engine.groups.len() && engine.groups[group as
        int].key.kind == ScopeKind::Calls) by {
        assert(agenda[i] == tasks[tasks.len() - 1 - i]);
    }
    assert forall|i: int, j: int| 0 <= i < j < agenda.len() implies (
    #[trigger] agenda[i])->Scope_group > (#[trigger] agenda[j])->Scope_group by {
        assert(agenda[i] == tasks[tasks.len() - 1 - i]);
        assert(agenda[j] == tasks[tasks.len() - 1 - j]);
    }
    assert forall|g: int|
        0 <= g < engine.groups.len() && (#[trigger] engine.groups[g]).key.kind
            == ScopeKind::Calls implies agenda.contains(TaskView::Scope { group: g as usize }) by {
        let task = TaskView::Scope { group: g as usize };
        assert(tasks.contains(task));
        let k = choose|k: int| 0 <= k < tasks.len() && tasks[k] == task;
        assert(agenda[agenda.len() - 1 - k] == task);
    }
}

proof fn lemma_calls_tasks(engine: EngineView, count: int)
    requires
        engine.valid(),
        0 <= count <= engine.groups.len(),
    ensures
        ({
            let tasks = engine.group_places().take(count).flat_map(
                |group: usize| engine.parallel_tasks(group),
            );
            &&& forall|i: int|
                0 <= i < tasks.len() ==> ((#[trigger] tasks[i]) matches TaskView::Scope { group }
                    && group < count && engine.groups[group as int].key.kind == ScopeKind::Calls)
            &&& forall|i: int, j: int|
                0 <= i < j < tasks.len() ==> (#[trigger] tasks[i])->Scope_group < (
                #[trigger] tasks[j])->Scope_group
            &&& forall|g: int|
                0 <= g < count && (#[trigger] engine.groups[g]).key.kind == ScopeKind::Calls
                    ==> tasks.contains(TaskView::Scope { group: g as usize })
        }),
    decreases count,
{
    let places = engine.group_places();
    let opening = |group: usize| engine.parallel_tasks(group);
    let tasks = places.take(count).flat_map(opening);
    if count == 0 {
        assert(tasks =~= Seq::<TaskView>::empty());
    } else {
        let before = places.take(count - 1).flat_map(opening);
        lemma_calls_tasks(engine, count - 1);
        places.lemma_flat_map_take_append(opening, count - 1);
        let own = opening(places[count - 1]);
        assert(tasks == before + own);
        assert forall|g: int|
            0 <= g < count && (#[trigger] engine.groups[g]).key.kind
                == ScopeKind::Calls implies tasks.contains(
            TaskView::Scope { group: g as usize },
        ) by {
            let task = TaskView::Scope { group: g as usize };
            if g < count - 1 {
                assert(before.contains(task));
                let k = choose|k: int| 0 <= k < before.len() && before[k] == task;
                assert(tasks[k] == task);
            } else {
                assert(own[0] == task);
                assert(tasks[before.len() as int] == task);
            }
        }
    }
}

} // verus!
