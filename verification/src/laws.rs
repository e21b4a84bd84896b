//! What holds of every run of the engine.
use vstd::prelude::*;

use crate::agenda::{Reply, Request, TaskView, Visit, fits};
use crate::caches::{
    CacheReply, CacheView, fits_cache, has_mappings, law_all_ready_means_all_mappings,
    law_caches_are_complete,
};
use crate::drive::state_after;
use crate::engine::EngineView;
use crate::error::{ErrorKind, error_of};
use crate::parallel::fresh_search;
use crate::result::CheckResult;
use crate::run::{
    RunReply, RunRequest, RunView, are_results_of, concluded, lemma_settled, lemma_stays_run,
    new_run,
};
use crate::sequential::{SequentialView, fresh_run};

verus! {

/// A Lua state is made only for a checker that has none, and once a checker has one, it is kept: no
/// answer takes it away or puts another one in its place.
pub proof fn law_states_are_kept(engine: EngineView, run: SequentialView, reply: Reply)
    requires
        engine.valid(),
        run.is_run_of(engine),
    ensures
        run.request(engine) matches Request::Context { checker } ==> checker
            < engine.contexts.len() && engine.contexts[checker as int] is None,
        forall|i: int|
            0 <= i < engine.contexts.len() && (#[trigger] engine.contexts[i]) is Some
                ==> run.engine_after(engine, reply).contexts[i] == engine.contexts[i],
{
    if run.agenda.len() > 0 {
        assert(engine.can_have(run.agenda[run.agenda.len() - 1]));
    }
}

/// A handler is run only in a Lua state that has been made for its checker and, if the checker needs
/// the decompiler, with a decompiler that has been set up. The decompiler is touched only for a
/// checker that needs it.
pub proof fn law_visits_are_prepared(engine: EngineView, run: SequentialView)
    requires
        engine.valid(),
        run.is_run_of(engine),
    ensures
        run.request(engine) matches Request::Invoke { visit } ==> engine.can_make(visit)
            && engine.contexts[visit.checker as int] is Some && (engine.heavy(visit.checker as int)
            ==> run.progress is Configured),
        (run.request(engine) is CreateDecompiler || run.request(engine) is ClearDecompiler
            || run.request(engine) is ConfigureDecompiler) ==> (run.agenda.last() matches
            TaskView::Visit(visit) && engine.heavy(visit.checker as int)),
{
    if run.agenda.len() > 0 {
        assert(engine.can_have(run.agenda[run.agenda.len() - 1]));
    }
}

/// A run makes at most one decompiler: it asks for one only while it has none, and never gives one
/// up.
pub proof fn law_one_decompiler(engine: EngineView, run: SequentialView, reply: Reply)
    ensures
        run.request(engine) is CreateDecompiler ==> !run.decompiler,
        run.decompiler ==> run.after(engine, reply).decompiler,
        run.request(engine) is ClearDecompiler ==> run.decompiler,
{
}

/// A run that is not finished needs something.
pub proof fn law_unfinished_runs_need_something(engine: EngineView, run: RunView)
    requires
        engine.valid(),
        run.is_run_of(engine),
    ensures
        match run.request(engine) {
            RunRequest::Cache(request) => !(request is Nothing),
            RunRequest::Step(request) => !(request is Nothing),
            RunRequest::Dispatch => true,
            RunRequest::Nothing => run is Finished,
        },
{
    match run {
        RunView::Searching(search) => {
            assert(engine.can_search(search.agenda[search.agenda.len() - 1]));
        },
        RunView::Running { run, .. } => {
            assert(engine.can_have(run.agenda[run.agenda.len() - 1]));
        },
        _ => {},
    }
}

/// The first error ends a run, and is what comes of it.
pub proof fn law_first_error_ends_run(engine: EngineView, run: RunView, reply: RunReply)
    requires
        run.accepts(engine, reply),
    ensures
        match reply {
            RunReply::Cache(CacheReply::Symbols(Err(text))) => run.after(
                engine,
                reply,
            ) == RunView::Finished(Err(error_of(ErrorKind::Signatures, text@))),
            RunReply::Cache(CacheReply::Types(Err(text))) => run.after(engine, reply)
                == RunView::Finished(Err(error_of(ErrorKind::Types, text@))),
            RunReply::Step(Reply::Targets(Err(error))) => run.after(engine, reply)
                == RunView::Finished(Err(error@)),
            RunReply::Step(Reply::Where(Err(error))) => run.after(engine, reply)
                == RunView::Finished(Err(error@)),
            RunReply::Step(Reply::Functions(Err(error))) => run.after(engine, reply)
                == RunView::Finished(Err(error@)),
            RunReply::Step(Reply::Context(Err(error))) => run.after(engine, reply)
                == RunView::Finished(Err(error@)),
            RunReply::Step(Reply::Decompiler(Err(text))) => run.after(engine, reply)
                == RunView::Finished(Err(error_of(ErrorKind::Decompiler, text@))),
            RunReply::Step(Reply::Configured(Err(error))) => run.after(engine, reply)
                == RunView::Finished(Err(error@)),
            RunReply::Step(Reply::Invoked(Err(error))) => run.after(engine, reply)
                == RunView::Finished(Err(error@)),
            RunReply::Dispatched(Err(error)) => run.after(engine, reply) == RunView::Finished(
                Err(error@),
            ),
            _ => true,
        },
{
}

/// Whether each of `checks` is put down to a checker of `engine`.
pub open spec fn name_checkers(engine: EngineView, checks: Seq<CheckResult>) -> bool {
    forall|i: int|
        0 <= i < checks.len() ==> ((#[trigger] checks[i]).rule matches Some(rule) && rule
            < engine.checkers.len())
}

/// Whether all that `run` has found is put down to checkers of `engine`.
pub open spec fn is_put_down(engine: EngineView, run: RunView) -> bool {
    match run {
        RunView::Running { found, run } => name_checkers(engine, found) && name_checkers(
            engine,
            run.checks,
        ),
        RunView::Finished(Ok(checks)) => name_checkers(engine, checks),
        _ => true,
    }
}

proof fn lemma_stays_put_down(engine: EngineView, run: RunView, reply: RunReply)
    requires
        engine.valid(),
        run.is_run_of(engine),
        is_put_down(engine, run),
    ensures
        is_put_down(run.engine_after(engine, reply), run.after(engine, reply)),
        run.engine_after(engine, reply).checkers == engine.checkers,
{
    let next = run.engine_after(engine, reply);
    match (run, reply) {
        (RunView::Dispatching { items, .. }, RunReply::Dispatched(Ok(results))) => {
            if run.accepts(engine, reply) {
                let found = concluded(items, results@);
                assert forall|i: int| 0 <= i < found.len() implies ((
                #[trigger] found[i]).rule matches Some(rule) && rule < engine.checkers.len()) by {
                    assert(results[i].item < items.len());
                    assert(engine.can_make(items[results[i].item as int]));
                }
            }
        },
        (RunView::Running { found, run }, RunReply::Step(reply)) => {
            if run.agenda.len() > 0 {
                assert(engine.can_have(run.agenda[run.agenda.len() - 1]));
            }
            let checks = run.after(engine, reply).checks;
            assert(name_checkers(next, checks));
            assert(name_checkers(next, found + checks));
        },
        _ => {},
    }
}

proof fn lemma_put_down(engine: EngineView, replies: Seq<RunReply>)
    requires
        engine.valid(),
    ensures
        ({
            let (next, run) = state_after(engine, new_run(engine), replies);
            &&& next.valid()
            &&& next.checkers == engine.checkers
            &&& run.is_run_of(next)
            &&& is_put_down(next, run)
        }),
    decreases replies.len(),
{
    if replies.len() == 0 {
        lemma_settled(
            engine,
            RunView::Caches(CacheView { merging: None, failure: None }),
        );
    } else {
        let (asking, asked) = state_after(engine, new_run(engine), replies.drop_last());
        lemma_put_down(engine, replies.drop_last());
        lemma_stays_run(asking, asked, replies.last());
        lemma_stays_put_down(asking, asked, replies.last());
    }
}

/// Whatever a run is answered, each result that comes of it is put down to a checker of the engine.
pub proof fn law_results_name_checkers(
    engine: EngineView,
    replies: Seq<RunReply>,
    checks: Seq<CheckResult>,
)
    requires
        engine.valid(),
        state_after(engine, new_run(engine), replies).1 == RunView::Finished(Ok(checks)),
    ensures
        name_checkers(engine, checks),
{
    lemma_put_down(engine, replies);
}

/// What a run asks for is what the part of it asks for that is under way; once it is finished it
/// asks for nothing.
pub proof fn law_runs_ask_for_their_part(engine: EngineView, run: RunView)
    ensures
        run.request(engine) matches RunRequest::Cache(request) ==> (run matches RunView::Caches(
            build,
        ) && request == build.request(engine)),
        run.request(engine) matches RunRequest::Step(request) ==> match run {
            RunView::Searching(search) => request == search.request(),
            RunView::Running { run, .. } => request == run.request(engine),
            _ => false,
        },
        run.request(engine) is Dispatch <==> run is Dispatching,
        run.request(engine) is Nothing <==> run is Finished,
{
}

/// An answer is taken exactly if it is one to what was asked: of the visits that were made in
/// parallel each may have at most one result, and no other visit may have one.
pub proof fn law_runs_take_answers_to_what_they_asked(
    engine: EngineView,
    run: RunView,
    reply: RunReply,
)
    ensures
        run.accepts(engine, reply) <==> match reply {
            RunReply::Cache(reply) => run matches RunView::Caches(build) && fits_cache(
                build.request(engine),
                reply,
            ),
            RunReply::Step(reply) => match run {
                RunView::Searching(search) => fits(search.request(), reply),
                RunView::Running { run, .. } => fits(run.request(engine), reply),
                _ => false,
            },
            RunReply::Dispatched(Err(_)) => run is Dispatching,
            RunReply::Dispatched(Ok(results)) => run matches RunView::Dispatching { items, .. } && {
                &&& forall|k: int|
                    0 <= k < results@.len() ==> (#[trigger] results@[k]).item < items.len()
                &&& forall|k: int, l: int|
                    0 <= k < results@.len() && 0 <= l < results@.len() && (
                    #[trigger] results@[k]).item == (#[trigger] results@[l]).item ==> k == l
            },
        },
        !run.accepts(engine, reply) ==> run.after(engine, reply) == run,
{
    if let RunReply::Dispatched(Ok(results)) = reply {
        if let RunView::Dispatching { items, .. } = run {
            let distinct = forall|k: int, l: int|
                0 <= k < results@.len() && 0 <= l < results@.len() && (#[trigger] results@[k]).item
                    == (#[trigger] results@[l]).item ==> k == l;
            if are_results_of(items, results@) {
                assert(distinct) by {
                    assert forall|k: int, l: int|
                        0 <= k < results@.len() && 0 <= l < results@.len() && (
                        #[trigger] results@[k]).item == (#[trigger] results@[l]).item implies k
                        == l by {
                        if k < l {
                            assert(results@[k].item != results@[l].item);
                        }
                        if l < k {
                            assert(results@[l].item != results@[k].item);
                        }
                    }
                }
            }
        }
    }
}

/// The results of the visits that were made in parallel are kept in the order in which they came,
/// each put down to the checker of its own visit; the rest is then run without those checkers at
/// call sites.
pub proof fn law_parallel_results_are_put_down(engine: EngineView, run: RunView, reply: RunReply)
    requires
        run is Dispatching,
        run.accepts(engine, reply),
        reply->Dispatched_0 is Ok,
    ensures
        ({
            let results = reply->Dispatched_0->Ok_0@;
            let items = run->items;
            let found = concluded(items, results);
            &&& run.stepped(engine, reply) == (RunView::Running {
                found,
                run: fresh_run(engine, run->processed),
            })
            &&& found.len() == results.len()
            &&& forall|k: int|
                0 <= k < found.len() ==> (#[trigger] found[k]).rule == Some(
                    items[results[k].item as int].checker,
                ) && found[k].finding == results[k].result.finding
        }),
{
}

/// What comes of a run is what was found in parallel, followed by what was found one after the
/// other; it is given once nothing is left to do.
pub proof fn law_results_come_parallel_first(
    engine: EngineView,
    found: Seq<CheckResult>,
    run: SequentialView,
)
    ensures
        ({
            let now = (RunView::Running { found, run }).settled(engine);
            &&& run.failure is None && run.agenda.len() > 0 ==> now == (RunView::Running {
                found,
                run,
            })
            &&& run.failure is None && run.agenda.len() == 0 ==> (now matches RunView::Finished(
                Ok(checks),
            ) && checks.len() == found.len() + run.checks.len() && checks.take(found.len() as int)
                == found && checks.skip(found.len() as int) == run.checks)
            &&& run.failure matches Some(error) ==> now == RunView::Finished(Err(error))
        }),
{
    let all = found + run.checks;
    assert(all.take(found.len() as int) =~= found);
    assert(all.skip(found.len() as int) =~= run.checks);
}

/// An engine that does not run in parallel never looks for parallel work, and never has any done.
pub proof fn law_without_parallel_nothing_is_dispatched(
    engine: EngineView,
    run: RunView,
    reply: RunReply,
)
    requires
        !engine.parallel,
        !(run is Searching),
        !(run is Dispatching),
    ensures
        !(run.after(engine, reply) is Searching),
        !(run.after(engine, reply) is Dispatching),
        !(run.request(engine) is Dispatch),
        !(new_run(engine) is Searching),
        !(new_run(engine) is Dispatching),
        !run.engine_after(engine, reply).parallel,
{
}

/// An engine that runs in parallel looks for parallel work once the mappings have been built, and
/// runs its checkers only once that search has ended: after the results of the visits that it found,
/// and without their checkers at call sites, or, if it found none, without leaving out any.
pub proof fn law_parallel_work_comes_first(engine: EngineView, run: RunView)
    requires
        engine.parallel,
    ensures
        ({
            let now = run.settled(engine);
            &&& run matches RunView::Caches(build) ==> build.failure is None && !(now is Caches)
                ==> run.past_caches(engine) == RunView::Searching(fresh_search(engine))
            &&& run matches RunView::Searching(search) ==> {
                &&& search.failure is None && search.agenda.len() > 0 ==> now == run
                &&& search.failure is None && search.agenda.len() == 0 && search.items.len() > 0
                    ==> now == (RunView::Dispatching {
                    items: search.items,
                    processed: search.processed,
                })
                &&& now matches RunView::Running { found, run: visiting } ==> {
                    &&& search.items.len() == 0
                    &&& found.len() == 0
                    &&& visiting == fresh_run(engine, Set::empty())
                }
                &&& search.failure matches Some(error) ==> now == RunView::Finished(Err(error))
            }
            &&& run is Dispatching ==> now == run
        }),
{
}

/// An engine that does not run in parallel runs its checkers once the mappings have been built: it
/// starts with nothing found, and leaves no checker out at call sites.
pub proof fn law_without_parallel_no_checker_is_left_out(engine: EngineView, build: CacheView)
    requires
        !engine.parallel,
        build.failure is None,
        build.merging is None,
        forall|group: int|
            0 <= group < engine.groups.len() ==> #[trigger] has_mappings(engine, group),
    ensures
        ({
            let run = RunView::Caches(build).past_caches(engine);
            &&& run matches RunView::Running { found, run: visiting } && found.len() == 0
                && visiting == fresh_run(engine, Set::empty())
            &&& RunView::Caches(build).settled(engine) == run.past_visits()
        }),
{
    law_caches_are_complete(build, engine);
    law_all_ready_means_all_mappings(engine);
}

/// An answer goes to the part of a run that is under way, and what that part makes of it is what the
/// run goes on with; of the engine it changes what that part changes.
pub proof fn law_answers_go_to_the_part_under_way(engine: EngineView, run: RunView, reply: RunReply)
    requires
        run.accepts(engine, reply),
    ensures
        run matches RunView::Caches(build) ==> {
            let given = reply->Cache_0;
            &&& run.engine_after(engine, reply) == build.engine_after(engine, given)
            &&& run.after(engine, reply) == RunView::Caches(build.after(engine, given)).settled(
                build.engine_after(engine, given),
            )
        },
        run matches RunView::Searching(search) ==> {
            &&& run.engine_after(engine, reply) == engine
            &&& run.after(engine, reply) == RunView::Searching(
                search.after(engine, reply->Step_0),
            ).settled(engine)
        },
        run matches RunView::Running { found, run: visiting } ==> {
            let given = reply->Step_0;
            &&& run.engine_after(engine, reply) == visiting.engine_after(engine, given)
            &&& run.after(engine, reply) == (RunView::Running {
                found,
                run: visiting.after(engine, given),
            }).settled(visiting.engine_after(engine, given))
        },
        run is Dispatching ==> run.engine_after(engine, reply) == engine,
{
}

/// A run starts with the mappings, and goes on to anything else only once all groups have theirs; an
/// error while they are built is what comes of it.
pub proof fn law_mappings_come_first(engine: EngineView, build: CacheView)
    ensures
        ({
            let now = RunView::Caches(build).settled(engine);
            let ready = forall|group: int|
                0 <= group < engine.groups.len() ==> #[trigger] has_mappings(engine, group);
            &&& build.failure is None && (build.merging is Some || !ready) ==> now
                == RunView::Caches(build)
            &&& build.failure is None && build.merging is None && ready ==> !(now is Caches)
            &&& build.failure matches Some(error) ==> now == RunView::Finished(Err(error))
            &&& new_run(engine) == RunView::Caches(
                CacheView { merging: None, failure: None },
            ).settled(engine)
        }),
{
    law_caches_are_complete(build, engine);
    law_all_ready_means_all_mappings(engine);
}

} // verus!
