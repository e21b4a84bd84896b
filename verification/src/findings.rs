//! What a run finds, whether or not it runs in parallel.
use vstd::prelude::*;
use vstd::seq_lib::lemma_multiset_commutative;

use crate::agenda::{Reply, Request, Visit};
use crate::caches::CacheView;
use crate::coverage::{
    law_run_makes_each_visit_once, lemma_same_plan, project_says_to_run, run_visits, visits_by,
};
use crate::drive::state_after;
use crate::engine::EngineView;
use crate::plan::{Project, visit_made};
use crate::result::CheckResult;
use crate::run::{RunReply, RunView, WorkResult, are_results_of, concluded, new_run};
use crate::seqs::{lemma_filter_same, lemma_flat_map_concat};
use crate::sequential::SequentialView;

verus! {

impl Project {
    /// What is found at `visit`, put down to its checker.
    pub open spec fn finding(self, visit: Visit) -> Seq<CheckResult> {
        match (self.finds)(visit) {
            Some(finding) => seq![CheckResult { rule: Some(visit.checker), finding }],
            None => Seq::empty(),
        }
    }

    /// What is found at `visits`, one after the other.
    pub open spec fn findings(self, visits: Seq<Visit>) -> Seq<CheckResult> {
        visits.flat_map(|visit: Visit| self.finding(visit))
    }
}

proof fn lemma_findings_concat(project: Project, a: Seq<Visit>, b: Seq<Visit>)
    ensures
        project.findings(a + b) == project.findings(a) + project.findings(b),
{
    lemma_flat_map_concat(a, b, |visit: Visit| project.finding(visit));
}

proof fn lemma_findings_push(project: Project, visits: Seq<Visit>, visit: Visit)
    ensures
        project.findings(visits.push(visit)) == project.findings(visits) + project.finding(visit),
{
    visits.lemma_flat_map_push(|visit: Visit| project.finding(visit), visit);
}

/// What a dispatch gives is what is found at its visits, whatever the order in which it comes.
proof fn lemma_work_findings(project: Project, items: Seq<Visit>, results: Seq<WorkResult>)
    requires
        are_results_of(items, results),
        project.finds_in(items, results),
    ensures
        concluded(items, results).to_multiset() == project.findings(items).to_multiset(),
    decreases items.len(),
{
    if items.len() == 0 {
        if results.len() > 0 {
            assert(results[0].item < items.len());
        }
        assert(concluded(items, results) =~= project.findings(items));
    } else {
        let rest = items.drop_last();
        let visit = items.last();
        let last = items.len() - 1;
        assert(rest.push(visit) =~= items);
        lemma_findings_push(project, rest, visit);
        if (project.finds)(visit) is None {
            assert forall|k: int| 0 <= k < results.len() implies (#[trigger] results[k]).item
                < rest.len() by {
                assert((project.finds)(items[results[k].item as int]) is Some);
            }
            lemma_fewer_items(project, items, results);
            lemma_work_findings(project, rest, results);
            assert(concluded(items, results) =~= concluded(rest, results));
            assert(project.findings(items) =~= project.findings(rest));
        } else {
            assert((project.finds)(items[last]) is Some);
            let k = choose|k: int| 0 <= k < results.len() && (#[trigger] results[k]).item == last;
            let others = results.remove(k);
            lemma_one_removed(project, items, results, k);
            lemma_work_findings(project, rest, others);
            let all = concluded(items, results);
            assert(all.remove(k) =~= concluded(rest, others));
            all.to_multiset_ensures();
            assert(all.contains(all[k]));
            assert(all.to_multiset() =~= concluded(rest, others).to_multiset().insert(all[k]));
            project.findings(rest).to_multiset_ensures();
            assert(project.findings(items) =~= project.findings(rest).push(all[k]));
        }
    }
}

proof fn lemma_fewer_items(project: Project, items: Seq<Visit>, results: Seq<WorkResult>)
    requires
        items.len() > 0,
        are_results_of(items, results),
        project.finds_in(items, results),
        forall|k: int|
            0 <= k < results.len() ==> (#[trigger] results[k]).item < items.drop_last().len(),
    ensures
        are_results_of(items.drop_last(), results),
        project.finds_in(items.drop_last(), results),
{
    let rest = items.drop_last();
    assert forall|i: int|
        0 <= i < rest.len() && (project.finds)(#[trigger] rest[i]) is Some implies exists|k: int|
        0 <= k < results.len() && (#[trigger] results[k]).item == i by {
        assert(rest[i] == items[i]);
    }
    assert forall|k: int| 0 <= k < results.len() implies (project.finds)(
        rest[(#[trigger] results[k]).item as int],
    ) == Some(results[k].result.finding) by {
        assert(rest[results[k].item as int] == items[results[k].item as int]);
    }
}

proof fn lemma_one_removed(
    project: Project,
    items: Seq<Visit>,
    results: Seq<WorkResult>,
    k: int,
)
    requires
        items.len() > 0,
        are_results_of(items, results),
        project.finds_in(items, results),
        0 <= k < results.len(),
        results[k].item == items.len() - 1,
    ensures
        are_results_of(items.drop_last(), results.remove(k)),
        project.finds_in(items.drop_last(), results.remove(k)),
{
    let rest = items.drop_last();
    let others = results.remove(k);
    assert forall|j: int| 0 <= j < others.len() implies (#[trigger] others[j]).item
        < rest.len() && (project.finds)(rest[others[j].item as int]) == Some(
        others[j].result.finding,
    ) by {
        let old = if j < k {
            j
        } else {
            j + 1
        };
        assert(others[j] == results[old]);
        assert(results[old].item != results[k].item);
        assert(rest[results[old].item as int] == items[results[old].item as int]);
    }
    assert forall|i: int, j: int| 0 <= i < j < others.len() implies (#[trigger] others[i]).item != (
    #[trigger] others[j]).item by {
        let old_i = if i < k {
            i
        } else {
            i + 1
        };
        let old_j = if j < k {
            j
        } else {
            j + 1
        };
        assert(others[i] == results[old_i] && others[j] == results[old_j]);
        assert(results[old_i].item != results[old_j].item);
    }
    assert forall|i: int|
        0 <= i < rest.len() && (project.finds)(#[trigger] rest[i]) is Some implies exists|j: int|
        0 <= j < others.len() && (#[trigger] others[j]).item == i by {
        assert(rest[i] == items[i]);
        let old = choose|j: int| 0 <= j < results.len() && (#[trigger] results[j]).item == i;
        let j = if old < k {
            old
        } else {
            old - 1
        };
        assert(old != k);
        assert(others[j] == results[old]);
    }
}

/// What is found at the visits that a test keeps and at those that it drops is what is found at all.
proof fn lemma_findings_both(project: Project, visits: Seq<Visit>, keep: spec_fn(Visit) -> bool)
    ensures
        project.findings(
            visits.filter(keep) + visits.filter(|visit: Visit| !keep(visit)),
        ).to_multiset() == project.findings(visits).to_multiset(),
    decreases visits.len(),
{
    let leave = |visit: Visit| !keep(visit);
    lemma_findings_concat(project, visits.filter(keep), visits.filter(leave));
    lemma_multiset_commutative(
        project.findings(visits.filter(keep)),
        project.findings(visits.filter(leave)),
    );
    if visits.len() == 0 {
        reveal(Seq::filter);
        assert(visits.filter(keep) + visits.filter(leave) =~= visits);
    } else {
        let rest = visits.drop_last();
        let visit = visits.last();
        assert(rest.push(visit) =~= visits);
        rest.lemma_filter_push(visit, keep);
        rest.lemma_filter_push(visit, leave);
        lemma_findings_both(project, rest, keep);
        let kept = project.findings(rest.filter(keep));
        let left = project.findings(rest.filter(leave));
        let own = project.finding(visit);
        lemma_findings_concat(project, rest.filter(keep), rest.filter(leave));
        lemma_multiset_commutative(kept, left);
        lemma_findings_push(project, rest, visit);
        lemma_multiset_commutative(project.findings(rest), own);
        lemma_findings_push(project, rest.filter(keep), visit);
        lemma_findings_push(project, rest.filter(leave), visit);
        lemma_multiset_commutative(kept, own);
        lemma_multiset_commutative(left, own);
        let k = kept.to_multiset();
        let l = left.to_multiset();
        let o = own.to_multiset();
        assert(k.add(l).add(o) =~= k.add(o).add(l));
        assert(k.add(l).add(o) =~= k.add(l.add(o)));
    }
}

/// What `run` has found.
pub open spec fn found_by(run: RunView) -> Seq<CheckResult> {
    match run {
        RunView::Running { found, run } => found + run.checks,
        RunView::Finished(Ok(checks)) => checks,
        _ => Seq::empty(),
    }
}

/// Getting past what has ended changes nothing of what a run has found.
proof fn lemma_settled_findings(engine: EngineView, run: RunView)
    ensures
        run.settled(engine) matches RunView::Finished(Err(_)) || found_by(run.settled(engine))
            == found_by(run),
{
    let first = run.past_caches(engine);
    let second = first.past_search(engine);
    let none = Seq::<CheckResult>::empty();
    assert(none + none =~= none);
    assert(first matches RunView::Finished(Err(_)) || found_by(first) == found_by(run));
    assert(second matches RunView::Finished(Err(_)) || found_by(second) == found_by(first));
}

proof fn lemma_visit_findings(
    project: Project,
    engine: EngineView,
    run: SequentialView,
    reply: Reply,
)
    requires
        project.answers(run.request(engine), reply),
        run.after(engine, reply).failure is None,
    ensures
        run.after(engine, reply).checks == run.checks + project.findings(
            visit_made(engine, run, reply),
        ),
{
    let none = Seq::<Visit>::empty();
    let made = visit_made(engine, run, reply);
    assert(project.findings(none) =~= Seq::<CheckResult>::empty());
    if let (Request::Invoke { visit }, Reply::Invoked(Ok(_))) = (run.request(engine), reply) {
        lemma_findings_push(project, none, visit);
        assert(none.push(visit) =~= made);
    }
    assert(run.after(engine, reply).checks =~= run.checks + project.findings(made));
}

/// An answer adds to what a run has found what is found at the visits that are made.
proof fn lemma_step_findings(project: Project, engine: EngineView, run: RunView, reply: RunReply)
    requires
        run.accepts(engine, reply),
        project.answers_run(engine, run, reply),
        !(run.after(engine, reply) matches RunView::Finished(Err(_))),
    ensures
        found_by(run.stepped(engine, reply)).to_multiset() == (found_by(run) + project.findings(
            visits_by(engine, run, reply),
        )).to_multiset(),
{
    let none = Seq::<CheckResult>::empty();
    let made = project.findings(visits_by(engine, run, reply));
    assert(project.findings(Seq::empty()) =~= none);
    match (run, reply) {
        (RunView::Dispatching { items, .. }, RunReply::Dispatched(Ok(results))) => {
            lemma_work_findings(project, items, results@);
            assert(none + made =~= made);
            assert(concluded(items, results@) + none =~= concluded(items, results@));
        },
        (RunView::Running { found, run: visiting }, RunReply::Step(step)) => {
            lemma_visit_findings(project, engine, visiting, step);
            assert(found + (visiting.checks + made) =~= (found + visiting.checks) + made);
        },
        _ => {
            assert(none + none =~= none);
        },
    }
}

/// Whether what a run of `engine` has found after `replies` is what is found at the visits that it
/// has made, unless an error has ended it.
spec fn has_found(project: Project, engine: EngineView, replies: Seq<RunReply>) -> bool {
    let after = state_after(engine, new_run(engine), replies).1;
    after matches RunView::Finished(Err(_)) || found_by(after).to_multiset() == project.findings(
        run_visits(engine, new_run(engine), replies),
    ).to_multiset()
}

proof fn lemma_nothing_found(project: Project, engine: EngineView)
    ensures
        has_found(project, engine, Seq::empty()),
{
    lemma_settled_findings(
        engine,
        RunView::Caches(CacheView { merging: None, failure: None }),
    );
    assert(project.findings(Seq::empty()) =~= Seq::<CheckResult>::empty());
}

proof fn lemma_more_found(project: Project, engine: EngineView, replies: Seq<RunReply>)
    requires
        replies.len() > 0,
        has_found(project, engine, replies.drop_last()),
        ({
            let (asking, asked) = state_after(engine, new_run(engine), replies.drop_last());
            project.answers_run(asking, asked, replies.last())
        }),
    ensures
        has_found(project, engine, replies),
{
    let reply = replies.last();
    let (asking, asked) = state_after(engine, new_run(engine), replies.drop_last());
    let after = asked.after(asking, reply);
    let before = run_visits(engine, new_run(engine), replies.drop_last());
    let made = visits_by(asking, asked, reply);
    assert(state_after(engine, new_run(engine), replies).1 == after);
    lemma_findings_concat(project, before, made);
    lemma_multiset_commutative(project.findings(before), project.findings(made));
    lemma_multiset_commutative(found_by(asked), project.findings(made));
    if !(after matches RunView::Finished(Err(_))) {
        assert(!(asked matches RunView::Finished(Err(_))));
        if asked.accepts(asking, reply) {
            lemma_step_findings(project, asking, asked, reply);
            lemma_settled_findings(asked.engine_after(asking, reply), asked.stepped(asking, reply));
        } else {
            assert(before + made =~= before);
        }
    }
}

proof fn lemma_found(project: Project, engine: EngineView, replies: Seq<RunReply>)
    requires
        project_says_to_run(project, engine, new_run(engine), replies),
    ensures
        has_found(project, engine, replies),
    decreases replies.len(),
{
    if replies.len() == 0 {
        assert(replies =~= Seq::empty());
        lemma_nothing_found(project, engine);
    } else {
        lemma_found(project, engine, replies.drop_last());
        lemma_more_found(project, engine, replies);
    }
}

/// A run that ends without an error gives what is found at the visits of the engine's plan, each
/// finding as often as it is found there and put down to the checker that made it.
pub proof fn law_run_gives_findings(
    project: Project,
    engine: EngineView,
    replies: Seq<RunReply>,
    checks: Seq<CheckResult>,
)
    requires
        engine.valid(),
        project_says_to_run(project, engine, new_run(engine), replies),
        state_after(engine, new_run(engine), replies).1 == RunView::Finished(Ok(checks)),
    ensures
        checks.to_multiset() == project.findings(
            project.plan(engine, Set::empty()),
        ).to_multiset(),
{
    let all = project.plan(engine, Set::empty());
    let alone = |visit: Visit| engine.is_parallel_visit(visit);
    lemma_found(project, engine, replies);
    law_run_makes_each_visit_once(project, engine, replies);
    lemma_findings_both(project, all, alone);
    lemma_filter_same(
        all,
        |visit: Visit| !alone(visit),
        |visit: Visit| !engine.is_parallel_visit(visit),
    );
}

/// Two runs of the same checkers on the same project give the same results, each as often, whether
/// or not they run in parallel, if both end without an error: only the order of the results may
/// differ.
pub proof fn law_parallel_gives_same_results(
    project: Project,
    one: EngineView,
    other: EngineView,
    one_replies: Seq<RunReply>,
    other_replies: Seq<RunReply>,
    one_checks: Seq<CheckResult>,
    other_checks: Seq<CheckResult>,
)
    requires
        one.valid(),
        other.valid(),
        one.checkers == other.checkers,
        one.architecture == other.architecture,
        project_says_to_run(project, one, new_run(one), one_replies),
        project_says_to_run(project, other, new_run(other), other_replies),
        state_after(one, new_run(one), one_replies).1 == RunView::Finished(Ok(one_checks)),
        state_after(other, new_run(other), other_replies).1 == RunView::Finished(Ok(other_checks)),
    ensures
        one_checks.to_multiset() == other_checks.to_multiset(),
{
    law_run_gives_findings(project, one, one_replies, one_checks);
    law_run_gives_findings(project, other, other_replies, other_checks);
    lemma_same_plan(project, one, other, Set::empty());
}

} // verus!
