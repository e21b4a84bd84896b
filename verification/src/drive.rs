//! Driving a run of the engine to its end.
use vstd::prelude::*;

use crate::effort::law_answers_lower_effort;
use crate::engine::{Engine, EngineView};
use crate::error::CheckerError;
use crate::result::CheckResult;
use crate::run::{Run, RunReply, RunView, new_run, outcome_view};

verus! {

/// The engine and its run after `replies` were taken as the answers to what the run needed.
pub open spec fn state_after(engine: EngineView, run: RunView, replies: Seq<RunReply>) -> (
    EngineView,
    RunView,
)
    decreases replies.len(),
{
    if replies.len() == 0 {
        (engine, run)
    } else {
        let (engine, run) = state_after(engine, run, replies.drop_last());
        (run.engine_after(engine, replies.last()), run.after(engine, replies.last()))
    }
}

/// Whether `host`, in the state `state`, can go over to the state `next` and say `reply` when it is
/// asked once for what `run` needs.
pub open spec fn may_reply<S, H: Fn(S, &Engine, &Run) -> (S, RunReply)>(
    host: H,
    state: S,
    engine: EngineView,
    run: RunView,
    next: S,
    reply: RunReply,
) -> bool {
    exists|asking: &Engine, asked: &Run|
        asking@ == engine && asked@ == run && #[trigger] call_ensures(
            host,
            (state, asking, asked),
            (next, reply),
        )
}

/// Whether `states` can be the states that `host` goes through, from the first to the last, when it
/// is asked once for each thing that `run` needs, and `replies` what it says.
pub open spec fn may_say<S, H: Fn(S, &Engine, &Run) -> (S, RunReply)>(
    host: H,
    states: Seq<S>,
    engine: EngineView,
    run: RunView,
    replies: Seq<RunReply>,
) -> bool
    decreases replies.len(),
{
    &&& states.len() == replies.len() + 1
    &&& replies.len() == 0 || {
        let (asking, asked) = state_after(engine, run, replies.drop_last());
        &&& may_say(host, states.drop_last(), engine, run, replies.drop_last())
        &&& may_reply(
            host,
            states[states.len() - 2],
            asking,
            asked,
            states.last(),
            replies.last(),
        )
    }
}

/// Whether `host` answers what a run needs.
pub open spec fn is_host<S, H: Fn(S, &Engine, &Run) -> (S, RunReply)>(host: H) -> bool {
    &&& forall|state: S, engine: &Engine, run: &Run|
        engine.wf() && run@.is_run_of(engine@) && !(run@ is Finished) ==> #[trigger] call_requires(
            host,
            (state, engine, run),
        )
    &&& forall|state: S, engine: &Engine, run: &Run, next: S, reply: RunReply|
        engine.wf() && run@.is_run_of(engine@) && !(run@ is Finished) && #[trigger] call_ensures(
            host,
            (state, engine, run),
            (next, reply),
        ) ==> run@.accepts(engine@, reply)
}

/// A host is asked once for each answer: in the state that it went over to with the answer before,
/// and of the engine and the run that those answers have made. Its answer is what they go on with.
pub proof fn law_hosts_are_asked_once_for_each_answer<S, H: Fn(S, &Engine, &Run) -> (S, RunReply)>(
    host: H,
    states: Seq<S>,
    engine: EngineView,
    run: RunView,
    replies: Seq<RunReply>,
    i: int,
)
    requires
        may_say(host, states, engine, run, replies),
        0 <= i < replies.len(),
    ensures
        states.len() == replies.len() + 1,
        state_after(engine, run, Seq::empty()) == (engine, run),
        ({
            let (asking, asked) = state_after(engine, run, replies.take(i));
            &&& exists|e: &Engine, r: &Run|
                e@ == asking && r@ == asked && #[trigger] call_ensures(
                    host,
                    (states[i], e, r),
                    (states[i + 1], replies[i]),
                )
            &&& state_after(engine, run, replies.take(i + 1)) == (
                asked.engine_after(asking, replies[i]),
                asked.after(asking, replies[i]),
            )
        }),
    decreases replies.len(),
{
    let before = replies.drop_last();
    assert(replies.take(i + 1).drop_last() =~= replies.take(i));
    if i < before.len() {
        law_hosts_are_asked_once_for_each_answer(host, states.drop_last(), engine, run, before, i);
        assert(before.take(i) =~= replies.take(i));
        assert(before.take(i + 1) =~= replies.take(i + 1));
    } else {
        assert(replies.take(i) =~= before);
        let (asking, asked) = state_after(engine, run, before);
        assert(may_reply(host, states[i], asking, asked, states[i + 1], replies[i]));
    }
}

impl<'a> Engine<'a> {
    /// Runs the checkers: `host` is asked for what the run needs until it has ended, once for each
    /// thing. It is handed its own state `state`, which it hands on from answer to answer; the last
    /// one is returned.
    pub fn run<S, H: Fn(S, &Engine, &Run) -> (S, RunReply)>(&mut self, host: &H, state: S) -> (res:
        (Result<Vec<CheckResult>, CheckerError>, S))
        requires
            old(self).wf(),
            is_host::<S, H>(*host),
        ensures
            final(self).wf(),
            exists|states: Seq<S>, replies: Seq<RunReply>|
                {
                    &&& #[trigger] may_say(
                        *host,
                        states,
                        old(self)@,
                        new_run(old(self)@),
                        replies,
                    )
                    &&& states.first() == state
                    &&& states.last() == res.1
                    &&& state_after(old(self)@, new_run(old(self)@), replies) == (
                        final(self)@,
                        RunView::Finished(outcome_view(res.0)),
                    )
                },
    {
        let ghost start = self@;
        let ghost mut states: Seq<S> = seq![state];
        let ghost mut replies: Seq<RunReply> = Seq::empty();
        let mut run = Run::new(self);
        let mut current = state;
        loop
            invariant
                self.wf(),
                is_host::<S, H>(*host),
                start == old(self)@,
                run@.is_run_of(self@),
                may_say(*host, states, start, new_run(start), replies),
                states.first() == state,
                states.last() == current,
                state_after(start, new_run(start), replies) == (self@, run@),
            decreases
                    run@.effort(self@).phases,
                    run@.effort(self@).scopes,
                    run@.effort(self@).targets,
                    run@.effort(self@).callers,
                    run@.effort(self@).admitted,
                    run@.effort(self@).visits,
                    run@.effort(self@).preparation,
        {
            match run.outcome() {
                Ok(outcome) => {
                    return (outcome, current);
                },
                Err(unfinished) => {
                    let ghost before = current;
                    let (next, reply) = host(current, self, &unfinished);
                    proof {
                        self.lemma_valid();
                        law_answers_lower_effort(self@, unfinished@, reply);
                        let said = replies.push(reply);
                        let passed = states.push(next);
                        assert(said.drop_last() =~= replies);
                        assert(passed.drop_last() =~= states);
                        assert(may_reply(*host, before, self@, unfinished@, next, reply));
                        replies = said;
                        states = passed;
                    }
                    run = unfinished.answer(self, reply);
                    current = next;
                },
            }
        }
    }
}

} // verus!
