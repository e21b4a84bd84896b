//! Making a visit: running a checker's handler at a place.
use vstd::prelude::*;

use mlua::Lua;

use crate::agenda::{Place, Visit};
use crate::checker::CheckerView;
use crate::context::{
    CheckerContext, Preludes, Step, Steps, Trail, ends_trail, handler_concluded, is_trail,
    law_errors_name_the_step, law_steps_are_handed_what_belongs_to_them, vm_prepared,
};
use crate::engine::{Engine, EngineView};
use crate::error::CheckerError;
use crate::result::CheckResult;

verus! {

impl EngineView {
    /// The name of the handler that `visit` runs.
    pub open spec fn handler_of(self, visit: Visit) -> Seq<char> {
        self.groups[visit.group as int].members[visit.member as int].handler
    }
}

/// Whether `res` can come of running the handler `handler` in the state `vm`, where `invoke` calls
/// it.
pub open spec fn handler_run<F: FnOnce(&Lua, &str) -> Result<Option<usize>, String>>(
    vm: Lua,
    handler: Seq<char>,
    invoke: F,
    res: Result<Option<CheckResult>, CheckerError>,
) -> bool {
    exists|name: &str, outcome: Result<Option<usize>, String>|
        name@ == handler && #[trigger] call_ensures(invoke, (&vm, name), outcome)
            && handler_concluded(outcome, res)
}

/// Whether `prepared` can come of preparing the fresh state `vm` for `checker` and the modules in
/// `module_dir`.
pub open spec fn state_prepared<T, R, B, M>(
    checker: CheckerView,
    module_dir: Option<Seq<char>>,
    vm: Lua,
    preludes: Preludes,
    steps: Steps<T, R, B, M>,
    prepared: Result<CheckerContext, CheckerError>,
) -> bool where
    T: FnOnce(Lua) -> Step,
    R: Fn(Lua, &str, &[u8]) -> Step,
    B: FnOnce(Lua, &str, &[u8]) -> Step,
    M: FnOnce(Lua, Option<&str>) -> Step,
 {
    vm_prepared(vm, checker.name, checker.code, module_dir, preludes, steps, prepared)
}

/// Whether `res` can come of running the handler `handler` of `checker` in a state of its own,
/// prepared from the fresh state `vm`: the error that the preparation ended with, or what the
/// handler gave.
pub open spec fn run_alone<T, R, B, M, F>(
    checker: CheckerView,
    module_dir: Option<Seq<char>>,
    handler: Seq<char>,
    vm: Lua,
    preludes: Preludes,
    steps: Steps<T, R, B, M>,
    invoke: F,
    res: Result<Option<CheckResult>, CheckerError>,
) -> bool where
    T: FnOnce(Lua) -> Step,
    R: Fn(Lua, &str, &[u8]) -> Step,
    B: FnOnce(Lua, &str, &[u8]) -> Step,
    M: FnOnce(Lua, Option<&str>) -> Step,
    F: FnOnce(&Lua, &str) -> Result<Option<usize>, String>,
 {
    exists|prepared: Result<CheckerContext, CheckerError>| #[trigger]
        state_prepared(checker, module_dir, vm, preludes, steps, prepared)
            && match prepared {
            Ok(context) => handler_run(context.lua(), handler, invoke, res),
            Err(error) => res matches Err(ended) && ended == error,
        }
}

/// What running a handler gives is what a call of it by its own name in that very state gives.
pub proof fn law_handlers_are_called_by_name<
    F: FnOnce(&Lua, &str) -> Result<Option<usize>, String>,
>(vm: Lua, handler: Seq<char>, invoke: F, res: Result<Option<CheckResult>, CheckerError>)
    requires
        handler_run(vm, handler, invoke, res),
    ensures
        exists|name: &str, outcome: Result<Option<usize>, String>|
            {
                &&& name@ == handler
                &&& #[trigger] call_ensures(invoke, (&vm, name), outcome)
                &&& res is Ok <==> outcome is Ok
                &&& res matches Ok(Some(given)) ==> outcome == Ok::<Option<usize>, String>(
                    Some(given.finding),
                )
                &&& res matches Ok(None) ==> outcome == Ok::<Option<usize>, String>(None)
                &&& res matches Err(error) ==> (outcome matches Err(text) && error@.text == text@)
            },
{
    let (name, outcome) = choose|name: &str, outcome: Result<Option<usize>, String>|
        name@ == handler && #[trigger] call_ensures(invoke, (&vm, name), outcome)
            && handler_concluded(outcome, res);
    assert(call_ensures(invoke, (&vm, name), outcome));
    if let Ok(found) = outcome {
        assert(outcome == Ok::<Option<usize>, String>(found));
    }
}

/// The state that is prepared for a checker is one in which that checker's code has run under that
/// checker's name, with the modules of the engine's directory.
pub proof fn law_states_are_prepared_for_their_checker<T, R, B, M>(
    checker: CheckerView,
    module_dir: Option<Seq<char>>,
    vm: Lua,
    preludes: Preludes,
    steps: Steps<T, R, B, M>,
    prepared: Result<CheckerContext, CheckerError>,
) where
    T: FnOnce(Lua) -> Step,
    R: Fn(Lua, &str, &[u8]) -> Step,
    B: FnOnce(Lua, &str, &[u8]) -> Step,
    M: FnOnce(Lua, Option<&str>) -> Step,

    requires
        state_prepared(checker, module_dir, vm, preludes, steps, prepared),
    ensures
        exists|trail: Trail| #[trigger]
            is_trail(vm, checker.name, checker.code, module_dir, preludes, steps, trail)
                && ends_trail(trail, prepared),
        prepared matches Ok(context) ==> exists|before: Lua, chunk: &str, text: &[u8]|
            chunk@ == checker.name && text@ == checker.code && #[trigger] call_ensures(
                steps.run,
                (before, chunk, text),
                Ok(context.lua()),
            ),
{
    let trail = choose|trail: Trail| #[trigger]
        is_trail(vm, checker.name, checker.code, module_dir, preludes, steps, trail) && ends_trail(
            trail,
            prepared,
        );
    law_steps_are_handed_what_belongs_to_them(
        vm,
        checker.name,
        checker.code,
        module_dir,
        preludes,
        steps,
        trail,
    );
    law_errors_name_the_step(trail, prepared);
    if let Ok(context) = prepared {
        assert(trail.code == Ok::<Lua, String>(context.lua()));
    }
}

/// What a visit in a state of its own gives is what its handler gives in the state that was prepared
/// for its checker, or the error that the preparation ended with.
pub proof fn law_work_items_run_in_their_own_state<T, R, B, M, F>(
    checker: CheckerView,
    module_dir: Option<Seq<char>>,
    handler: Seq<char>,
    vm: Lua,
    preludes: Preludes,
    steps: Steps<T, R, B, M>,
    invoke: F,
    res: Result<Option<CheckResult>, CheckerError>,
) where
    T: FnOnce(Lua) -> Step,
    R: Fn(Lua, &str, &[u8]) -> Step,
    B: FnOnce(Lua, &str, &[u8]) -> Step,
    M: FnOnce(Lua, Option<&str>) -> Step,
    F: FnOnce(&Lua, &str) -> Result<Option<usize>, String>,

    requires
        run_alone(checker, module_dir, handler, vm, preludes, steps, invoke, res),
    ensures
        ({
            ||| exists|error: CheckerError| #[trigger]
                state_prepared(checker, module_dir, vm, preludes, steps, Err(error))
                    && res == Err::<Option<CheckResult>, CheckerError>(error)
            ||| exists|context: CheckerContext, name: &str, outcome: Result<Option<usize>, String>|
                {
                    &&& #[trigger] state_prepared(
                        checker,
                        module_dir,
                        vm,
                        preludes,
                        steps,
                        Ok(context),
                    )
                    &&& name@ == handler
                    &&& #[trigger] call_ensures(invoke, (&context.lua(), name), outcome)
                    &&& handler_concluded(outcome, res)
                }
        }),
{
    let prepared = choose|prepared: Result<CheckerContext, CheckerError>| #[trigger]
        state_prepared(checker, module_dir, vm, preludes, steps, prepared) && match prepared {
            Ok(context) => handler_run(context.lua(), handler, invoke, res),
            Err(error) => res matches Err(ended) && ended == error,
        };
    match prepared {
        Ok(context) => {
            assert(state_prepared(checker, module_dir, vm, preludes, steps, Ok(context)));
            let (name, outcome) = choose|name: &str, outcome: Result<Option<usize>, String>|
                name@ == handler && #[trigger] call_ensures(invoke, (&context.lua(), name), outcome)
                    && handler_concluded(outcome, res);
            assert(call_ensures(invoke, (&context.lua(), name), outcome));
        },
        Err(error) => {
            assert(state_prepared(checker, module_dir, vm, preludes, steps, Err(error)));
        },
    }
}

impl<'a> Engine<'a> {
    /// The name of the handler that `visit` runs.
    pub fn handler_of(&self, visit: &Visit) -> (res: &str)
        requires
            self@.can_make(*visit),
        ensures
            res@ == self@.handler_of(*visit),
    {
        let member = &self.group(visit.group).members[visit.member];
        assert(member@ == self@.groups[visit.group as int].members[visit.member as int]);
        member.handler.as_str()
    }

    /// Makes `visit` in the Lua state that is kept for its checker; `invoke` calls the handler.
    pub fn make_visit<F: FnOnce(&Lua, &str) -> Result<Option<usize>, String>>(
        &self,
        visit: &Visit,
        invoke: F,
    ) -> (res: Result<Option<CheckResult>, CheckerError>)
        requires
            self.wf(),
            self@.can_make(*visit),
            self@.contexts[visit.checker as int] is Some,
            forall|state: &Lua, handler: &str| call_requires(invoke, (state, handler)),
        ensures
            handler_run(
                (self@.contexts[visit.checker as int]->0).lua(),
                self@.handler_of(*visit),
                invoke,
                res,
            ),
    {
        proof {
            self.lemma_valid();
        }
        let handler = self.handler_of(visit);
        match self.context(visit.checker) {
            Some(context) => match visit.place {
                Place::CallSite { .. } => context.calls(handler, invoke),
                Place::Function { .. } => context.function_with(handler, invoke),
                Place::Project => context.project_with(handler, invoke),
            },
            None => Ok(None),
        }
    }

    /// A Lua state for the applied checker `checker`, prepared from the fresh state `vm`.
    pub fn make_context<T, R, B, M>(
        &self,
        checker: usize,
        vm: Lua,
        preludes: &Preludes,
        steps: Steps<T, R, B, M>,
    ) -> (res: Result<CheckerContext, CheckerError>) where
        T: FnOnce(Lua) -> Step,
        R: Fn(Lua, &str, &[u8]) -> Step,
        B: FnOnce(Lua, &str, &[u8]) -> Step,
        M: FnOnce(Lua, Option<&str>) -> Step,

        requires
            checker < self@.checkers.len(),
            steps.usable(),
        ensures
            state_prepared(
                self@.checkers[checker as int],
                self@.module_dir,
                vm,
                *preludes,
                steps,
                res,
            ),
    {
        CheckerContext::from_checker(
            self.applied_checker(checker),
            vm,
            self.module_dir(),
            preludes,
            steps,
        )
    }

    /// Makes the visit `item` to a call site in a Lua state of its own, prepared from the fresh
    /// state `vm`; `invoke` calls the handler.
    pub fn execute_calls_work_item<T, R, B, M, F>(
        &self,
        item: &Visit,
        vm: Lua,
        preludes: &Preludes,
        steps: Steps<T, R, B, M>,
        invoke: F,
    ) -> (res: Result<Option<CheckResult>, CheckerError>) where
        T: FnOnce(Lua) -> Step,
        R: Fn(Lua, &str, &[u8]) -> Step,
        B: FnOnce(Lua, &str, &[u8]) -> Step,
        M: FnOnce(Lua, Option<&str>) -> Step,
        F: FnOnce(&Lua, &str) -> Result<Option<usize>, String>,

        requires
            self@.can_make(*item),
            steps.usable(),
            forall|state: &Lua, handler: &str| call_requires(invoke, (state, handler)),
        ensures
            run_alone(
                self@.checkers[item.checker as int],
                self@.module_dir,
                self@.handler_of(*item),
                vm,
                *preludes,
                steps,
                invoke,
                res,
            ),
    {
        let handler = self.handler_of(item);
        let prepared = self.make_context(item.checker, vm, preludes, steps);
        match prepared {
            Ok(context) => context.calls(handler, invoke),
            Err(error) => Err(error),
        }
    }
}

} // verus!
