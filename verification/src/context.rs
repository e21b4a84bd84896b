//! The Lua state in which a checker runs.
use vstd::prelude::*;

use mlua::Lua;

use crate::error::{CheckerError, ErrorKind, error_of};
use crate::result::CheckResult;

verus! {

/// A Lua state of mlua.
#[verifier::external_type_specification]
#[verifier::external_body]
pub struct ExLua(Lua);

/// The code that every checker starts with.
pub struct Preludes<'a> {
    pub prelude: &'a [u8],
    pub functional: &'a [u8],
}

/// What became of a Lua state in one step: the state that the step left, or why it failed.
pub type Step = Result<Lua, String>;

/// The steps in which a Lua state is prepared. Each takes the state and hands it back.
pub struct Steps<T, R, B, M> {
    /// Makes the engine's types known.
    pub types: T,
    /// Runs code under a name.
    pub run: R,
    /// Runs code under a name, and calls the table that it returns.
    pub library: B,
    /// Registers the module loader for a directory.
    pub loader: M,
}

impl<T, R, B, M> Steps<T, R, B, M> where
    T: FnOnce(Lua) -> Step,
    R: Fn(Lua, &str, &[u8]) -> Step,
    B: FnOnce(Lua, &str, &[u8]) -> Step,
    M: FnOnce(Lua, Option<&str>) -> Step,
 {
    /// Whether these may be used on any state.
    pub open spec fn usable(self) -> bool {
        &&& forall|vm: Lua| call_requires(self.types, (vm,))
        &&& forall|vm: Lua, name: &str, code: &[u8]| call_requires(self.run, (vm, name, code))
        &&& forall|vm: Lua, name: &str, code: &[u8]| call_requires(self.library, (vm, name, code))
        &&& forall|vm: Lua, dir: Option<&str>| call_requires(self.loader, (vm, dir))
    }

    /// Whether `left` can be what making the types known leaves of `vm`.
    pub open spec fn knows_types(self, vm: Lua, left: Step) -> bool {
        call_ensures(self.types, (vm,), left)
    }

    /// Whether `left` can be what one run of `code` under the name `name` leaves of `vm`.
    pub open spec fn has_run(self, vm: Lua, name: Seq<char>, code: Seq<u8>, left: Step) -> bool {
        exists|chunk: &str, text: &[u8]|
            chunk@ == name && text@ == code && #[trigger] call_ensures(
                self.run,
                (vm, chunk, text),
                left,
            )
    }

    /// Whether `left` can be what one run of the library `code` under the name `name` leaves of
    /// `vm`.
    pub open spec fn has_library(
        self,
        vm: Lua,
        name: Seq<char>,
        code: Seq<u8>,
        left: Step,
    ) -> bool {
        exists|chunk: &str, text: &[u8]|
            chunk@ == name && text@ == code && #[trigger] call_ensures(
                self.library,
                (vm, chunk, text),
                left,
            )
    }

    /// Whether `left` can be what registering the module loader for `dir` leaves of `vm`.
    pub open spec fn has_loader(self, vm: Lua, dir: Option<Seq<char>>, left: Step) -> bool {
        exists|path: Option<&str>|
            dir_of(path) == dir && #[trigger] call_ensures(self.loader, (vm, path), left)
    }
}

/// The path `dir`, if there is one.
pub open spec fn dir_of(dir: Option<&str>) -> Option<Seq<char>> {
    match dir {
        Some(dir) => Some(dir@),
        None => None,
    }
}

/// What the steps left of a Lua state, one after the other. What comes after a failure means
/// nothing.
pub struct Trail {
    pub types: Step,
    pub prelude: Step,
    pub functional: Step,
    pub loader: Step,
    pub code: Step,
}

/// Whether the steps left `trail` of the fresh state `vm`: the engine's types are made known, then
/// the two preludes are run, the module loader is registered, and last the checker's code is run.
/// Each step is taken once, on the state that the step before it left, and only if that one did not
/// fail.
pub open spec fn is_trail<T, R, B, M>(
    vm: Lua,
    name: Seq<char>,
    code: Seq<u8>,
    module_dir: Option<Seq<char>>,
    preludes: Preludes,
    steps: Steps<T, R, B, M>,
    trail: Trail,
) -> bool where
    T: FnOnce(Lua) -> Step,
    R: Fn(Lua, &str, &[u8]) -> Step,
    B: FnOnce(Lua, &str, &[u8]) -> Step,
    M: FnOnce(Lua, Option<&str>) -> Step,
 {
    &&& steps.knows_types(vm, trail.types)
    &&& trail.types matches Ok(v1) ==> {
        &&& steps.has_run(v1, "bias_core::prelude"@, preludes.prelude@, trail.prelude)
        &&& trail.prelude matches Ok(v2) ==> {
            &&& steps.has_library(v2, "lua::functional"@, preludes.functional@, trail.functional)
            &&& trail.functional matches Ok(v3) ==> {
                &&& steps.has_loader(v3, module_dir, trail.loader)
                &&& trail.loader matches Ok(v4) ==> steps.has_run(v4, name, code, trail.code)
            }
        }
    }
}

/// Whether `res` is what comes of `trail`: the state that the last step left or, if a step failed,
/// an error with the text that it gave. Only a failure to register the module loader is one of
/// loading modules.
pub open spec fn ends_trail(trail: Trail, res: Result<CheckerContext, CheckerError>) -> bool {
    match (trail.types, trail.prelude, trail.functional, trail.loader, trail.code) {
        (Err(text), _, _, _, _) => failed_with(res, ErrorKind::Load, text@),
        (_, Err(text), _, _, _) => failed_with(res, ErrorKind::Load, text@),
        (_, _, Err(text), _, _) => failed_with(res, ErrorKind::Load, text@),
        (_, _, _, Err(text), _) => failed_with(res, ErrorKind::ModuleLoader, text@),
        (_, _, _, _, Err(text)) => failed_with(res, ErrorKind::Load, text@),
        (_, _, _, _, Ok(v5)) => res matches Ok(context) && context.lua() == v5,
    }
}

/// Whether `res` is the error of kind `kind` that says `text`.
pub open spec fn failed_with(
    res: Result<CheckerContext, CheckerError>,
    kind: ErrorKind,
    text: Seq<char>,
) -> bool {
    res matches Err(error) && error@ == error_of(kind, text)
}

/// Whether `res` can come of preparing the fresh state `vm` for the checker `name` with the code
/// `code` by `steps`.
pub open spec fn vm_prepared<T, R, B, M>(
    vm: Lua,
    name: Seq<char>,
    code: Seq<u8>,
    module_dir: Option<Seq<char>>,
    preludes: Preludes,
    steps: Steps<T, R, B, M>,
    res: Result<CheckerContext, CheckerError>,
) -> bool where
    T: FnOnce(Lua) -> Step,
    R: Fn(Lua, &str, &[u8]) -> Step,
    B: FnOnce(Lua, &str, &[u8]) -> Step,
    M: FnOnce(Lua, Option<&str>) -> Step,
 {
    exists|trail: Trail| #[trigger]
        is_trail(vm, name, code, module_dir, preludes, steps, trail) && ends_trail(trail, res)
}

/// A Lua state that has run a checker's code.
pub struct CheckerContext {
    vm: Lua,
}

/// Whether `res` is what becomes of the outcome `outcome` of a handler.
pub open spec fn handler_concluded(
    outcome: Result<Option<usize>, String>,
    res: Result<Option<CheckResult>, CheckerError>,
) -> bool {
    match outcome {
        Ok(Some(finding)) => res matches Ok(Some(result)) && result == (CheckResult {
            rule: None,
            finding,
        }),
        Ok(None) => res matches Ok(None),
        Err(text) => res matches Err(error) && error@ == error_of(ErrorKind::Run, text@),
    }
}

/// What the outcome of a handler means: an error is one of running the checker.
pub fn conclude_handler(outcome: Result<Option<usize>, String>) -> (res: Result<
    Option<CheckResult>,
    CheckerError,
>)
    ensures
        handler_concluded(outcome, res),
{
    match outcome {
        Ok(Some(finding)) => Ok(Some(CheckResult::new(finding))),
        Ok(None) => Ok(None),
        Err(text) => Err(CheckerError::Run(text)),
    }
}

/// What a step is handed is the state that the step before it left, and what belongs to it: the
/// preludes under their own names, the directory, and last the checker's name and code.
pub proof fn law_steps_are_handed_what_belongs_to_them<T, R, B, M>(
    vm: Lua,
    name: Seq<char>,
    code: Seq<u8>,
    module_dir: Option<Seq<char>>,
    preludes: Preludes,
    steps: Steps<T, R, B, M>,
    trail: Trail,
) where
    T: FnOnce(Lua) -> Step,
    R: Fn(Lua, &str, &[u8]) -> Step,
    B: FnOnce(Lua, &str, &[u8]) -> Step,
    M: FnOnce(Lua, Option<&str>) -> Step,

    requires
        is_trail(vm, name, code, module_dir, preludes, steps, trail),
    ensures
        call_ensures(steps.types, (vm,), trail.types),
        trail.types is Ok ==> exists|chunk: &str, text: &[u8]|
            chunk@ == "bias_core::prelude"@ && text@ == preludes.prelude@ && #[trigger]
                call_ensures(steps.run, (trail.types->Ok_0, chunk, text), trail.prelude),
        trail.types is Ok && trail.prelude is Ok ==> exists|chunk: &str, text: &[u8]|
            chunk@ == "lua::functional"@ && text@ == preludes.functional@ && #[trigger]
                call_ensures(steps.library, (trail.prelude->Ok_0, chunk, text), trail.functional),
        trail.types is Ok && trail.prelude is Ok && trail.functional is Ok ==> exists|
            path: Option<&str>,
        |
            (path is Some <==> module_dir is Some) && (path is Some ==> (path->0)@
                == module_dir->0) && #[trigger] call_ensures(
                steps.loader,
                (trail.functional->Ok_0, path),
                trail.loader,
            ),
        trail.types is Ok && trail.prelude is Ok && trail.functional is Ok && trail.loader is Ok
            ==> exists|chunk: &str, text: &[u8]|
            chunk@ == name && text@ == code && #[trigger] call_ensures(
                steps.run,
                (trail.loader->Ok_0, chunk, text),
                trail.code,
            ),
{
}

/// The error that a preparation ends with says what the first step that failed gave.
pub proof fn law_errors_say_what_failed(trail: Trail, error: CheckerError)
    requires
        ends_trail(trail, Err(error)),
    ensures
        trail.types matches Err(text) ==> error@.text == text@,
        trail.types is Ok && trail.prelude is Err ==> error@.text == trail.prelude->Err_0@,
        trail.types is Ok && trail.prelude is Ok && trail.functional is Err ==> error@.text
            == trail.functional->Err_0@,
        trail.types is Ok && trail.prelude is Ok && trail.functional is Ok && trail.loader is Err
            ==> error@.text == trail.loader->Err_0@,
        trail.types is Ok && trail.prelude is Ok && trail.functional is Ok && trail.loader is Ok
            ==> trail.code is Err && error@.text == trail.code->Err_0@,
{
}

/// A handler that finds something gives that finding, not yet put down to a checker; one that finds
/// nothing gives nothing; one that fails gives an error of running with its text.
pub proof fn law_handlers_give_what_they_find(
    outcome: Result<Option<usize>, String>,
    res: Result<Option<CheckResult>, CheckerError>,
)
    requires
        handler_concluded(outcome, res),
    ensures
        outcome is Ok <==> res is Ok,
        outcome matches Err(text) ==> (res matches Err(error) && error@.kind == ErrorKind::Run
            && error@.text == text@),
        outcome matches Ok(found) ==> (res matches Ok(given) && (found is Some <==> given is Some)
            && (found is Some ==> (given->0).finding == found->0 && (given->0).rule is None)),
{
}

/// A preparation fails with an error of the module loader exactly if it came to the step that
/// registers it and that one failed; any other failure is one of loading. It succeeds exactly if no
/// step failed, with the state that the one run of the checker's code left.
pub proof fn law_errors_name_the_step(trail: Trail, res: Result<CheckerContext, CheckerError>)
    requires
        ends_trail(trail, res),
    ensures
        ({
            let before = trail.types is Ok && trail.prelude is Ok && trail.functional is Ok;
            &&& res matches Err(error) ==> (error@.kind == ErrorKind::ModuleLoader <==> before
                && trail.loader is Err)
            &&& res matches Err(error) ==> error@.kind == ErrorKind::ModuleLoader || error@.kind
                == ErrorKind::Load
            &&& res is Ok <==> before && trail.loader is Ok && trail.code is Ok
            &&& res matches Ok(context) ==> trail.code == Ok::<Lua, String>(context.lua())
        }),
{
}

impl CheckerContext {
    /// The Lua state.
    pub closed spec fn lua(&self) -> Lua {
        self.vm
    }

    /// The Lua state.
    pub fn vm(&self) -> (res: &Lua)
        ensures
            *res == self.lua(),
    {
        &self.vm
    }

    /// Prepares the fresh state `vm` by `steps`: the engine's types are made known to it, then the
    /// preludes are run, the module loader is registered for `module_dir`, and last the checker's
    /// `code` is run under the name `name`. The first step that fails ends the preparation.
    pub fn new_vm<T, R, B, M>(
        vm: Lua,
        name: &str,
        code: &[u8],
        module_dir: Option<&str>,
        preludes: &Preludes,
        steps: Steps<T, R, B, M>,
    ) -> (res: Result<CheckerContext, CheckerError>) where
        T: FnOnce(Lua) -> Step,
        R: Fn(Lua, &str, &[u8]) -> Step,
        B: FnOnce(Lua, &str, &[u8]) -> Step,
        M: FnOnce(Lua, Option<&str>) -> Step,

        requires
            steps.usable(),
        ensures
            vm_prepared(vm, name@, code@, dir_of(module_dir), *preludes, steps, res),
    {
        let ghost all = steps;
        let ghost dir = dir_of(module_dir);
        let ghost unknown: Step = arbitrary();
        let ghost mut trail = Trail {
            types: unknown,
            prelude: unknown,
            functional: unknown,
            loader: unknown,
            code: unknown,
        };
        let Steps { types, run, library, loader } = steps;
        let left = types(vm);
        proof {
            trail = Trail { types: left, ..trail };
        }
        let v1 = match left {
            Ok(vm) => vm,
            Err(text) => {
                assert(is_trail(vm, name@, code@, dir, *preludes, all, trail));
                return Err(CheckerError::Load(text));
            },
        };
        let left = run(v1, "bias_core::prelude", preludes.prelude);
        proof {
            trail = Trail { prelude: left, ..trail };
        }
        let v2 = match left {
            Ok(vm) => vm,
            Err(text) => {
                assert(is_trail(vm, name@, code@, dir, *preludes, all, trail));
                return Err(CheckerError::Load(text));
            },
        };
        let left = library(v2, "lua::functional", preludes.functional);
        proof {
            trail = Trail { functional: left, ..trail };
        }
        let v3 = match left {
            Ok(vm) => vm,
            Err(text) => {
                assert(is_trail(vm, name@, code@, dir, *preludes, all, trail));
                return Err(CheckerError::Load(text));
            },
        };
        let left = loader(v3, module_dir);
        proof {
            trail = Trail { loader: left, ..trail };
        }
        let v4 = match left {
            Ok(vm) => vm,
            Err(text) => {
                assert(is_trail(vm, name@, code@, dir, *preludes, all, trail));
                return Err(CheckerError::ModuleLoader(text));
            },
        };
        let left = run(v4, name, code);
        proof {
            trail = Trail { code: left, ..trail };
            assert(is_trail(vm, name@, code@, dir, *preludes, all, trail));
        }
        match left {
            Ok(vm) => Ok(CheckerContext { vm }),
            Err(text) => Err(CheckerError::Load(text)),
        }
    }

    /// Runs the handler `handler` of a calls scope: `invoke` calls it in the state.
    pub fn calls<F: FnOnce(&Lua, &str) -> Result<Option<usize>, String>>(
        &self,
        handler: &str,
        invoke: F,
    ) -> (res: Result<Option<CheckResult>, CheckerError>)
        requires
            call_requires(invoke, (&self.lua(), handler)),
        ensures
            exists|outcome: Result<Option<usize>, String>| #[trigger]
                call_ensures(invoke, (&self.lua(), handler), outcome) && handler_concluded(
                    outcome,
                    res,
                ),
    {
        let outcome = invoke(&self.vm, handler);
        conclude_handler(outcome)
    }

    /// Runs the handler `handler` of a function scope: `invoke` calls it in the state.
    pub fn function_with<F: FnOnce(&Lua, &str) -> Result<Option<usize>, String>>(
        &self,
        handler: &str,
        invoke: F,
    ) -> (res: Result<Option<CheckResult>, CheckerError>)
        requires
            call_requires(invoke, (&self.lua(), handler)),
        ensures
            exists|outcome: Result<Option<usize>, String>| #[trigger]
                call_ensures(invoke, (&self.lua(), handler), outcome) && handler_concluded(
                    outcome,
                    res,
                ),
    {
        let outcome = invoke(&self.vm, handler);
        conclude_handler(outcome)
    }

    /// Runs the handler `handler` of a project scope: `invoke` calls it in the state.
    pub fn project_with<F: FnOnce(&Lua, &str) -> Result<Option<usize>, String>>(
        &self,
        handler: &str,
        invoke: F,
    ) -> (res: Result<Option<CheckResult>, CheckerError>)
        requires
            call_requires(invoke, (&self.lua(), handler)),
        ensures
            exists|outcome: Result<Option<usize>, String>| #[trigger]
                call_ensures(invoke, (&self.lua(), handler), outcome) && handler_concluded(
                    outcome,
                    res,
                ),
    {
        let outcome = invoke(&self.vm, handler);
        conclude_handler(outcome)
    }
}

} // verus!
