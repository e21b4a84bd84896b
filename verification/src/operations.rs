//! What the operations give, told from what they are called with.
use std::collections::BTreeMap;

use vstd::prelude::*;
use vstd::utf8::*;

use mlua::Lua;

use crate::agenda::{Request, TaskView, Visit};
use crate::asking::{
    law_decompiler_is_set_up_for_the_visit, law_handler_is_run_for_the_visit,
    law_state_is_made_for_the_visit,
};
use crate::caches::{CacheBuild, CacheRequest, law_mappings_are_asked_for_in_order};
use crate::candidates::{
    Candidate, Edge, candidates_view, find_candidates, has_edge, law_candidates_are_the_callers,
};
use crate::checker::{
    ArchitectureDef, BlobTag, CheckScopeProjectData, Checker, CheckerArch, CheckerView, Decoders,
    Globals, OneOrMany, Read, checker_of, law_checker_is_what_was_read, required_list,
    required_text, resolve_conditions, resolve_signatures, resolve_types, text_of,
};
use crate::context::{
    CheckerContext, Preludes, Step, Steps, Trail, conclude_handler, dir_of, ends_trail,
    handler_concluded, is_trail, law_errors_name_the_step, law_handlers_give_what_they_find,
    law_steps_are_handed_what_belongs_to_them, vm_prepared,
};
use crate::engine::{Engine, checkers_of, files_of, fresh_engine, is_applicable, may_apply, picked};
use crate::error::{CheckerError, ErrorKind, ErrorView, prefix_of};
use crate::extensions::{CheckerExtensions, resolve_names};
use crate::reading::{
    are_sorted_keys, holds, is_given, is_list_error, is_text_error, law_extensions_are_those_named,
    lemma_sorted_keys, resolves, says,
};
use crate::result::CheckResult;
use crate::run::{Run, RunView};
use crate::scope::CheckScope;
use crate::selection::{
    all_members_given, are_places, law_applied_checkers_keep_their_order,
    law_members_run_their_own_handler, law_only_applicable_checkers_are_applied,
};
use crate::sequential::SequentialRun;
use crate::signature::{SignatureEntry, keys_of, sort_entries};
use crate::visit::{
    law_handlers_are_called_by_name, law_states_are_prepared_for_their_checker,
    law_work_items_run_in_their_own_state, state_prepared,
};

verus! {

/// A required text is taken as it is; it is refused exactly if it cannot be read or is not given.
pub proof fn law_required_texts(
    field: &str,
    read: Read<String>,
    res: Result<String, CheckerError>,
)
    requires
        call_ensures(required_text, (field, read), res),
    ensures
        res matches Ok(text) ==> (read matches Ok(Some(given)) && text@ == given@),
        res matches Err(error) ==> is_text_error(error@, field@, read),
{
}

/// A required list is taken whole and in its order; it is refused exactly if it cannot be read, is
/// not given or is empty.
pub proof fn law_required_lists<T>(
    field: &str,
    read: Read<OneOrMany<T>>,
    res: Result<Vec<T>, CheckerError>,
)
    requires
        call_ensures(required_list::<T>, (field, read), res),
    ensures
        res is Ok <==> is_given(read),
        res matches Ok(items) ==> (read matches Ok(Some(list)) && holds(list, items@)),
        res matches Err(error) ==> is_list_error(error@, field@, read),
{
}

/// The signatures of a rule are those that it gives, sorted, none if it gives none; they are refused
/// exactly if they cannot be read.
pub proof fn law_signatures_are_sorted(
    read: Read<OneOrMany<SignatureEntry>>,
    res: Result<Vec<SignatureEntry>, CheckerError>,
)
    requires
        call_ensures(resolve_signatures, (read,), res),
    ensures
        res is Ok <==> read is Ok,
        res matches Ok(entries) ==> match read {
            Ok(Some(list)) => are_sorted_keys(
                match list {
                    OneOrMany::One(entry) => seq![entry],
                    OneOrMany::Many(entries) => entries@,
                },
                Seq::new(entries@.len(), |i: int| entries@[i].key@),
            ),
            _ => entries@.len() == 0,
        },
        res matches Err(error) ==> (read matches Err(text) && says(
            error@,
            ErrorKind::Load,
            text@,
        )),
{
    if let Ok(entries) = res {
        let given: Seq<SignatureEntry> = match read {
            Ok(Some(list)) => list.items(),
            _ => Seq::empty(),
        };
        lemma_sorted_keys(given);
        let keys = keys_of(entries@);
        assert(keys =~= Seq::new(entries@.len(), |i: int| entries@[i].key@));
        keys.to_multiset_ensures();
        Seq::new(given.len(), |i: int| given[i].key@).to_multiset_ensures();
    }
}

/// The type library and the conditions of a rule are those that it gives, none if it gives none;
/// they are refused exactly if they cannot be read.
pub proof fn law_types_and_conditions(
    read: Read<String>,
    types: Result<Option<String>, CheckerError>,
    given: Read<CheckScopeProjectData>,
    conditions: Result<CheckScopeProjectData, CheckerError>,
)
    requires
        call_ensures(resolve_types, (read,), types),
        call_ensures(resolve_conditions, (given,), conditions),
    ensures
        types is Ok <==> read is Ok,
        types matches Ok(types) ==> (read matches Ok(read) && types == read),
        types matches Err(error) ==> (read matches Err(text) && says(
            error@,
            ErrorKind::Load,
            text@,
        )),
        conditions is Ok <==> given is Ok,
        conditions matches Ok(conditions) ==> match given {
            Ok(Some(given)) => conditions.handle == given.handle,
            _ => conditions.handle is None,
        },
        conditions matches Err(error) ==> (given matches Err(text) && says(
            error@,
            ErrorKind::Load,
            text@,
        )),
{
}

/// The extensions that names ask for are those that the names stand for, all together.
pub proof fn law_names_are_resolved<P: Fn(&str) -> Option<CheckerExtensions>>(
    names: Vec<String>,
    parse: &P,
    res: Result<CheckerExtensions, CheckerError>,
)
    requires
        call_ensures(resolve_names::<P>, (names, parse), res),
    ensures
        resolves(*parse, names@, res),
{
    law_extensions_are_those_named(*parse, names@, res);
}

/// What comes of reading a rule is the checker that its globals stand for, or what is wrong with it.
pub proof fn law_rules_are_read(
    code: Vec<u8>,
    globals: Globals,
    res: Result<Checker, CheckerError>,
)
    requires
        call_ensures(Checker::from_reads, (code, globals), res),
    ensures
        res matches Ok(checker) ==> checker_of(code@, globals) == Ok::<CheckerView, ErrorView>(
            checker@,
        ),
        res matches Err(error) ==> checker_of(code@, globals) == Err::<CheckerView, ErrorView>(
            error@,
        ),
{
}

/// A script that cannot be preprocessed is refused with that error. Any other is run under its own
/// name, as the bytes of its text, and the checker holds those bytes and what was read from the state
/// that the run left.
pub proof fn law_scripts_are_run_and_read<T, R, B, M, N, A, S, Y, X, P, C, D>(
    vm: Lua,
    name: &str,
    script: Result<String, CheckerError>,
    module_dir: Option<&str>,
    preludes: &Preludes,
    steps: Steps<T, R, B, M>,
    decoders: Decoders<N, A, S, Y, X, P, C, D>,
    res: Result<Checker, CheckerError>,
) where
    T: FnOnce(Lua) -> Step,
    R: Fn(Lua, &str, &[u8]) -> Step,
    B: FnOnce(Lua, &str, &[u8]) -> Step,
    M: FnOnce(Lua, Option<&str>) -> Step,
    N: Fn(&Lua, &str) -> Read<String>,
    A: FnOnce(&Lua) -> Read<OneOrMany<CheckerArch>>,
    S: FnOnce(&Lua) -> Read<OneOrMany<SignatureEntry>>,
    Y: FnOnce(&Lua) -> Read<String>,
    X: FnOnce(&Lua) -> Read<OneOrMany<String>>,
    P: Fn(&str) -> Option<CheckerExtensions>,
    C: FnOnce(&Lua) -> Read<OneOrMany<CheckScope>>,
    D: FnOnce(&Lua) -> Read<CheckScopeProjectData>,

    requires
        call_ensures(
            Checker::from_str::<T, R, B, M, N, A, S, Y, X, P, C, D>,
            (vm, name, script, module_dir, preludes, steps, decoders),
            res,
        ),
    ensures
        script matches Err(error) ==> res == Err::<Checker, CheckerError>(error),
        res matches Ok(checker) ==> (script matches Ok(text) && checker@.code == encode_utf8(
            text@,
        ) && exists|before: Lua, chunk: &str, code: &[u8], after: Lua|
            {
                &&& chunk@ == name@
                &&& code@ == encode_utf8(text@)
                &&& #[trigger] call_ensures(steps.run, (before, chunk, code), Ok(after))
                &&& #[trigger] decoders.can_load(&after, encode_utf8(text@), res)
            }),
{
    if let Ok(checker) = res {
        let code = encode_utf8(script->Ok_0@);
        let prepared = choose|prepared: Result<CheckerContext, CheckerError>| #[trigger]
            vm_prepared(vm, name@, code, dir_of(module_dir), *preludes, steps, prepared)
                && match prepared {
                Err(error) => res == Err::<Checker, CheckerError>(error),
                Ok(context) => decoders.can_load(&context.lua(), code, res),
            };
        let context = prepared->Ok_0;
        assert(res == Ok::<Checker, CheckerError>(checker));
        law_checker_is_what_was_read(decoders, &context.lua(), code, checker);
        let trail = choose|trail: Trail| #[trigger]
            is_trail(vm, name@, code, dir_of(module_dir), *preludes, steps, trail) && ends_trail(
                trail,
                prepared,
            );
        law_errors_name_the_step(trail, prepared);
        law_steps_are_handed_what_belongs_to_them(
            vm,
            name@,
            code,
            dir_of(module_dir),
            *preludes,
            steps,
            trail,
        );
        assert(trail.code == Ok::<Lua, String>(context.lua()));
        let (chunk, text) = choose|chunk: &str, text: &[u8]|
            chunk@ == name@ && text@ == code && #[trigger] call_ensures(
                steps.run,
                (trail.loader->Ok_0, chunk, text),
                trail.code,
            );
        assert(call_ensures(steps.run, (trail.loader->Ok_0, chunk, text), Ok(context.lua())));
        assert(decoders.can_load(&context.lua(), code, res));
    }
}

/// Sorting entries leaves none out, adds none, and puts none before a smaller one.
pub proof fn law_entries_are_sorted(entries: Vec<SignatureEntry>, res: Vec<SignatureEntry>)
    requires
        call_ensures(sort_entries, (entries,), res),
    ensures
        are_sorted_keys(entries@, Seq::new(res@.len(), |i: int| res@[i].key@)),
{
    lemma_sorted_keys(entries@);
    assert(keys_of(res@) =~= Seq::new(res@.len(), |i: int| res@[i].key@));
}

/// The callers that are found are the functions with an edge to the target, each once and with the
/// blocks from which its edges come.
pub proof fn law_callers_are_found(edges: &Vec<Edge>, with_jumps: bool, res: Vec<Candidate>)
    requires
        call_ensures(find_candidates, (edges, with_jumps), res),
    ensures
        forall|i: int, j: int|
            0 <= i < j < res@.len() ==> (#[trigger] res@[i]).function < (
            #[trigger] res@[j]).function,
        forall|i: int, b: int|
            #![trigger res@[i].blocks@[b]]
            0 <= i < res@.len() && 0 <= b < res@[i].blocks@.len() ==> has_edge(
                edges@,
                with_jumps,
                res@[i].function,
                res@[i].blocks@[b],
            ),
        forall|k: int|
            0 <= k < edges@.len() && ((#[trigger] edges@[k]).is_call || (with_jumps
                && edges@[k].is_branch)) ==> exists|i: int|
                0 <= i < res@.len() && (#[trigger] res@[i]).function == edges@[k].function
                    && res@[i].blocks@.contains(edges@[k].block),
{
    let list = candidates_view(res@);
    law_candidates_are_the_callers(edges@, with_jumps, list);
    assert forall|i: int, j: int| 0 <= i < j < res@.len() implies (#[trigger] res@[i]).function < (
    #[trigger] res@[j]).function by {
        assert(list[i].function < list[j].function);
    }
    assert forall|i: int, b: int|
        #![trigger res@[i].blocks@[b]]
        0 <= i < res@.len() && 0 <= b < res@[i].blocks@.len() implies has_edge(
        edges@,
        with_jumps,
        res@[i].function,
        res@[i].blocks@[b],
    ) by {
        assert(list[i].blocks[b] == res@[i].blocks@[b]);
    }
    assert forall|k: int|
        0 <= k < edges@.len() && ((#[trigger] edges@[k]).is_call || (with_jumps
            && edges@[k].is_branch)) implies exists|i: int|
        0 <= i < res@.len() && (#[trigger] res@[i]).function == edges@[k].function
            && res@[i].blocks@.contains(edges@[k].block) by {
        let i = choose|i: int|
            0 <= i < list.len() && (#[trigger] list[i]).function == edges@[k].function
                && list[i].blocks.contains(edges@[k].block);
        assert(res@[i].function == edges@[k].function);
    }
}

/// A checker is found to apply only if it is for the platform and both questions are answered with
/// yes.
pub proof fn law_applicable_checkers<S, V>(
    checker: &Checker,
    platform: &String,
    should_check: &S,
    validate: &V,
    res: bool,
) where S: Fn(&Checker) -> Result<bool, String>, V: Fn(&Checker) -> Result<bool, String>
    requires
        call_ensures(is_applicable::<S, V>, (checker, platform, should_check, validate), res),
    ensures
        res ==> {
            &&& checker@.platform == platform@
            &&& call_ensures(*should_check, (checker,), Ok(true))
            &&& call_ensures(*validate, (checker,), Ok(true))
        },
        !res ==> {
            ||| checker@.platform != platform@
            ||| exists|said: Result<bool, String>| #[trigger]
                call_ensures(*should_check, (checker,), said) && said != Ok::<bool, String>(true)
            ||| exists|said: Result<bool, String>| #[trigger]
                call_ensures(*validate, (checker,), said) && said != Ok::<bool, String>(true)
        },
{
    law_only_applicable_checkers_are_applied(
        *checker,
        platform@,
        *should_check,
        *validate,
        res,
    );
}

/// A new engine has those of the checkers that apply, and no others; it runs in parallel exactly if
/// there are two processors or more, and has what it was given.
pub proof fn law_engines_have_the_applicable_checkers<'a>(
    checkers: &'a Vec<Checker>,
    applies: &Vec<bool>,
    architecture: ArchitectureDef,
    signature_files: BTreeMap<BlobTag, Vec<String>>,
    module_dir: Option<String>,
    decompiler_config: Option<usize>,
    cpus: usize,
    res: Engine<'a>,
)
    requires
        checkers@.len() == applies@.len(),
        call_ensures(
            Engine::with_applicable,
            (
                checkers,
                applies,
                architecture,
                signature_files,
                module_dir,
                decompiler_config,
                cpus,
            ),
            res,
        ),
    ensures
        res@.parallel <==> cpus >= 2,
        res@.architecture == architecture,
        res@.decompiler_config == decompiler_config,
        module_dir is None <==> res@.module_dir is None,
        module_dir matches Some(dir) ==> res@.module_dir == Some(dir@),
        forall|tag: BlobTag|
            #![trigger res@.files.contains_key(tag)]
            res@.files.contains_key(tag) <==> signature_files@.contains_key(tag),
        exists|places: Seq<int>|
            {
                &&& #[trigger] are_places(applies@, places)
                &&& res@.checkers.len() == places.len()
                &&& forall|j: int|
                    0 <= j < places.len() ==> #[trigger] res@.checkers[j] == checkers@[places[j]]@
            },
{
    let views = checkers_of(checkers@);
    law_applied_checkers_keep_their_order(views, applies@);
    let places = choose|places: Seq<int>|
        {
            &&& #[trigger] are_places(applies@, places)
            &&& picked(views, applies@).len() == places.len()
            &&& forall|j: int|
                0 <= j < places.len() ==> picked(views, applies@)[j]
                    == views[places[j]]
        };
    assert forall|j: int| 0 <= j < places.len() implies #[trigger] res@.checkers[j]
        == checkers@[places[j]]@ by {
        assert(0 <= places[j] < applies@.len());
        assert(picked(views, applies@)[j] == views[places[j]]);
    }
}

/// Whether `checker` is for `platform` and both questions can be answered with yes.
pub open spec fn can_apply<S, V>(
    checker: Checker,
    platform: Seq<char>,
    should_check: S,
    validate: V,
) -> bool where S: Fn(&Checker) -> Result<bool, String>, V: Fn(&Checker) -> Result<bool, String> {
    &&& checker@.platform == platform
    &&& call_ensures(should_check, (&checker,), Ok(true))
    &&& call_ensures(validate, (&checker,), Ok(true))
}

/// Whether `checker` is for `platform` and neither question can be answered with anything but yes.
pub open spec fn must_apply<S, V>(
    checker: Checker,
    platform: Seq<char>,
    should_check: S,
    validate: V,
) -> bool where S: Fn(&Checker) -> Result<bool, String>, V: Fn(&Checker) -> Result<bool, String> {
    &&& checker@.platform == platform
    &&& forall|said: Result<bool, String>| #[trigger]
        call_ensures(should_check, (&checker,), said) ==> said == Ok::<bool, String>(true)
    &&& forall|said: Result<bool, String>| #[trigger]
        call_ensures(validate, (&checker,), said) ==> said == Ok::<bool, String>(true)
}

/// Every checker of a new engine is one that was given and can apply, and every one that was given
/// and must apply is there. The engine has the default configuration of the decompiler.
pub proof fn law_new_engines_ask_which_checkers_apply<'a, S, V>(
    platform: &String,
    architecture: ArchitectureDef,
    checkers: &'a Vec<Checker>,
    signature_files: BTreeMap<BlobTag, Vec<String>>,
    module_dir: Option<String>,
    should_check: &S,
    validate: &V,
    res: Engine<'a>,
) where S: Fn(&Checker) -> Result<bool, String>, V: Fn(&Checker) -> Result<bool, String>
    requires
        call_ensures(
            Engine::new::<S, V>,
            (
                platform,
                architecture,
                checkers,
                signature_files,
                module_dir,
                should_check,
                validate,
            ),
            res,
        ),
    ensures
        res@.decompiler_config is None,
        res@.architecture == architecture,
        forall|j: int|
            #![trigger res@.checkers[j]]
            0 <= j < res@.checkers.len() ==> exists|i: int|
                0 <= i < checkers@.len() && res@.checkers[j] == checkers@[i]@ && #[trigger] can_apply(
                    checkers@[i],
                    platform@,
                    *should_check,
                    *validate,
                ),
        forall|i: int|
            0 <= i < checkers@.len() && #[trigger] must_apply(
                checkers@[i],
                platform@,
                *should_check,
                *validate,
            ) ==> exists|j: int|
                0 <= j < res@.checkers.len() && #[trigger] res@.checkers[j] == checkers@[i]@,
{
    let views = checkers_of(checkers@);
    let applies = choose|applies: Seq<bool>|
        {
            &&& applies.len() == checkers.len()
            &&& forall|i: int|
                0 <= i < applies.len() ==> may_apply(
                    checkers[i],
                    platform@,
                    *should_check,
                    *validate,
                    #[trigger] applies[i],
                )
            &&& res@ == fresh_engine(
                #[trigger] picked(views, applies),
                files_of(signature_files@),
                architecture,
                text_of(module_dir),
                None,
                res@.parallel,
            )
        };
    law_applied_checkers_keep_their_order(views, applies);
    let places = choose|places: Seq<int>|
        {
            &&& #[trigger] are_places(applies, places)
            &&& picked(views, applies).len() == places.len()
            &&& forall|j: int| 0 <= j < places.len() ==> picked(views, applies)[j]
                == views[places[j]]
        };
    assert forall|j: int|
        #![trigger res@.checkers[j]]
        0 <= j < res@.checkers.len() implies exists|i: int|
        0 <= i < checkers@.len() && res@.checkers[j] == checkers@[i]@ && #[trigger] can_apply(
            checkers@[i],
            platform@,
            *should_check,
            *validate,
        ) by {
        let i = places[j];
        assert(applies[i]);
        assert(picked(views, applies)[j] == views[i]);
        law_only_applicable_checkers_are_applied(
            checkers@[i],
            platform@,
            *should_check,
            *validate,
            applies[i],
        );
        assert(can_apply(checkers@[i], platform@, *should_check, *validate));
    }
    assert forall|i: int|
        0 <= i < checkers@.len() && #[trigger] must_apply(
            checkers@[i],
            platform@,
            *should_check,
            *validate,
        ) implies exists|j: int|
        0 <= j < res@.checkers.len() && #[trigger] res@.checkers[j] == checkers@[i]@ by {
        assert(may_apply(checkers[i], platform@, *should_check, *validate, applies[i]));
        law_only_applicable_checkers_are_applied(
            checkers@[i],
            platform@,
            *should_check,
            *validate,
            applies[i],
        );
        assert(applies[i]);
        let j = choose|j: int| 0 <= j < places.len() && (#[trigger] places[j]) == i;
        assert(picked(views, applies)[j] == views[i]);
        assert(res@.checkers[j] == checkers@[i]@);
    }
}

/// The checker at a place is the applied one that has that place; there is none beyond the last.
pub proof fn law_checkers_are_found_by_place<'a>(
    engine: &Engine<'a>,
    id: usize,
    res: Option<&'a Checker>,
)
    requires
        call_ensures(Engine::checker_for, (engine, id), res),
    ensures
        res is Some <==> id < engine@.checkers.len(),
        res matches Some(checker) ==> checker@ == engine@.checkers[id as int],
{
}

/// The handler of a visit is that of the scope which the visit's member stands for.
pub proof fn law_handlers_are_those_of_the_scopes(engine: &Engine, visit: &Visit, res: &str)
    requires
        engine@.valid(),
        engine@.can_make(*visit),
        call_ensures(Engine::handler_of, (engine, visit), res),
    ensures
        res@ == all_members_given(
            engine@.checkers,
            engine@.architecture,
            engine@.groups[visit.group as int].key,
            engine@.checkers.len() as int,
        )[visit.member as int].handler,
{
    law_members_run_their_own_handler(engine@, *visit);
}

/// A visit calls the handler of its own member in the Lua state that is kept for its own checker, and
/// gives what that call gives.
pub proof fn law_visits_call_their_handler<
    F: FnOnce(&Lua, &str) -> Result<Option<usize>, String>,
>(
    engine: &Engine,
    visit: &Visit,
    invoke: F,
    res: Result<Option<CheckResult>, CheckerError>,
)
    requires
        engine@.valid(),
        engine@.can_make(*visit),
        engine@.contexts[visit.checker as int] is Some,
        call_ensures(Engine::make_visit::<F>, (engine, visit, invoke), res),
    ensures
        exists|name: &str, outcome: Result<Option<usize>, String>|
            {
                &&& name@ == all_members_given(
                    engine@.checkers,
                    engine@.architecture,
                    engine@.groups[visit.group as int].key,
                    engine@.checkers.len() as int,
                )[visit.member as int].handler
                &&& #[trigger] call_ensures(
                    invoke,
                    (&(engine@.contexts[visit.checker as int]->0).lua(), name),
                    outcome,
                )
                &&& res is Ok <==> outcome is Ok
                &&& res matches Ok(Some(given)) ==> outcome == Ok::<Option<usize>, String>(
                    Some(given.finding),
                )
                &&& res matches Ok(None) ==> outcome == Ok::<Option<usize>, String>(None)
                &&& res matches Err(error) ==> (outcome matches Err(text) && error@.text == text@)
            },
{
    law_members_run_their_own_handler(engine@, *visit);
    law_handlers_are_called_by_name(
        (engine@.contexts[visit.checker as int]->0).lua(),
        engine@.handler_of(*visit),
        invoke,
        res,
    );
}

/// The Lua state that is made for an applied checker is one in which that checker's code has run last,
/// under that checker's name.
pub proof fn law_states_have_run_their_checker<T, R, B, M>(
    engine: &Engine,
    checker: usize,
    vm: Lua,
    preludes: &Preludes,
    steps: Steps<T, R, B, M>,
    res: Result<CheckerContext, CheckerError>,
) where
    T: FnOnce(Lua) -> Step,
    R: Fn(Lua, &str, &[u8]) -> Step,
    B: FnOnce(Lua, &str, &[u8]) -> Step,
    M: FnOnce(Lua, Option<&str>) -> Step,

    requires
        checker < engine@.checkers.len(),
        call_ensures(
            Engine::make_context::<T, R, B, M>,
            (engine, checker, vm, preludes, steps),
            res,
        ),
    ensures
        res matches Ok(context) ==> exists|before: Lua, chunk: &str, text: &[u8]|
            chunk@ == engine@.checkers[checker as int].name && text@
                == engine@.checkers[checker as int].code && #[trigger] call_ensures(
                steps.run,
                (before, chunk, text),
                Ok(context.lua()),
            ),
        res matches Err(error) ==> error@.kind == ErrorKind::Load || error@.kind
            == ErrorKind::ModuleLoader,
{
    let own = engine@.checkers[checker as int];
    law_states_are_prepared_for_their_checker(own, engine@.module_dir, vm, *preludes, steps, res);
    let trail = choose|trail: Trail| #[trigger]
        is_trail(vm, own.name, own.code, engine@.module_dir, *preludes, steps, trail) && ends_trail(
            trail,
            res,
        );
    law_errors_name_the_step(trail, res);
}

/// A work item gives what its own handler gives in a state in which its own checker's code has run
/// last, or an error.
pub proof fn law_work_items_call_their_handler<T, R, B, M, F>(
    engine: &Engine,
    item: &Visit,
    vm: Lua,
    preludes: &Preludes,
    steps: Steps<T, R, B, M>,
    invoke: F,
    res: Result<Option<CheckResult>, CheckerError>,
) where
    T: FnOnce(Lua) -> Step,
    R: Fn(Lua, &str, &[u8]) -> Step,
    B: FnOnce(Lua, &str, &[u8]) -> Step,
    M: FnOnce(Lua, Option<&str>) -> Step,
    F: FnOnce(&Lua, &str) -> Result<Option<usize>, String>,

    requires
        engine@.valid(),
        engine@.can_make(*item),
        call_ensures(
            Engine::execute_calls_work_item::<T, R, B, M, F>,
            (engine, item, vm, preludes, steps, invoke),
            res,
        ),
    ensures
        res matches Ok(found) ==> exists|
            before: Lua,
            after: Lua,
            chunk: &str,
            text: &[u8],
            name: &str,
            outcome: Option<usize>,
        |
            {
                &&& chunk@ == engine@.checkers[item.checker as int].name
                &&& text@ == engine@.checkers[item.checker as int].code
                &&& #[trigger] call_ensures(steps.run, (before, chunk, text), Ok(after))
                &&& name@ == all_members_given(
                    engine@.checkers,
                    engine@.architecture,
                    engine@.groups[item.group as int].key,
                    engine@.checkers.len() as int,
                )[item.member as int].handler
                &&& #[trigger] call_ensures(invoke, (&after, name), Ok(outcome))
                &&& found is Some <==> outcome is Some
                &&& found matches Some(given) ==> outcome == Some(given.finding)
            },
{
    let own = engine@.checkers[item.checker as int];
    law_members_run_their_own_handler(engine@, *item);
    law_work_items_run_in_their_own_state(
        own,
        engine@.module_dir,
        engine@.handler_of(*item),
        vm,
        *preludes,
        steps,
        invoke,
        res,
    );
    if res is Ok {
        let (context, name, outcome) = choose|
            context: CheckerContext,
            name: &str,
            outcome: Result<Option<usize>, String>,
        |
            {
                &&& #[trigger] state_prepared(
                    own,
                    engine@.module_dir,
                    vm,
                    *preludes,
                    steps,
                    Ok(context),
                )
                &&& name@ == engine@.handler_of(*item)
                &&& #[trigger] call_ensures(invoke, (&context.lua(), name), outcome)
                &&& handler_concluded(outcome, res)
            };
        law_states_are_prepared_for_their_checker(
            own,
            engine@.module_dir,
            vm,
            *preludes,
            steps,
            Ok(context),
        );
        let (before, chunk, text) = choose|before: Lua, chunk: &str, text: &[u8]|
            chunk@ == own.name && text@ == own.code && #[trigger] call_ensures(
                steps.run,
                (before, chunk, text),
                Ok(context.lua()),
            );
        law_handlers_give_what_they_find(outcome, res);
        let found = outcome->Ok_0;
        assert(outcome == Ok::<Option<usize>, String>(found));
        assert(call_ensures(invoke, (&context.lua(), name), Ok(found)));
        assert(call_ensures(steps.run, (before, chunk, text), Ok(context.lua())));
    }
}

/// The outcome of a handler is what the handler found, or an error of running it.
pub proof fn law_handlers_are_concluded(
    outcome: Result<Option<usize>, String>,
    res: Result<Option<CheckResult>, CheckerError>,
)
    requires
        call_ensures(conclude_handler, (outcome,), res),
    ensures
        outcome is Ok <==> res is Ok,
        outcome matches Err(text) ==> (res matches Err(error) && says(
            error@,
            ErrorKind::Run,
            text@,
        )),
        outcome matches Ok(found) ==> (res matches Ok(given) && (found is Some <==> given is Some)
            && (found is Some ==> (given->0).finding == found->0 && (given->0).rule is None)),
{
    law_handlers_give_what_they_find(outcome, res);
}

/// A finding is put down to the checker that is named, and stays the same finding.
pub proof fn law_findings_are_put_down(
    finding: usize,
    fresh: CheckResult,
    rule: usize,
    res: CheckResult,
)
    requires
        call_ensures(CheckResult::new, (finding,), fresh),
        call_ensures(CheckResult::with_rule, (fresh, rule), res),
    ensures
        fresh.rule is None,
        fresh.finding == finding,
        res.rule == Some(rule),
        res.finding == finding,
{
}

/// What a run of the checkers needs is told from the task that is next: the decompiler is set up for
/// the group of the next visit, a Lua state made for its checker, and its handler run once both are
/// ready.
pub proof fn law_next_visits_are_prepared(run: &SequentialRun, engine: &Engine, res: Request)
    requires
        call_ensures(SequentialRun::pending, (run, engine), res),
    ensures
        res matches Request::ConfigureDecompiler { group } ==> (
        run@.agenda.last() matches TaskView::Visit(visit) && group == visit.group),
        res matches Request::Context { checker } ==> (run@.agenda.last() matches TaskView::Visit(
            visit,
        ) && checker == visit.checker && engine@.contexts[checker as int] is None),
        res matches Request::Invoke { visit } ==> run@.agenda.last() == TaskView::Visit(visit)
            && engine@.contexts[visit.checker as int] is Some,
        run@.failure is Some || run@.agenda.len() == 0 ==> res is Nothing,
{
    law_decompiler_is_set_up_for_the_visit(engine@, run@);
    law_state_is_made_for_the_visit(engine@, run@);
    law_handler_is_run_for_the_visit(engine@, run@);
}

/// What is needed to build the mappings is told from the first group that lacks one: its symbols, and
/// then its types, which come from its type library if it has one and from the project otherwise.
pub proof fn law_next_mappings_are_built(build: &CacheBuild, engine: &Engine, res: CacheRequest)
    requires
        engine@.valid(),
        call_ensures(CacheBuild::pending, (build, engine), res),
    ensures
        res matches CacheRequest::BuildSymbols { tag } ==> !engine@.symbols.contains_key(tag),
        res matches CacheRequest::LoadTypes { group } ==> group < engine@.groups.len()
            && engine@.groups[group as int].key.types is Some,
        res matches CacheRequest::DeriveTypes { group } ==> group < engine@.groups.len()
            && engine@.groups[group as int].key.types is None,
        res matches CacheRequest::Merge { symbols, types } ==> build@.merging == Some(
            (symbols, types),
        ),
{
    law_mappings_are_asked_for_in_order(build@, engine@);
}

/// What comes of a run is given exactly once the run is finished.
pub proof fn law_outcomes_are_given_at_the_end(
    run: Run,
    res: Result<Result<Vec<CheckResult>, CheckerError>, Run>,
)
    requires
        call_ensures(Run::outcome, (run,), res),
    ensures
        res matches Ok(Ok(checks)) ==> (run@ matches RunView::Finished(Ok(found)) && checks@
            == found),
        res matches Ok(Err(error)) ==> (run@ matches RunView::Finished(Err(ended)) && error@
            == ended),
        res matches Err(unfinished) ==> unfinished@ == run@ && !(run@ is Finished),
{
}

/// The visits that are to be made in parallel are those of the run, and none unless it has come to
/// them.
pub proof fn law_work_is_that_of_the_run(run: &Run, res: &[Visit], searching: bool)
    requires
        call_ensures(Run::work, (run,), res),
        call_ensures(Run::is_searching, (run,), searching),
    ensures
        run@ matches RunView::Dispatching { items, .. } ==> res@ == items,
        !(run@ is Dispatching) ==> res@.len() == 0,
        searching <==> run@ is Searching,
{
}

/// The message of an error ends with the error's own text, behind the words of its kind.
pub proof fn law_messages_end_with_the_text(error: &CheckerError, res: String)
    requires
        call_ensures(CheckerError::message, (error,), res),
    ensures
        res@.len() >= error@.text.len(),
        res@.skip(res@.len() - error@.text.len()) == error@.text,
        res@.take(res@.len() - error@.text.len()) == prefix_of(error@.kind),
{
    let words = prefix_of(error@.kind);
    assert(res@.skip(words.len() as int) =~= error@.text);
    assert(res@.take(words.len() as int) =~= words);
}

/// Extensions hold what each of two sets holds once they are united, and the decompiler is needed
/// exactly if one of the two needs it.
pub proof fn law_united_extensions(
    a: CheckerExtensions,
    b: CheckerExtensions,
    united: CheckerExtensions,
    needed: bool,
)
    requires
        call_ensures(CheckerExtensions::union, (a, b), united),
        call_ensures(CheckerExtensions::requires_decompiler, (&united,), needed),
    ensures
        needed <==> a.bits % 2 == 1 || b.bits % 2 == 1,
{
    let (p, q, r) = (a.bits, b.bits, united.bits);
    assert((p | q) & 1u8 == 1u8 <==> (p % 2 == 1 || q % 2 == 1)) by (bit_vector);
}

} // verus!
