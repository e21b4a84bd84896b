//! Which checkers an engine has, and what its groups are made of, told from the rules themselves.
use vstd::prelude::*;

use crate::agenda::Visit;
use crate::checker::{ArchitectureDef, BlobTag, Checker, CheckerView};
use crate::engine::{Engine, EngineView, fresh_engine, may_apply, picked};
use crate::groups::{
    GroupKey, MemberView, Registration, checker_registrations, grouped,
    law_groups_hold_registrations, members_in, registration_of, registrations, tag_of, with_key,
};
use crate::scope::ScopeView;

verus! {

/// A checker is applied only if it is for the platform, should be checked and is valid there: both
/// questions were answered with yes. It is left out only if one of the three is not so, where a
/// question that fails counts as no.
pub proof fn law_only_applicable_checkers_are_applied<S, V>(
    checker: Checker,
    platform: Seq<char>,
    should_check: S,
    validate: V,
    applies: bool,
) where S: Fn(&Checker) -> Result<bool, String>, V: Fn(&Checker) -> Result<bool, String>
    requires
        may_apply(checker, platform, should_check, validate, applies),
    ensures
        applies ==> {
            &&& checker@.platform == platform
            &&& call_ensures(should_check, (&checker,), Ok(true))
            &&& call_ensures(validate, (&checker,), Ok(true))
        },
        !applies ==> {
            ||| checker@.platform != platform
            ||| exists|said: Result<bool, String>| #[trigger]
                call_ensures(should_check, (&checker,), said) && said != Ok::<bool, String>(true)
            ||| {
                &&& call_ensures(should_check, (&checker,), Ok(true))
                &&& exists|said: Result<bool, String>| #[trigger]
                    call_ensures(validate, (&checker,), said) && said != Ok::<bool, String>(true)
            }
        },
{
    if checker@.platform == platform {
        let should = choose|should: Result<bool, String>| #[trigger]
            call_ensures(should_check, (&checker,), should) && if should is Ok && should->Ok_0 {
                exists|valid: Result<bool, String>| #[trigger]
                    call_ensures(validate, (&checker,), valid) && applies == (valid is Ok
                        && valid->Ok_0)
            } else {
                !applies
            };
        if should is Ok && should->Ok_0 {
            let valid = choose|valid: Result<bool, String>| #[trigger]
                call_ensures(validate, (&checker,), valid) && applies == (valid is Ok
                    && valid->Ok_0);
            assert(should == Ok::<bool, String>(true));
            if applies {
                assert(valid == Ok::<bool, String>(true));
            }
        }
    }
}

/// Whether `places` are the places of `applies` that hold, in order.
pub open spec fn are_places(applies: Seq<bool>, places: Seq<int>) -> bool {
    &&& forall|j: int|
        0 <= j < places.len() ==> 0 <= (#[trigger] places[j]) < applies.len() && applies[places[j]]
    &&& forall|i: int, j: int|
        0 <= i < j < places.len() ==> (#[trigger] places[i]) < (#[trigger] places[j])
    &&& forall|i: int|
        0 <= i < applies.len() && (#[trigger] applies[i]) ==> exists|j: int|
            0 <= j < places.len() && (#[trigger] places[j]) == i
}

/// The applied checkers are exactly those that apply, each once and in the order in which they were
/// given.
pub proof fn law_applied_checkers_keep_their_order(checkers: Seq<CheckerView>, applies: Seq<bool>)
    requires
        checkers.len() == applies.len(),
    ensures
        exists|places: Seq<int>|
            {
                &&& #[trigger] are_places(applies, places)
                &&& picked(checkers, applies).len() == places.len()
                &&& forall|j: int|
                    0 <= j < places.len() ==> picked(checkers, applies)[j] == checkers[places[j]]
            },
    decreases checkers.len(),
{
    let places = lemma_places(checkers, applies);
    assert(applies.take(applies.len() as int) =~= applies);
}

proof fn lemma_places(checkers: Seq<CheckerView>, applies: Seq<bool>) -> (places: Seq<int>)
    requires
        checkers.len() <= applies.len(),
    ensures
        are_places(applies.take(checkers.len() as int), places),
        picked(checkers, applies).len() == places.len(),
        forall|j: int|
            0 <= j < places.len() ==> picked(checkers, applies)[j] == checkers[#[trigger] places[j]],
    decreases checkers.len(),
{
    if checkers.len() == 0 {
        Seq::empty()
    } else {
        let last = checkers.len() - 1;
        let before = lemma_places(checkers.drop_last(), applies);
        let seen = applies.take(last);
        let now = applies.take(last + 1);
        let places = if applies[last] {
            before.push(last)
        } else {
            before
        };
        assert forall|j: int| 0 <= j < places.len() implies 0 <= (#[trigger] places[j]) < now.len()
            && now[places[j]] by {
            if j < before.len() {
                assert(seen[before[j]]);
            }
        }
        assert forall|i: int, j: int| 0 <= i < j < places.len() implies (#[trigger] places[i]) < (
        #[trigger] places[j]) by {
            if j < before.len() {
                assert(before[i] < before[j]);
            } else {
                assert(before[i] < seen.len());
            }
        }
        assert forall|i: int| 0 <= i < now.len() && (#[trigger] now[i]) implies exists|j: int|
            0 <= j < places.len() && (#[trigger] places[j]) == i by {
            if i < last {
                assert(seen[i]);
                let j = choose|j: int| 0 <= j < before.len() && (#[trigger] before[j]) == i;
                assert(places[j] == i);
            } else {
                assert(places[before.len() as int] == i);
            }
        }
        assert forall|j: int| 0 <= j < places.len() implies picked(checkers, applies)[j]
            == checkers[#[trigger] places[j]] by {
            if j < before.len() {
                assert(checkers.drop_last()[before[j]] == checkers[before[j]]);
            }
        }
        places
    }
}

/// A new engine has made nothing yet: no Lua state, and no mapping. Everything else is as it was
/// given.
pub proof fn law_new_engines_have_made_nothing(
    checkers: Seq<CheckerView>,
    files: Map<BlobTag, Seq<Seq<char>>>,
    architecture: ArchitectureDef,
    module_dir: Option<Seq<char>>,
    decompiler_config: Option<usize>,
    parallel: bool,
)
    ensures
        ({
            let engine = fresh_engine(
                checkers,
                files,
                architecture,
                module_dir,
                decompiler_config,
                parallel,
            );
            &&& engine.checkers == checkers
            &&& engine.contexts.len() == checkers.len()
            &&& forall|i: int| 0 <= i < checkers.len() ==> engine.contexts[i] is None
            &&& engine.files == files
            &&& engine.symbols.dom() == Set::<BlobTag>::empty()
            &&& forall|key| !engine.types.contains_key(key)
            &&& engine.architecture == architecture
            &&& engine.module_dir == module_dir
            &&& engine.decompiler_config == decompiler_config
            &&& engine.parallel == parallel
        }),
{
}

/// The signature files behind a tag are those that were given for it, none if there are none.
pub proof fn law_files_are_those_of_the_tag(engine: EngineView, tag: BlobTag)
    ensures
        engine.files.contains_key(tag) ==> engine.files_for(tag) == engine.files[tag],
        !engine.files.contains_key(tag) ==> engine.files_for(tag).len() == 0,
{
}

/// The tag of `checker` on `architecture`: the one that it has there, or zero.
pub open spec fn tag_on(checker: CheckerView, architecture: ArchitectureDef) -> BlobTag {
    match checker.tags.dom().contains(architecture) {
        true => checker.tags[architecture],
        false => 0,
    }
}

/// The tag of a checker's signature files is the one that it has for the architecture, and the one
/// that stands for no files if it has none there.
pub proof fn law_tags_are_by_architecture(checker: CheckerView, architecture: ArchitectureDef)
    ensures
        checker.tags.contains_key(architecture) ==> tag_of(checker, architecture)
            == checker.tags[architecture],
        !checker.tags.contains_key(architecture) ==> tag_of(checker, architecture) == 0,
{
}

/// What the types of a group are kept under is its type library and its tag.
pub proof fn law_types_are_kept_by_library_and_tag(engine: EngineView, group: int)
    ensures
        engine.type_key(group).types == engine.groups[group].key.types,
        engine.type_key(group).tag == engine.groups[group].key.tag,
{
}

/// Whether the scope `scope` of `checker` belongs under `key`: they agree in the type library, in the
/// tag of the signature files, in the kind and in the number of the scope.
pub open spec fn belongs_under(
    checker: CheckerView,
    architecture: ArchitectureDef,
    scope: ScopeView,
    key: GroupKey,
) -> bool {
    &&& key.types == checker.types
    &&& key.tag == tag_on(checker, architecture)
    &&& key.kind == scope.kind
    &&& key.scope == scope.id
}

/// The members that the checker at `index` gives to the group `key`: one for each of its scopes that
/// belong there, with that scope's handler.
pub open spec fn members_given(
    checkers: Seq<CheckerView>,
    architecture: ArchitectureDef,
    key: GroupKey,
    index: int,
) -> Seq<MemberView> {
    checkers[index].scopes.filter(
        |scope: ScopeView| belongs_under(checkers[index], architecture, scope, key),
    ).map_values(
        |scope: ScopeView| MemberView { checker: index as usize, handler: scope.with },
    )
}

/// The members of a group are those that the checkers give to it, one checker after the other.
pub open spec fn all_members_given(
    checkers: Seq<CheckerView>,
    architecture: ArchitectureDef,
    key: GroupKey,
    count: int,
) -> Seq<MemberView> {
    Seq::new(count as nat, |index: int| index).flat_map(
        |index: int| members_given(checkers, architecture, key, index),
    )
}

proof fn lemma_own_members(
    index: usize,
    checker: CheckerView,
    scopes: Seq<ScopeView>,
    architecture: ArchitectureDef,
    key: GroupKey,
)
    ensures
        members_in(
            with_key(
                scopes.map_values(
                    |scope: ScopeView| registration_of(index, checker, architecture, scope),
                ),
                key,
            ),
        ) == scopes.filter(
            |scope: ScopeView| belongs_under(checker, architecture, scope, key),
        ).map_values(|scope: ScopeView| MemberView { checker: index, handler: scope.with }),
    decreases scopes.len(),
{
    let registration = |scope: ScopeView| registration_of(index, checker, architecture, scope);
    let belongs = |scope: ScopeView| belongs_under(checker, architecture, scope, key);
    let member = |scope: ScopeView| MemberView { checker: index, handler: scope.with };
    let same = |registration: Registration| registration.key == key;
    reveal(Seq::filter);
    if scopes.len() > 0 {
        let before = scopes.drop_last();
        let last = scopes.last();
        lemma_own_members(index, checker, before, architecture, key);
        let first = before.map_values(registration);
        assert(scopes.map_values(registration) =~= first.push(registration(last)));
        first.lemma_filter_push(registration(last), same);
        before.lemma_filter_push(last, belongs);
        assert(before.push(last) =~= scopes);
        assert(same(registration(last)) == belongs(last)) by {
            assert(registration(last).key.types == checker.types);
            if registration(last).key == key {
                assert(belongs(last));
            }
        }
        if belongs(last) {
            assert(members_in(first.filter(same).push(registration(last))) =~= members_in(
                first.filter(same),
            ).push(member(last)));
            assert(before.filter(belongs).push(last).map_values(member) =~= before.filter(
                belongs,
            ).map_values(member).push(member(last)));
        }
    } else {
        assert(scopes.map_values(registration) =~= Seq::<Registration>::empty());
        assert(members_in(with_key(Seq::empty(), key)) =~= Seq::<MemberView>::empty());
        assert(scopes.filter(belongs).map_values(member) =~= Seq::<MemberView>::empty());
    }
}

proof fn lemma_members_given(
    checkers: Seq<CheckerView>,
    count: int,
    architecture: ArchitectureDef,
    key: GroupKey,
)
    requires
        0 <= count <= checkers.len() <= usize::MAX,
    ensures
        members_in(with_key(registrations(checkers.take(count), architecture), key))
            == all_members_given(checkers, architecture, key, count),
    decreases count,
{
    let given = |index: int| members_given(checkers, architecture, key, index);
    let same = |registration: Registration| registration.key == key;
    if count == 0 {
        reveal(Seq::filter);
        assert(checkers.take(0) =~= Seq::<CheckerView>::empty());
        assert(members_in(with_key(Seq::empty(), key)) =~= Seq::<MemberView>::empty());
        assert(Seq::new(0, |index: int| index).flat_map(given) =~= Seq::<MemberView>::empty());
    } else {
        let last = count - 1;
        lemma_members_given(checkers, last, architecture, key);
        let before = registrations(checkers.take(last), architecture);
        assert(checkers.take(count).drop_last() =~= checkers.take(last));
        let own = checker_registrations(last as usize, checkers[last], architecture);
        assert(registrations(checkers.take(count), architecture) == before + own);
        Seq::filter_distributes_over_add(before, own, same);
        assert(members_in(before.filter(same) + own.filter(same)) =~= members_in(
            before.filter(same),
        ) + members_in(own.filter(same)));
        lemma_own_members(last as usize, checkers[last], checkers[last].scopes, architecture, key);
        let places = Seq::new(last as nat, |index: int| index);
        assert(Seq::new(count as nat, |index: int| index) =~= places.push(last));
        places.lemma_flat_map_push(given, last);
    }
}

/// No two groups have the same key, and each holds exactly what the checkers give to it: for each
/// scope that belongs under its key a member with that scope's checker and handler, one checker
/// after the other, and the scopes of a checker in their order.
pub proof fn law_groups_are_made_of_scopes(engine: EngineView)
    requires
        engine.valid(),
    ensures
        forall|g: int, h: int|
            0 <= g < h < engine.groups.len() ==> (#[trigger] engine.groups[g]).key != (
            #[trigger] engine.groups[h]).key,
        forall|g: int|
            0 <= g < engine.groups.len() ==> (#[trigger] engine.groups[g]).members
                == all_members_given(
                engine.checkers,
                engine.architecture,
                engine.groups[g].key,
                engine.checkers.len() as int,
            ),
{
    let all = registrations(engine.checkers, engine.architecture);
    law_groups_hold_registrations(all);
    assert forall|g: int| 0 <= g < engine.groups.len() implies (#[trigger] engine.groups[g]).members
        == all_members_given(
        engine.checkers,
        engine.architecture,
        engine.groups[g].key,
        engine.checkers.len() as int,
    ) by {
        let count = engine.checkers.len() as int;
        lemma_members_given(engine.checkers, count, engine.architecture, engine.groups[g].key);
        assert(engine.checkers.take(count) =~= engine.checkers);
        assert(engine.groups[g] == grouped(all)[g]);
    }
}

proof fn lemma_registrations_are_of_scopes(
    checkers: Seq<CheckerView>,
    architecture: ArchitectureDef,
)
    requires
        checkers.len() <= usize::MAX,
    ensures
        forall|r: int|
            0 <= r < registrations(checkers, architecture).len() ==> is_of_scope(
                checkers,
                architecture,
                #[trigger] registrations(checkers, architecture)[r],
            ),
        forall|c: int, k: int|
            #![trigger checkers[c].scopes[k]]
            0 <= c < checkers.len() && 0 <= k < checkers[c].scopes.len() ==> registrations(
                checkers,
                architecture,
            ).contains(registration_of(c as usize, checkers[c], architecture, checkers[c].scopes[k])),
    decreases checkers.len(),
{
    if checkers.len() > 0 {
        let last = checkers.len() - 1;
        let before = checkers.drop_last();
        lemma_registrations_are_of_scopes(before, architecture);
        let first = registrations(before, architecture);
        let own = checker_registrations(last as usize, checkers.last(), architecture);
        let all = registrations(checkers, architecture);
        assert forall|r: int| 0 <= r < all.len() implies is_of_scope(
            checkers,
            architecture,
            #[trigger] all[r],
        ) by {
            if r < first.len() {
                assert(is_of_scope(before, architecture, first[r]));
                let (c, k) = choose|c: int, k: int|
                    #![trigger before[c].scopes[k]]
                    0 <= c < before.len() && 0 <= k < before[c].scopes.len() && first[r]
                        == registration_of(c as usize, before[c], architecture, before[c].scopes[k]);
                assert(checkers[c].scopes[k] == before[c].scopes[k]);
            } else {
                let k = r - first.len();
                assert(all[r] == own[k]);
                assert(checkers[last].scopes[k] == checkers.last().scopes[k]);
            }
        }
        assert forall|c: int, k: int|
            #![trigger checkers[c].scopes[k]]
            0 <= c < checkers.len() && 0 <= k < checkers[c].scopes.len() implies all.contains(
            registration_of(c as usize, checkers[c], architecture, checkers[c].scopes[k]),
        ) by {
            let wanted = registration_of(
                c as usize,
                checkers[c],
                architecture,
                checkers[c].scopes[k],
            );
            if c < last {
                assert(before[c].scopes[k] == checkers[c].scopes[k]);
                assert(first.contains(wanted));
                let r = choose|r: int| 0 <= r < first.len() && first[r] == wanted;
                assert(all[r] == wanted);
            } else {
                assert(own[k] == wanted);
                assert(all[first.len() + k] == wanted);
            }
        }
    }
}

spec fn is_of_scope(
    checkers: Seq<CheckerView>,
    architecture: ArchitectureDef,
    registration: Registration,
) -> bool {
    exists|c: int, k: int|
        #![trigger checkers[c].scopes[k]]
        0 <= c < checkers.len() && 0 <= k < checkers[c].scopes.len() && registration
            == registration_of(c as usize, checkers[c], architecture, checkers[c].scopes[k])
}

/// The handler that a visit runs is one that its own checker names for a scope of the visit's group.
pub proof fn law_visits_run_their_own_handler(engine: EngineView, visit: Visit)
    requires
        engine.valid(),
        engine.can_make(visit),
    ensures
        exists|k: int|
            {
                &&& 0 <= k < engine.checkers[visit.checker as int].scopes.len()
                &&& belongs_under(
                    engine.checkers[visit.checker as int],
                    engine.architecture,
                    #[trigger] engine.checkers[visit.checker as int].scopes[k],
                    engine.groups[visit.group as int].key,
                )
                &&& engine.handler_of(visit) == engine.checkers[visit.checker as
                    int].scopes[k].with
            },
{
    let all = registrations(engine.checkers, engine.architecture);
    let key = engine.groups[visit.group as int].key;
    let m = visit.member as int;
    law_groups_hold_registrations(all);
    lemma_registrations_are_of_scopes(engine.checkers, engine.architecture);
    let own = with_key(all, key);
    assert(engine.groups[visit.group as int] == grouped(all)[visit.group as int]);
    assert(engine.groups[visit.group as int].members[m] == own[m].member);
    let same = |registration: Registration| registration.key == key;
    assert(own.contains(own[m]));
    all.lemma_filter_contains_rev(same, own[m]);
    all.lemma_filter_pred(same, m);
    let r = choose|r: int| 0 <= r < all.len() && all[r] == own[m];
    assert(is_of_scope(engine.checkers, engine.architecture, all[r]));
    let (c, k) = choose|c: int, k: int|
        #![trigger engine.checkers[c].scopes[k]]
        0 <= c < engine.checkers.len() && 0 <= k < engine.checkers[c].scopes.len() && all[r]
            == registration_of(
            c as usize,
            engine.checkers[c],
            engine.architecture,
            engine.checkers[c].scopes[k],
        );
    assert(visit.checker == c);
    assert(belongs_under(
        engine.checkers[c],
        engine.architecture,
        engine.checkers[c].scopes[k],
        key,
    ));
}

/// A checker uses the mappings of the groups that it is in: for each visit, the mapping to types that
/// the checker uses is that of the visit's group, and so is the mapping to symbols, except that a
/// checker without signature files on the architecture uses none.
pub proof fn law_checkers_use_the_mappings_of_their_groups(
    engine: &Engine,
    visit: Visit,
    types: Option<usize>,
    group_types: Option<usize>,
    symbols: Option<usize>,
    group_symbols: Option<usize>,
)
    requires
        engine@.valid(),
        engine@.can_make(visit),
        call_ensures(Engine::types_for, (engine, visit.checker), types),
        call_ensures(Engine::types_of_group, (engine, visit.group), group_types),
        call_ensures(Engine::symbols_for, (engine, visit.checker), symbols),
        call_ensures(
            Engine::symbols_under,
            (engine, engine@.groups[visit.group as int].key.tag),
            group_symbols,
        ),
    ensures
        types == group_types,
        symbols == if engine@.checkers[visit.checker as int].tags.contains_key(
            engine@.architecture,
        ) {
            group_symbols
        } else {
            None
        },
{
    law_visits_run_their_own_handler(engine@, visit);
}

/// The handler that a visit of the member `m` runs is that of the `m`-th scope which belongs under the
/// group's key, the scopes of the checkers taken one checker after the other.
pub proof fn law_members_run_their_own_handler(engine: EngineView, visit: Visit)
    requires
        engine.valid(),
        engine.can_make(visit),
    ensures
        ({
            let given = all_members_given(
                engine.checkers,
                engine.architecture,
                engine.groups[visit.group as int].key,
                engine.checkers.len() as int,
            );
            &&& visit.member < given.len()
            &&& given[visit.member as int].checker == visit.checker
            &&& engine.handler_of(visit) == given[visit.member as int].handler
        }),
{
    law_groups_are_made_of_scopes(engine);
}

/// Every scope of every applied checker has a place in the group that it belongs to, under its own
/// handler.
pub proof fn law_every_scope_has_its_group(engine: EngineView, c: int, k: int)
    requires
        engine.valid(),
        0 <= c < engine.checkers.len(),
        0 <= k < engine.checkers[c].scopes.len(),
    ensures
        exists|g: int, m: int|
            {
                &&& 0 <= g < engine.groups.len()
                &&& belongs_under(
                    engine.checkers[c],
                    engine.architecture,
                    engine.checkers[c].scopes[k],
                    engine.groups[g].key,
                )
                &&& 0 <= m < engine.groups[g].members.len()
                &&& #[trigger] engine.groups[g].members[m] == (MemberView {
                    checker: c as usize,
                    handler: engine.checkers[c].scopes[k].with,
                })
            },
{
    let all = registrations(engine.checkers, engine.architecture);
    let wanted = registration_of(
        c as usize,
        engine.checkers[c],
        engine.architecture,
        engine.checkers[c].scopes[k],
    );
    law_groups_hold_registrations(all);
    lemma_registrations_are_of_scopes(engine.checkers, engine.architecture);
    assert(all.contains(wanted));
    let r = choose|r: int| 0 <= r < all.len() && all[r] == wanted;
    let g = choose|g: int|
        0 <= g < grouped(all).len() && (#[trigger] grouped(all)[g]).key == all[r].key;
    let key = grouped(all)[g].key;
    let same = |registration: Registration| registration.key == key;
    all.lemma_filter_contains(same, r);
    let own = with_key(all, key);
    assert(own.contains(all[r]));
    let m = choose|m: int| 0 <= m < own.len() && own[m] == all[r];
    assert(engine.groups[g].members[m] == own[m].member);
}

} // verus!
