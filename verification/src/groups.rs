//! Scopes of several checkers that are searched together.
use vstd::prelude::*;
use vstd::string::*;

use crate::checker::{ArchitectureDef, BlobTag, CheckerView, DEFAULT_TAG, text_of};
use crate::scope::{CheckScope, ScopeKind, ScopeView};

verus! {

/// A checker in a group, and the handler that it runs there.
#[derive(Debug)]
pub struct Member {
    /// The checker, by its place among the applied ones.
    pub checker: usize,
    pub handler: String,
}

/// A [`Member`] as contracts see it.
pub struct MemberView {
    pub checker: usize,
    pub handler: Seq<char>,
}

impl View for Member {
    type V = MemberView;

    open spec fn view(&self) -> MemberView {
        MemberView { checker: self.checker, handler: self.handler@ }
    }
}

/// The checkers that look at one scope with one type library and one set of signatures.
#[derive(Debug)]
pub struct ScopeGroup {
    pub types: Option<String>,
    pub tag: BlobTag,
    pub kind: ScopeKind,
    /// The number of the scope.
    pub scope: u64,
    pub members: Vec<Member>,
}

/// What the checkers of a group have in common.
pub struct GroupKey {
    pub types: Option<Seq<char>>,
    pub tag: BlobTag,
    pub kind: ScopeKind,
    pub scope: u64,
}

/// A [`ScopeGroup`] as contracts see it.
pub struct GroupView {
    pub key: GroupKey,
    pub members: Seq<MemberView>,
}

/// The members of `list` as contracts see them.
pub open spec fn members_of(list: Seq<Member>) -> Seq<MemberView> {
    list.map_values(|member: Member| member@)
}

impl View for ScopeGroup {
    type V = GroupView;

    open spec fn view(&self) -> GroupView {
        GroupView {
            key: GroupKey {
                types: text_of(self.types),
                tag: self.tag,
                kind: self.kind,
                scope: self.scope,
            },
            members: members_of(self.members@),
        }
    }
}

/// The groups of `list` as contracts see them.
pub open spec fn groups_of(list: Seq<ScopeGroup>) -> Seq<GroupView> {
    list.map_values(|group: ScopeGroup| group@)
}

/// A scope of a checker, ready to be put into a group.
pub struct Registration {
    pub key: GroupKey,
    pub member: MemberView,
}

/// The place of the first of `groups` from `at` on that has the key `key`, or their number.
pub open spec fn place_of(groups: Seq<GroupView>, key: GroupKey, at: int) -> int
    decreases groups.len() - at,
{
    if at >= groups.len() {
        groups.len() as int
    } else if groups[at].key == key {
        at
    } else {
        place_of(groups, key, at + 1)
    }
}

/// `groups` with `registration` put into the group of its key, a new one at the end if there is
/// none.
pub open spec fn registered(groups: Seq<GroupView>, registration: Registration) -> Seq<GroupView> {
    let at = place_of(groups, registration.key, 0);
    if at < groups.len() {
        groups.update(
            at,
            GroupView {
                key: groups[at].key,
                members: groups[at].members.push(registration.member),
            },
        )
    } else {
        groups.push(GroupView { key: registration.key, members: seq![registration.member] })
    }
}

/// The groups that `registrations` make up.
pub open spec fn grouped(registrations: Seq<Registration>) -> Seq<GroupView>
    decreases registrations.len(),
{
    if registrations.len() == 0 {
        Seq::empty()
    } else {
        registered(grouped(registrations.drop_last()), registrations.last())
    }
}

/// The tag of the signature files of `checker` on `architecture`.
pub open spec fn tag_of(checker: CheckerView, architecture: ArchitectureDef) -> BlobTag {
    if checker.tags.contains_key(architecture) {
        checker.tags[architecture]
    } else {
        DEFAULT_TAG
    }
}

/// The registration of `scope`, a scope of `checker`, which has the place `index`.
pub open spec fn registration_of(
    index: usize,
    checker: CheckerView,
    architecture: ArchitectureDef,
    scope: ScopeView,
) -> Registration {
    Registration {
        key: GroupKey {
            types: checker.types,
            tag: tag_of(checker, architecture),
            kind: scope.kind,
            scope: scope.id,
        },
        member: MemberView { checker: index, handler: scope.with },
    }
}

/// The registrations of the scopes of `checker`, which has the place `index`.
pub open spec fn checker_registrations(
    index: usize,
    checker: CheckerView,
    architecture: ArchitectureDef,
) -> Seq<Registration> {
    checker.scopes.map_values(
        |scope: ScopeView| registration_of(index, checker, architecture, scope),
    )
}

/// The registrations of the scopes of `checkers`, one checker after the other.
pub open spec fn registrations(
    checkers: Seq<CheckerView>,
    architecture: ArchitectureDef,
) -> Seq<Registration>
    decreases checkers.len(),
{
    if checkers.len() == 0 {
        Seq::empty()
    } else {
        registrations(checkers.drop_last(), architecture) + checker_registrations(
            (checkers.len() - 1) as usize,
            checkers.last(),
            architecture,
        )
    }
}

/// The registrations of `registrations` that have the key `key`.
pub open spec fn with_key(registrations: Seq<Registration>, key: GroupKey) -> Seq<Registration> {
    registrations.filter(|registration: Registration| registration.key == key)
}

/// The members of `registrations`.
pub open spec fn members_in(registrations: Seq<Registration>) -> Seq<MemberView> {
    registrations.map_values(|registration: Registration| registration.member)
}

proof fn lemma_place_of(groups: Seq<GroupView>, key: GroupKey, at: int)
    requires
        0 <= at <= groups.len(),
    ensures
        at <= place_of(groups, key, at) <= groups.len(),
        place_of(groups, key, at) < groups.len() ==> groups[place_of(groups, key, at)].key == key,
        forall|i: int| at <= i < place_of(groups, key, at) ==> (#[trigger] groups[i]).key != key,
    decreases groups.len() - at,
{
    if at < groups.len() && groups[at].key != key {
        lemma_place_of(groups, key, at + 1);
    }
}

/// No two groups have the same key; a group holds exactly the members that were registered under
/// its key, in that order, and at least one; and every registration has a group.
pub proof fn law_groups_hold_registrations(registrations: Seq<Registration>)
    ensures
        forall|i: int, j: int|
            0 <= i < j < grouped(registrations).len() ==> (#[trigger] grouped(
                registrations,
            )[i]).key != (#[trigger] grouped(registrations)[j]).key,
        forall|i: int|
            0 <= i < grouped(registrations).len() ==> {
                let group = #[trigger] grouped(registrations)[i];
                &&& group.members == members_in(with_key(registrations, group.key))
                &&& group.members.len() > 0
            },
        forall|k: int|
            0 <= k < registrations.len() ==> exists|i: int|
                0 <= i < grouped(registrations).len() && (#[trigger] grouped(registrations)[i]).key
                    == (#[trigger] registrations[k]).key,
    decreases registrations.len(),
{
    if registrations.len() > 0 {
        let before = registrations.drop_last();
        let last = registrations.last();
        let old_groups = grouped(before);
        let groups = grouped(registrations);
        law_groups_hold_registrations(before);
        lemma_place_of(old_groups, last.key, 0);
        let at = place_of(old_groups, last.key, 0);
        assert forall|key: GroupKey| #[trigger]
            with_key(registrations, key) == if last.key == key {
                with_key(before, key).push(last)
            } else {
                with_key(before, key)
            } by {
            assert(registrations =~= before.push(last));
            before.lemma_filter_push(last, |registration: Registration| registration.key == key);
        }
        assert(groups.len() > at);
        assert forall|i: int| 0 <= i < groups.len() implies {
            let group = #[trigger] groups[i];
            &&& group.members == members_in(with_key(registrations, group.key))
            &&& group.members.len() > 0
        } by {
            let key = groups[i].key;
            if i < old_groups.len() {
                assert(old_groups[i].key == key);
                if i == at {
                    assert(members_in(with_key(before, key).push(last)) =~= members_in(
                        with_key(before, key),
                    ).push(last.member));
                } else {
                    assert(key != last.key);
                }
            } else {
                assert forall|k: int| 0 <= k < before.len() implies (#[trigger] before[k]).key
                    != key by {
                    let j = choose|j: int|
                        0 <= j < old_groups.len() && (#[trigger] old_groups[j]).key
                            == before[k].key;
                    assert(old_groups[j].key != last.key);
                }
                lemma_no_key(before, key);
                assert(members_in(with_key(registrations, key)) =~= seq![last.member]);
            }
        }
        assert forall|k: int| 0 <= k < registrations.len() implies exists|i: int|
            0 <= i < groups.len() && (#[trigger] groups[i]).key == (
            #[trigger] registrations[k]).key by {
            if k < before.len() {
                assert(before[k] == registrations[k]);
                let j = choose|j: int|
                    0 <= j < old_groups.len() && (#[trigger] old_groups[j]).key == before[k].key;
                assert(groups[j].key == registrations[k].key);
            } else {
                assert(groups[at].key == registrations[k].key);
            }
        }
    }
}

proof fn lemma_no_key(registrations: Seq<Registration>, key: GroupKey)
    requires
        forall|k: int| 0 <= k < registrations.len() ==> (#[trigger] registrations[k]).key != key,
    ensures
        with_key(registrations, key) == Seq::<Registration>::empty(),
    decreases registrations.len(),
{
    reveal(Seq::filter);
    if registrations.len() > 0 {
        lemma_no_key(registrations.drop_last(), key);
    }
}

/// Whether two optional texts are the same.
pub fn same_text(a: &Option<String>, b: &Option<String>) -> (res: bool)
    ensures
        res == (text_of(*a) == text_of(*b)),
{
    match (a, b) {
        (Some(a), Some(b)) => *a == *b,
        (None, None) => true,
        _ => false,
    }
}

/// Puts `member` into the group of its key, a new one if there is none.
pub fn register(
    groups: &mut Vec<ScopeGroup>,
    types: Option<String>,
    tag: BlobTag,
    scope: &CheckScope,
    member: Member,
)
    ensures
        groups_of(final(groups)@) == registered(
            groups_of(old(groups)@),
            Registration {
                key: GroupKey { types: text_of(types), tag, kind: scope.kind, scope: scope.id },
                member: member@,
            },
        ),
{
    let ghost before = groups_of(groups@);
    let ghost key = GroupKey { types: text_of(types), tag, kind: scope.kind, scope: scope.id };
    let ghost added = member@;
    let mut at: usize = 0;
    while at < groups.len() && !(groups[at].tag == tag && groups[at].kind == scope.kind
        && groups[at].scope == scope.id && same_text(&groups[at].types, &types))
        invariant
            at <= groups.len(),
            before == groups_of(groups@),
            key == (GroupKey { types: text_of(types), tag, kind: scope.kind, scope: scope.id }),
            place_of(before, key, 0) == place_of(before, key, at as int),
        decreases groups.len() - at,
    {
        assert(before[at as int].key != key);
        at += 1;
    }
    if at < groups.len() {
        assert(before[at as int].key == key);
        let ghost members = groups@[at as int].members@;
        groups[at].members.push(member);
        proof {
            assert(members_of(groups@[at as int].members@) =~= members_of(members).push(added));
            assert(groups_of(groups@) =~= before.update(
                at as int,
                GroupView { key, members: before[at as int].members.push(added) },
            ));
        }
    } else {
        let mut members: Vec<Member> = Vec::new();
        members.push(member);
        assert(members_of(members@) =~= seq![added]);
        groups.push(ScopeGroup { types, tag, kind: scope.kind, scope: scope.id, members });
        assert(groups_of(groups@) =~= before.push(GroupView { key, members: seq![added] }));
    }
}

proof fn lemma_registered_in_range(checkers: Seq<CheckerView>, architecture: ArchitectureDef)
    requires
        checkers.len() <= usize::MAX,
    ensures
        forall|k: int|
            0 <= k < registrations(checkers, architecture).len() ==> (#[trigger] registrations(
                checkers,
                architecture,
            )[k]).member.checker < checkers.len(),
    decreases checkers.len(),
{
    if checkers.len() > 0 {
        lemma_registered_in_range(checkers.drop_last(), architecture);
        let first = registrations(checkers.drop_last(), architecture);
        let all = registrations(checkers, architecture);
        assert forall|k: int| 0 <= k < all.len() implies (#[trigger] all[k]).member.checker
            < checkers.len() by {
            if k < first.len() {
                assert(all[k] == first[k]);
            }
        }
    }
}

/// The members of a group are checkers of the engine.
pub proof fn lemma_members_in_range(checkers: Seq<CheckerView>, architecture: ArchitectureDef)
    requires
        checkers.len() <= usize::MAX,
    ensures
        forall|g: int, m: int|
            #![trigger grouped(registrations(checkers, architecture))[g].members[m]]
            0 <= g < grouped(registrations(checkers, architecture)).len() && 0 <= m < grouped(
                registrations(checkers, architecture),
            )[g].members.len() ==> grouped(registrations(checkers, architecture))[g].members[m].checker
                < checkers.len(),
{
    let all = registrations(checkers, architecture);
    lemma_registered_in_range(checkers, architecture);
    law_groups_hold_registrations(all);
    assert forall|g: int, m: int|
        #![trigger grouped(all)[g].members[m]]
        0 <= g < grouped(all).len() && 0 <= m < grouped(
            all,
        )[g].members.len() implies grouped(all)[g].members[m].checker < checkers.len() by {
        let key = grouped(all)[g].key;
        let own = with_key(all, key);
        assert(grouped(all)[g].members[m] == own[m].member);
        assert(own.contains(own[m]));
        all.lemma_filter_contains_rev(
            |registration: Registration| registration.key == key,
            own[m],
        );
        let k = choose|k: int| 0 <= k < all.len() && all[k] == own[m];
        assert(all[k].member.checker < checkers.len());
    }
}

} // verus!
