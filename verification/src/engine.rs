//! The engine: the checkers that apply to a project, and what is kept between their runs.
use std::collections::BTreeMap;

use vstd::prelude::*;
use vstd::string::*;

use crate::checker::{ArchitectureDef, BlobTag, Checker, CheckerView, DEFAULT_TAG, text_of};
use crate::context::CheckerContext;
use crate::extensions::{DECOMPILER, includes, texts_of};
use crate::groups::{
    GroupView, Member, ScopeGroup, checker_registrations, grouped, groups_of, register,
    registrations, same_text, tag_of,
};
use crate::scope::scopes_of;

verus! {

/// What a mapping of functions to types is kept under.
pub struct TypeKey {
    pub types: Option<Seq<char>>,
    pub tag: BlobTag,
}

/// A mapping of functions to types, and what it is kept under.
struct TypeEntry {
    types: Option<String>,
    tag: BlobTag,
    mapping: usize,
}

impl TypeEntry {
    spec fn key(self) -> TypeKey {
        TypeKey { types: text_of(self.types), tag: self.tag }
    }
}

spec fn type_map(entries: Seq<TypeEntry>) -> Map<TypeKey, usize>
    decreases entries.len(),
{
    if entries.len() == 0 {
        Map::empty()
    } else {
        type_map(entries.drop_last()).insert(entries.last().key(), entries.last().mapping)
    }
}

/// The checkers that apply to a project, grouped by where they look.
pub struct Engine<'a> {
    checkers: Vec<&'a Checker>,
    scopes: Vec<ScopeGroup>,
    contexts: Vec<Option<CheckerContext>>,
    signature_files: BTreeMap<BlobTag, Vec<String>>,
    symbols_cache: BTreeMap<BlobTag, usize>,
    types_cache: Vec<TypeEntry>,
    architecture: ArchitectureDef,
    module_dir: Option<String>,
    decompiler_config: Option<usize>,
    parallel: bool,
}

/// An [`Engine`] as contracts see it.
#[verifier::ext_equal]
pub struct EngineView {
    /// The applied checkers.
    pub checkers: Seq<CheckerView>,
    /// Their scopes, grouped.
    pub groups: Seq<GroupView>,
    /// The Lua state of each checker, once it is needed.
    pub contexts: Seq<Option<CheckerContext>>,
    /// The signature files behind each tag.
    pub files: Map<BlobTag, Seq<Seq<char>>>,
    /// The mappings of functions to symbols that have been built, by tag.
    pub symbols: Map<BlobTag, usize>,
    /// The mappings of functions to types that have been built.
    pub types: Map<TypeKey, usize>,
    /// The architecture of the project.
    pub architecture: ArchitectureDef,
    pub module_dir: Option<Seq<char>>,
    /// The number of the decompiler's configuration; none for the default one.
    pub decompiler_config: Option<usize>,
    /// Whether call sites are checked in parallel.
    pub parallel: bool,
}

/// `checkers` as contracts see them.
pub open spec fn checkers_of(checkers: Seq<Checker>) -> Seq<CheckerView> {
    checkers.map_values(|checker: Checker| checker@)
}

/// `files` as contracts see them.
pub open spec fn files_of(files: Map<BlobTag, Vec<String>>) -> Map<BlobTag, Seq<Seq<char>>> {
    files.map_values(|list: Vec<String>| texts_of(list@))
}

/// Those of `checkers` that `applies` picks.
pub open spec fn picked(checkers: Seq<CheckerView>, applies: Seq<bool>) -> Seq<CheckerView>
    decreases checkers.len(),
{
    if checkers.len() == 0 {
        Seq::empty()
    } else if applies[checkers.len() - 1] {
        picked(checkers.drop_last(), applies).push(checkers.last())
    } else {
        picked(checkers.drop_last(), applies)
    }
}

/// The new engine with the checkers `checkers`, in a state where nothing has been built.
pub open spec fn fresh_engine(
    checkers: Seq<CheckerView>,
    files: Map<BlobTag, Seq<Seq<char>>>,
    architecture: ArchitectureDef,
    module_dir: Option<Seq<char>>,
    decompiler_config: Option<usize>,
    parallel: bool,
) -> EngineView {
    EngineView {
        checkers,
        groups: grouped(registrations(checkers, architecture)),
        contexts: Seq::new(checkers.len(), |i: int| None),
        files,
        symbols: Map::empty(),
        types: Map::empty(),
        architecture,
        module_dir,
        decompiler_config,
        parallel,
    }
}

impl EngineView {
    /// What holds of every engine.
    pub open spec fn valid(self) -> bool {
        &&& self.groups == grouped(registrations(self.checkers, self.architecture))
        &&& self.contexts.len() == self.checkers.len() <= usize::MAX
        &&& self.groups.len() <= usize::MAX
        &&& forall|g: int|
            0 <= g < self.groups.len() ==> (#[trigger] self.groups[g]).members.len() <= usize::MAX
    }

    /// Whether the checker `index` needs the decompiler.
    pub open spec fn heavy(self, index: int) -> bool {
        includes(self.checkers[index].extensions.bits, DECOMPILER)
    }

    /// What the types of the group `group` are kept under.
    pub open spec fn type_key(self, group: int) -> TypeKey {
        TypeKey { types: self.groups[group].key.types, tag: self.groups[group].key.tag }
    }

    /// The files behind `tag`, none if it is not known.
    pub open spec fn files_for(self, tag: BlobTag) -> Seq<Seq<char>> {
        if self.files.contains_key(tag) {
            self.files[tag]
        } else {
            Seq::empty()
        }
    }
}

impl<'a> View for Engine<'a> {
    type V = EngineView;

    closed spec fn view(&self) -> EngineView {
        EngineView {
            checkers: self.checkers@.map_values(|checker: &Checker| checker@),
            groups: groups_of(self.scopes@),
            contexts: self.contexts@,
            files: files_of(self.signature_files@),
            symbols: self.symbols_cache@,
            types: type_map(self.types_cache@),
            architecture: self.architecture,
            module_dir: text_of(self.module_dir),
            decompiler_config: self.decompiler_config,
            parallel: self.parallel,
        }
    }
}

/// An engine is seen with all that it holds: its checkers and groups one by one, its Lua states, and
/// each mapping under what it is kept under.
proof fn law_engines_are_seen_whole(engine: Engine)
    requires
        engine.wf(),
    ensures
        engine@.checkers.len() == engine.checkers@.len(),
        forall|i: int|
            0 <= i < engine.checkers@.len() ==> #[trigger] engine@.checkers[i]
                == engine.checkers@[i]@,
        engine@.groups.len() == engine.scopes@.len(),
        forall|g: int|
            0 <= g < engine.scopes@.len() ==> #[trigger] engine@.groups[g] == engine.scopes@[g]@,
        engine@.contexts == engine.contexts@,
        engine@.symbols == engine.symbols_cache@,
        forall|i: int|
            0 <= i < engine.types_cache@.len() ==> {
                let entry = #[trigger] engine.types_cache@[i];
                let key = TypeKey {
                    types: match entry.types {
                        Some(types) => Some(types@),
                        None => None,
                    },
                    tag: entry.tag,
                };
                engine@.types.contains_key(key) && engine@.types[key] == entry.mapping
            },
        forall|tag: BlobTag|
            #![trigger engine@.files.contains_key(tag)]
            engine@.files.contains_key(tag) <==> engine.signature_files@.contains_key(tag),
        engine@.architecture == engine.architecture,
        engine@.decompiler_config == engine.decompiler_config,
        engine@.parallel == engine.parallel,
        engine@.module_dir is Some <==> engine.module_dir is Some,
        engine.module_dir matches Some(dir) ==> engine@.module_dir == Some(dir@),
{
    lemma_type_map(engine.types_cache@);
}

/// Whether `applies` can be the answer to whether `checker` applies on `platform`, where
/// `should_check` and `validate` are asked: a checker applies if it is for the platform and both say
/// so. The second is not asked unless the first does, and a failure of either means that the
/// checker does not apply.
pub open spec fn may_apply<S, V>(
    checker: Checker,
    platform: Seq<char>,
    should_check: S,
    validate: V,
    applies: bool,
) -> bool where
    S: Fn(&Checker) -> Result<bool, String>,
    V: Fn(&Checker) -> Result<bool, String>,
 {
    if checker@.platform != platform {
        !applies
    } else {
        exists|should: Result<bool, String>| #[trigger]
            call_ensures(should_check, (&checker,), should) && if should is Ok && should->Ok_0 {
                exists|valid: Result<bool, String>| #[trigger]
                    call_ensures(validate, (&checker,), valid) && applies == (valid is Ok
                        && valid->Ok_0)
            } else {
                !applies
            }
    }
}

/// Calls `num_cpus::get`, the number of processors. Nothing is claimed of it: how many there are is
/// up to the machine.
#[verifier::external_body]
fn cpu_count() -> usize {
    num_cpus::get()
}

/// Whether `checker` applies on `platform`; `should_check` and `validate` are asked as
/// [`may_apply`] says.
pub fn is_applicable<S, V>(
    checker: &Checker,
    platform: &String,
    should_check: &S,
    validate: &V,
) -> (res: bool) where
    S: Fn(&Checker) -> Result<bool, String>,
    V: Fn(&Checker) -> Result<bool, String>,

    requires
        forall|c: &Checker| call_requires(*should_check, (c,)),
        forall|c: &Checker| call_requires(*validate, (c,)),
    ensures
        may_apply(*checker, platform@, *should_check, *validate, res),
{
    if checker.platform().to_string() != *platform {
        return false;
    }
    let should = should_check(checker);
    match should {
        Ok(true) => {
            let valid = validate(checker);
            match valid {
                Ok(valid) => valid,
                Err(_) => false,
            }
        },
        _ => false,
    }
}

proof fn lemma_registrations_push(
    checkers: Seq<CheckerView>,
    checker: CheckerView,
    architecture: ArchitectureDef,
)
    ensures
        registrations(checkers.push(checker), architecture) == registrations(checkers, architecture)
            + checker_registrations(checkers.len() as usize, checker, architecture),
{
    assert(checkers.push(checker).drop_last() =~= checkers);
}

proof fn lemma_group_sizes(list: Vec<ScopeGroup>)
    ensures
        groups_of(list@).len() <= usize::MAX,
        forall|g: int|
            0 <= g < groups_of(list@).len() ==> (#[trigger] groups_of(list@)[g]).members.len()
                <= usize::MAX,
{
    assert(list.len() <= usize::MAX);
    assert forall|g: int| 0 <= g < groups_of(list@).len() implies (
    #[trigger] groups_of(list@)[g]).members.len() <= usize::MAX by {
        assert(list[g].members.len() <= usize::MAX);
    }
}

impl<'a> Engine<'a> {
    /// What holds of every engine that this module has made.
    pub closed spec fn wf(&self) -> bool {
        &&& self@.valid()
        &&& forall|i: int, j: int|
            0 <= i < j < self.types_cache.len() ==> (#[trigger] self.types_cache[i]).key() != (
            #[trigger] self.types_cache[j]).key()
    }

    /// An engine with those of `checkers` that `applies` picks, on a machine with `cpus`
    /// processors.
    pub fn with_applicable(
        checkers: &'a Vec<Checker>,
        applies: &Vec<bool>,
        architecture: ArchitectureDef,
        signature_files: BTreeMap<BlobTag, Vec<String>>,
        module_dir: Option<String>,
        decompiler_config: Option<usize>,
        cpus: usize,
    ) -> (res: Self)
        requires
            applies.len() == checkers.len(),
        ensures
            res.wf(),
            res@ == fresh_engine(
                picked(checkers_of(checkers@), applies@),
                files_of(signature_files@),
                architecture,
                text_of(module_dir),
                decompiler_config,
                cpus > 1,
            ),
    {
        let ghost all = checkers_of(checkers@);
        let mut chosen: Vec<&'a Checker> = Vec::new();
        let mut scopes: Vec<ScopeGroup> = Vec::new();
        let mut contexts: Vec<Option<CheckerContext>> = Vec::new();
        let ghost mut views: Seq<CheckerView> = Seq::empty();
        proof {
            assert(all.take(0) =~= Seq::<CheckerView>::empty());
            assert(groups_of(scopes@) =~= Seq::<GroupView>::empty());
        }
        let mut n: usize = 0;
        while n < checkers.len()
            invariant
                n <= checkers.len(),
                applies.len() == checkers.len(),
                all == checkers_of(checkers@),
                views == picked(all.take(n as int), applies@),
                views =~= chosen@.map_values(|checker: &Checker| checker@),
                contexts@ =~= Seq::new(views.len(), |i: int| None::<CheckerContext>),
                groups_of(scopes@) == grouped(registrations(views, architecture)),
                views.len() <= n,
            decreases checkers.len() - n,
        {
            proof {
                assert(all.take(n + 1).drop_last() =~= all.take(n as int));
            }
            if applies[n] {
                let checker = &checkers[n];
                add_scopes(&mut scopes, chosen.len(), checker, architecture, Ghost(views));
                chosen.push(checker);
                contexts.push(None);
                proof {
                    lemma_registrations_push(views, checker@, architecture);
                    views = views.push(checker@);
                }
            }
            n += 1;
        }
        proof {
            assert(all.take(n as int) =~= all);
        }
        let engine = Engine {
            checkers: chosen,
            scopes,
            contexts,
            signature_files,
            symbols_cache: BTreeMap::new(),
            types_cache: Vec::new(),
            architecture,
            module_dir,
            decompiler_config,
            parallel: cpus > 1,
        };
        assert(engine@ =~= fresh_engine(
            picked(all, applies@),
            files_of(signature_files@),
            architecture,
            text_of(module_dir),
            decompiler_config,
            cpus > 1,
        ));
        proof {
            lemma_group_sizes(engine.scopes);
        }
        engine
    }
}

/// Registers the scopes of `checker`, which comes after the checkers `before`.
fn add_scopes(
    scopes: &mut Vec<ScopeGroup>,
    index: usize,
    checker: &Checker,
    architecture: ArchitectureDef,
    Ghost(before): Ghost<Seq<CheckerView>>,
)
    requires
        groups_of(old(scopes)@) == grouped(registrations(before, architecture)),
    ensures
        groups_of(final(scopes)@) == grouped(
            registrations(before, architecture) + checker_registrations(
                index,
                checker@,
                architecture,
            ),
        ),
{
    let ghost first = registrations(before, architecture);
    let ghost own = checker_registrations(index, checker@, architecture);
    let tag = match checker.signature_arch_tags().get(&architecture) {
        Some(tag) => *tag,
        None => DEFAULT_TAG,
    };
    let list = checker.scopes();
    let mut k: usize = 0;
    proof {
        assert(first + own.take(0) =~= first);
    }
    while k < list.len()
        invariant
            k <= list.len(),
            scopes_of(list@) == checker@.scopes,
            tag == tag_of(checker@, architecture),
            own == checker_registrations(index, checker@, architecture),
            own.len() == list.len(),
            groups_of(scopes@) == grouped(first + own.take(k as int)),
        decreases list.len() - k,
    {
        let types = match checker.types() {
            Some(types) => Some(types.to_string()),
            None => None,
        };
        let scope = &list[k];
        assert(scope@ == checker@.scopes[k as int]);
        register(scopes, types, tag, scope, Member { checker: index, handler: scope.with.clone() });
        proof {
            let so_far = first + own.take(k + 1);
            assert(so_far.drop_last() =~= first + own.take(k as int));
            assert(so_far.last() == own[k as int]);
        }
        k += 1;
    }
    proof {
        assert(own.take(k as int) =~= own);
    }
}

proof fn lemma_type_map(entries: Seq<TypeEntry>)
    requires
        forall|i: int, j: int|
            0 <= i < j < entries.len() ==> (#[trigger] entries[i]).key() != (
            #[trigger] entries[j]).key(),
    ensures
        forall|i: int|
            0 <= i < entries.len() ==> type_map(entries).contains_key(
                (#[trigger] entries[i]).key(),
            ) && type_map(entries)[entries[i].key()] == entries[i].mapping,
        forall|key: TypeKey|
            (forall|i: int| 0 <= i < entries.len() ==> (#[trigger] entries[i]).key() != key)
                ==> !(#[trigger] type_map(entries).contains_key(key)),
    decreases entries.len(),
{
    if entries.len() > 0 {
        let before = entries.drop_last();
        lemma_type_map(before);
        assert forall|i: int| 0 <= i < entries.len() implies type_map(entries).contains_key(
            (#[trigger] entries[i]).key(),
        ) && type_map(entries)[entries[i].key()] == entries[i].mapping by {
            if i < before.len() {
                assert(before[i] == entries[i]);
            }
        }
        assert forall|key: TypeKey|
            (forall|i: int| 0 <= i < entries.len() ==> (#[trigger] entries[i]).key()
                != key) implies !(#[trigger] type_map(entries).contains_key(key)) by {
            assert forall|i: int| 0 <= i < before.len() implies (#[trigger] before[i]).key()
                != key by {
                assert(before[i] == entries[i]);
            }
            assert(!type_map(before).contains_key(key));
            assert(entries[entries.len() - 1].key() != key);
        }
    }
}

impl<'a> Engine<'a> {
    /// An engine with those of `checkers` that apply on `platform`, as [`may_apply`] says. It runs
    /// in parallel if the machine has more than one processor.
    pub fn new_with<S, V>(
        platform: &String,
        architecture: ArchitectureDef,
        checkers: &'a Vec<Checker>,
        signature_files: BTreeMap<BlobTag, Vec<String>>,
        module_dir: Option<String>,
        decompiler_config: Option<usize>,
        should_check: &S,
        validate: &V,
    ) -> (res: Self) where
        S: Fn(&Checker) -> Result<bool, String>,
        V: Fn(&Checker) -> Result<bool, String>,

        requires
            forall|c: &Checker| call_requires(*should_check, (c,)),
            forall|c: &Checker| call_requires(*validate, (c,)),
        ensures
            res.wf(),
            exists|applies: Seq<bool>|
                {
                    &&& applies.len() == checkers.len()
                    &&& forall|i: int|
                        0 <= i < applies.len() ==> may_apply(
                            checkers[i],
                            platform@,
                            *should_check,
                            *validate,
                            #[trigger] applies[i],
                        )
                    &&& res@ == fresh_engine(
                        #[trigger] picked(checkers_of(checkers@), applies),
                        files_of(signature_files@),
                        architecture,
                        text_of(module_dir),
                        decompiler_config,
                        res@.parallel,
                    )
                },
    {
        let mut applies: Vec<bool> = Vec::new();
        let mut n: usize = 0;
        while n < checkers.len()
            invariant
                n <= checkers.len(),
                applies.len() == n,
                forall|c: &Checker| call_requires(*should_check, (c,)),
                forall|c: &Checker| call_requires(*validate, (c,)),
                forall|i: int|
                    0 <= i < n ==> may_apply(
                        checkers[i],
                        platform@,
                        *should_check,
                        *validate,
                        #[trigger] applies[i],
                    ),
            decreases checkers.len() - n,
        {
            applies.push(is_applicable(&checkers[n], platform, should_check, validate));
            n += 1;
        }
        Engine::with_applicable(
            checkers,
            &applies,
            architecture,
            signature_files,
            module_dir,
            decompiler_config,
            cpu_count(),
        )
    }

    /// An engine as [`Engine::new_with`] makes it, with the default configuration of the decompiler.
    pub fn new<S, V>(
        platform: &String,
        architecture: ArchitectureDef,
        checkers: &'a Vec<Checker>,
        signature_files: BTreeMap<BlobTag, Vec<String>>,
        module_dir: Option<String>,
        should_check: &S,
        validate: &V,
    ) -> (res: Self) where
        S: Fn(&Checker) -> Result<bool, String>,
        V: Fn(&Checker) -> Result<bool, String>,

        requires
            forall|c: &Checker| call_requires(*should_check, (c,)),
            forall|c: &Checker| call_requires(*validate, (c,)),
        ensures
            res.wf(),
            exists|applies: Seq<bool>|
                {
                    &&& applies.len() == checkers.len()
                    &&& forall|i: int|
                        0 <= i < applies.len() ==> may_apply(
                            checkers[i],
                            platform@,
                            *should_check,
                            *validate,
                            #[trigger] applies[i],
                        )
                    &&& res@ == fresh_engine(
                        #[trigger] picked(checkers_of(checkers@), applies),
                        files_of(signature_files@),
                        architecture,
                        text_of(module_dir),
                        None,
                        res@.parallel,
                    )
                },
    {
        Engine::new_with(
            platform,
            architecture,
            checkers,
            signature_files,
            module_dir,
            None,
            should_check,
            validate,
        )
    }

    /// What holds of every engine holds of this one.
    pub proof fn lemma_valid(&self)
        requires
            self.wf(),
        ensures
            self@.valid(),
    {
    }

    /// The checker with the place `id` among the applied ones.
    pub fn checker_for(&self, id: usize) -> (res: Option<&'a Checker>)
        ensures
            match res {
                Some(checker) => id < self@.checkers.len() && checker@ == self@.checkers[id as int],
                None => id >= self@.checkers.len(),
            },
    {
        if id < self.checkers.len() {
            Some(self.checkers[id])
        } else {
            None
        }
    }

    /// The applied checker `index`.
    pub(crate) fn applied_checker(&self, index: usize) -> (res: &'a Checker)
        requires
            index < self@.checkers.len(),
        ensures
            res@ == self@.checkers[index as int],
    {
        self.checkers[index]
    }

    /// The mapping of functions to symbols that the checker `id` uses: the one that has been built
    /// for its signature files on the project's architecture.
    pub fn symbols_for(&self, id: usize) -> (res: Option<usize>)
        ensures
            res == (if id < self@.checkers.len() && self@.checkers[id as int].tags.contains_key(
                self@.architecture,
            ) {
                let tag = self@.checkers[id as int].tags[self@.architecture];
                if self@.symbols.contains_key(tag) {
                    Some(self@.symbols[tag])
                } else {
                    None
                }
            } else {
                None
            }),
    {
        match self.checker_for(id) {
            Some(checker) => match checker.signature_arch_tags().get(&self.architecture) {
                Some(tag) => self.symbols_under(*tag),
                None => None,
            },
            None => None,
        }
    }

    /// The mapping of functions to types that the checker `id` uses: the one that has been built for
    /// its type library and its signature files on the project's architecture.
    pub fn types_for(&self, id: usize) -> (res: Option<usize>)
        requires
            self.wf(),
        ensures
            res == (if id < self@.checkers.len() {
                let checker = self@.checkers[id as int];
                let key = TypeKey {
                    types: checker.types,
                    tag: tag_of(checker, self@.architecture),
                };
                if self@.types.contains_key(key) {
                    Some(self@.types[key])
                } else {
                    None
                }
            } else {
                None
            }),
    {
        match self.checker_for(id) {
            Some(checker) => {
                let tag = match checker.signature_arch_tags().get(&self.architecture) {
                    Some(tag) => *tag,
                    None => DEFAULT_TAG,
                };
                let types = match checker.types() {
                    Some(types) => Some(types.to_string()),
                    None => None,
                };
                self.types_under(&types, tag)
            },
            None => None,
        }
    }

    /// The mapping of functions to symbols that is kept under `tag`.
    pub fn symbols_under(&self, tag: BlobTag) -> (res: Option<usize>)
        ensures
            res == (if self@.symbols.contains_key(tag) {
                Some(self@.symbols[tag])
            } else {
                None
            }),
    {
        match self.symbols_cache.get(&tag) {
            Some(mapping) => Some(*mapping),
            None => None,
        }
    }

    /// The mapping of functions to types that is kept under `types` and `tag`.
    fn types_under(&self, types: &Option<String>, tag: BlobTag) -> (res: Option<usize>)
        requires
            self.wf(),
        ensures
            res == ({
                let key = TypeKey { types: text_of(*types), tag };
                if self@.types.contains_key(key) {
                    Some(self@.types[key])
                } else {
                    None
                }
            }),
    {
        let ghost key = TypeKey { types: text_of(*types), tag };
        proof {
            lemma_type_map(self.types_cache@);
        }
        let mut k: usize = 0;
        while k < self.types_cache.len()
            invariant
                k <= self.types_cache.len(),
                key == (TypeKey { types: text_of(*types), tag }),
                forall|i: int| 0 <= i < k ==> (#[trigger] self.types_cache[i]).key() != key,
                forall|i: int|
                    0 <= i < self.types_cache.len() ==> self@.types.contains_key(
                        (#[trigger] self.types_cache[i]).key(),
                    ) && self@.types[self.types_cache[i].key()] == self.types_cache[i].mapping,
            decreases self.types_cache.len() - k,
        {
            if self.types_cache[k].tag == tag && same_text(&self.types_cache[k].types, types) {
                return Some(self.types_cache[k].mapping);
            }
            k += 1;
        }
        None
    }

    /// Sets whether call sites are checked in parallel.
    pub fn set_parallel(&mut self, parallel: bool)
        requires
            old(self).wf(),
        ensures
            final(self).wf(),
            final(self)@ == (EngineView { parallel, ..old(self)@ }),
    {
        self.parallel = parallel;
    }

    /// Whether call sites are checked in parallel.
    pub fn is_parallel(&self) -> (res: bool)
        ensures
            res == self@.parallel,
    {
        self.parallel
    }

    /// The number of groups.
    pub fn group_count(&self) -> (res: usize)
        ensures
            res == self@.groups.len(),
    {
        self.scopes.len()
    }

    /// The group with the place `group`.
    pub fn group(&self, group: usize) -> (res: &ScopeGroup)
        requires
            group < self@.groups.len(),
        ensures
            res@ == self@.groups[group as int],
    {
        &self.scopes[group]
    }

    /// Whether the checker `index` needs the decompiler.
    pub fn needs_decompiler(&self, index: usize) -> (res: bool)
        requires
            index < self@.checkers.len(),
        ensures
            res == self@.heavy(index as int),
    {
        self.checkers[index].extensions().requires_decompiler()
    }

    /// The Lua state of the checker `index`, if it has one.
    pub fn context(&self, index: usize) -> (res: Option<&CheckerContext>)
        requires
            index < self@.contexts.len(),
        ensures
            match res {
                Some(context) => self@.contexts[index as int] == Some(*context),
                None => self@.contexts[index as int] is None,
            },
    {
        match &self.contexts[index] {
            Some(context) => Some(context),
            None => None,
        }
    }

    /// Keeps `context` as the Lua state of the checker `index`.
    pub(crate) fn set_context(&mut self, index: usize, context: CheckerContext)
        requires
            old(self).wf(),
            index < old(self)@.contexts.len(),
        ensures
            final(self).wf(),
            final(self)@ == (EngineView {
                contexts: old(self)@.contexts.update(index as int, Some(context)),
                ..old(self)@
            }),
    {
        self.contexts.set(index, Some(context));
    }

    /// The mapping of functions to types that the group `group` uses, if it has been built.
    pub fn types_of_group(&self, group: usize) -> (res: Option<usize>)
        requires
            self.wf(),
            group < self@.groups.len(),
        ensures
            res == (if self@.types.contains_key(self@.type_key(group as int)) {
                Some(self@.types[self@.type_key(group as int)])
            } else {
                None
            }),
    {
        self.types_under(&self.scopes[group].types, self.scopes[group].tag)
    }

    /// Keeps `mapping` as the mapping of functions to symbols under `tag`.
    pub(crate) fn keep_symbols(&mut self, tag: BlobTag, mapping: usize)
        requires
            old(self).wf(),
        ensures
            final(self).wf(),
            final(self)@ == (EngineView {
                symbols: old(self)@.symbols.insert(tag, mapping),
                ..old(self)@
            }),
    {
        self.symbols_cache.insert(tag, mapping);
    }

    /// Keeps `mapping` as the mapping of functions to types of the group `group`, which has none.
    pub(crate) fn keep_types(&mut self, group: usize, mapping: usize)
        requires
            old(self).wf(),
            group < old(self)@.groups.len(),
            !old(self)@.types.contains_key(old(self)@.type_key(group as int)),
        ensures
            final(self).wf(),
            final(self)@ == (EngineView {
                types: old(self)@.types.insert(old(self)@.type_key(group as int), mapping),
                ..old(self)@
            }),
    {
        let ghost before = self.types_cache@;
        proof {
            lemma_type_map(before);
        }
        let types = self.scopes[group].types.clone();
        let tag = self.scopes[group].tag;
        self.types_cache.push(TypeEntry { types, tag, mapping });
        proof {
            assert(self.types_cache@.drop_last() =~= before);
        }
    }

    /// The signature files behind `tag`, none if it is not known.
    pub fn files_for(&self, tag: BlobTag) -> (res: Vec<String>)
        ensures
            texts_of(res@) == self@.files_for(tag),
    {
        match self.signature_files.get(&tag) {
            Some(files) => files.clone(),
            None => Vec::new(),
        }
    }

    /// Where the modules are that checkers may load.
    pub fn module_dir(&self) -> (res: Option<&str>)
        ensures
            match res {
                Some(dir) => self@.module_dir == Some(dir@),
                None => self@.module_dir is None,
            },
    {
        match &self.module_dir {
            Some(dir) => Some(dir.as_str()),
            None => None,
        }
    }

    /// The number of the decompiler's configuration; none for the default one.
    pub fn decompiler_config(&self) -> (res: Option<usize>)
        ensures
            res == self@.decompiler_config,
    {
        self.decompiler_config
    }
}

} // verus!
