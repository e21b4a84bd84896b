//! Building what the checkers of a group share: the mappings of functions to symbols and to types.
use vstd::prelude::*;

use crate::checker::BlobTag;
use crate::engine::{Engine, EngineView, TypeKey};
use crate::error::{CheckerError, ErrorKind, ErrorView, error_of};
use crate::sequential::failure_of;

verus! {

/// What is needed next to build the mappings.
#[derive(Debug, Clone, Copy, PartialEq, Eq, Structural)]
pub enum CacheRequest {
    /// The mapping of functions to symbols that the signature files behind `tag` give.
    BuildSymbols { tag: BlobTag },
    /// The mapping of functions to types that the type library of `group` gives.
    LoadTypes { group: usize },
    /// The mapping of functions to types that the project itself gives.
    DeriveTypes { group: usize },
    /// The types of the functions in `symbols`, added to `types`.
    Merge { symbols: usize, types: usize },
    /// Nothing.
    Nothing,
}

/// The answer to a [`CacheRequest`].
#[derive(Debug)]
pub enum CacheReply {
    /// The number of the mapping to symbols, or why there is none.
    Symbols(Result<usize, String>),
    /// The number of the mapping to types, or why there is none.
    Types(Result<usize, String>),
    Merged,
}

/// Whether `reply` is an answer to `request`.
pub open spec fn fits_cache(request: CacheRequest, reply: CacheReply) -> bool {
    match request {
        CacheRequest::BuildSymbols { .. } => reply is Symbols,
        CacheRequest::LoadTypes { .. } => reply is Types,
        CacheRequest::DeriveTypes { .. } => reply matches CacheReply::Types(Ok(_)),
        CacheRequest::Merge { .. } => reply is Merged,
        CacheRequest::Nothing => false,
    }
}

/// The building of the mappings. It is asked what it needs next, and told what came of it, until it
/// needs nothing.
pub struct CacheBuild {
    merging: Option<(usize, usize)>,
    failure: Option<CheckerError>,
}

/// A [`CacheBuild`] as contracts see it.
pub struct CacheView {
    /// The mappings to symbols and to types that have to be merged.
    pub merging: Option<(usize, usize)>,
    /// The error that ended the building.
    pub failure: Option<ErrorView>,
}

impl View for CacheBuild {
    type V = CacheView;

    closed spec fn view(&self) -> CacheView {
        CacheView { merging: self.merging, failure: failure_of(self.failure) }
    }
}

impl EngineView {
    /// Whether the mappings of the group `group` have been built.
    pub open spec fn is_ready(self, group: int) -> bool {
        self.symbols.contains_key(self.groups[group].key.tag) && self.types.contains_key(
            self.type_key(group),
        )
    }

    /// The first group from `at` on that is not ready, or the number of groups.
    pub open spec fn first_unready(self, at: int) -> int
        decreases self.groups.len() - at,
    {
        if at < 0 || at >= self.groups.len() {
            self.groups.len() as int
        } else if !self.is_ready(at) {
            at
        } else {
            self.first_unready(at + 1)
        }
    }

    /// Whether the mappings of all groups have been built.
    pub open spec fn all_ready(self) -> bool {
        forall|group: int| 0 <= group < self.groups.len() ==> #[trigger] self.is_ready(group)
    }
}

impl CacheView {
    /// What is needed next: mappings that have to be merged come first, then the first group that
    /// is not ready, its mapping to symbols before that to types.
    pub open spec fn request(self, engine: EngineView) -> CacheRequest {
        let group = engine.first_unready(0);
        if self.failure is Some {
            CacheRequest::Nothing
        } else if self.merging is Some {
            CacheRequest::Merge { symbols: (self.merging->0).0, types: (self.merging->0).1 }
        } else if group == engine.groups.len() {
            CacheRequest::Nothing
        } else if !engine.symbols.contains_key(engine.groups[group].key.tag) {
            CacheRequest::BuildSymbols { tag: engine.groups[group].key.tag }
        } else if engine.groups[group].key.types is Some {
            CacheRequest::LoadTypes { group: group as usize }
        } else {
            CacheRequest::DeriveTypes { group: group as usize }
        }
    }

    /// What the building becomes when `reply` is the answer to what it needed.
    pub open spec fn after(self, engine: EngineView, reply: CacheReply) -> CacheView {
        if !fits_cache(self.request(engine), reply) {
            self
        } else {
            match reply {
                CacheReply::Symbols(Ok(_)) => self,
                CacheReply::Symbols(Err(text)) => CacheView {
                    failure: Some(error_of(ErrorKind::Signatures, text@)),
                    ..self
                },
                CacheReply::Types(Ok(types)) => CacheView {
                    merging: Some(
                        (engine.symbols[engine.groups[engine.first_unready(0)].key.tag], types),
                    ),
                    ..self
                },
                CacheReply::Types(Err(text)) => CacheView {
                    failure: Some(error_of(ErrorKind::Types, text@)),
                    ..self
                },
                CacheReply::Merged => CacheView { merging: None, ..self },
            }
        }
    }

    /// What the engine becomes when `reply` is the answer to what this building needed: a mapping
    /// that was built is kept, and nothing else changes.
    pub open spec fn engine_after(self, engine: EngineView, reply: CacheReply) -> EngineView {
        let group = engine.first_unready(0);
        if !fits_cache(self.request(engine), reply) {
            engine
        } else {
            match reply {
                CacheReply::Symbols(Ok(symbols)) => EngineView {
                    symbols: engine.symbols.insert(engine.groups[group].key.tag, symbols),
                    ..engine
                },
                CacheReply::Types(Ok(types)) => EngineView {
                    types: engine.types.insert(engine.type_key(group), types),
                    ..engine
                },
                _ => engine,
            }
        }
    }
}

/// What is known of the first group that is not ready.
pub proof fn lemma_first_unready(engine: EngineView, at: int)
    requires
        0 <= at <= engine.groups.len(),
    ensures
        at <= engine.first_unready(at) <= engine.groups.len(),
        forall|group: int|
            at <= group < engine.first_unready(at) ==> #[trigger] engine.is_ready(group),
        engine.first_unready(at) < engine.groups.len() ==> !engine.is_ready(
            engine.first_unready(at),
        ),
    decreases engine.groups.len() - at,
{
    if at < engine.groups.len() && engine.is_ready(at) {
        lemma_first_unready(engine, at + 1);
    }
}

/// Whether `reply` is an answer to `request`.
fn is_cache_answer(request: &CacheRequest, reply: &CacheReply) -> (res: bool)
    ensures
        res == fits_cache(*request, *reply),
{
    match (request, reply) {
        (CacheRequest::BuildSymbols { .. }, CacheReply::Symbols(_)) => true,
        (CacheRequest::LoadTypes { .. }, CacheReply::Types(_)) => true,
        (CacheRequest::DeriveTypes { .. }, CacheReply::Types(Ok(_))) => true,
        (CacheRequest::Merge { .. }, CacheReply::Merged) => true,
        _ => false,
    }
}

/// The first group that is not ready, or the number of groups.
fn find_unready(engine: &Engine) -> (res: usize)
    requires
        engine.wf(),
    ensures
        res == engine@.first_unready(0),
        res <= engine@.groups.len(),
        res < engine@.groups.len() ==> !engine@.is_ready(res as int),
{
    proof {
        lemma_first_unready(engine@, 0);
    }
    let mut group: usize = 0;
    while group < engine.group_count()
        invariant
            engine.wf(),
            group <= engine@.groups.len(),
            engine@.first_unready(0) == engine@.first_unready(group as int),
            engine@.first_unready(0) < engine@.groups.len() ==> !engine@.is_ready(
                engine@.first_unready(0),
            ),
        decreases engine@.groups.len() - group,
    {
        let own = engine.group(group);
        if engine.symbols_under(own.tag).is_none() || engine.types_of_group(group).is_none() {
            return group;
        }
        group += 1;
    }
    group
}

impl CacheBuild {
    /// The building of the mappings, before anything has been done.
    pub fn new() -> (res: Self)
        ensures
            res@ == (CacheView { merging: None, failure: None }),
    {
        CacheBuild { merging: None, failure: None }
    }

    /// What is needed next.
    pub fn pending(&self, engine: &Engine) -> (res: CacheRequest)
        requires
            engine.wf(),
        ensures
            res == self@.request(engine@),
    {
        if self.failure.is_some() {
            return CacheRequest::Nothing;
        }
        if let Some((symbols, types)) = self.merging {
            return CacheRequest::Merge { symbols, types };
        }
        let group = find_unready(engine);
        if group == engine.group_count() {
            return CacheRequest::Nothing;
        }
        let own = engine.group(group);
        if engine.symbols_under(own.tag).is_none() {
            CacheRequest::BuildSymbols { tag: own.tag }
        } else if own.types.is_some() {
            CacheRequest::LoadTypes { group }
        } else {
            CacheRequest::DeriveTypes { group }
        }
    }

    /// Takes `reply` as the answer to what is needed; a reply that does not answer it changes
    /// nothing.
    pub fn answer(&mut self, engine: &mut Engine, reply: CacheReply)
        requires
            old(engine).wf(),
        ensures
            final(engine).wf(),
            final(engine)@ == old(self)@.engine_after(old(engine)@, reply),
            final(self)@ == old(self)@.after(old(engine)@, reply),
    {
        let request = self.pending(engine);
        if !is_cache_answer(&request, &reply) {
            return;
        }
        let group = find_unready(engine);
        match reply {
            CacheReply::Symbols(Ok(symbols)) => {
                let tag = engine.group(group).tag;
                engine.keep_symbols(tag, symbols);
            },
            CacheReply::Symbols(Err(text)) => {
                self.failure = Some(CheckerError::Signatures(text));
            },
            CacheReply::Types(Ok(types)) => {
                if let Some(symbols) = engine.symbols_under(engine.group(group).tag) {
                    engine.keep_types(group, types);
                    self.merging = Some((symbols, types));
                }
            },
            CacheReply::Types(Err(text)) => {
                self.failure = Some(CheckerError::Types(text));
            },
            CacheReply::Merged => {
                self.merging = None;
            },
        }
    }

    /// What came of the building: the error that ended it, success if the mappings of all groups
    /// have been built, and the building itself while something is needed.
    pub fn outcome(self, engine: &Engine) -> (res: Result<Result<(), CheckerError>, Self>)
        requires
            engine.wf(),
        ensures
            match res {
                Ok(Err(error)) => self@.failure == Some(error@),
                Ok(Ok(_)) => self@.failure is None && self@.merging is None && engine@.all_ready(),
                Err(build) => build == self && self@.failure is None && (self@.merging is Some
                    || !engine@.all_ready()),
            },
    {
        proof {
            lemma_first_unready(engine@, 0);
        }
        let group = find_unready(engine);
        if self.failure.is_none() && (self.merging.is_some() || group < engine.group_count()) {
            return Err(self);
        }
        match self.failure {
            Some(error) => Ok(Err(error)),
            None => Ok(Ok(())),
        }
    }
}

/// What has been built is kept: no answer takes a mapping away or puts another one in its place.
pub proof fn law_mappings_are_kept(build: CacheView, engine: EngineView, reply: CacheReply)
    ensures
        engine.symbols.submap_of(build.engine_after(engine, reply).symbols),
        engine.types.submap_of(build.engine_after(engine, reply).types),
{
    lemma_first_unready(engine, 0);
}

/// The building ends only when each group has a mapping to symbols and one to types, or with an
/// error.
pub proof fn law_caches_are_complete(build: CacheView, engine: EngineView)
    ensures
        build.request(engine) is Nothing <==> build.failure is Some || (build.merging is None
            && engine.all_ready()),
{
    lemma_first_unready(engine, 0);
}

/// A mapping to types is merged with the mapping to symbols of its group as soon as it has been
/// built.
pub proof fn law_types_are_merged(build: CacheView, engine: EngineView, group: usize, types: usize)
    requires
        build.request(engine) == (CacheRequest::LoadTypes { group }) || build.request(engine) == (
        CacheRequest::DeriveTypes { group }),
        group < engine.groups.len() <= usize::MAX,
    ensures
        ({
            let reply = CacheReply::Types(Ok(types));
            let next = build.engine_after(engine, reply);
            &&& next.types[engine.type_key(group as int)] == types
            &&& build.after(engine, reply).request(next) == (CacheRequest::Merge {
                symbols: engine.symbols[engine.groups[group as int].key.tag],
                types,
            })
        }),
{
    lemma_first_unready(engine, 0);
}

/// Whether the group `group` has both its mappings: that to symbols is kept under its tag, that to
/// types under its type library and its tag.
pub open spec fn has_mappings(engine: EngineView, group: int) -> bool {
    let key = engine.groups[group].key;
    engine.symbols.contains_key(key.tag) && engine.types.contains_key(
        TypeKey { types: key.types, tag: key.tag },
    )
}

/// Mappings are asked for one group after the other: of a group only once all before it have theirs,
/// that to symbols first, and only what is missing. A group's types are loaded exactly if it names a
/// type library, and derived from the project exactly if it names none.
pub proof fn law_mappings_are_asked_for_in_order(build: CacheView, engine: EngineView)
    requires
        engine.groups.len() <= usize::MAX,
    ensures
        build.request(engine) matches CacheRequest::BuildSymbols { tag }
            ==> !engine.symbols.contains_key(tag) && exists|group: int|
            {
                &&& 0 <= group < engine.groups.len()
                &&& (#[trigger] engine.groups[group]).key.tag == tag
                &&& forall|before: int| 0 <= before < group ==> has_mappings(engine, before)
            },
        build.request(engine) matches CacheRequest::LoadTypes { group } ==> {
            &&& group < engine.groups.len()
            &&& engine.groups[group as int].key.types is Some
            &&& engine.symbols.contains_key(engine.groups[group as int].key.tag)
            &&& !engine.types.contains_key(
                TypeKey {
                    types: engine.groups[group as int].key.types,
                    tag: engine.groups[group as int].key.tag,
                },
            )
            &&& forall|before: int| 0 <= before < group ==> has_mappings(engine, before)
        },
        build.request(engine) matches CacheRequest::DeriveTypes { group } ==> {
            &&& group < engine.groups.len()
            &&& engine.groups[group as int].key.types is None
            &&& engine.symbols.contains_key(engine.groups[group as int].key.tag)
            &&& !engine.types.contains_key(
                TypeKey { types: None, tag: engine.groups[group as int].key.tag },
            )
            &&& forall|before: int| 0 <= before < group ==> has_mappings(engine, before)
        },
        build.request(engine) matches CacheRequest::Merge { symbols, types } ==> build.merging
            == Some((symbols, types)),
        build.failure is None && build.merging is Some ==> build.request(engine) is Merge,
        build.request(engine) is Nothing <==> build.failure is Some || (build.merging is None
            && forall|group: int|
            0 <= group < engine.groups.len() ==> #[trigger] has_mappings(engine, group)),
{
    let unready = engine.first_unready(0);
    lemma_first_unready(engine, 0);
    assert forall|group: int| 0 <= group < unready implies #[trigger] has_mappings(
        engine,
        group,
    ) by {
        assert(engine.is_ready(group));
    }
    if unready < engine.groups.len() {
        assert(!has_mappings(engine, unready));
        assert(engine.groups[unready].key.tag == engine.groups[unready].key.tag);
    }
}

/// The mappings of all groups have been built exactly if each group has both its mappings.
pub proof fn law_all_ready_means_all_mappings(engine: EngineView)
    ensures
        engine.all_ready() <==> forall|group: int|
            0 <= group < engine.groups.len() ==> #[trigger] has_mappings(engine, group),
{
    if engine.all_ready() {
        assert forall|group: int| 0 <= group < engine.groups.len() implies #[trigger] has_mappings(
            engine,
            group,
        ) by {
            assert(engine.is_ready(group));
        }
    }
    if forall|group: int|
        0 <= group < engine.groups.len() ==> #[trigger] has_mappings(engine, group) {
        assert forall|group: int|
            0 <= group < engine.groups.len() implies #[trigger] engine.is_ready(group) by {
            assert(has_mappings(engine, group));
        }
    }
}

/// An answer is taken only if it is of the kind that was asked for, and then also if it says that
/// something failed; types that are derived from the project cannot fail.
pub proof fn law_cache_answers_are_of_their_kind(request: CacheRequest, reply: CacheReply)
    ensures
        fits_cache(request, reply) <==> {
            ||| request is BuildSymbols && reply is Symbols
            ||| request is LoadTypes && reply is Types
            ||| request is DeriveTypes && reply is Types && reply->Types_0 is Ok
            ||| request is Merge && reply is Merged
        },
{
}

/// A mapping that was built is kept under what it was asked for: that to symbols under its tag, that
/// to types under the group's type library and tag, and is then to be merged with the group's
/// mapping to symbols. Nothing else changes.
pub proof fn law_mappings_are_kept_under_their_key(
    build: CacheView,
    engine: EngineView,
    reply: CacheReply,
)
    requires
        engine.groups.len() <= usize::MAX,
        fits_cache(build.request(engine), reply),
    ensures
        ({
            let now = build.engine_after(engine, reply);
            let after = build.after(engine, reply);
            &&& reply matches CacheReply::Symbols(Ok(mapping)) ==> {
                &&& now.symbols == engine.symbols.insert(
                    build.request(engine)->BuildSymbols_tag,
                    mapping,
                )
                &&& now.types == engine.types
                &&& after == build
            }
            &&& reply matches CacheReply::Types(Ok(mapping)) ==> {
                let group = if build.request(engine) is LoadTypes {
                    build.request(engine)->LoadTypes_group as int
                } else {
                    build.request(engine)->DeriveTypes_group as int
                };
                let key = engine.groups[group].key;
                &&& now.types == engine.types.insert(
                    TypeKey { types: key.types, tag: key.tag },
                    mapping,
                )
                &&& now.symbols == engine.symbols
                &&& after.merging == Some((engine.symbols[key.tag], mapping))
                &&& after.failure == build.failure
            }
            &&& reply is Merged ==> after.merging is None && after.failure == build.failure
                && now.symbols == engine.symbols && now.types == engine.types
            &&& reply matches CacheReply::Symbols(Err(text)) ==> after.failure == Some(
                ErrorView { kind: ErrorKind::Signatures, text: text@ },
            ) && now == engine
            &&& reply matches CacheReply::Types(Err(text)) ==> after.failure == Some(
                ErrorView { kind: ErrorKind::Types, text: text@ },
            ) && now == engine
            &&& now.checkers == engine.checkers
            &&& now.groups == engine.groups
            &&& now.contexts == engine.contexts
            &&& now.files == engine.files
            &&& now.architecture == engine.architecture
            &&& now.module_dir == engine.module_dir
            &&& now.decompiler_config == engine.decompiler_config
            &&& now.parallel == engine.parallel
        }),
{
    lemma_first_unready(engine, 0);
}

/// An answer that was not asked for changes nothing.
pub proof fn law_other_cache_answers_change_nothing(
    build: CacheView,
    engine: EngineView,
    reply: CacheReply,
)
    requires
        !fits_cache(build.request(engine), reply),
    ensures
        build.after(engine, reply) == build,
        build.engine_after(engine, reply) == engine,
{
}

} // verus!
