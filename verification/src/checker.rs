//! Checkers: rules that have been read from a Lua script.
use std::collections::BTreeMap;

use vstd::prelude::*;
use vstd::string::*;
use vstd::utf8::*;

use mlua::Lua;

use crate::context::{CheckerContext, Preludes, Step, Steps, dir_of, vm_prepared};
use crate::error::{CheckerError, ErrorKind, ErrorView, error_of};
use crate::extensions::{CheckerExtensions, extensions_resolved, resolve_names, texts_of};
use crate::scope::{CheckScope, ScopeView, scopes_of};
use crate::signature::{SignatureEntry, in_order, keys_of, sort_entries};

verus! {

/// The number that stands for an architecture.
pub type ArchitectureDef = u64;

/// The number that stands for a set of signature files.
pub type BlobTag = u64;

/// The tag of checkers that have no signature files for an architecture.
pub const DEFAULT_TAG: u64 = 0;

/// An architecture that a rule applies to.
#[derive(Debug, Clone)]
pub struct CheckerArch {
    pub name: String,
}

impl View for CheckerArch {
    type V = Seq<char>;

    open spec fn view(&self) -> Seq<char> {
        self.name@
    }
}

/// The conditions under which a rule applies.
#[derive(Debug, Clone, Copy, PartialEq, Eq, Structural)]
pub struct CheckScopeProjectData {
    /// The number under which the caller keeps the conditions; none for no conditions.
    pub handle: Option<usize>,
}

impl Default for CheckScopeProjectData {
    fn default() -> (res: Self)
        ensures
            res.handle is None,
    {
        CheckScopeProjectData { handle: None }
    }
}

/// A value of a rule that may be given alone or in a list.
#[derive(Debug)]
pub enum OneOrMany<T> {
    One(T),
    Many(Vec<T>),
}

impl<T> OneOrMany<T> {
    /// The values.
    pub open spec fn items(self) -> Seq<T> {
        match self {
            OneOrMany::One(item) => seq![item],
            OneOrMany::Many(items) => items@,
        }
    }

    /// The values.
    pub fn into_items(self) -> (res: Vec<T>)
        ensures
            res@ == self.items(),
    {
        match self {
            OneOrMany::One(item) => {
                let mut items: Vec<T> = Vec::new();
                items.push(item);
                items
            },
            OneOrMany::Many(items) => items,
        }
    }
}

/// The outcome of reading a global of a script: its value if it is set, or why it cannot be read.
pub type Read<T> = Result<Option<T>, String>;

/// The error for a global that cannot be read.
pub open spec fn unreadable(text: Seq<char>) -> ErrorView {
    error_of(ErrorKind::Load, text)
}

/// The error for a rule without `field`.
pub open spec fn missing(field: Seq<char>) -> ErrorView {
    error_of(ErrorKind::Malformed, "missing `"@ + field + "`"@)
}

/// The error for a rule whose list `field` is empty.
pub open spec fn none_specified(field: Seq<char>) -> ErrorView {
    error_of(ErrorKind::Malformed, "no `"@ + field + "` specified"@)
}

/// What is wrong with the required text `field`, if anything is.
pub open spec fn text_error(field: Seq<char>, read: Read<String>) -> Option<ErrorView> {
    match read {
        Err(text) => Some(unreadable(text@)),
        Ok(None) => Some(missing(field)),
        Ok(Some(_)) => None,
    }
}

/// What is wrong with the required list `field`, if anything is.
pub open spec fn list_error<T>(field: Seq<char>, read: Read<OneOrMany<T>>) -> Option<ErrorView> {
    match read {
        Err(text) => Some(unreadable(text@)),
        Ok(None) => Some(missing(field)),
        Ok(Some(list)) => if list.items().len() == 0 {
            Some(none_specified(field))
        } else {
            None
        },
    }
}

/// What is wrong with an optional global, if anything is.
pub open spec fn option_error<T>(read: Read<T>) -> Option<ErrorView> {
    match read {
        Err(text) => Some(unreadable(text@)),
        Ok(_) => None,
    }
}

/// The values of an optional list, none if it is not given.
pub open spec fn optional_items<T>(read: Read<OneOrMany<T>>) -> Seq<T> {
    match read {
        Ok(Some(list)) => list.items(),
        _ => Seq::empty(),
    }
}

fn missing_error(field: &str) -> (res: CheckerError)
    ensures
        res@ == missing(field@),
{
    let mut msg = "missing `".to_string();
    msg.append(field);
    msg.append("`");
    CheckerError::malformed_with(msg)
}

/// The text that a rule must give as `field`.
pub fn required_text(field: &str, read: Read<String>) -> (res: Result<String, CheckerError>)
    ensures
        match res {
            Ok(text) => read == Ok::<Option<String>, String>(Some(text)),
            Err(error) => text_error(field@, read) == Some(error@),
        },
{
    match read {
        Err(text) => Err(CheckerError::Load(text)),
        Ok(None) => Err(missing_error(field)),
        Ok(Some(text)) => Ok(text),
    }
}

/// The values that a rule must give as `field`, at least one.
pub fn required_list<T>(field: &str, read: Read<OneOrMany<T>>) -> (res: Result<
    Vec<T>,
    CheckerError,
>)
    ensures
        match res {
            Ok(items) => list_error(field@, read) is None && items@ == optional_items(read),
            Err(error) => list_error(field@, read) == Some(error@),
        },
{
    match read {
        Err(text) => Err(CheckerError::Load(text)),
        Ok(None) => Err(missing_error(field)),
        Ok(Some(list)) => {
            let items = list.into_items();
            if items.len() == 0 {
                let mut msg = "no `".to_string();
                msg.append(field);
                msg.append("` specified");
                Err(CheckerError::malformed_with(msg))
            } else {
                Ok(items)
            }
        },
    }
}

/// The signatures that a rule asks for, in the order in which they are applied.
pub fn resolve_signatures(read: Read<OneOrMany<SignatureEntry>>) -> (res: Result<
    Vec<SignatureEntry>,
    CheckerError,
>)
    ensures
        match res {
            Ok(entries) => option_error(read) is None && keys_of(entries@) == in_order(
                keys_of(optional_items(read)),
            ),
            Err(error) => option_error(read) == Some(error@),
        },
{
    match read {
        Err(text) => Err(CheckerError::Load(text)),
        Ok(None) => Ok(sort_entries(Vec::new())),
        Ok(Some(list)) => Ok(sort_entries(list.into_items())),
    }
}

/// The type library that a rule asks for, if it does.
pub fn resolve_types(read: Read<String>) -> (res: Result<Option<String>, CheckerError>)
    ensures
        match res {
            Ok(types) => read == Ok::<Option<String>, String>(types),
            Err(error) => option_error(read) == Some(error@),
        },
{
    match read {
        Err(text) => Err(CheckerError::Load(text)),
        Ok(types) => Ok(types),
    }
}

/// The extensions that a rule asks for; `parse` reads the name of one.
pub fn resolve_extensions<F: Fn(&str) -> Option<CheckerExtensions>>(
    read: Read<OneOrMany<String>>,
    parse: &F,
) -> (res: Result<CheckerExtensions, CheckerError>)
    requires
        forall|text: &str| call_requires(*parse, (text,)),
    ensures
        match option_error(read) {
            Some(error) => res matches Err(found) && found@ == error,
            None => extensions_resolved(*parse, texts_of(optional_items(read)), res),
        },
{
    match read {
        Err(text) => Err(CheckerError::Load(text)),
        Ok(None) => resolve_names(Vec::new(), parse),
        Ok(Some(list)) => resolve_names(list.into_items(), parse),
    }
}

/// The conditions under which a rule applies, none if it gives none.
pub fn resolve_conditions(read: Read<CheckScopeProjectData>) -> (res: Result<
    CheckScopeProjectData,
    CheckerError,
>)
    ensures
        match res {
            Ok(conditions) => option_error(read) is None && conditions.handle == (match read {
                Ok(Some(given)) => given.handle,
                _ => None,
            }),
            Err(error) => option_error(read) == Some(error@),
        },
{
    match read {
        Err(text) => Err(CheckerError::Load(text)),
        Ok(None) => Ok(CheckScopeProjectData::default()),
        Ok(Some(conditions)) => Ok(conditions),
    }
}

/// A rule that has been read from a script.
#[derive(Clone)]
pub struct Checker {
    name: String,
    author: String,
    architecture: Vec<CheckerArch>,
    platform: String,
    conditions: CheckScopeProjectData,
    signatures: Vec<SignatureEntry>,
    signature_arch_tags: BTreeMap<ArchitectureDef, BlobTag>,
    types: Option<String>,
    scopes: Vec<CheckScope>,
    extensions: CheckerExtensions,
    code: Vec<u8>,
}

/// A [`Checker`] as contracts see it.
#[verifier::ext_equal]
pub struct CheckerView {
    pub name: Seq<char>,
    pub author: Seq<char>,
    pub architecture: Seq<Seq<char>>,
    pub platform: Seq<char>,
    pub conditions: CheckScopeProjectData,
    pub signatures: Seq<Seq<u8>>,
    pub tags: Map<ArchitectureDef, BlobTag>,
    pub types: Option<Seq<char>>,
    pub scopes: Seq<ScopeView>,
    pub extensions: CheckerExtensions,
    pub code: Seq<u8>,
}

/// The text of `text`, if there is one.
pub open spec fn text_of(text: Option<String>) -> Option<Seq<char>> {
    match text {
        Some(text) => Some(text@),
        None => None,
    }
}

/// The names of `list`.
pub open spec fn arches_of(list: Seq<CheckerArch>) -> Seq<Seq<char>> {
    list.map_values(|arch: CheckerArch| arch@)
}

impl View for Checker {
    type V = CheckerView;

    closed spec fn view(&self) -> CheckerView {
        CheckerView {
            name: self.name@,
            author: self.author@,
            architecture: arches_of(self.architecture@),
            platform: self.platform@,
            conditions: self.conditions,
            signatures: keys_of(self.signatures@),
            tags: self.signature_arch_tags@,
            types: text_of(self.types),
            scopes: scopes_of(self.scopes@),
            extensions: self.extensions,
            code: self.code@,
        }
    }
}

/// A checker is seen with all that it holds.
proof fn law_checkers_are_seen_whole(checker: Checker)
    ensures
        checker@.name == checker.name@,
        checker@.author == checker.author@,
        checker@.architecture.len() == checker.architecture@.len(),
        forall|i: int|
            0 <= i < checker.architecture@.len() ==> #[trigger] checker@.architecture[i]
                == checker.architecture@[i].name@,
        checker@.platform == checker.platform@,
        checker@.conditions == checker.conditions,
        checker@.signatures.len() == checker.signatures@.len(),
        forall|i: int|
            0 <= i < checker.signatures@.len() ==> #[trigger] checker@.signatures[i]
                == checker.signatures@[i].key@,
        checker@.tags == checker.signature_arch_tags@,
        checker@.types is Some <==> checker.types is Some,
        checker.types matches Some(types) ==> checker@.types == Some(types@),
        checker@.scopes.len() == checker.scopes@.len(),
        forall|i: int|
            0 <= i < checker.scopes@.len() ==> (#[trigger] checker@.scopes[i]).kind
                == checker.scopes@[i].kind && checker@.scopes[i].id == checker.scopes@[i].id
                && checker@.scopes[i].with == checker.scopes@[i].with@,
        checker@.extensions == checker.extensions,
        checker@.code == checker.code@,
{
}

/// What the globals of a script were read as. Of the extensions it holds what they were resolved
/// to.
pub struct Globals {
    pub name: Read<String>,
    pub author: Read<String>,
    pub platform: Read<String>,
    pub architecture: Read<OneOrMany<CheckerArch>>,
    pub signatures: Read<OneOrMany<SignatureEntry>>,
    pub types: Read<String>,
    pub extensions: Read<OneOrMany<String>>,
    pub resolved: Result<CheckerExtensions, CheckerError>,
    pub scopes: Read<OneOrMany<CheckScope>>,
    pub conditions: Read<CheckScopeProjectData>,
}

/// What is wrong with each global, in the order in which they are looked at.
pub open spec fn global_errors(globals: Globals) -> Seq<Option<ErrorView>> {
    seq![
        text_error("name"@, globals.name),
        text_error("author"@, globals.author),
        text_error("platform"@, globals.platform),
        list_error("architecture"@, globals.architecture),
        option_error(globals.signatures),
        option_error(globals.types),
        match option_error(globals.extensions) {
            Some(error) => Some(error),
            None => match globals.resolved {
                Ok(_) => None,
                Err(error) => Some(error@),
            },
        },
        list_error("scopes"@, globals.scopes),
        option_error(globals.conditions),
    ]
}

/// The place of the first error in `errors` from `at` on, or their number.
pub open spec fn first_error(errors: Seq<Option<ErrorView>>, at: int) -> int
    decreases errors.len() - at,
{
    if at >= errors.len() {
        errors.len() as int
    } else if errors[at] is Some {
        at
    } else {
        first_error(errors, at + 1)
    }
}

/// How many globals are looked at without an error.
pub open spec fn sound_globals(globals: Globals) -> int {
    first_error(global_errors(globals), 0)
}

/// The value of the text `read`.
pub open spec fn value_of(read: Read<String>) -> Seq<char> {
    match read {
        Ok(Some(text)) => text@,
        _ => Seq::empty(),
    }
}

/// The checker that a script with the code `code` and the globals `globals` stands for, or the
/// first thing that is wrong with it.
pub open spec fn checker_of(code: Seq<u8>, globals: Globals) -> Result<CheckerView, ErrorView> {
    let errors = global_errors(globals);
    let sound = sound_globals(globals);
    if sound < errors.len() {
        Err(errors[sound]->0)
    } else {
        Ok(
            CheckerView {
                name: value_of(globals.name),
                author: value_of(globals.author),
                architecture: arches_of(optional_items(globals.architecture)),
                platform: value_of(globals.platform),
                conditions: match globals.conditions {
                    Ok(Some(conditions)) => conditions,
                    _ => CheckScopeProjectData { handle: None },
                },
                signatures: in_order(keys_of(optional_items(globals.signatures))),
                tags: Map::empty(),
                types: match globals.types {
                    Ok(types) => text_of(types),
                    Err(_) => None,
                },
                scopes: scopes_of(optional_items(globals.scopes)),
                extensions: globals.resolved->Ok_0,
                code,
            },
        )
    }
}

/// How the globals of a script are read from the state that has run it, and how the name of an
/// extension is.
pub struct Decoders<N, A, S, Y, X, P, C, D> {
    /// Reads the global with a given name: a text, or a number that stands for one.
    pub text: N,
    pub architecture: A,
    pub signatures: S,
    /// Reads the name of the type library.
    pub types: Y,
    pub extensions: X,
    pub extension: P,
    pub scopes: C,
    pub conditions: D,
}

impl<N, A, S, Y, X, P, C, D> Decoders<N, A, S, Y, X, P, C, D> where
    N: Fn(&Lua, &str) -> Read<String>,
    A: FnOnce(&Lua) -> Read<OneOrMany<CheckerArch>>,
    S: FnOnce(&Lua) -> Read<OneOrMany<SignatureEntry>>,
    Y: FnOnce(&Lua) -> Read<String>,
    X: FnOnce(&Lua) -> Read<OneOrMany<String>>,
    P: Fn(&str) -> Option<CheckerExtensions>,
    C: FnOnce(&Lua) -> Read<OneOrMany<CheckScope>>,
    D: FnOnce(&Lua) -> Read<CheckScopeProjectData>,
 {
    /// Whether these may be used on any script.
    pub open spec fn usable(self) -> bool {
        &&& forall|vm: &Lua, key: &str| call_requires(self.text, (vm, key))
        &&& forall|vm: &Lua| call_requires(self.architecture, (vm,))
        &&& forall|vm: &Lua| call_requires(self.signatures, (vm,))
        &&& forall|vm: &Lua| call_requires(self.types, (vm,))
        &&& forall|vm: &Lua| call_requires(self.extensions, (vm,))
        &&& forall|text: &str| call_requires(self.extension, (text,))
        &&& forall|vm: &Lua| call_requires(self.scopes, (vm,))
        &&& forall|vm: &Lua| call_requires(self.conditions, (vm,))
    }

    /// Whether the text that the global `key` of `vm` holds can be read as `read`.
    pub open spec fn text_is(self, vm: &Lua, key: Seq<char>, read: Read<String>) -> bool {
        exists|name: &str| name@ == key && #[trigger] call_ensures(self.text, (vm, name), read)
    }

    /// Whether `globals` can be read from `vm`. Nothing is said of a global that is not looked at
    /// because of an error before it.
    pub open spec fn can_read(self, vm: &Lua, globals: Globals) -> bool {
        let sound = sound_globals(globals);
        &&& self.text_is(vm, "name"@, globals.name)
        &&& sound >= 1 ==> self.text_is(vm, "author"@, globals.author)
        &&& sound >= 2 ==> self.text_is(vm, "platform"@, globals.platform)
        &&& sound >= 3 ==> call_ensures(self.architecture, (vm,), globals.architecture)
        &&& sound >= 4 ==> call_ensures(self.signatures, (vm,), globals.signatures)
        &&& sound >= 5 ==> call_ensures(self.types, (vm,), globals.types)
        &&& sound >= 6 ==> call_ensures(self.extensions, (vm,), globals.extensions)
        &&& sound >= 6 && option_error(globals.extensions) is None ==> extensions_resolved(
            self.extension,
            texts_of(optional_items(globals.extensions)),
            globals.resolved,
        )
        &&& sound >= 7 ==> call_ensures(self.scopes, (vm,), globals.scopes)
        &&& sound >= 8 ==> call_ensures(self.conditions, (vm,), globals.conditions)
    }

    /// Whether `res` can come of reading a checker with the code `code` from `vm`.
    pub open spec fn can_load(
        self,
        vm: &Lua,
        code: Seq<u8>,
        res: Result<Checker, CheckerError>,
    ) -> bool {
        exists|globals: Globals| #[trigger]
            self.can_read(vm, globals) && is_outcome(res, checker_of(code, globals))
    }
}

/// Whether `res` is the checker or the error that `expected` is.
pub open spec fn is_outcome(
    res: Result<Checker, CheckerError>,
    expected: Result<CheckerView, ErrorView>,
) -> bool {
    match expected {
        Ok(checker) => res matches Ok(found) && found@ == checker,
        Err(error) => res matches Err(found) && found@ == error,
    }
}

proof fn lemma_first_error(errors: Seq<Option<ErrorView>>, at: int, k: int)
    requires
        0 <= at <= k <= errors.len(),
        forall|j: int| at <= j < k ==> (#[trigger] errors[j]) is None,
        k < errors.len() ==> errors[k] is Some,
    ensures
        first_error(errors, at) == k,
    decreases k - at,
{
    if at < k {
        lemma_first_error(errors, at + 1, k);
    }
}

proof fn lemma_sound_globals(globals: Globals, k: int)
    requires
        0 <= k <= 9,
        forall|j: int| 0 <= j < k ==> (#[trigger] global_errors(globals)[j]) is None,
        k < 9 ==> global_errors(globals)[k] is Some,
    ensures
        sound_globals(globals) == k,
{
    lemma_first_error(global_errors(globals), 0, k);
}

/// A checker's name, author and platform are the texts that the globals of the state hold from which
/// it was read.
pub proof fn law_checker_is_what_was_read<N, A, S, Y, X, P, C, D>(
    decoders: Decoders<N, A, S, Y, X, P, C, D>,
    vm: &Lua,
    code: Seq<u8>,
    checker: Checker,
) where
    N: Fn(&Lua, &str) -> Read<String>,
    A: FnOnce(&Lua) -> Read<OneOrMany<CheckerArch>>,
    S: FnOnce(&Lua) -> Read<OneOrMany<SignatureEntry>>,
    Y: FnOnce(&Lua) -> Read<String>,
    X: FnOnce(&Lua) -> Read<OneOrMany<String>>,
    P: Fn(&str) -> Option<CheckerExtensions>,
    C: FnOnce(&Lua) -> Read<OneOrMany<CheckScope>>,
    D: FnOnce(&Lua) -> Read<CheckScopeProjectData>,

    requires
        decoders.can_load(vm, code, Ok(checker)),
    ensures
        exists|name: String, author: String, platform: String|
            {
                &&& #[trigger] decoders.text_is(vm, "name"@, Ok(Some(name)))
                &&& #[trigger] decoders.text_is(vm, "author"@, Ok(Some(author)))
                &&& #[trigger] decoders.text_is(vm, "platform"@, Ok(Some(platform)))
                &&& checker@.name == name@
                &&& checker@.author == author@
                &&& checker@.platform == platform@
            },
        checker@.code == code,
        checker@.tags == Map::<ArchitectureDef, BlobTag>::empty(),
{
    let globals = choose|globals: Globals| #[trigger]
        decoders.can_read(vm, globals) && is_outcome(Ok(checker), checker_of(code, globals));
    let errors = global_errors(globals);
    lemma_sound_before(errors, 0);
    assert(errors[0] is None && errors[1] is None && errors[2] is None);
}

pub(crate) proof fn lemma_sound_before(errors: Seq<Option<ErrorView>>, at: int)
    requires
        0 <= at <= errors.len(),
    ensures
        first_error(errors, at) <= errors.len(),
        forall|k: int|
            at <= k < first_error(errors, at) ==> (#[trigger] errors[k]) is None,
    decreases errors.len() - at,
{
    if at < errors.len() && errors[at] is None {
        lemma_sound_before(errors, at + 1);
    }
}

/// Whether the text `read` is given.
fn is_text_given(read: &Read<String>) -> (res: bool)
    ensures
        forall|field: Seq<char>| res == (#[trigger] text_error(field, *read) is None),
{
    match read {
        Ok(Some(_)) => true,
        _ => false,
    }
}

/// Whether the list `read` is given, with something in it.
fn is_list_given<T>(read: &Read<OneOrMany<T>>) -> (res: bool)
    ensures
        forall|field: Seq<char>| res == (#[trigger] list_error(field, *read) is None),
{
    match read {
        Ok(Some(OneOrMany::One(_))) => true,
        Ok(Some(OneOrMany::Many(items))) => items.len() > 0,
        _ => false,
    }
}

impl Checker {
    /// The checker that a script with the code `code` stands for whose globals were read as
    /// `globals`. The first that is wrong is the error.
    pub fn from_reads(code: Vec<u8>, globals: Globals) -> (res: Result<Checker, CheckerError>)
        ensures
            is_outcome(res, checker_of(code@, globals)),
    {
        let ghost all = globals;
        let name = match required_text("name", globals.name) {
            Ok(name) => name,
            Err(error) => {
                proof {
                    lemma_sound_globals(all, 0);
                }
                return Err(error);
            },
        };
        let author = match required_text("author", globals.author) {
            Ok(author) => author,
            Err(error) => {
                proof {
                    lemma_sound_globals(all, 1);
                }
                return Err(error);
            },
        };
        let platform = match required_text("platform", globals.platform) {
            Ok(platform) => platform,
            Err(error) => {
                proof {
                    lemma_sound_globals(all, 2);
                }
                return Err(error);
            },
        };
        let architecture = match required_list("architecture", globals.architecture) {
            Ok(architecture) => architecture,
            Err(error) => {
                proof {
                    lemma_sound_globals(all, 3);
                }
                return Err(error);
            },
        };
        let signatures = match resolve_signatures(globals.signatures) {
            Ok(signatures) => signatures,
            Err(error) => {
                proof {
                    lemma_sound_globals(all, 4);
                }
                return Err(error);
            },
        };
        let types = match resolve_types(globals.types) {
            Ok(types) => types,
            Err(error) => {
                proof {
                    lemma_sound_globals(all, 5);
                }
                return Err(error);
            },
        };
        if let Err(text) = globals.extensions {
            proof {
                lemma_sound_globals(all, 6);
            }
            return Err(CheckerError::Load(text));
        }
        let extensions = match globals.resolved {
            Ok(extensions) => extensions,
            Err(error) => {
                proof {
                    lemma_sound_globals(all, 6);
                }
                return Err(error);
            },
        };
        let scopes = match required_list("scopes", globals.scopes) {
            Ok(scopes) => scopes,
            Err(error) => {
                proof {
                    lemma_sound_globals(all, 7);
                }
                return Err(error);
            },
        };
        let conditions = match resolve_conditions(globals.conditions) {
            Ok(conditions) => conditions,
            Err(error) => {
                proof {
                    lemma_sound_globals(all, 8);
                }
                return Err(error);
            },
        };
        let checker = Checker {
            name,
            author,
            architecture,
            platform,
            conditions,
            signatures,
            signature_arch_tags: BTreeMap::new(),
            types,
            scopes,
            extensions,
            code,
        };
        proof {
            lemma_sound_globals(all, 9);
            assert(Ok::<CheckerView, ErrorView>(checker@) == checker_of(code@, all));
        }
        Ok(checker)
    }

    /// Reads the checker with the code `code` from `vm`, a state that has run the code. The globals
    /// are read one after the other, and the first that is wrong ends the reading.
    pub fn from_globals<N, A, S, Y, X, P, C, D>(
        vm: &Lua,
        code: Vec<u8>,
        decoders: Decoders<N, A, S, Y, X, P, C, D>,
    ) -> (res: Result<Checker, CheckerError>) where
        N: Fn(&Lua, &str) -> Read<String>,
        A: FnOnce(&Lua) -> Read<OneOrMany<CheckerArch>>,
        S: FnOnce(&Lua) -> Read<OneOrMany<SignatureEntry>>,
        Y: FnOnce(&Lua) -> Read<String>,
        X: FnOnce(&Lua) -> Read<OneOrMany<String>>,
        P: Fn(&str) -> Option<CheckerExtensions>,
        C: FnOnce(&Lua) -> Read<OneOrMany<CheckScope>>,
        D: FnOnce(&Lua) -> Read<CheckScopeProjectData>,

        requires
            decoders.usable(),
        ensures
            decoders.can_load(vm, code@, res),
    {
        let ghost all = decoders;
        let Decoders {
            text,
            architecture,
            signatures,
            types,
            extensions,
            extension,
            scopes,
            conditions,
        } = decoders;
        let mut globals = Globals {
            name: text(vm, "name"),
            author: Ok(None),
            platform: Ok(None),
            architecture: Ok(None),
            signatures: Ok(None),
            types: Ok(None),
            extensions: Ok(None),
            resolved: Ok(CheckerExtensions::empty()),
            scopes: Ok(None),
            conditions: Ok(None),
        };
        if !is_text_given(&globals.name) {
            proof {
                lemma_sound_globals(globals, 0);
                assert(all.can_read(vm, globals));
            }
            return Checker::from_reads(code, globals);
        }
        globals.author = text(vm, "author");
        if !is_text_given(&globals.author) {
            proof {
                lemma_sound_globals(globals, 1);
                assert(all.can_read(vm, globals));
            }
            return Checker::from_reads(code, globals);
        }
        globals.platform = text(vm, "platform");
        if !is_text_given(&globals.platform) {
            proof {
                lemma_sound_globals(globals, 2);
                assert(all.can_read(vm, globals));
            }
            return Checker::from_reads(code, globals);
        }
        globals.architecture = architecture(vm);
        if !is_list_given(&globals.architecture) {
            proof {
                lemma_sound_globals(globals, 3);
                assert(all.can_read(vm, globals));
            }
            return Checker::from_reads(code, globals);
        }
        globals.signatures = signatures(vm);
        if globals.signatures.is_err() {
            proof {
                lemma_sound_globals(globals, 4);
                assert(all.can_read(vm, globals));
            }
            return Checker::from_reads(code, globals);
        }
        globals.types = types(vm);
        if globals.types.is_err() {
            proof {
                lemma_sound_globals(globals, 5);
                assert(all.can_read(vm, globals));
            }
            return Checker::from_reads(code, globals);
        }
        let names = match extensions(vm) {
            Ok(names) => names,
            Err(text) => {
                globals.extensions = Err(text);
                proof {
                    lemma_sound_globals(globals, 6);
                    assert(all.can_read(vm, globals));
                }
                return Checker::from_reads(code, globals);
            },
        };
        let ghost given = Ok::<Option<OneOrMany<String>>, String>(names);
        let resolved = resolve_extensions(Ok(names), &extension);
        let failed = resolved.is_err();
        globals.resolved = resolved;
        if failed {
            proof {
                let seen = Globals { extensions: given, ..globals };
                lemma_sound_globals(globals, 6);
                lemma_sound_globals(seen, 6);
                assert(all.can_read(vm, seen));
            }
            return Checker::from_reads(code, globals);
        }
        globals.scopes = scopes(vm);
        if !is_list_given(&globals.scopes) {
            proof {
                let seen = Globals { extensions: given, ..globals };
                lemma_sound_globals(globals, 7);
                lemma_sound_globals(seen, 7);
                assert(all.can_read(vm, seen));
            }
            return Checker::from_reads(code, globals);
        }
        globals.conditions = conditions(vm);
        proof {
            let seen = Globals { extensions: given, ..globals };
            let sound: int = if globals.conditions is Ok {
                9
            } else {
                8
            };
            lemma_sound_globals(globals, sound);
            lemma_sound_globals(seen, sound);
            assert(all.can_read(vm, seen));
            assert(checker_of(code@, globals) == checker_of(code@, seen));
        }
        Checker::from_reads(code, globals)
    }

    /// Reads a checker called `name` from `script`, which has been preprocessed: its code is run in
    /// the fresh state `vm`, as [`CheckerContext::new_vm`] does, and then its globals are read.
    pub fn from_str<T, R, B, M, N, A, S, Y, X, P, C, D>(
        vm: Lua,
        name: &str,
        script: Result<String, CheckerError>,
        module_dir: Option<&str>,
        preludes: &Preludes,
        steps: Steps<T, R, B, M>,
        decoders: Decoders<N, A, S, Y, X, P, C, D>,
    ) -> (res: Result<Checker, CheckerError>) where
        T: FnOnce(Lua) -> Step,
        R: Fn(Lua, &str, &[u8]) -> Step,
        B: FnOnce(Lua, &str, &[u8]) -> Step,
        M: FnOnce(Lua, Option<&str>) -> Step,
        N: Fn(&Lua, &str) -> Read<String>,
        A: FnOnce(&Lua) -> Read<OneOrMany<CheckerArch>>,
        S: FnOnce(&Lua) -> Read<OneOrMany<SignatureEntry>>,
        Y: FnOnce(&Lua) -> Read<String>,
        X: FnOnce(&Lua) -> Read<OneOrMany<String>>,
        P: Fn(&str) -> Option<CheckerExtensions>,
        C: FnOnce(&Lua) -> Read<OneOrMany<CheckScope>>,
        D: FnOnce(&Lua) -> Read<CheckScopeProjectData>,

        requires
            steps.usable(),
            decoders.usable(),
        ensures
            match script {
                Err(error) => res == Err::<Checker, CheckerError>(error),
                Ok(code) => exists|prepared: Result<CheckerContext, CheckerError>| #[trigger]
                    vm_prepared(
                        vm,
                        name@,
                        encode_utf8(code@),
                        dir_of(module_dir),
                        *preludes,
                        steps,
                        prepared,
                    ) && match prepared {
                        Err(error) => res == Err::<Checker, CheckerError>(error),
                        Ok(context) => decoders.can_load(
                            &context.lua(),
                            encode_utf8(code@),
                            res,
                        ),
                    },
            },
    {
        let script = match script {
            Ok(script) => script,
            Err(error) => {
                return Err(error);
            },
        };
        let code = script.as_str().as_bytes_vec();
        let prepared = CheckerContext::new_vm(
            vm,
            name,
            code.as_slice(),
            module_dir,
            preludes,
            steps,
        );
        match prepared {
            Ok(context) => Checker::from_globals(context.vm(), code, decoders),
            Err(error) => Err(error),
        }
    }

    /// A Lua state for this checker, prepared from the fresh state `vm`.
    pub fn context<T, R, B, M>(
        &self,
        vm: Lua,
        module_dir: Option<&str>,
        preludes: &Preludes,
        steps: Steps<T, R, B, M>,
    ) -> (res: Result<CheckerContext, CheckerError>) where
        T: FnOnce(Lua) -> Step,
        R: Fn(Lua, &str, &[u8]) -> Step,
        B: FnOnce(Lua, &str, &[u8]) -> Step,
        M: FnOnce(Lua, Option<&str>) -> Step,

        requires
            steps.usable(),
        ensures
            vm_prepared(vm, self@.name, self@.code, dir_of(module_dir), *preludes, steps, res),
    {
        CheckerContext::new_vm(
            vm,
            self.name.as_str(),
            self.code.as_slice(),
            module_dir,
            preludes,
            steps,
        )
    }

    /// The rule's name.
    pub fn name(&self) -> (res: &str)
        ensures
            res@ == self@.name,
    {
        self.name.as_str()
    }

    /// Who wrote the rule.
    pub fn author(&self) -> (res: &str)
        ensures
            res@ == self@.author,
    {
        self.author.as_str()
    }

    /// The architectures that the rule applies to.
    pub fn architecture(&self) -> (res: &[CheckerArch])
        ensures
            arches_of(res@) == self@.architecture,
    {
        self.architecture.as_slice()
    }

    /// The platform that the rule applies to.
    pub fn platform(&self) -> (res: &str)
        ensures
            res@ == self@.platform,
    {
        self.platform.as_str()
    }

    /// The signatures that the rule asks for, in the order in which they are applied.
    pub fn signatures(&self) -> (res: &[SignatureEntry])
        ensures
            keys_of(res@) == self@.signatures,
    {
        self.signatures.as_slice()
    }

    /// The tags of the rule's signature files, by architecture, to be changed.
    pub fn signature_arch_tags_mut(&mut self) -> (res: &mut BTreeMap<ArchitectureDef, BlobTag>)
        ensures
            res@ == old(self)@.tags,
            final(self)@ == (CheckerView { tags: final(res)@, ..old(self)@ }),
    {
        &mut self.signature_arch_tags
    }

    /// The tags of the rule's signature files, by architecture.
    pub fn signature_arch_tags(&self) -> (res: &BTreeMap<ArchitectureDef, BlobTag>)
        ensures
            res@ == self@.tags,
    {
        &self.signature_arch_tags
    }

    /// The type library that the rule asks for.
    pub fn types(&self) -> (res: Option<&str>)
        ensures
            match res {
                Some(types) => self@.types == Some(types@),
                None => self@.types is None,
            },
    {
        match &self.types {
            Some(types) => Some(types.as_str()),
            None => None,
        }
    }

    /// The language extensions that the rule asks for.
    pub fn extensions(&self) -> (res: CheckerExtensions)
        ensures
            res == self@.extensions,
    {
        self.extensions
    }

    /// Where the rule looks.
    pub fn scopes(&self) -> (res: &[CheckScope])
        ensures
            scopes_of(res@) == self@.scopes,
    {
        self.scopes.as_slice()
    }

    /// The conditions under which the rule applies.
    pub fn conditions(&self) -> (res: &CheckScopeProjectData)
        ensures
            *res == self@.conditions,
    {
        &self.conditions
    }
}

impl CheckerContext {
    /// A Lua state for `checker`, prepared from the fresh state `vm`.
    pub fn from_checker<T, R, B, M>(
        checker: &Checker,
        vm: Lua,
        module_dir: Option<&str>,
        preludes: &Preludes,
        steps: Steps<T, R, B, M>,
    ) -> (res: Result<CheckerContext, CheckerError>) where
        T: FnOnce(Lua) -> Step,
        R: Fn(Lua, &str, &[u8]) -> Step,
        B: FnOnce(Lua, &str, &[u8]) -> Step,
        M: FnOnce(Lua, Option<&str>) -> Step,

        requires
            steps.usable(),
        ensures
            vm_prepared(
                vm,
                checker@.name,
                checker@.code,
                dir_of(module_dir),
                *preludes,
                steps,
                res,
            ),
    {
        checker.context(vm, module_dir, preludes, steps)
    }
}

} // verus!
