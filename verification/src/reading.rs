//! What a checker takes from the globals of its rule, told from what was read.
use vstd::prelude::*;

use mlua::Lua;

use crate::checker::{
    CheckScopeProjectData, Checker, CheckerArch, CheckerView, Decoders, Globals, OneOrMany, Read,
    checker_of, first_error, global_errors, is_outcome, lemma_sound_before, optional_items,
    sound_globals,
};
use crate::error::{CheckerError, ErrorKind, ErrorView};
use crate::extensions::{
    CheckerExtensions, ascii_uppercase, extensions_resolved, first_unsupported, is_readable, parses,
    texts_of, union_of, unsupported_extension,
};
use crate::scope::CheckScope;
use crate::signature::{SignatureEntry, bytes_leq, in_order, keys_of, law_signature_order_is_sorted};

verus! {

/// Whether `a` comes before `b`, or is `b`: it is the beginning of `b`, or the first byte in which
/// they differ is less.
pub open spec fn is_at_or_before(a: Seq<u8>, b: Seq<u8>) -> bool {
    ||| a.len() <= b.len() && forall|i: int| 0 <= i < a.len() ==> a[i] == b[i]
    ||| exists|i: int|
        {
            &&& 0 <= i < a.len()
            &&& i < b.len()
            &&& #[trigger] a[i] < b[i]
            &&& forall|j: int| 0 <= j < i ==> a[j] == b[j]
        }
}

/// Entries are compared byte by byte.
pub proof fn law_entries_are_compared_by_bytes(a: Seq<u8>, b: Seq<u8>)
    ensures
        bytes_leq(a, b) <==> is_at_or_before(a, b),
    decreases a.len(),
{
    if a.len() > 0 && b.len() > 0 {
        let x = a.drop_first();
        let y = b.drop_first();
        if a[0] != b[0] {
            if a[0] < b[0] {
                assert(is_at_or_before(a, b)) by {
                    assert(a[0] < b[0]);
                }
            }
        } else {
            law_entries_are_compared_by_bytes(x, y);
            if is_at_or_before(x, y) {
                if x.len() <= y.len() && forall|i: int| 0 <= i < x.len() ==> x[i] == y[i] {
                    assert forall|i: int| 0 <= i < a.len() implies a[i] == b[i] by {
                        if i > 0 {
                            assert(x[i - 1] == y[i - 1]);
                        }
                    }
                } else {
                    let i = choose|i: int|
                        {
                            &&& 0 <= i < x.len()
                            &&& i < y.len()
                            &&& #[trigger] x[i] < y[i]
                            &&& forall|j: int| 0 <= j < i ==> x[j] == y[j]
                        };
                    assert(a[i + 1] < b[i + 1]);
                    assert forall|j: int| 0 <= j < i + 1 implies a[j] == b[j] by {
                        if j > 0 {
                            assert(x[j - 1] == y[j - 1]);
                        }
                    }
                }
            }
            if is_at_or_before(a, b) {
                if a.len() <= b.len() && forall|i: int| 0 <= i < a.len() ==> a[i] == b[i] {
                    assert forall|i: int| 0 <= i < x.len() implies x[i] == y[i] by {
                        assert(a[i + 1] == b[i + 1]);
                    }
                } else {
                    let i = choose|i: int|
                        {
                            &&& 0 <= i < a.len()
                            &&& i < b.len()
                            &&& #[trigger] a[i] < b[i]
                            &&& forall|j: int| 0 <= j < i ==> a[j] == b[j]
                        };
                    assert(x[i - 1] < y[i - 1]);
                    assert forall|j: int| 0 <= j < i - 1 implies x[j] == y[j] by {
                        assert(a[j + 1] == b[j + 1]);
                    }
                }
            }
        }
    }
}

/// Whether `keys` are the keys of `entries`, each as often, in the order of their bytes.
pub open spec fn are_sorted_keys(entries: Seq<SignatureEntry>, keys: Seq<Seq<u8>>) -> bool {
    &&& keys.to_multiset() == Seq::new(entries.len(), |i: int| entries[i].key@).to_multiset()
    &&& forall|i: int, j: int|
        0 <= i <= j < keys.len() ==> is_at_or_before(#[trigger] keys[i], #[trigger] keys[j])
}

pub(crate) proof fn lemma_sorted_keys(entries: Seq<SignatureEntry>)
    ensures
        are_sorted_keys(entries, in_order(keys_of(entries))),
{
    let keys = keys_of(entries);
    let sorted = in_order(keys);
    law_signature_order_is_sorted(keys);
    assert(keys =~= Seq::new(entries.len(), |i: int| entries[i].key@));
    assert forall|i: int, j: int| 0 <= i <= j < sorted.len() implies is_at_or_before(
        #[trigger] sorted[i],
        #[trigger] sorted[j],
    ) by {
        assert(bytes_leq(sorted[i], sorted[j]));
        law_entries_are_compared_by_bytes(sorted[i], sorted[j]);
    }
}

/// Whether `items` are what `list` holds: the one value, or those of the list.
pub open spec fn holds<T>(list: OneOrMany<T>, items: Seq<T>) -> bool {
    match list {
        OneOrMany::One(item) => items.len() == 1 && items[0] == item,
        OneOrMany::Many(list) => items == list@,
    }
}

/// Whether the architectures of `checker` are those of `list`, in their order.
pub open spec fn has_arches(checker: CheckerView, list: OneOrMany<CheckerArch>) -> bool {
    exists|items: Seq<CheckerArch>|
        {
            &&& #[trigger] holds(list, items)
            &&& checker.architecture.len() == items.len()
            &&& forall|i: int| 0 <= i < items.len() ==> checker.architecture[i] == items[i].name@
        }
}

/// Whether the scopes of `checker` are those of `list`, in their order.
pub open spec fn has_scopes(checker: CheckerView, list: OneOrMany<CheckScope>) -> bool {
    exists|items: Seq<CheckScope>|
        {
            &&& #[trigger] holds(list, items)
            &&& checker.scopes.len() == items.len()
            &&& forall|i: int|
                0 <= i < items.len() ==> {
                    &&& (#[trigger] checker.scopes[i]).kind == items[i].kind
                    &&& checker.scopes[i].id == items[i].id
                    &&& checker.scopes[i].with == items[i].with@
                }
        }
}

/// Whether the signatures of `checker` are those of `list`, sorted; none if there is no list.
pub open spec fn has_signatures(
    checker: CheckerView,
    list: Option<OneOrMany<SignatureEntry>>,
) -> bool {
    match list {
        None => checker.signatures.len() == 0,
        Some(list) => exists|items: Seq<SignatureEntry>| #[trigger]
            holds(list, items) && are_sorted_keys(items, checker.signatures),
    }
}

/// A checker holds what its rule gives, each part as it was read, whatever the others are: its texts,
/// its architectures and its scopes in their order, its signatures sorted, its type library, its
/// extensions and its conditions, none of the last four if the rule gives none. It has no tags yet.
pub proof fn law_checkers_hold_what_was_read(
    code: Seq<u8>,
    globals: Globals,
    checker: CheckerView,
)
    requires
        checker_of(code, globals) == Ok::<CheckerView, ErrorView>(checker),
    ensures
        globals.name matches Ok(Some(text)) && checker.name == text@,
        globals.author matches Ok(Some(text)) && checker.author == text@,
        globals.platform matches Ok(Some(text)) && checker.platform == text@,
        globals.architecture matches Ok(Some(list)) && has_arches(checker, list),
        globals.signatures matches Ok(list) && has_signatures(checker, list),
        globals.types matches Ok(types) && checker.types == (match types {
            Some(text) => Some(text@),
            None => None,
        }),
        globals.extensions is Ok,
        globals.resolved == Ok::<CheckerExtensions, CheckerError>(checker.extensions),
        globals.scopes matches Ok(Some(list)) && has_scopes(checker, list),
        globals.conditions matches Ok(conditions) && checker.conditions.handle == (
        match conditions {
            Some(conditions) => conditions.handle,
            None => None,
        }),
        checker.architecture.len() > 0,
        checker.scopes.len() > 0,
        checker.code == code,
        forall|architecture: u64| !checker.tags.contains_key(architecture),
{
    let errors = global_errors(globals);
    lemma_sound_before(errors, 0);
    assert(errors[0] is None && errors[1] is None && errors[2] is None && errors[3] is None
        && errors[4] is None && errors[5] is None && errors[6] is None && errors[7] is None
        && errors[8] is None);
    let arches = globals.architecture->Ok_0->0;
    assert(holds(arches, arches.items()));
    assert(has_arches(checker, arches));
    let scopes = globals.scopes->Ok_0->0;
    assert(holds(scopes, scopes.items()));
    assert(has_scopes(checker, scopes));
    match globals.signatures->Ok_0 {
        Some(list) => {
            lemma_sorted_keys(list.items());
            assert(holds(list, list.items()));
        },
        None => {
            lemma_sorted_keys(Seq::empty());
            let sorted = in_order(keys_of(Seq::empty()));
            law_signature_order_is_sorted(keys_of(Seq::empty()));
            sorted.to_multiset_ensures();
            keys_of(Seq::empty()).to_multiset_ensures();
            assert(sorted.len() == 0);
        },
    }
}

/// Whether `error` is that of a rule of kind `kind` that says `text`.
pub open spec fn says(error: ErrorView, kind: ErrorKind, text: Seq<char>) -> bool {
    error.kind == kind && error.text == text
}

/// Whether `error` is what is wrong with the required text `field`.
pub open spec fn is_text_error(error: ErrorView, field: Seq<char>, read: Read<String>) -> bool {
    match read {
        Err(text) => says(error, ErrorKind::Load, text@),
        Ok(None) => says(error, ErrorKind::Malformed, "missing `"@ + field + "`"@),
        Ok(Some(_)) => false,
    }
}

/// Whether `error` is what is wrong with the required list `field`.
pub open spec fn is_list_error<T>(
    error: ErrorView,
    field: Seq<char>,
    read: Read<OneOrMany<T>>,
) -> bool {
    match read {
        Err(text) => says(error, ErrorKind::Load, text@),
        Ok(None) => says(error, ErrorKind::Malformed, "missing `"@ + field + "`"@),
        Ok(Some(OneOrMany::One(_))) => false,
        Ok(Some(OneOrMany::Many(items))) => items@.len() == 0 && says(
            error,
            ErrorKind::Malformed,
            "no `"@ + field + "` specified"@,
        ),
    }
}

/// Whether the list `read` is given, with something in it.
pub open spec fn is_given<T>(read: Read<OneOrMany<T>>) -> bool {
    match read {
        Ok(Some(OneOrMany::One(_))) => true,
        Ok(Some(OneOrMany::Many(items))) => items@.len() > 0,
        _ => false,
    }
}

/// A rule is refused for the first thing that is wrong with it, in the order name, author, platform,
/// architecture, signatures, types, extensions, scopes, conditions; one with which nothing is wrong
/// is taken.
pub proof fn law_rules_are_refused_for_the_first_error(code: Seq<u8>, globals: Globals)
    ensures
        ({
            let res = checker_of(code, globals);
            let name = globals.name matches Ok(Some(_));
            let author = name && globals.author matches Ok(Some(_));
            let platform = author && globals.platform matches Ok(Some(_));
            let architecture = platform && is_given(globals.architecture);
            let signatures = architecture && globals.signatures is Ok;
            let types = signatures && globals.types is Ok;
            let named = types && globals.extensions is Ok;
            let extensions = named && globals.resolved is Ok;
            let scopes = extensions && is_given(globals.scopes);
            let conditions = scopes && globals.conditions is Ok;
            &&& conditions <==> res is Ok
            &&& !name ==> (res matches Err(error) && is_text_error(error, "name"@, globals.name))
            &&& name && !author ==> (res matches Err(error) && is_text_error(
                error,
                "author"@,
                globals.author,
            ))
            &&& author && !platform ==> (res matches Err(error) && is_text_error(
                error,
                "platform"@,
                globals.platform,
            ))
            &&& platform && !architecture ==> (res matches Err(error) && is_list_error(
                error,
                "architecture"@,
                globals.architecture,
            ))
            &&& architecture && !signatures ==> (res matches Err(error) && says(
                error,
                ErrorKind::Load,
                globals.signatures->Err_0@,
            ))
            &&& signatures && !types ==> (res matches Err(error) && says(
                error,
                ErrorKind::Load,
                globals.types->Err_0@,
            ))
            &&& types && !named ==> (res matches Err(error) && says(
                error,
                ErrorKind::Load,
                globals.extensions->Err_0@,
            ))
            &&& named && !extensions ==> (res matches Err(error) && error
                == globals.resolved->Err_0@)
            &&& extensions && !scopes ==> (res matches Err(error) && is_list_error(
                error,
                "scopes"@,
                globals.scopes,
            ))
            &&& scopes && !conditions ==> (res matches Err(error) && says(
                error,
                ErrorKind::Load,
                globals.conditions->Err_0@,
            ))
        }),
{
    let errors = global_errors(globals);
    let sound = sound_globals(globals);
    lemma_sound_before(errors, 0);
    lemma_first_is_wrong(errors, 0);
    assert(errors.len() == 9);
    assert forall|k: int| 0 <= k < sound implies (#[trigger] errors[k]) is None by {}
}

proof fn lemma_first_is_wrong(errors: Seq<Option<ErrorView>>, at: int)
    requires
        0 <= at <= errors.len(),
    ensures
        at <= first_error(errors, at) <= errors.len(),
        first_error(errors, at) < errors.len() ==> errors[first_error(errors, at)] is Some,
    decreases errors.len() - at,
{
    if at < errors.len() && errors[at] is None {
        lemma_first_is_wrong(errors, at + 1);
    }
}

/// Whether `read` can be what `text` reads of the global `key` of `vm`.
pub open spec fn reads<N: Fn(&Lua, &str) -> Read<String>>(
    text: N,
    vm: &Lua,
    key: Seq<char>,
    read: Read<String>,
) -> bool {
    exists|name: &str| name@ == key && #[trigger] call_ensures(text, (vm, name), read)
}

/// Each global is read from the state, by its own reader and under its own name, one after the
/// other, as long as nothing is wrong with those before it.
pub proof fn law_globals_are_read_from_the_state<N, A, S, Y, X, P, C, D>(
    decoders: Decoders<N, A, S, Y, X, P, C, D>,
    vm: &Lua,
    globals: Globals,
) where
    N: Fn(&Lua, &str) -> Read<String>,
    A: FnOnce(&Lua) -> Read<OneOrMany<CheckerArch>>,
    S: FnOnce(&Lua) -> Read<OneOrMany<SignatureEntry>>,
    Y: FnOnce(&Lua) -> Read<String>,
    X: FnOnce(&Lua) -> Read<OneOrMany<String>>,
    P: Fn(&str) -> Option<CheckerExtensions>,
    C: FnOnce(&Lua) -> Read<OneOrMany<CheckScope>>,
    D: FnOnce(&Lua) -> Read<CheckScopeProjectData>,

    requires
        decoders.can_read(vm, globals),
    ensures
        ({
            let name = globals.name matches Ok(Some(_));
            let author = name && globals.author matches Ok(Some(_));
            let platform = author && globals.platform matches Ok(Some(_));
            let architecture = platform && is_given(globals.architecture);
            let signatures = architecture && globals.signatures is Ok;
            let types = signatures && globals.types is Ok;
            let named = types && globals.extensions is Ok;
            let extensions = named && globals.resolved is Ok;
            let scopes = extensions && is_given(globals.scopes);
            &&& reads(decoders.text, vm, "name"@, globals.name)
            &&& name ==> reads(decoders.text, vm, "author"@, globals.author)
            &&& author ==> reads(decoders.text, vm, "platform"@, globals.platform)
            &&& platform ==> call_ensures(decoders.architecture, (vm,), globals.architecture)
            &&& architecture ==> call_ensures(decoders.signatures, (vm,), globals.signatures)
            &&& signatures ==> call_ensures(decoders.types, (vm,), globals.types)
            &&& types ==> call_ensures(decoders.extensions, (vm,), globals.extensions)
            &&& named ==> {
                let names = match globals.extensions {
                    Ok(Some(OneOrMany::One(name))) => seq![name],
                    Ok(Some(OneOrMany::Many(names))) => names@,
                    _ => Seq::empty(),
                };
                resolves(decoders.extension, names, globals.resolved)
            }
            &&& extensions ==> call_ensures(decoders.scopes, (vm,), globals.scopes)
            &&& scopes ==> call_ensures(decoders.conditions, (vm,), globals.conditions)
        }),
{
    let errors = global_errors(globals);
    let sound = sound_globals(globals);
    lemma_sound_before(errors, 0);
    lemma_first_is_wrong(errors, 0);
    assert(errors.len() == 9);
    assert forall|k: int| 0 <= k < sound implies (#[trigger] errors[k]) is None by {}
    if sound >= 6 && globals.extensions is Ok {
        let given = optional_items(globals.extensions);
        law_extensions_are_those_named(decoders.extension, given, globals.resolved);
        let names = match globals.extensions {
            Ok(Some(OneOrMany::One(name))) => seq![name],
            Ok(Some(OneOrMany::Many(names))) => names@,
            _ => Seq::empty(),
        };
        assert(given =~= names);
    }
}

/// Whether `loud` is `text` with the letters `a` to `z` as `A` to `Z`, and everything else as it is.
pub open spec fn is_loud(text: Seq<char>, loud: Seq<char>) -> bool {
    &&& loud.len() == text.len()
    &&& forall|i: int|
        0 <= i < text.len() ==> if 97 <= (#[trigger] text[i]) as int <= 122 {
            loud[i] as int == text[i] as int - 32
        } else {
            loud[i] == text[i]
        }
}

/// Whether `parse` can give `part` for `name` in upper case.
pub open spec fn may_parse<P: Fn(&str) -> Option<CheckerExtensions>>(
    parse: P,
    name: Seq<char>,
    part: Option<CheckerExtensions>,
) -> bool {
    exists|loud: &str| is_loud(name, loud@) && #[trigger] call_ensures(parse, (loud,), part)
}

/// Whether `parse` can take `name` in upper case for some extensions.
pub open spec fn has_meaning<P: Fn(&str) -> Option<CheckerExtensions>>(
    parse: P,
    name: Seq<char>,
) -> bool {
    exists|part: CheckerExtensions| #[trigger] may_parse(parse, name, Some(part))
}

/// Whether `res` can come of the names `names` that `parse` reads: if each has a meaning, the
/// extensions that one of them stands for, bit by bit; else an error that quotes the first that has
/// none, in upper case.
pub open spec fn resolves<P: Fn(&str) -> Option<CheckerExtensions>>(
    parse: P,
    names: Seq<String>,
    res: Result<CheckerExtensions, CheckerError>,
) -> bool {
    match res {
        Ok(extensions) => exists|parts: Seq<CheckerExtensions>|
            {
                &&& parts.len() == names.len()
                &&& forall|i: int|
                    0 <= i < names.len() ==> may_parse(parse, names[i]@, Some(#[trigger] parts[i]))
                &&& #[trigger] is_union(parts, extensions)
            },
        Err(error) => exists|k: int, loud: Seq<char>|
            {
                &&& 0 <= k < names.len()
                &&& #[trigger] is_loud(names[k]@, loud)
                &&& may_parse(parse, names[k]@, None)
                &&& forall|i: int| 0 <= i < k ==> has_meaning(parse, (#[trigger] names[i])@)
                &&& says(
                    error@,
                    ErrorKind::Malformed,
                    "unsupported language extension `"@ + loud + "`"@,
                )
            },
    }
}

/// Whether `whole` holds exactly the bits that one of `parts` holds.
pub open spec fn is_union(parts: Seq<CheckerExtensions>, whole: CheckerExtensions) -> bool {
    forall|bit: u8|
        bit < 8 ==> ((#[trigger] (whole.bits >> bit)) % 2 == 1 <==> exists|i: int|
            0 <= i < parts.len() && ((#[trigger] parts[i]).bits >> bit) % 2 == 1)
}

/// The union of some extensions holds exactly the bits that one of them holds.
pub proof fn law_union_is_bit_by_bit(parts: Seq<CheckerExtensions>)
    ensures
        is_union(parts, union_of(parts)),
    decreases parts.len(),
{
    if parts.len() == 0 {
        assert forall|bit: u8| bit < 8 implies (#[trigger] (union_of(parts).bits >> bit)) % 2
            != 1 by {
            assert((0u8 >> bit) % 2 != 1) by (bit_vector);
        }
    } else {
        let before = parts.drop_last();
        let a = union_of(before).bits;
        let b = parts.last().bits;
        let whole = union_of(parts);
        law_union_is_bit_by_bit(before);
        assert forall|bit: u8| bit < 8 implies ((#[trigger] (whole.bits >> bit)) % 2 == 1
            <==> exists|i: int|
            0 <= i < parts.len() && ((#[trigger] parts[i]).bits >> bit) % 2 == 1) by {
            assert(((a | b) >> bit) % 2 == 1 <==> ((a >> bit) % 2 == 1 || (b >> bit) % 2 == 1))
                by (bit_vector)
                requires
                    bit < 8,
            ;
            assert(whole.bits == a | b);
            assert((union_of(before).bits >> bit) % 2 == 1 <==> exists|i: int|
                0 <= i < before.len() && ((#[trigger] before[i]).bits >> bit) % 2 == 1);
            if (a >> bit) % 2 == 1 {
                let i = choose|i: int|
                    0 <= i < before.len() && ((#[trigger] before[i]).bits >> bit) % 2 == 1;
                assert(parts[i] == before[i]);
            }
            if (b >> bit) % 2 == 1 {
                assert(parts[parts.len() - 1] == parts.last());
            }
            if exists|i: int|
                0 <= i < parts.len() && ((#[trigger] parts[i]).bits >> bit) % 2 == 1 {
                let i = choose|i: int|
                    0 <= i < parts.len() && ((#[trigger] parts[i]).bits >> bit) % 2 == 1;
                if i < before.len() {
                    assert(before[i] == parts[i]);
                }
            }
        }
    }
}

proof fn lemma_is_loud(text: Seq<char>)
    ensures
        is_loud(text, ascii_uppercase(text)),
{
    let loud = ascii_uppercase(text);
    assert forall|i: int| 0 <= i < text.len() implies if 97 <= (#[trigger] text[i]) as int <= 122 {
        loud[i] as int == text[i] as int - 32
    } else {
        loud[i] == text[i]
    } by {
        assert('a' as int == 97 && 'z' as int == 122);
    }
}

proof fn lemma_may_parse<P: Fn(&str) -> Option<CheckerExtensions>>(
    parse: P,
    name: Seq<char>,
    part: Option<CheckerExtensions>,
)
    requires
        parses(parse, ascii_uppercase(name), part),
    ensures
        may_parse(parse, name, part),
{
    lemma_is_loud(name);
    let text = choose|text: &str|
        text@ == ascii_uppercase(name) && #[trigger] call_ensures(parse, (text,), part);
    assert(is_loud(name, text@));
}

/// The extensions of a rule are those that its names stand for, in upper case; a name without a
/// meaning is an error.
pub proof fn law_extensions_are_those_named<P: Fn(&str) -> Option<CheckerExtensions>>(
    parse: P,
    names: Seq<String>,
    res: Result<CheckerExtensions, CheckerError>,
)
    requires
        extensions_resolved(parse, texts_of(names), res),
    ensures
        resolves(parse, names, res),
{
    let texts = texts_of(names);
    match res {
        Ok(extensions) => {
            let parts = choose|parts: Seq<CheckerExtensions>|
                {
                    &&& parts.len() == texts.len()
                    &&& forall|i: int|
                        0 <= i < parts.len() ==> parses(
                            parse,
                            ascii_uppercase(texts[i]),
                            Some(#[trigger] parts[i]),
                        )
                    &&& extensions == #[trigger] union_of(parts)
                };
            law_union_is_bit_by_bit(parts);
            assert forall|i: int| 0 <= i < names.len() implies may_parse(
                parse,
                names[i]@,
                Some(#[trigger] parts[i]),
            ) by {
                lemma_may_parse(parse, texts[i], Some(parts[i]));
            }
        },
        Err(error) => {
            let k = choose|k: int|
                #[trigger] first_unsupported(parse, texts, k) && error@ == unsupported_extension(
                    ascii_uppercase(texts[k]),
                );
            let loud = ascii_uppercase(texts[k]);
            lemma_is_loud(texts[k]);
            lemma_may_parse(parse, texts[k], None);
            assert forall|i: int| 0 <= i < k implies has_meaning(
                parse,
                (#[trigger] names[i])@,
            ) by {
                assert(is_readable(parse, ascii_uppercase(texts[i])));
                let part = choose|part: CheckerExtensions| #[trigger]
                    parses(parse, ascii_uppercase(texts[i]), Some(part));
                lemma_may_parse(parse, texts[i], Some(part));
                assert(may_parse(parse, names[i]@, Some(part)));
            }
            assert(is_loud(names[k]@, loud));
        },
    }
}

/// A checker that was loaded holds what the globals of the state were read as, each by its own
/// reader: nothing is left out or made up, whatever the other globals are.
pub proof fn law_loaded_checkers_hold_the_globals<N, A, S, Y, X, P, C, D>(
    decoders: Decoders<N, A, S, Y, X, P, C, D>,
    vm: &Lua,
    code: Seq<u8>,
    checker: Checker,
) where
    N: Fn(&Lua, &str) -> Read<String>,
    A: FnOnce(&Lua) -> Read<OneOrMany<CheckerArch>>,
    S: FnOnce(&Lua) -> Read<OneOrMany<SignatureEntry>>,
    Y: FnOnce(&Lua) -> Read<String>,
    X: FnOnce(&Lua) -> Read<OneOrMany<String>>,
    P: Fn(&str) -> Option<CheckerExtensions>,
    C: FnOnce(&Lua) -> Read<OneOrMany<CheckScope>>,
    D: FnOnce(&Lua) -> Read<CheckScopeProjectData>,

    requires
        decoders.can_load(vm, code, Ok(checker)),
    ensures
        exists|text: String| #[trigger]
            reads(decoders.text, vm, "name"@, Ok(Some(text))) && checker@.name == text@,
        exists|text: String| #[trigger]
            reads(decoders.text, vm, "author"@, Ok(Some(text))) && checker@.author == text@,
        exists|text: String| #[trigger]
            reads(decoders.text, vm, "platform"@, Ok(Some(text))) && checker@.platform == text@,
        exists|list: OneOrMany<CheckerArch>| #[trigger]
            has_arches(checker@, list) && call_ensures(
                decoders.architecture,
                (vm,),
                Ok(Some(list)),
            ),
        exists|list: Option<OneOrMany<SignatureEntry>>| #[trigger]
            has_signatures(checker@, list) && call_ensures(decoders.signatures, (vm,), Ok(list)),
        exists|read: Read<String>| #[trigger]
            call_ensures(decoders.types, (vm,), read) && (read matches Ok(types) && checker@.types
                == (match types {
                Some(text) => Some(text@),
                None => None,
            })),
        exists|list: OneOrMany<CheckScope>| #[trigger]
            has_scopes(checker@, list) && call_ensures(decoders.scopes, (vm,), Ok(Some(list))),
        exists|read: Read<CheckScopeProjectData>| #[trigger]
            call_ensures(decoders.conditions, (vm,), read) && (read matches Ok(conditions)
                && checker@.conditions.handle == (match conditions {
                Some(conditions) => conditions.handle,
                None => None,
            })),
        exists|names: Seq<String>, read: Read<OneOrMany<String>>| #[trigger]
            call_ensures(decoders.extensions, (vm,), read) && #[trigger] resolves(
                decoders.extension,
                names,
                Ok(checker@.extensions),
            ) && match read {
                Ok(Some(list)) => holds(list, names),
                Ok(None) => names.len() == 0,
                Err(_) => false,
            },
        checker@.code == code,
        forall|architecture: u64| !checker@.tags.contains_key(architecture),
{
    let globals = choose|globals: Globals| #[trigger]
        decoders.can_read(vm, globals) && is_outcome(Ok(checker), checker_of(code, globals));
    law_checkers_hold_what_was_read(code, globals, checker@);
    law_rules_are_refused_for_the_first_error(code, globals);
    law_globals_are_read_from_the_state(decoders, vm, globals);
    assert(reads(decoders.text, vm, "name"@, Ok(Some(globals.name->Ok_0->0))));
    assert(reads(decoders.text, vm, "author"@, Ok(Some(globals.author->Ok_0->0))));
    assert(reads(decoders.text, vm, "platform"@, Ok(Some(globals.platform->Ok_0->0))));
    assert(globals.architecture == Ok::<Option<OneOrMany<CheckerArch>>, String>(
        Some(globals.architecture->Ok_0->0),
    ));
    assert(globals.scopes == Ok::<Option<OneOrMany<CheckScope>>, String>(
        Some(globals.scopes->Ok_0->0),
    ));
    assert(globals.signatures == Ok::<Option<OneOrMany<SignatureEntry>>, String>(
        globals.signatures->Ok_0,
    ));
    let names = match globals.extensions {
        Ok(Some(OneOrMany::One(name))) => seq![name],
        Ok(Some(OneOrMany::Many(names))) => names@,
        _ => Seq::empty(),
    };
    assert(call_ensures(decoders.extensions, (vm,), globals.extensions));
    assert(resolves(decoders.extension, names, Ok(checker@.extensions)));
    assert(call_ensures(decoders.types, (vm,), globals.types));
    assert(call_ensures(decoders.conditions, (vm,), globals.conditions));
}

/// Loading fails only for what is wrong with a global that was read from the state.
pub proof fn law_loading_fails_for_a_global<N, A, S, Y, X, P, C, D>(
    decoders: Decoders<N, A, S, Y, X, P, C, D>,
    vm: &Lua,
    code: Seq<u8>,
    error: CheckerError,
) where
    N: Fn(&Lua, &str) -> Read<String>,
    A: FnOnce(&Lua) -> Read<OneOrMany<CheckerArch>>,
    S: FnOnce(&Lua) -> Read<OneOrMany<SignatureEntry>>,
    Y: FnOnce(&Lua) -> Read<String>,
    X: FnOnce(&Lua) -> Read<OneOrMany<String>>,
    P: Fn(&str) -> Option<CheckerExtensions>,
    C: FnOnce(&Lua) -> Read<OneOrMany<CheckScope>>,
    D: FnOnce(&Lua) -> Read<CheckScopeProjectData>,

    requires
        decoders.can_load(vm, code, Err(error)),
    ensures
        exists|globals: Globals|
            {
                &&& #[trigger] decoders.can_read(vm, globals)
                &&& {
                    ||| is_text_error(error@, "name"@, globals.name)
                    ||| is_text_error(error@, "author"@, globals.author)
                    ||| is_text_error(error@, "platform"@, globals.platform)
                    ||| is_list_error(error@, "architecture"@, globals.architecture)
                    ||| globals.signatures matches Err(text) && says(
                        error@,
                        ErrorKind::Load,
                        text@,
                    )
                    ||| globals.types matches Err(text) && says(error@, ErrorKind::Load, text@)
                    ||| globals.extensions matches Err(text) && says(
                        error@,
                        ErrorKind::Load,
                        text@,
                    )
                    ||| globals.resolved matches Err(unknown) && error@ == unknown@
                    ||| is_list_error(error@, "scopes"@, globals.scopes)
                    ||| globals.conditions matches Err(text) && says(
                        error@,
                        ErrorKind::Load,
                        text@,
                    )
                }
            },
{
    let globals = choose|globals: Globals| #[trigger]
        decoders.can_read(vm, globals) && is_outcome(
            Err::<Checker, CheckerError>(error),
            checker_of(code, globals),
        );
    law_rules_are_refused_for_the_first_error(code, globals);
}

} // verus!
