//! Language extensions that a rule may ask for.
use vstd::prelude::*;
use vstd::string::*;

use crate::error::{CheckerError, ErrorKind, ErrorView, error_of};

verus! {

/// The bit of the decompiler extension, named `DECOMPILER` in rules.
pub const DECOMPILER: u8 = 0b0000_0001;

/// A set of language extensions, one bit each.
#[derive(Debug, Clone, Copy, PartialEq, Eq, PartialOrd, Ord, Hash, Structural)]
pub struct CheckerExtensions {
    pub bits: u8,
}

/// The texts of `list`.
pub open spec fn texts_of(list: Seq<String>) -> Seq<Seq<char>> {
    list.map_values(|text: String| text@)
}

/// Whether every extension of `part` is in `whole`.
pub open spec fn includes(whole: u8, part: u8) -> bool {
    whole & part == part
}

/// All extensions that one of `parts` holds.
pub open spec fn union_of(parts: Seq<CheckerExtensions>) -> CheckerExtensions
    decreases parts.len(),
{
    if parts.len() == 0 {
        CheckerExtensions { bits: 0 }
    } else {
        CheckerExtensions { bits: union_of(parts.drop_last()).bits | parts.last().bits }
    }
}

/// `text` with the letters `a` to `z` in upper case and every other character as it is.
pub open spec fn ascii_uppercase(text: Seq<char>) -> Seq<char> {
    text.map_values(
        |c: char|
            if 'a' <= c && c <= 'z' {
                ((c as u32) - 32) as char
            } else {
                c
            },
    )
}

/// The error for a rule that asks for an extension spelled `name`, which is not one.
pub open spec fn unsupported_extension(name: Seq<char>) -> ErrorView {
    error_of(ErrorKind::Malformed, "unsupported language extension `"@ + name + "`"@)
}

/// Whether `out` is an answer that `parse` can give for the text `name`.
pub open spec fn parses<F: Fn(&str) -> Option<CheckerExtensions>>(
    parse: F,
    name: Seq<char>,
    out: Option<CheckerExtensions>,
) -> bool {
    exists|text: &str| text@ == name && #[trigger] call_ensures(parse, (text,), out)
}

/// Whether `parse` can take the text `name` for some extensions.
pub open spec fn is_readable<F: Fn(&str) -> Option<CheckerExtensions>>(
    parse: F,
    name: Seq<char>,
) -> bool {
    exists|part: CheckerExtensions| #[trigger] parses(parse, name, Some(part))
}

/// Whether `parse` can read every one of `names` before the one at `k`, but not that one.
pub open spec fn first_unsupported<F: Fn(&str) -> Option<CheckerExtensions>>(
    parse: F,
    names: Seq<Seq<char>>,
    k: int,
) -> bool {
    &&& 0 <= k < names.len()
    &&& parses(parse, ascii_uppercase(names[k]), None)
    &&& forall|i: int| 0 <= i < k ==> is_readable(parse, ascii_uppercase(#[trigger] names[i]))
}

/// Whether `res` follows from the answers of `parse` for `names`, each in upper case: the union of
/// what they stand for, or an error that names the first one without a meaning.
pub open spec fn extensions_resolved<F: Fn(&str) -> Option<CheckerExtensions>>(
    parse: F,
    names: Seq<Seq<char>>,
    res: Result<CheckerExtensions, CheckerError>,
) -> bool {
    match res {
        Ok(extensions) => exists|parts: Seq<CheckerExtensions>|
            {
                &&& parts.len() == names.len()
                &&& forall|i: int|
                    0 <= i < parts.len() ==> parses(
                        parse,
                        ascii_uppercase(names[i]),
                        Some(#[trigger] parts[i]),
                    )
                &&& extensions == #[trigger] union_of(parts)
            },
        Err(error) => exists|k: int|
            #[trigger] first_unsupported(parse, names, k) && error@ == unsupported_extension(
                ascii_uppercase(names[k]),
            ),
    }
}

/// A checker needs the decompiler exactly if one of the extensions that it asks for does: neither the
/// order in which they are given matters, nor that one is given twice.
pub proof fn law_union_needs_decompiler(parts: Seq<CheckerExtensions>)
    ensures
        includes(union_of(parts).bits, DECOMPILER) <==> exists|i: int|
            0 <= i < parts.len() && includes((#[trigger] parts[i]).bits, DECOMPILER),
    decreases parts.len(),
{
    if parts.len() == 0 {
        assert(0u8 & 1u8 != 1u8) by (bit_vector);
    } else {
        let before = parts.drop_last();
        let a = union_of(before).bits;
        let b = parts.last().bits;
        law_union_needs_decompiler(before);
        assert((a | b) & 1u8 == 1u8 <==> (a & 1u8 == 1u8 || b & 1u8 == 1u8)) by (bit_vector);
        if includes(a, DECOMPILER) {
            let i = choose|i: int|
                0 <= i < before.len() && includes((#[trigger] before[i]).bits, DECOMPILER);
            assert(parts[i] == before[i]);
        }
        if includes(b, DECOMPILER) {
            assert(parts[parts.len() - 1] == parts.last());
        }
        if exists|i: int|
            0 <= i < parts.len() && includes((#[trigger] parts[i]).bits, DECOMPILER) {
            let i = choose|i: int|
                0 <= i < parts.len() && includes((#[trigger] parts[i]).bits, DECOMPILER);
            if i < before.len() {
                assert(before[i] == parts[i]);
            }
        }
    }
}

/// Calls `str::make_ascii_uppercase` of std. Claimed of it: the letters `a` to `z` become `A` to
/// `Z`, every other character stays.
#[verifier::external_body]
fn make_uppercase(text: &mut String)
    ensures
        final(text)@ == ascii_uppercase(old(text)@),
{
    text.make_ascii_uppercase()
}

impl CheckerExtensions {
    /// No extension.
    pub fn empty() -> (res: Self)
        ensures
            res.bits == 0,
    {
        CheckerExtensions { bits: 0 }
    }

    /// Whether every extension of `other` is in this set.
    pub fn contains(&self, other: CheckerExtensions) -> (res: bool)
        ensures
            res == includes(self.bits, other.bits),
    {
        self.bits & other.bits == other.bits
    }

    /// The extensions of this set and of `other`.
    pub fn union(self, other: CheckerExtensions) -> (res: Self)
        ensures
            res.bits == self.bits | other.bits,
    {
        CheckerExtensions { bits: self.bits | other.bits }
    }

    /// Whether a checker with these extensions needs the decompiler.
    pub fn requires_decompiler(&self) -> (res: bool)
        ensures
            res == includes(self.bits, DECOMPILER),
    {
        self.contains(CheckerExtensions { bits: DECOMPILER })
    }
}

/// The extensions that `names` ask for. `parse` reads one name, which it is handed in upper case.
pub fn resolve_names<F: Fn(&str) -> Option<CheckerExtensions>>(
    names: Vec<String>,
    parse: &F,
) -> (res: Result<CheckerExtensions, CheckerError>)
    requires
        forall|text: &str| call_requires(*parse, (text,)),
    ensures
        extensions_resolved(*parse, texts_of(names@), res),
{
    let ghost spelled = texts_of(names@);
    let ghost mut parts: Seq<CheckerExtensions> = Seq::empty();
    let mut acc = CheckerExtensions::empty();
    let mut i: usize = 0;
    while i < names.len()
        invariant
            i <= names.len(),
            spelled == texts_of(names@),
            forall|text: &str| call_requires(*parse, (text,)),
            parts.len() == i,
            forall|j: int|
                0 <= j < i ==> parses(
                    *parse,
                    ascii_uppercase(spelled[j]),
                    Some(#[trigger] parts[j]),
                ),
            acc == union_of(parts),
        decreases names.len() - i,
    {
        let mut name = names[i].clone();
        make_uppercase(&mut name);
        let parsed = parse(name.as_str());
        assert(parses(*parse, ascii_uppercase(spelled[i as int]), parsed));
        match parsed {
            Some(part) => {
                let ghost before = parts;
                proof {
                    parts = parts.push(part);
                    assert(parts.drop_last() =~= before);
                }
                acc = acc.union(part);
            },
            None => {
                let mut msg = "unsupported language extension `".to_string();
                msg.append(name.as_str());
                msg.append("`");
                assert forall|j: int| 0 <= j < i implies is_readable(
                    *parse,
                    ascii_uppercase(#[trigger] spelled[j]),
                ) by {
                    assert(parses(*parse, ascii_uppercase(spelled[j]), Some(parts[j])));
                }
                assert(first_unsupported(*parse, spelled, i as int));
                return Err(CheckerError::malformed_with(msg));
            },
        }
        i += 1;
    }
    Ok(acc)
}

} // verus!
