//! What can go wrong while a checker is loaded or run.
use vstd::prelude::*;
use vstd::string::*;

verus! {

/// An error of a checker: what failed, and the text that describes it.
#[derive(Debug)]
pub enum CheckerError {
    Decompiler(String),
    Io(String),
    Load(String),
    Malformed(String),
    MalformedCondition(String),
    ModuleLoader(String),
    Pattern(String),
    Preprocess(String),
    Run(String),
    Signatures(String),
    SignatureArch(String),
    SignaturePathFormat(String),
    SignatureVersionFormat(String),
    Types(String),
    FunctionQuery(String),
}

/// The variant of a [`CheckerError`], without its text.
#[derive(Debug, Clone, Copy, PartialEq, Eq, Structural)]
pub enum ErrorKind {
    Decompiler,
    Io,
    Load,
    Malformed,
    MalformedCondition,
    ModuleLoader,
    Pattern,
    Preprocess,
    Run,
    Signatures,
    SignatureArch,
    SignaturePathFormat,
    SignatureVersionFormat,
    Types,
    FunctionQuery,
}

/// A [`CheckerError`] as contracts see it.
pub struct ErrorView {
    pub kind: ErrorKind,
    pub text: Seq<char>,
}

/// The error of kind `kind` that says `text`.
pub open spec fn error_of(kind: ErrorKind, text: Seq<char>) -> ErrorView {
    ErrorView { kind, text }
}

/// What stands in front of an error's own text when it is shown to a user.
pub open spec fn prefix_of(kind: ErrorKind) -> Seq<char> {
    match kind {
        ErrorKind::Decompiler => Seq::empty(),
        ErrorKind::Io => "cannot load checker: "@,
        ErrorKind::Load => "cannot parse and load checker: "@,
        ErrorKind::Malformed => "malformed rule: "@,
        ErrorKind::MalformedCondition => "malformed condition: "@,
        ErrorKind::ModuleLoader => "cannot register module loader: "@,
        ErrorKind::Pattern => "cannot parse pattern: "@,
        ErrorKind::Preprocess => "cannot preprocess rule: "@,
        ErrorKind::Run => "cannot run checker: "@,
        ErrorKind::Signatures => "cannot load required signatures: "@,
        ErrorKind::SignatureArch => "cannot parse signature path, invalid signature arch: "@,
        ErrorKind::SignaturePathFormat => "cannot parse signature path, invalid signature path: "@,
        ErrorKind::SignatureVersionFormat => "cannot parse signature versions: "@,
        ErrorKind::Types => "cannot load required type database: "@,
        ErrorKind::FunctionQuery => "invalid query: "@,
    }
}

impl View for CheckerError {
    type V = ErrorView;

    open spec fn view(&self) -> ErrorView {
        match self {
            CheckerError::Decompiler(text) => error_of(ErrorKind::Decompiler, text@),
            CheckerError::Io(text) => error_of(ErrorKind::Io, text@),
            CheckerError::Load(text) => error_of(ErrorKind::Load, text@),
            CheckerError::Malformed(text) => error_of(ErrorKind::Malformed, text@),
            CheckerError::MalformedCondition(text) => error_of(
                ErrorKind::MalformedCondition,
                text@,
            ),
            CheckerError::ModuleLoader(text) => error_of(ErrorKind::ModuleLoader, text@),
            CheckerError::Pattern(text) => error_of(ErrorKind::Pattern, text@),
            CheckerError::Preprocess(text) => error_of(ErrorKind::Preprocess, text@),
            CheckerError::Run(text) => error_of(ErrorKind::Run, text@),
            CheckerError::Signatures(text) => error_of(ErrorKind::Signatures, text@),
            CheckerError::SignatureArch(text) => error_of(ErrorKind::SignatureArch, text@),
            CheckerError::SignaturePathFormat(text) => error_of(
                ErrorKind::SignaturePathFormat,
                text@,
            ),
            CheckerError::SignatureVersionFormat(text) => error_of(
                ErrorKind::SignatureVersionFormat,
                text@,
            ),
            CheckerError::Types(text) => error_of(ErrorKind::Types, text@),
            CheckerError::FunctionQuery(text) => error_of(ErrorKind::FunctionQuery, text@),
        }
    }
}

/// An error keeps the text that it was made with, and is shown behind words of its own kind that say
/// what could not be done; an error of the decompiler is shown as it is.
pub proof fn law_errors_say_what_could_not_be_done(error: CheckerError)
    ensures
        error matches CheckerError::Decompiler(text) ==> {
            &&& error@.kind == ErrorKind::Decompiler
            &&& error@.text == text@
            &&& prefix_of(error@.kind) == Seq::<char>::empty()
        },
        error matches CheckerError::Io(text) ==> {
            &&& error@.kind == ErrorKind::Io
            &&& error@.text == text@
            &&& prefix_of(error@.kind) == "cannot load checker: "@
        },
        error matches CheckerError::Load(text) ==> {
            &&& error@.kind == ErrorKind::Load
            &&& error@.text == text@
            &&& prefix_of(error@.kind) == "cannot parse and load checker: "@
        },
        error matches CheckerError::Malformed(text) ==> {
            &&& error@.kind == ErrorKind::Malformed
            &&& error@.text == text@
            &&& prefix_of(error@.kind) == "malformed rule: "@
        },
        error matches CheckerError::MalformedCondition(text) ==> {
            &&& error@.kind == ErrorKind::MalformedCondition
            &&& error@.text == text@
            &&& prefix_of(error@.kind) == "malformed condition: "@
        },
        error matches CheckerError::ModuleLoader(text) ==> {
            &&& error@.kind == ErrorKind::ModuleLoader
            &&& error@.text == text@
            &&& prefix_of(error@.kind) == "cannot register module loader: "@
        },
        error matches CheckerError::Pattern(text) ==> {
            &&& error@.kind == ErrorKind::Pattern
            &&& error@.text == text@
            &&& prefix_of(error@.kind) == "cannot parse pattern: "@
        },
        error matches CheckerError::Preprocess(text) ==> {
            &&& error@.kind == ErrorKind::Preprocess
            &&& error@.text == text@
            &&& prefix_of(error@.kind) == "cannot preprocess rule: "@
        },
        error matches CheckerError::Run(text) ==> {
            &&& error@.kind == ErrorKind::Run
            &&& error@.text == text@
            &&& prefix_of(error@.kind) == "cannot run checker: "@
        },
        error matches CheckerError::Signatures(text) ==> {
            &&& error@.kind == ErrorKind::Signatures
            &&& error@.text == text@
            &&& prefix_of(error@.kind) == "cannot load required signatures: "@
        },
        error matches CheckerError::SignatureArch(text) ==> {
            &&& error@.kind == ErrorKind::SignatureArch
            &&& error@.text == text@
            &&& prefix_of(error@.kind) == "cannot parse signature path, invalid signature arch: "@
        },
        error matches CheckerError::SignaturePathFormat(text) ==> {
            &&& error@.kind == ErrorKind::SignaturePathFormat
            &&& error@.text == text@
            &&& prefix_of(error@.kind) == "cannot parse signature path, invalid signature path: "@
        },
        error matches CheckerError::SignatureVersionFormat(text) ==> {
            &&& error@.kind == ErrorKind::SignatureVersionFormat
            &&& error@.text == text@
            &&& prefix_of(error@.kind) == "cannot parse signature versions: "@
        },
        error matches CheckerError::Types(text) ==> {
            &&& error@.kind == ErrorKind::Types
            &&& error@.text == text@
            &&& prefix_of(error@.kind) == "cannot load required type database: "@
        },
        error matches CheckerError::FunctionQuery(text) ==> {
            &&& error@.kind == ErrorKind::FunctionQuery
            &&& error@.text == text@
            &&& prefix_of(error@.kind) == "invalid query: "@
        },
{
}

/// `prefix` followed by `text`.
fn prefixed(prefix: &str, text: &String) -> (res: String)
    ensures
        res@ == prefix@ + text@,
{
    let mut res = prefix.to_string();
    res.append(text.as_str());
    res
}

impl CheckerError {
    /// The decompiler failed with `e`.
    pub fn decompiler<E: core::fmt::Display>(e: E) -> (res: Self)
        ensures
            res matches CheckerError::Decompiler(text) && to_string_from_display_ensures::<E>(
                &e,
                text,
            ),
    {
        CheckerError::Decompiler(e.to_string())
    }

    /// The decompiler failed, described by `msg`.
    pub fn decompiler_with(msg: String) -> (res: Self)
        ensures
            res@ == error_of(ErrorKind::Decompiler, msg@),
    {
        CheckerError::Decompiler(msg)
    }

    /// A rule is malformed because of `e`.
    pub fn malformed<E: core::fmt::Display>(e: E) -> (res: Self)
        ensures
            res matches CheckerError::Malformed(text) && to_string_from_display_ensures::<E>(
                &e,
                text,
            ),
    {
        CheckerError::Malformed(e.to_string())
    }

    /// A rule is malformed, described by `msg`.
    pub fn malformed_with(msg: String) -> (res: Self)
        ensures
            res@ == error_of(ErrorKind::Malformed, msg@),
    {
        CheckerError::Malformed(msg)
    }

    /// A condition is malformed because of `e`.
    pub fn malformed_condition<E: core::fmt::Display>(e: E) -> (res: Self)
        ensures
            res matches CheckerError::MalformedCondition(text) && to_string_from_display_ensures::<
                E,
            >(&e, text),
    {
        CheckerError::MalformedCondition(e.to_string())
    }

    /// A condition is malformed, described by `msg`.
    pub fn malformed_condition_with(msg: String) -> (res: Self)
        ensures
            res@ == error_of(ErrorKind::MalformedCondition, msg@),
    {
        CheckerError::MalformedCondition(msg)
    }

    /// The error as it is shown to a user.
    pub fn message(&self) -> (res: String)
        ensures
            res@ == prefix_of(self@.kind) + self@.text,
    {
        let res = match self {
            CheckerError::Decompiler(text) => prefixed("", text),
            CheckerError::Io(text) => prefixed("cannot load checker: ", text),
            CheckerError::Load(text) => prefixed("cannot parse and load checker: ", text),
            CheckerError::Malformed(text) => prefixed("malformed rule: ", text),
            CheckerError::MalformedCondition(text) => prefixed("malformed condition: ", text),
            CheckerError::ModuleLoader(text) => prefixed("cannot register module loader: ", text),
            CheckerError::Pattern(text) => prefixed("cannot parse pattern: ", text),
            CheckerError::Preprocess(text) => prefixed("cannot preprocess rule: ", text),
            CheckerError::Run(text) => prefixed("cannot run checker: ", text),
            CheckerError::Signatures(text) => prefixed("cannot load required signatures: ", text),
            CheckerError::SignatureArch(text) => prefixed(
                "cannot parse signature path, invalid signature arch: ",
                text,
            ),
            CheckerError::SignaturePathFormat(text) => prefixed(
                "cannot parse signature path, invalid signature path: ",
                text,
            ),
            CheckerError::SignatureVersionFormat(text) => prefixed(
                "cannot parse signature versions: ",
                text,
            ),
            CheckerError::Types(text) => prefixed("cannot load required type database: ", text),
            CheckerError::FunctionQuery(text) => prefixed("invalid query: ", text),
        };
        proof {
            reveal_strlit("");
            assert(""@ =~= Seq::<char>::empty());
        }
        res
    }
}

} // verus!
