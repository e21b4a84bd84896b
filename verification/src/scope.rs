//! Where in a project a checker looks.
use vstd::prelude::*;

verus! {

/// What a scope ranges over.
#[derive(Debug, Clone, Copy, PartialEq, Eq, Structural)]
pub enum ScopeKind {
    /// The sites that call one of the functions that a query finds.
    Calls,
    /// The functions that a query finds or, without a query, all functions.
    FunctionWith { targeted: bool },
    /// The project as a whole.
    ProjectWith,
}

/// A scope of a checker and the handler that is run on what it finds.
#[derive(Debug, Clone)]
pub struct CheckScope {
    pub kind: ScopeKind,
    /// The number of the scope's query, annotations and filter: two scopes of one kind are the
    /// same exactly if their numbers are.
    pub id: u64,
    /// The name of the handler.
    pub with: String,
}

/// A [`CheckScope`] as contracts see it.
pub struct ScopeView {
    pub kind: ScopeKind,
    pub id: u64,
    pub with: Seq<char>,
}

impl View for CheckScope {
    type V = ScopeView;

    open spec fn view(&self) -> ScopeView {
        ScopeView { kind: self.kind, id: self.id, with: self.with@ }
    }
}

/// The scopes of `list` as contracts see them.
pub open spec fn scopes_of(list: Seq<CheckScope>) -> Seq<ScopeView> {
    list.map_values(|scope: CheckScope| scope@)
}

} // verus!
