//! What a handler reports.
use vstd::prelude::*;

verus! {

/// A finding of a checker.
#[derive(Debug, Clone, Copy, PartialEq, Eq, Structural)]
pub struct CheckResult {
    /// The checker that made the finding, by its place among the applied ones.
    pub rule: Option<usize>,
    /// The number under which the caller keeps what was found.
    pub finding: usize,
}

impl CheckResult {
    /// A finding that is not yet tied to a checker.
    pub fn new(finding: usize) -> (res: Self)
        ensures
            res == (CheckResult { rule: None, finding }),
    {
        CheckResult { rule: None, finding }
    }

    /// The same finding, tied to the checker `rule`.
    pub fn with_rule(self, rule: usize) -> (res: Self)
        ensures
            res == (CheckResult { rule: Some(rule), finding: self.finding }),
    {
        CheckResult { rule: Some(rule), finding: self.finding }
    }
}

} // verus!
