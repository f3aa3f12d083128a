//! Stable diagnostics emitted by policy evaluation.

use vstd::prelude::*;

verus! {

/// A policy violation with a stable machine-readable code.
#[derive(Debug, Clone, PartialEq, Eq)]
pub struct Violation {
    /// Stable diagnostic code.
    pub code: &'static str,
    /// Package associated with the violation.
    pub crate_name: String,
    /// Human-readable explanation.
    pub message: String,
    /// Approved exception suppressing this violation, when present.
    pub exception_id: Option<String>,
}

/// The contents of a violation as plain values: code, package, message and
/// exception.
pub type ViolationView = (Seq<char>, Seq<char>, Seq<char>, Option<Seq<char>>);

impl View for Violation {
    type V = ViolationView;

    open spec fn view(&self) -> ViolationView {
        (
            self.code@,
            self.crate_name@,
            self.message@,
            match self.exception_id {
                Some(id) => Some(id@),
                None => None,
            },
        )
    }
}

/// The view of a violation that carries no exception.
pub open spec fn plain_violation(code: Seq<char>, crate_name: Seq<char>, message: Seq<char>) -> ViolationView {
    (code, crate_name, message, None)
}

/// The views of a sequence of violations.
pub open spec fn violation_views(violations: Seq<Violation>) -> Seq<ViolationView> {
    violations.map_values(|v: Violation| v@)
}

} // verus!
