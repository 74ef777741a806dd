//! The ways in which an evaluation run can fail.

use vstd::prelude::*;

verus! {

/// Why a run was abandoned. Every failure is final: nothing is retried.
#[derive(Debug, Clone, Copy, PartialEq, Eq, Structural)]
pub enum Failure {
    /// The text is malformed: unbalanced delimiters, a `let` without its
    /// terminator, or an application of a name that has no visible binder.
    Syntax,
    /// A binder reuses a name that is still visible in the enclosing scope.
    Binding,
    /// No normal form was reached within the step budget.
    Divergence,
    /// The regex engine refused the pattern that recognises parameter lists.
    Pattern,
}

} // verus!
