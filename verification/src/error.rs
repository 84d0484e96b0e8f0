//! What can be wrong with a query.

use vstd::prelude::*;

verus! {

/// What is wrong with a query.
#[derive(Debug, Clone, PartialEq, Eq)]
pub enum QueryError {
    /// Nothing searchable in the query.
    Empty,
    UnbalancedParens,
    /// A negation with nothing positive to subtract from (`-foo`, `a OR -b`).
    UnboundedNegation,
    /// A `*` / `~` pattern that isn't exactly one term.
    BadPattern(String),
    /// Anything else malformed, described.
    Syntax(String),
}

} // verus!
