//! The failures of the engine.

use vstd::prelude::*;

verus! {

/// The ways in which reading or solving a rule file can fail.
#[derive(Copy, Clone, Debug, PartialEq, Eq, Structural)]
pub enum Error {
    /// A line is not part of the rule language.
    ParseError,
    /// The named fact was declared true twice, or queried twice.
    DuplicateDeclaration(char),
    /// The file has no line of initial facts.
    MissingInitialFacts,
    /// The file asks for no fact.
    MissingQueries,
    /// The named fact is needed to justify itself.
    CircularDependency(char),
    /// The rules for the named fact assert both `true` and `false`.
    Contradiction(char),
    /// A token sequence handed to the tree builder is not in postfix form.
    MalformedExpression,
}

} // verus!
