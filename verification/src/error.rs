//! The errors the library reports.

use vstd::prelude::*;

verus! {

/// Why a commit message was rejected by the conventional-commit parser.
#[derive(Debug, PartialEq, Eq, Structural, Clone, Copy)]
pub enum ParseIssue {
    /// The message holds no characters at all.
    EmptyMessage,
    /// The first line does not have the `type(scope)?!?: description` shape.
    InvalidHeader,
    /// A blank line announced a body, but nothing follows it.
    MissingBody,
    /// A footer separator stands at the very end, with no value after it.
    MissingFooterValue,
}

/// All possible library errors.
#[derive(Debug, PartialEq, Eq, Structural, Clone, Copy)]
pub enum Error {
    /// The commit does not adhere to the conventional-commit grammar.
    ConventionalCommit(ParseIssue),
    /// The commit message consists of whitespace only.
    MissingCommitMessage,
    /// A release marker's name is not a valid semantic version.
    SemVer,
}

} // verus!
