//! The failures that the library reports.

use vstd::prelude::*;

verus! {

/// Why a text could not be split into tokens.
#[derive(Clone, Copy, Debug, PartialEq, Eq, Structural)]
pub enum SyntaxError {
    /// The character at `position`, counted in characters from the start of
    /// the text, cannot start a token where it stands.
    UnexpectedCharacter { position: usize },
    /// A closing bracket stands where no bracket is open, or a table header
    /// lacks its closing bracket.
    UnbalancedBracket,
    /// A quoted string is still open at the end of the text.
    UnterminatedString,
}

/// Why an operation on a document failed.
#[derive(Clone, Copy, Debug, PartialEq, Eq, Structural)]
pub enum ErrorKind {
    /// No table of the document has the key that was asked for.
    TableNotFound,
    /// A key path is malformed, a token is no key, or a path cannot be used
    /// where it was given.
    InvalidKeyPathSyntax,
    /// A text could not be read; the inner value says why.
    Syntax(SyntaxError),
}

} // verus!
