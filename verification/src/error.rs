//! How a parse fails.

use vstd::prelude::*;

verus! {

/// Which expectation the input did not meet.
#[derive(Clone, Copy, Debug, PartialEq, Eq)]
pub enum ParseErrorKind {
    /// A character was read at or past the end of the input.
    BoundaryViolation,
    /// The given literal character was required at the cursor and is not there.
    ExpectedChar(char),
    /// An attribute value does not open with `"` or `'`.
    ExpectedQuote,
    /// The name in a closing tag differs from the name in its opening tag.
    TagNameMismatch,
}

/// A failed expectation and the byte offset in the source text at which it failed.
#[derive(Clone, Copy, Debug, PartialEq, Eq)]
pub struct ParseError {
    pub kind: ParseErrorKind,
    pub position: usize,
}

impl ParseErrorKind {
    /// A required literal or quote is missing: neither a read past the end nor a tag name
    /// that differs.
    pub open spec fn structural_mismatch(&self) -> bool {
        self is ExpectedChar || self is ExpectedQuote
    }

    /// Is this a required literal or quote that is missing?
    #[verifier::when_used_as_spec(structural_mismatch)]
    pub fn is_structural_mismatch(&self) -> (result: bool)
        ensures
            result == self.structural_mismatch(),
    {
        match self {
            ParseErrorKind::ExpectedChar(_) => true,
            ParseErrorKind::ExpectedQuote => true,
            ParseErrorKind::BoundaryViolation => false,
            ParseErrorKind::TagNameMismatch => false,
        }
    }
}

} // verus!
