//! Error type surfaced by the solver.

use vstd::prelude::*;

verus! {

/// Failures a caller can see: a bad command line, or a board whose text is
/// not a square grid of at least 3 rows of ASCII lowercase letters.
#[derive(Debug, Clone, Copy, PartialEq, Eq)]
pub enum Error {
    Usage,
    BoardSize(&'static str),
}

impl Error {
    /// A human-readable description of the failure.
    pub fn message(&self) -> (r: &'static str)
        ensures
            r == self.spec_message(),
    {
        match self {
            Error::Usage => "USAGE: boggle dictionary board",
            Error::BoardSize(msg) => msg,
        }
    }

    /// The description `message` returns.
    pub open spec fn spec_message(&self) -> &'static str {
        match self {
            Error::Usage => "USAGE: boggle dictionary board",
            Error::BoardSize(msg) => msg,
        }
    }
}

} // verus!
