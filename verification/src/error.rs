//! The errors that the library reports.

use vstd::prelude::*;
use vstd::string::StringExecFns;

verus! {

/// What can go wrong around a solve.
#[derive(Debug)]
pub enum Error {
    /// A failure described by its message.
    Generic(String),
    /// A failure of input or output, described by its message.
    IO(String),
    /// The input held no puzzle.
    NoPuzzlesFound,
    /// No puzzle could be picked at random.
    RandomSelectionFailed,
}

impl Error {
    /// The text of the error.
    pub open spec fn text(self) -> Seq<char> {
        match self {
            Error::Generic(message) => "Generic "@ + message@,
            Error::IO(message) => message@,
            Error::NoPuzzlesFound => "No puzzles found in the file"@,
            Error::RandomSelectionFailed => "Failed to randomly select a puzzle"@,
        }
    }

    /// The text of the error.
    pub fn message(&self) -> (text: String)
        ensures
            text@ == self.text(),
    {
        match self {
            Error::Generic(message) => String::from_str("Generic ").concat(message.as_str()),
            Error::IO(message) => message.clone(),
            Error::NoPuzzlesFound => String::from_str("No puzzles found in the file"),
            Error::RandomSelectionFailed => String::from_str(
                "Failed to randomly select a puzzle",
            ),
        }
    }
}

} // verus!
