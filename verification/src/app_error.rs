//! The errors that the index reports.

use vstd::prelude::*;

verus! {

/// What can go wrong with the index.
#[derive(Debug, PartialEq, Eq, Structural)]
pub enum AppError {
    /// The bulk-load text is not a mapping from words to popularity counts.
    InvalidFileContent,
    /// A popularity increase named a word that the index does not hold.
    WordDoesNotExist,
    /// The tree was found damaged while it was being changed.
    UnexpectedError,
}

impl AppError {
    /// The HTTP status that a request boundary answers with: a server error for
    /// a bad load or a damaged tree, a client error for an unknown word.
    pub open spec fn status(self) -> u16 {
        match self {
            AppError::InvalidFileContent => 500,
            AppError::UnexpectedError => 500,
            AppError::WordDoesNotExist => 400,
        }
    }

    /// The sentence that describes the error.
    pub open spec fn description(self) -> Seq<char> {
        match self {
            AppError::InvalidFileContent => "Source file has invalid content."@,
            AppError::WordDoesNotExist => "Word does not exist."@,
            AppError::UnexpectedError => "Unexpected internal error."@,
        }
    }

    /// The HTTP status of the error.
    pub fn status_code(&self) -> (code: u16)
        ensures
            code == self.status(),
    {
        match *self {
            AppError::InvalidFileContent | AppError::UnexpectedError => 500,
            AppError::WordDoesNotExist => 400,
        }
    }

    /// The sentence that describes the error.
    pub fn message(&self) -> (text: String)
        ensures
            text@ == self.description(),
    {
        match *self {
            AppError::InvalidFileContent => "Source file has invalid content.".to_string(),
            AppError::WordDoesNotExist => "Word does not exist.".to_string(),
            AppError::UnexpectedError => "Unexpected internal error.".to_string(),
        }
    }
}

} // verus!
