//! The library's single error type.

use vstd::prelude::*;
use vstd::string::StringExecFns;

verus! {

#[derive(Debug, Clone, PartialEq, Eq)]
pub enum TokenizerError {
    /// A file-system failure while opening, reading, mapping or writing.
    Io(String),
    /// A malformed payload while encoding or decoding.
    Serialization(String),
    /// A magic or version mismatch.
    InvalidIndexFormat(String),
    /// A directory traversal failure.
    WalkDir(String),
    /// No index files at the requested base path.
    IndexNotFound(String),
    /// A glob pattern that does not compile.
    InvalidPattern(String),
    /// Index files written by different runs.
    IndexMismatch(String),
    /// Neither exact nor fuzzy mode selected where one is required.
    MissingQueryMode,
}

pub type Result<T> = std::result::Result<T, TokenizerError>;

/// The one-line description of an error: a label for its kind, then its detail.
pub open spec fn describe(e: TokenizerError) -> Seq<char> {
    match e {
        TokenizerError::Io(s) => "I/O error: "@ + s@,
        TokenizerError::Serialization(s) => "Serialization error: "@ + s@,
        TokenizerError::InvalidIndexFormat(s) => "Invalid index format: "@ + s@,
        TokenizerError::WalkDir(s) => "Directory walk error: "@ + s@,
        TokenizerError::IndexNotFound(s) => "Index not found: "@ + s@,
        TokenizerError::InvalidPattern(s) => "Invalid glob pattern: "@ + s@,
        TokenizerError::IndexMismatch(s) => "Index files mismatch: "@ + s@,
        TokenizerError::MissingQueryMode => "Missing query mode: must specify --exact or --fuzzy"@,
    }
}

impl TokenizerError {
    /// A one-line description of the error.
    pub fn message(&self) -> (r: String)
        ensures
            r@ == describe(*self),
    {
        match self {
            TokenizerError::Io(s) => "I/O error: ".to_owned().concat(s.as_str()),
            TokenizerError::Serialization(s) => "Serialization error: ".to_owned().concat(s.as_str()),
            TokenizerError::InvalidIndexFormat(s) => "Invalid index format: ".to_owned().concat(
                s.as_str(),
            ),
            TokenizerError::WalkDir(s) => "Directory walk error: ".to_owned().concat(s.as_str()),
            TokenizerError::IndexNotFound(s) => "Index not found: ".to_owned().concat(s.as_str()),
            TokenizerError::InvalidPattern(s) => "Invalid glob pattern: ".to_owned().concat(
                s.as_str(),
            ),
            TokenizerError::IndexMismatch(s) => "Index files mismatch: ".to_owned().concat(
                s.as_str(),
            ),
            TokenizerError::MissingQueryMode => "Missing query mode: must specify --exact or --fuzzy".to_owned(),
        }
    }
}

} // verus!
