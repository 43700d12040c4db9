//! The ways in which an operation on the index can fail.

use vstd::prelude::*;
use vstd::string::*;

verus! {

/// Why an operation on the index was refused.
#[derive(Debug, Clone, Copy, PartialEq, Eq, Structural)]
pub enum StoreError {
    /// No entry is stored under the path that was to be removed.
    NotFound,
    /// The file that was to be recorded does not exist on disk.
    NonExistentFile,
    /// The path of the file cannot be written as text.
    PathEncodingError,
    /// The stored table cannot take the data: a row breaks the rules of the
    /// table, or a usage count has no room left.
    StorageError,
}

/// What the user is told of an error that came up for `path`.
pub open spec fn message_of(error: StoreError, path: Seq<char>) -> Seq<char> {
    match error {
        StoreError::NotFound => "No entry found for "@ + path,
        StoreError::NonExistentFile => "File "@ + path + " does not exist"@,
        StoreError::PathEncodingError => "Invalid file path encoding"@,
        StoreError::StorageError => "Cannot store "@ + path,
    }
}

impl StoreError {
    /// What the user is told of this error, which came up for `path`.
    pub fn message(&self, path: &str) -> (text: String)
        ensures
            text@ == message_of(*self, path@),
    {
        match self {
            StoreError::NotFound => {
                let mut text = "No entry found for ".to_owned();
                text.append(path);
                text
            },
            StoreError::NonExistentFile => {
                let mut text = "File ".to_owned();
                text.append(path);
                text.append(" does not exist");
                text
            },
            StoreError::PathEncodingError => "Invalid file path encoding".to_owned(),
            StoreError::StorageError => {
                let mut text = "Cannot store ".to_owned();
                text.append(path);
                text
            },
        }
    }
}

} // verus!
