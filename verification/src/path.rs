//! Canonical path identity.

use vstd::prelude::*;
use vstd::string::*;
use crate::error::StoreError;

verus! {

/// The owned path of the standard library. Nothing inside it is visible here.
#[verifier::external_type_specification]
#[verifier::external_body]
pub struct ExPathBuf(std::path::PathBuf);

/// The text of a path: what `camino::Utf8PathBuf::from_path_buf` makes of it.
/// A path that is not valid UTF-8 has none.
pub uninterp spec fn utf8_text(path: std::path::PathBuf) -> Option<Seq<char>>;

/// Calls `camino::Utf8PathBuf::from_path_buf` and hands out the string of the
/// path that it gives. The contract claims that the string is the text of the
/// path, and that there is a string exactly where the path has a text.
#[verifier::external_body]
fn text_of(path: std::path::PathBuf) -> (text: Option<String>)
    ensures
        text is Some <==> utf8_text(path) is Some,
        text matches Some(t) ==> utf8_text(path) == Some(t@),
{
    match camino::Utf8PathBuf::from_path_buf(path) {
        Ok(utf8) => Some(utf8.into_string()),
        Err(_) => None,
    }
}

/// What became of the attempt to make a path canonical.
#[derive(Debug, Clone, PartialEq, Eq)]
pub enum Canonical {
    /// The disk gave no canonical path.
    Unresolved,
    /// The canonical path cannot be written as text.
    NotText,
    /// The canonical path.
    Text(String),
}

/// `found` says what `canonical`, the answer of the disk, amounts to.
pub open spec fn amounts_to(canonical: Option<std::path::PathBuf>, found: Canonical) -> bool {
    match canonical {
        None => found is Unresolved,
        Some(path) => match utf8_text(path) {
            None => found is NotText,
            Some(text) => found matches Canonical::Text(s) && s@ == text,
        },
    }
}

/// Puts the answer of the disk to a request for a canonical path into plain
/// values.
pub fn locate(canonical: Option<std::path::PathBuf>) -> (found: Canonical)
    ensures
        amounts_to(canonical, found),
{
    match canonical {
        None => Canonical::Unresolved,
        Some(path) => match text_of(path) {
            None => Canonical::NotText,
            Some(text) => Canonical::Text(text),
        },
    }
}

/// The identity under which a file is recorded: its canonical path. A file
/// that does not exist, or has no canonical path, is refused as missing; one
/// whose canonical path cannot be written as text is refused for that.
pub open spec fn resolved(exists: bool, found: Canonical) -> Result<Seq<char>, StoreError> {
    if !exists {
        Err(StoreError::NonExistentFile)
    } else {
        match found {
            Canonical::Unresolved => Err(StoreError::NonExistentFile),
            Canonical::NotText => Err(StoreError::PathEncodingError),
            Canonical::Text(path) => Ok(path@),
        }
    }
}

/// The identity under which a row is looked for when it is to be removed: the
/// canonical path where there is one, and else the path as it was given.
pub open spec fn removal_identity(raw: Seq<char>, found: Canonical) -> Seq<char> {
    match found {
        Canonical::Text(path) => path@,
        _ => raw,
    }
}

/// The identity under which a file is recorded, or why the file is refused.
pub fn resolve(exists: bool, found: &Canonical) -> (outcome: Result<String, StoreError>)
    ensures
        match outcome {
            Ok(path) => resolved(exists, *found) == Ok::<Seq<char>, StoreError>(path@),
            Err(e) => resolved(exists, *found) == Err::<Seq<char>, StoreError>(e),
        },
{
    if !exists {
        return Err(StoreError::NonExistentFile);
    }
    match found {
        Canonical::Unresolved => Err(StoreError::NonExistentFile),
        Canonical::NotText => Err(StoreError::PathEncodingError),
        Canonical::Text(path) => Ok(path.clone()),
    }
}

/// The identity under which a row is looked for when it is to be removed: the
/// canonical path where there is one, and else the path as it was given.
pub fn removal_key(raw: &str, found: &Canonical) -> (key: String)
    ensures
        key@ == removal_identity(raw@, *found),
{
    match found {
        Canonical::Text(path) => path.clone(),
        _ => raw.to_owned(),
    }
}

/// The extended-length prefix that some platforms put before an absolute path.
pub open spec fn extended_prefix() -> Seq<char> {
    seq!['\\', '\\', '?', '\\']
}

/// What is shown to the user for `path`: the path without its extended-length
/// prefix, or the path itself where it has none.
pub open spec fn cleaned(path: Seq<char>) -> Seq<char> {
    if extended_prefix().is_prefix_of(path) {
        path.subrange(4, path.len() as int)
    } else {
        path
    }
}

/// Strips the extended-length prefix from a path for display.
pub fn clean_path(path: &str) -> (shown: &str)
    ensures
        shown@ == cleaned(path@),
{
    let n: usize = path.unicode_len();
    if n >= 4 && path.get_char(0) == '\\' && path.get_char(1) == '\\' && path.get_char(2) == '?'
        && path.get_char(3) == '\\' {
        assert(path@.subrange(0, 4) =~= extended_prefix());
        path.substring_char(4, n)
    } else {
        assert(!extended_prefix().is_prefix_of(path@)) by {
            if extended_prefix().is_prefix_of(path@) {
                assert(path@.subrange(0, 4) == extended_prefix());
                assert(path@.subrange(0, 4)[0] == path@[0]);
                assert(path@.subrange(0, 4)[1] == path@[1]);
                assert(path@.subrange(0, 4)[2] == path@[2]);
                assert(path@.subrange(0, 4)[3] == path@[3]);
            }
        }
        path
    }
}

} // verus!
