//! The ways an export can fail.

use vstd::prelude::*;

verus! {

/// Why an export did not produce its text.
#[derive(Debug)]
pub enum ExportError {
    /// The variable naming the user's home directory is not set.
    MissingHome,
    /// No profile directory matched the pattern it is looked up by.
    ProfileNotFound,
    /// The bookmark database could not be opened.
    StoreOpen(String),
    /// The bookmark database did not answer the query.
    Query(String),
    /// The bookmark document is not valid JSON, or an entry in it is malformed.
    Parse(String),
    /// Reading a file or writing the output failed.
    Io(String),
}

} // verus!
