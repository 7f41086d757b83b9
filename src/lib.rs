//! Extracts bookmarks (title and URL) from two browsers' on-disk stores and
//! renders them as plain text or as link lines.

use vstd::prelude::*;
use vstd::string::StringSliceAdditionalSpecFns;

pub mod document;
pub mod error;
pub mod places;
pub mod profile;
pub mod record;
pub mod tree;

use crate::document::{fractions_fit, parse_document, parsed_document};
use crate::error::ExportError;
use crate::places::{bookmarks_from_rows, select_rows, PlaceRow, PLACES_FILE};
use crate::profile::{choose_profile_dir, join_path, places_database_path, text_le};
use crate::record::{format_records, render_all, ExportFormat};
use crate::tree::{document_bookmarks, document_records, Json};

verus! {

/// A browser whose bookmarks can be exported.
#[derive(Clone, Copy, Debug, PartialEq, Eq, Structural)]
pub enum Browser {
    /// Keeps its bookmarks in a relational database inside a profile directory.
    Firefox,
    /// Keeps its bookmarks in a JSON document at a fixed place.
    Chrome,
}

/// The browsers to export, in the order their output is written: the first
/// browser before the second. Asking for neither exports nothing.
pub open spec fn export_order(firefox: bool, chrome: bool) -> Seq<Browser> {
    (if firefox { seq![Browser::Firefox] } else { Seq::empty() }) + (if chrome {
        seq![Browser::Chrome]
    } else {
        Seq::empty()
    })
}

/// The browsers to export for the given requests, in output order.
pub fn export_targets(firefox: bool, chrome: bool) -> (r: Vec<Browser>)
    ensures
        r@ == export_order(firefox, chrome),
{
    let mut r: Vec<Browser> = Vec::new();
    if firefox {
        r.push(Browser::Firefox);
    }
    if chrome {
        r.push(Browser::Chrome);
    }
    assert(r@ =~= export_order(firefox, chrome));
    r
}

/// The text of a parsed tree document: its records in pre-order, rendered;
/// a parse error where a bookmark entry is malformed.
pub fn render_document(doc: &Json, format: ExportFormat) -> (r: Result<String, ExportError>)
    ensures
        match document_records(doc@) {
            Some(records) => r matches Ok(text) && text@ == render_all(records, format),
            None => r matches Err(ExportError::Parse(_)),
        },
{
    let records = document_bookmarks(doc)?;
    Ok(format_records(&records, format))
}

/// Receives the messages that the exporter reports to its user.
pub trait BookmarkExporterLog {
    fn output(&self, message: &str);

    fn warning(&self, message: &str);

    fn error(&self, message: &str);
}

/// The exporter: it carries the log that its messages go to.
pub struct BookmarkExporterTool<'a, L: BookmarkExporterLog + ?Sized> {
    log: &'a L,
}

impl<'a, L: BookmarkExporterLog + ?Sized> BookmarkExporterTool<'a, L> {
    /// The log that this exporter reports to.
    pub closed spec fn log(&self) -> &'a L {
        self.log
    }

    /// An exporter that reports to `log`.
    pub fn new(log: &'a L) -> (r: BookmarkExporterTool<'a, L>)
        ensures
            r.log() == log,
    {
        BookmarkExporterTool { log }
    }

    /// The bookmark database of the first browser, given the directories that
    /// matched its profile pattern: the one inside the first of them in
    /// lexicographic order. No match is a missing-profile error, and nothing
    /// is read.
    pub fn locate_firefox_database(&self, profile_dirs: &Vec<String>) -> (r: Result<String, ExportError>)
        ensures
            profile_dirs@.len() == 0 <==> r matches Err(ExportError::ProfileNotFound),
            r is Ok || r matches Err(ExportError::ProfileNotFound),
            r matches Ok(path) ==> exists|i: int|
                0 <= i < profile_dirs@.len() && path@ == join_path(#[trigger] profile_dirs@[i]@, PLACES_FILE@)
                    && forall|k: int| 0 <= k < profile_dirs@.len() ==> text_le(profile_dirs@[i]@, #[trigger] profile_dirs@[k]@),
    {
        let dir = choose_profile_dir(profile_dirs)?;
        Ok(places_database_path(dir.as_str()))
    }

    /// The text of the relational store's bookmarks, from the rows its query
    /// returned: the rows with a non-empty title and URL, in row order.
    pub fn export_firefox_bookmarks(&self, rows: &Vec<PlaceRow>, format: ExportFormat) -> (r: String)
        ensures
            r@ == render_all(select_rows(rows@), format),
    {
        let records = bookmarks_from_rows(rows);
        format_records(&records, format)
    }

    /// The text of the tree document's bookmarks, from the document's text:
    /// a parse error where the text is not JSON or a bookmark entry is
    /// malformed, otherwise the document's records in pre-order, rendered. A
    /// decimal point followed by more digits than the json crate can count is
    /// a parse error too.
    pub fn export_chrome_bookmarks(&self, document: &str, format: ExportFormat) -> (r: Result<String, ExportError>)
        ensures
            !fractions_fit(document.spec_bytes()) ==> r matches Err(ExportError::Parse(_)),
            fractions_fit(document.spec_bytes()) ==> match parsed_document(document@) {
                Some(doc) => match document_records(doc) {
                    Some(records) => r matches Ok(text) && text@ == render_all(records, format),
                    None => r matches Err(ExportError::Parse(_)),
                },
                None => r matches Err(ExportError::Parse(_)),
            },
    {
        let doc = parse_document(document)?;
        render_document(&doc, format)
    }
}

} // verus!
