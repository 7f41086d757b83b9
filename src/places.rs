//! The relational bookmark store: rows of the join of bookmarks with the
//! places they point to, projected onto records.

use vstd::prelude::*;

use crate::record::{records_view, BookmarkRecord, RecordView};

verus! {

/// The query that reads the store: each bookmark's title with the URL of its
/// place, for the rows where both are non-empty, in the order the engine
/// returns them.
pub const PLACES_QUERY: &'static str = "select moz_bookmarks.title, url from moz_bookmarks left join moz_places on fk = moz_places.id where url <> '' and moz_bookmarks.title <> '';";

/// The file that holds the store, inside a profile directory.
pub const PLACES_FILE: &'static str = "places.sqlite";

/// One row of the query: a title and a URL, either of which may be NULL.
pub struct PlaceRow {
    pub title: Option<String>,
    pub url: Option<String>,
}

/// The record a row stands for: `None` where its title or URL is NULL or
/// empty.
pub open spec fn row_record(row: PlaceRow) -> Option<RecordView> {
    match (row.title, row.url) {
        (Some(title), Some(url)) => if title@.len() > 0 && url@.len() > 0 {
            Some(RecordView { title: title@, url: url@ })
        } else {
            None
        },
        _ => None,
    }
}

/// The records of the rows that have a non-empty title and URL, in row order.
pub open spec fn select_rows(rows: Seq<PlaceRow>) -> Seq<RecordView>
    decreases rows.len(),
{
    if rows.len() == 0 {
        Seq::empty()
    } else {
        select_rows(rows.drop_last()) + match row_record(rows.last()) {
            Some(r) => seq![r],
            None => Seq::empty(),
        }
    }
}

/// Every record selected from rows has a non-empty title and URL.
pub proof fn lemma_selected_fields_non_empty(rows: Seq<PlaceRow>)
    ensures
        forall|i: int|
            0 <= i < select_rows(rows).len() ==> (#[trigger] select_rows(rows)[i]).title.len() > 0
                && select_rows(rows)[i].url.len() > 0,
    decreases rows.len(),
{
    if rows.len() > 0 {
        let init = rows.drop_last();
        lemma_selected_fields_non_empty(init);
        let tail = match row_record(rows.last()) {
            Some(r) => seq![r],
            None => Seq::<RecordView>::empty(),
        };
        assert(select_rows(rows) == select_rows(init) + tail);
        assert forall|i: int| 0 <= i < select_rows(rows).len() implies (#[trigger] select_rows(rows)[i]).title.len()
            > 0 && select_rows(rows)[i].url.len() > 0 by {
            if i < select_rows(init).len() {
                assert(select_rows(rows)[i] == select_rows(init)[i]);
            } else {
                assert(select_rows(rows)[i] == tail[i - select_rows(init).len()]);
            }
        }
    }
}

/// The records of the rows, in order, leaving out every row whose title or
/// URL is NULL or empty.
pub fn bookmarks_from_rows(rows: &Vec<PlaceRow>) -> (r: Vec<BookmarkRecord>)
    ensures
        records_view(r@) == select_rows(rows@),
        forall|i: int| 0 <= i < r@.len() ==> (#[trigger] r@[i]).title@.len() > 0 && r@[i].url@.len() > 0,
{
    let mut out: Vec<BookmarkRecord> = Vec::new();
    let mut k: usize = 0;
    while k < rows.len()
        invariant
            k <= rows.len(),
            records_view(out@) == select_rows(rows@.subrange(0, k as int)),
        decreases rows.len() - k,
    {
        let row = &rows[k];
        let ghost before = out@;
        let ghost prefix = rows@.subrange(0, k + 1);
        proof {
            assert(prefix.drop_last() =~= rows@.subrange(0, k as int));
            assert(prefix.last() == *row);
        }
        match (&row.title, &row.url) {
            (Some(title), Some(url)) => {
                if title.unicode_len() > 0 && url.unicode_len() > 0 {
                    out.push(BookmarkRecord { title: title.clone(), url: url.clone() });
                    assert(records_view(out@) =~= records_view(before) + seq![out@.last()@]);
                } else {
                    assert(records_view(before) + Seq::<RecordView>::empty() =~= records_view(before));
                }
            },
            _ => {
                assert(records_view(before) + Seq::<RecordView>::empty() =~= records_view(before));
            },
        }
        k += 1;
    }
    proof {
        assert(rows@.subrange(0, k as int) =~= rows@);
        lemma_selected_fields_non_empty(rows@);
        assert forall|i: int| 0 <= i < out@.len() implies (#[trigger] out@[i]).title@.len() > 0
            && out@[i].url@.len() > 0 by {
            assert(records_view(out@)[i] == out@[i]@);
        }
    }
    out
}

} // verus!
