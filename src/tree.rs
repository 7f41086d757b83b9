//! The tree-shaped bookmark document: a JSON object whose `roots` hold
//! folders of bookmarks, flattened in pre-order into records.

use vstd::prelude::*;

use crate::error::ExportError;
use crate::record::{records_view, BookmarkRecord, RecordView};

verus! {

/// A JSON value.
pub enum Json {
    Null,
    Bool(bool),
    /// A number, as the text it is written with.
    Number(String),
    Str(String),
    Array(Vec<Json>),
    /// An object's members, in document order.
    Object(Vec<Member>),
}

/// One member of a JSON object.
pub struct Member {
    pub key: String,
    pub value: Json,
}

/// The mathematical value of a JSON value. Numbers are not read by the
/// bookmark logic, so only their kind is kept.
pub ghost enum JsonView {
    Null,
    Bool(bool),
    Number,
    Str(Seq<char>),
    Array(Seq<JsonView>),
    Object(Seq<MemberView>),
}

/// The mathematical value of an object member.
pub ghost struct MemberView {
    pub key: Seq<char>,
    pub value: JsonView,
}

/// The view of a JSON value.
pub open spec fn json_view(j: Json) -> JsonView
    decreases j,
{
    match j {
        Json::Null => JsonView::Null,
        Json::Bool(b) => JsonView::Bool(b),
        Json::Number(_) => JsonView::Number,
        Json::Str(s) => JsonView::Str(s@),
        Json::Array(items) => {
            proof {
                assert(decreases_to!(j => items));
                assert(decreases_to!(items => items@));
            }
            JsonView::Array(items_view(items@))
        },
        Json::Object(members) => {
            proof {
                assert(decreases_to!(j => members));
                assert(decreases_to!(members => members@));
            }
            JsonView::Object(members_view(members@))
        },
    }
}

/// The views of a sequence of values, in order.
pub open spec fn items_view(items: Seq<Json>) -> Seq<JsonView>
    decreases items,
{
    if items.len() == 0 {
        Seq::empty()
    } else {
        proof {
            assert(items.drop_last() == items.subrange(0, items.len() - 1));
            assert(decreases_to!(items => items.drop_last()));
            assert(decreases_to!(items => items[items.len() - 1]));
        }
        items_view(items.drop_last()).push(json_view(items.last()))
    }
}

/// The views of a sequence of members, in order.
pub open spec fn members_view(members: Seq<Member>) -> Seq<MemberView>
    decreases members,
{
    if members.len() == 0 {
        Seq::empty()
    } else {
        proof {
            assert(members.drop_last() == members.subrange(0, members.len() - 1));
            assert(decreases_to!(members => members.drop_last()));
            assert(decreases_to!(members => members[members.len() - 1]));
            assert(decreases_to!(members[members.len() - 1] => members[members.len() - 1].value));
        }
        members_view(members.drop_last()).push(
            MemberView { key: members.last().key@, value: json_view(members.last().value) },
        )
    }
}

impl View for Json {
    type V = JsonView;

    open spec fn view(&self) -> JsonView {
        json_view(*self)
    }
}

/// Each item's view stands at the item's index.
pub proof fn lemma_items_view(items: Seq<Json>)
    ensures
        items_view(items).len() == items.len(),
        forall|i: int| 0 <= i < items.len() ==> #[trigger] items_view(items)[i] == json_view(items[i]),
    decreases items.len(),
{
    if items.len() > 0 {
        lemma_items_view(items.drop_last());
        assert forall|i: int| 0 <= i < items.len() implies #[trigger] items_view(items)[i] == json_view(items[i]) by {
            if i < items.len() - 1 {
                assert(items.drop_last()[i] == items[i]);
            }
        }
    }
}

/// Each member's view stands at the member's index.
pub proof fn lemma_members_view(members: Seq<Member>)
    ensures
        members_view(members).len() == members.len(),
        forall|i: int|
            0 <= i < members.len() ==> #[trigger] members_view(members)[i] == (MemberView {
                key: members[i].key@,
                value: json_view(members[i].value),
            }),
    decreases members.len(),
{
    if members.len() > 0 {
        lemma_members_view(members.drop_last());
        assert forall|i: int| 0 <= i < members.len() implies #[trigger] members_view(members)[i] == (MemberView {
            key: members[i].key@,
            value: json_view(members[i].value),
        }) by {
            if i < members.len() - 1 {
                assert(members.drop_last()[i] == members[i]);
            }
        }
    }
}

/// The first index at or after `from` whose member has the given key.
pub open spec fn member_index_from(members: Seq<MemberView>, key: Seq<char>, from: int) -> Option<int>
    decreases members.len() - from,
{
    if from < 0 || from >= members.len() {
        None
    } else if members[from].key == key {
        Some(from)
    } else {
        member_index_from(members, key, from + 1)
    }
}

/// The value under `key` where `v` is an object that has that key.
pub open spec fn lookup(v: JsonView, key: Seq<char>) -> Option<JsonView> {
    match v {
        JsonView::Object(members) => match member_index_from(members, key, 0) {
            Some(i) => Some(members[i].value),
            None => None,
        },
        _ => None,
    }
}

/// The children of `v` where it is a folder: an object whose `children` is an
/// array.
pub open spec fn folder_children(v: JsonView) -> Option<Seq<JsonView>> {
    match lookup(v, "children"@) {
        Some(JsonView::Array(items)) => Some(items),
        _ => None,
    }
}

/// The entries below a folder in pre-order: each child that is a folder is
/// replaced by its own entries, every other child stands for itself.
/// `None` where `v` is no folder.
pub open spec fn flatten(v: JsonView) -> Option<Seq<JsonView>>
    decreases v, 0int,
{
    match folder_children(v) {
        Some(children) => {
            proof {
                lemma_children_decrease(v);
            }
            Some(flatten_list(children))
        },
        None => None,
    }
}

/// The entries of a sequence of sibling nodes, in order.
pub open spec fn flatten_list(nodes: Seq<JsonView>) -> Seq<JsonView>
    decreases nodes, 1int,
{
    if nodes.len() == 0 {
        Seq::empty()
    } else {
        flatten_list(nodes.drop_last()) + expand(nodes.last())
    }
}

/// What one node contributes to the entries: a folder its own entries, any
/// other node itself.
pub open spec fn expand(v: JsonView) -> Seq<JsonView>
    decreases v, 1int,
{
    match flatten(v) {
        Some(entries) => entries,
        None => seq![v],
    }
}

/// A found member index is in range and names a member with that key.
pub proof fn lemma_member_index_in_range(members: Seq<MemberView>, key: Seq<char>, from: int)
    ensures
        member_index_from(members, key, from) matches Some(i) ==> from <= i < members.len()
            && members[i].key == key,
    decreases members.len() - from,
{
    if 0 <= from < members.len() && members[from].key != key {
        lemma_member_index_in_range(members, key, from + 1);
    }
}

/// A folder's children lie strictly below it.
pub proof fn lemma_children_decrease(v: JsonView)
    ensures
        folder_children(v) matches Some(children) ==> decreases_to!(v => children),
{
    match v {
        JsonView::Object(members) => {
            lemma_member_index_in_range(members, "children"@, 0);
            match member_index_from(members, "children"@, 0) {
                Some(i) => {
                    let m = members[i];
                    match m.value {
                        JsonView::Array(items) => {
                            assert(decreases_to!(v => members));
                            assert(decreases_to!(members => members[i]));
                            assert(decreases_to!(m => m.value));
                            assert(decreases_to!(m.value => items));
                        },
                        _ => {},
                    }
                },
                None => {},
            }
        },
        _ => {},
    }
}

/// Whether an entry is a bookmark: its `type` is the string `url`.
pub open spec fn is_url_entry(e: JsonView) -> bool {
    match lookup(e, "type"@) {
        Some(JsonView::Str(t)) => t == "url"@,
        _ => false,
    }
}

/// The record of a bookmark entry: its `name` and `url`, which must both be
/// strings.
pub open spec fn entry_record(e: JsonView) -> Option<RecordView> {
    match (lookup(e, "name"@), lookup(e, "url"@)) {
        (Some(JsonView::Str(name)), Some(JsonView::Str(url))) => Some(RecordView { title: name, url: url }),
        _ => None,
    }
}

/// The records of the bookmark entries among `entries`, in order; `None`
/// where a bookmark entry lacks its string `name` or `url`.
pub open spec fn emit(entries: Seq<JsonView>) -> Option<Seq<RecordView>>
    decreases entries.len(),
{
    if entries.len() == 0 {
        Some(Seq::empty())
    } else {
        match emit(entries.drop_last()) {
            Some(records) => if is_url_entry(entries.last()) {
                match entry_record(entries.last()) {
                    Some(r) => Some(records.push(r)),
                    None => None,
                }
            } else {
                Some(records)
            },
            None => None,
        }
    }
}

/// The entries below a root folder; nothing where the root is absent or is
/// no folder.
pub open spec fn root_entries(root: Option<JsonView>) -> Seq<JsonView> {
    match root {
        Some(v) => match flatten(v) {
            Some(entries) => entries,
            None => Seq::empty(),
        },
        None => Seq::empty(),
    }
}

/// The entries of a whole document: those of the bookmarks bar, then those of
/// the other bookmarks, both under `roots`.
pub open spec fn document_entries(doc: JsonView) -> Seq<JsonView> {
    match lookup(doc, "roots"@) {
        Some(roots) => root_entries(lookup(roots, "bookmark_bar"@)) + root_entries(lookup(roots, "other"@)),
        None => Seq::empty(),
    }
}

/// The records a document yields; `None` where a bookmark entry is malformed.
pub open spec fn document_records(doc: JsonView) -> Option<Seq<RecordView>> {
    emit(document_entries(doc))
}

/// The views of the values that a sequence of references points to.
pub open spec fn views_of(refs: Seq<&Json>) -> Seq<JsonView> {
    refs.map_values(|x: &Json| x@)
}

/// Whether two texts are the same, character by character.
pub fn same_text(a: &str, b: &str) -> (r: bool)
    ensures
        r == (a@ == b@),
{
    let n: usize = a.unicode_len();
    if n != b.unicode_len() {
        return false;
    }
    let mut i: usize = 0;
    while i < n
        invariant
            i <= n,
            n == a@.len(),
            n == b@.len(),
            forall|k: int| 0 <= k < i ==> a@[k] == b@[k],
        decreases n - i,
    {
        if a.get_char(i) != b.get_char(i) {
            return false;
        }
        i += 1;
    }
    assert(a@ =~= b@);
    true
}

/// The value under `key` where `v` is an object that has that key.
pub fn member_value<'a>(v: &'a Json, key: &str) -> (r: Option<&'a Json>)
    ensures
        match lookup(v@, key@) {
            Some(x) => r matches Some(y) && y@ == x,
            None => r is None,
        },
{
    match v {
        Json::Object(members) => {
            let ghost views = members_view(members@);
            proof {
                lemma_members_view(members@);
            }
            let mut i: usize = 0;
            while i < members.len()
                invariant
                    i <= members.len(),
                    v@ == JsonView::Object(views),
                    views == members_view(members@),
                    views.len() == members@.len(),
                    forall|k: int|
                        0 <= k < members@.len() ==> #[trigger] views[k] == (MemberView {
                            key: members@[k].key@,
                            value: json_view(members@[k].value),
                        }),
                    member_index_from(views, key@, i as int) == member_index_from(views, key@, 0),
                decreases members.len() - i,
            {
                if same_text(members[i].key.as_str(), key) {
                    assert(member_index_from(views, key@, i as int) == Some(i as int));
                    return Some(&members[i].value);
                }
                i += 1;
            }
            None
        },
        _ => None,
    }
}

/// The entries below a folder in pre-order; `None` where `v` is no folder.
pub fn flatten_node<'a>(v: &'a Json) -> (r: Option<Vec<&'a Json>>)
    ensures
        match flatten(v@) {
            Some(entries) => r matches Some(out) && views_of(out@) == entries,
            None => r is None,
        },
    decreases v@,
{
    match member_value(v, "children") {
        Some(Json::Array(items)) => {
            let ghost children = items_view(items@);
            proof {
                lemma_children_decrease(v@);
                lemma_items_view(items@);
            }
            let mut out: Vec<&'a Json> = Vec::new();
            let mut k: usize = 0;
            while k < items.len()
                invariant
                    k <= items.len(),
                    children == items_view(items@),
                    children.len() == items@.len(),
                    forall|i: int| 0 <= i < items@.len() ==> #[trigger] children[i] == json_view(items@[i]),
                    folder_children(v@) == Some(children),
                    decreases_to!(v@ => children),
                    views_of(out@) == flatten_list(children.subrange(0, k as int)),
                decreases items.len() - k,
            {
                let child = &items[k];
                proof {
                    assert(children[k as int] == child@);
                    assert(decreases_to!(children => children[k as int]));
                }
                let ghost before = out@;
                match flatten_node(child) {
                    Some(mut sub) => {
                        let ghost sub_view = sub@;
                        out.append(&mut sub);
                        assert(views_of(out@) =~= views_of(before) + views_of(sub_view));
                    },
                    None => {
                        out.push(child);
                        assert(views_of(out@) =~= views_of(before) + seq![child@]);
                    },
                }
                proof {
                    let prefix = children.subrange(0, k + 1);
                    assert(prefix.drop_last() =~= children.subrange(0, k as int));
                    assert(prefix.last() == children[k as int]);
                    assert(flatten_list(prefix) == flatten_list(children.subrange(0, k as int)) + expand(
                        children[k as int],
                    ));
                }
                k += 1;
            }
            proof {
                assert(children.subrange(0, k as int) =~= children);
            }
            Some(out)
        },
        _ => None,
    }
}

/// Once a prefix of the entries holds a malformed bookmark, so do all the
/// entries.
pub proof fn lemma_emit_failure_persists(entries: Seq<JsonView>, k: int)
    requires
        0 <= k <= entries.len(),
        emit(entries.subrange(0, k)) is None,
    ensures
        emit(entries) is None,
    decreases entries.len(),
{
    if k == entries.len() {
        assert(entries.subrange(0, k) =~= entries);
    } else {
        let init = entries.drop_last();
        assert(init.subrange(0, k) =~= entries.subrange(0, k));
        lemma_emit_failure_persists(init, k);
    }
}

/// Whether the string value under `key` is the given text.
fn has_text_member(e: &Json, key: &str, text: &str) -> (r: bool)
    ensures
        r == (lookup(e@, key@) matches Some(JsonView::Str(s)) && s == text@),
{
    match member_value(e, key) {
        Some(Json::Str(s)) => same_text(s.as_str(), text),
        _ => false,
    }
}

/// The record of a bookmark entry; `None` where its `name` or `url` is not a
/// string.
fn record_of_entry(e: &Json) -> (r: Option<BookmarkRecord>)
    ensures
        match entry_record(e@) {
            Some(v) => r matches Some(rec) && rec@ == v,
            None => r is None,
        },
{
    match (member_value(e, "name"), member_value(e, "url")) {
        (Some(Json::Str(name)), Some(Json::Str(url))) => Some(BookmarkRecord { title: name.clone(), url: url.clone() }),
        _ => None,
    }
}

/// The records of the bookmark entries, in order; an error where one of them
/// is malformed.
pub fn emit_records(entries: &Vec<&Json>) -> (r: Result<Vec<BookmarkRecord>, ExportError>)
    ensures
        match emit(views_of(entries@)) {
            Some(records) => r matches Ok(out) && records_view(out@) == records,
            None => r matches Err(ExportError::Parse(_)),
        },
{
    let ghost all = views_of(entries@);
    let mut out: Vec<BookmarkRecord> = Vec::new();
    let mut k: usize = 0;
    while k < entries.len()
        invariant
            k <= entries.len(),
            all == views_of(entries@),
            emit(all.subrange(0, k as int)) == Some(records_view(out@)),
        decreases entries.len() - k,
    {
        let e: &Json = entries[k];
        let ghost prefix = all.subrange(0, k + 1);
        proof {
            assert(prefix.drop_last() =~= all.subrange(0, k as int));
            assert(prefix.last() == e@);
        }
        if has_text_member(e, "type", "url") {
            match record_of_entry(e) {
                Some(rec) => {
                    let ghost before = out@;
                    out.push(rec);
                    assert(records_view(out@) =~= records_view(before).push(rec@));
                },
                None => {
                    proof {
                        lemma_emit_failure_persists(all, k + 1);
                    }
                    return Err(ExportError::Parse(String::from_str("a bookmark entry has no string `name` or `url`")));
                },
            }
        }
        k += 1;
    }
    proof {
        assert(all.subrange(0, k as int) =~= all);
    }
    Ok(out)
}

/// The entries below the root folder stored under `key`.
fn root_entries_of<'a>(roots: &'a Json, key: &str) -> (r: Vec<&'a Json>)
    ensures
        views_of(r@) == root_entries(lookup(roots@, key@)),
{
    match member_value(roots, key) {
        Some(root) => match flatten_node(root) {
            Some(entries) => entries,
            None => {
                let empty: Vec<&'a Json> = Vec::new();
                assert(views_of(empty@) =~= Seq::empty());
                empty
            },
        },
        None => {
            let empty: Vec<&'a Json> = Vec::new();
            assert(views_of(empty@) =~= Seq::empty());
            empty
        },
    }
}

/// The bookmarks of a document: those of the bookmarks bar, then those of the
/// other bookmarks, each root read in pre-order; an error where a bookmark
/// entry lacks its string `name` or `url`.
pub fn document_bookmarks(doc: &Json) -> (r: Result<Vec<BookmarkRecord>, ExportError>)
    ensures
        match document_records(doc@) {
            Some(records) => r matches Ok(out) && records_view(out@) == records,
            None => r matches Err(ExportError::Parse(_)),
        },
{
    let entries: Vec<&Json> = match member_value(doc, "roots") {
        Some(roots) => {
            let mut entries = root_entries_of(roots, "bookmark_bar");
            let mut other = root_entries_of(roots, "other");
            let ghost first = entries@;
            let ghost second = other@;
            entries.append(&mut other);
            assert(views_of(entries@) =~= views_of(first) + views_of(second));
            entries
        },
        None => {
            let empty: Vec<&Json> = Vec::new();
            assert(views_of(empty@) =~= Seq::empty());
            empty
        },
    };
    emit_records(&entries)
}

/// Both results' records, the first's before the second's; `None` where
/// either failed.
pub open spec fn join_results(a: Option<Seq<RecordView>>, b: Option<Seq<RecordView>>) -> Option<Seq<RecordView>> {
    match (a, b) {
        (Some(x), Some(y)) => Some(x + y),
        _ => None,
    }
}

/// The records below a node in a single left-to-right pre-order walk: a
/// folder yields those of its children in order, a bookmark its own record,
/// anything else nothing.
pub open spec fn walk_node(v: JsonView) -> Option<Seq<RecordView>>
    decreases v,
{
    match folder_children(v) {
        Some(children) => {
            proof {
                lemma_children_decrease(v);
            }
            walk_list(children)
        },
        None => if is_url_entry(v) {
            match entry_record(v) {
                Some(r) => Some(seq![r]),
                None => None,
            }
        } else {
            Some(Seq::empty())
        },
    }
}

/// The walk over sibling nodes, left to right.
pub open spec fn walk_list(nodes: Seq<JsonView>) -> Option<Seq<RecordView>>
    decreases nodes,
{
    if nodes.len() == 0 {
        Some(Seq::empty())
    } else {
        join_results(walk_list(nodes.drop_last()), walk_node(nodes.last()))
    }
}

/// The walk below a root folder; nothing where it is absent or no folder.
pub open spec fn walk_root(root: Option<JsonView>) -> Option<Seq<RecordView>> {
    match root {
        Some(v) => if folder_children(v) is Some {
            walk_node(v)
        } else {
            Some(Seq::empty())
        },
        None => Some(Seq::empty()),
    }
}

/// The walk over a whole document: the bookmarks bar, then the other bookmarks.
pub open spec fn walk_document(doc: JsonView) -> Option<Seq<RecordView>> {
    match lookup(doc, "roots"@) {
        Some(roots) => join_results(walk_root(lookup(roots, "bookmark_bar"@)), walk_root(lookup(roots, "other"@))),
        None => Some(Seq::empty()),
    }
}

/// Emitting two runs of entries one after the other gives the records of the
/// first run, then those of the second.
pub proof fn lemma_emit_append(a: Seq<JsonView>, b: Seq<JsonView>)
    ensures
        emit(a + b) == join_results(emit(a), emit(b)),
    decreases b.len(),
{
    if b.len() == 0 {
        assert(a + b =~= a);
        if let Some(x) = emit(a) {
            assert(x + Seq::<RecordView>::empty() =~= x);
        }
    } else {
        let ab = a + b;
        assert(ab.drop_last() =~= a + b.drop_last());
        assert(ab.last() == b.last());
        lemma_emit_append(a, b.drop_last());
        match (emit(a), emit(b.drop_last())) {
            (Some(x), Some(y)) => {
                if let Some(r) = entry_record(b.last()) {
                    assert((x + y).push(r) =~= x + y.push(r));
                }
            },
            _ => {},
        }
    }
}

/// Flattening and then emitting gives what the one-pass walk gives, for a node.
pub proof fn lemma_expand_emits_walk(v: JsonView)
    ensures
        emit(expand(v)) == walk_node(v),
    decreases v,
{
    match folder_children(v) {
        Some(children) => {
            lemma_children_decrease(v);
            lemma_flatten_list_emits_walk(children);
            assert(flatten(v) == Some(flatten_list(children)));
            assert(expand(v) == flatten_list(children));
        },
        None => {
            let single = seq![v];
            assert(single.drop_last() =~= Seq::<JsonView>::empty());
            assert(emit(single.drop_last()) == Some(Seq::<RecordView>::empty()));
            assert(expand(v) == single);
            if is_url_entry(v) {
                if let Some(r) = entry_record(v) {
                    assert(Seq::<RecordView>::empty().push(r) =~= seq![r]);
                }
            }
        },
    }
}

/// Flattening and then emitting gives what the one-pass walk gives, for a
/// sequence of siblings.
pub proof fn lemma_flatten_list_emits_walk(nodes: Seq<JsonView>)
    ensures
        emit(flatten_list(nodes)) == walk_list(nodes),
    decreases nodes,
{
    if nodes.len() > 0 {
        let init = nodes.drop_last();
        assert(init == nodes.subrange(0, nodes.len() - 1));
        assert(decreases_to!(nodes => init));
        assert(decreases_to!(nodes => nodes[nodes.len() - 1]));
        lemma_flatten_list_emits_walk(init);
        lemma_expand_emits_walk(nodes.last());
        lemma_emit_append(flatten_list(init), expand(nodes.last()));
    }
}

/// The records of a document are those of its bookmark entries met in a
/// left-to-right pre-order walk, the bookmarks bar before the other
/// bookmarks; a malformed bookmark anywhere makes the whole document fail.
pub proof fn lemma_records_in_preorder(doc: JsonView)
    ensures
        document_records(doc) == walk_document(doc),
{
    if let Some(roots) = lookup(doc, "roots"@) {
        let bar = lookup(roots, "bookmark_bar"@);
        let other = lookup(roots, "other"@);
        lemma_root_emits_walk(bar);
        lemma_root_emits_walk(other);
        lemma_emit_append(root_entries(bar), root_entries(other));
    } else {
        assert(document_entries(doc) =~= Seq::<JsonView>::empty());
    }
}

proof fn lemma_root_emits_walk(root: Option<JsonView>)
    ensures
        emit(root_entries(root)) == walk_root(root),
{
    if let Some(v) = root {
        if let Some(children) = folder_children(v) {
            lemma_children_decrease(v);
            lemma_flatten_list_emits_walk(children);
        }
    }
}

/// Whether no bookmark entry lies below a node: where it is a folder, none
/// below any of its children; otherwise it is no bookmark itself.
pub open spec fn no_bookmark_below(v: JsonView) -> bool
    decreases v,
{
    match folder_children(v) {
        Some(children) => {
            proof {
                lemma_children_decrease(v);
            }
            no_bookmark_in(children)
        },
        None => !is_url_entry(v),
    }
}

/// Whether no bookmark entry lies in or below any of the nodes.
pub open spec fn no_bookmark_in(nodes: Seq<JsonView>) -> bool
    decreases nodes,
{
    if nodes.len() == 0 {
        true
    } else {
        no_bookmark_in(nodes.drop_last()) && no_bookmark_below(nodes.last())
    }
}

proof fn lemma_walk_without_bookmarks(v: JsonView)
    requires
        no_bookmark_below(v),
    ensures
        walk_node(v) == Some(Seq::<RecordView>::empty()),
    decreases v,
{
    if let Some(children) = folder_children(v) {
        lemma_children_decrease(v);
        lemma_walk_list_without_bookmarks(children);
    }
}

proof fn lemma_walk_list_without_bookmarks(nodes: Seq<JsonView>)
    requires
        no_bookmark_in(nodes),
    ensures
        walk_list(nodes) == Some(Seq::<RecordView>::empty()),
    decreases nodes,
{
    if nodes.len() > 0 {
        let init = nodes.drop_last();
        assert(init == nodes.subrange(0, nodes.len() - 1));
        assert(decreases_to!(nodes => init));
        assert(decreases_to!(nodes => nodes[nodes.len() - 1]));
        lemma_walk_list_without_bookmarks(init);
        lemma_walk_without_bookmarks(nodes.last());
        assert(Seq::<RecordView>::empty() + Seq::<RecordView>::empty() =~= Seq::<RecordView>::empty());
    }
}

/// A folder with no bookmark entry below it contributes no records.
pub proof fn lemma_folder_without_bookmarks_yields_nothing(v: JsonView)
    requires
        folder_children(v) is Some,
        no_bookmark_below(v),
    ensures
        flatten(v) matches Some(entries) && emit(entries) == Some(Seq::<RecordView>::empty()),
{
    lemma_expand_emits_walk(v);
    lemma_walk_without_bookmarks(v);
}

/// An entry whose `type` is not `url` is never emitted: taking it out of
/// the entries changes nothing.
pub proof fn lemma_non_bookmark_entry_skipped(before: Seq<JsonView>, e: JsonView, after: Seq<JsonView>)
    requires
        !is_url_entry(e),
    ensures
        emit(before + seq![e] + after) == emit(before + after),
{
    let single = seq![e];
    assert(single.drop_last() =~= Seq::<JsonView>::empty());
    assert(emit(single.drop_last()) == Some(Seq::<RecordView>::empty()));
    assert(emit(single) == Some(Seq::<RecordView>::empty()));
    lemma_emit_append(before, single);
    lemma_emit_append(before + single, after);
    lemma_emit_append(before, after);
    if let Some(x) = emit(before) {
        assert(x + Seq::<RecordView>::empty() =~= x);
    }
}

/// A document whose `roots` object holds the given members.
pub open spec fn document_with_roots(roots: Seq<MemberView>) -> JsonView {
    JsonView::Object(seq![MemberView { key: "roots"@, value: JsonView::Object(roots) }])
}

/// The bookmarks bar comes first: a document with both roots yields the
/// records of the document with the bookmarks bar alone, then those of the
/// document with the other bookmarks alone.
pub proof fn lemma_bar_before_other(bar: JsonView, other: JsonView)
    ensures
        document_records(
            document_with_roots(
                seq![
                    MemberView { key: "bookmark_bar"@, value: bar },
                    MemberView { key: "other"@, value: other },
                ],
            ),
        ) == join_results(
            document_records(document_with_roots(seq![MemberView { key: "bookmark_bar"@, value: bar }])),
            document_records(document_with_roots(seq![MemberView { key: "other"@, value: other }])),
        ),
{
    reveal_strlit("bookmark_bar");
    reveal_strlit("other");
    assert("bookmark_bar"@.len() != "other"@.len());
    let mb = MemberView { key: "bookmark_bar"@, value: bar };
    let mo = MemberView { key: "other"@, value: other };
    let both = seq![mb, mo];
    let only_bar = seq![mb];
    let only_other = seq![mo];
    assert(member_index_from(both, "bookmark_bar"@, 0) == Some(0int));
    assert(member_index_from(both, "other"@, 1) == Some(1int));
    assert(member_index_from(both, "other"@, 0) == Some(1int));
    assert(member_index_from(only_bar, "bookmark_bar"@, 0) == Some(0int));
    assert(member_index_from(only_bar, "other"@, 1) == None::<int>);
    assert(member_index_from(only_bar, "other"@, 0) == None::<int>);
    assert(member_index_from(only_other, "other"@, 0) == Some(0int));
    assert(member_index_from(only_other, "bookmark_bar"@, 1) == None::<int>);
    assert(member_index_from(only_other, "bookmark_bar"@, 0) == None::<int>);
    let x = root_entries(Some(bar));
    let y = root_entries(Some(other));
    assert(document_entries(document_with_roots(both)) == x + y);
    assert(document_entries(document_with_roots(only_bar)) =~= x);
    assert(document_entries(document_with_roots(only_other)) =~= y);
    lemma_emit_append(x, y);
}

/// Walking two runs of siblings one after the other gives the records of the
/// first run, then those of the second.
pub proof fn lemma_walk_list_append(a: Seq<JsonView>, b: Seq<JsonView>)
    ensures
        walk_list(a + b) == join_results(walk_list(a), walk_list(b)),
    decreases b.len(),
{
    if b.len() == 0 {
        assert(a + b =~= a);
        if let Some(x) = walk_list(a) {
            assert(x + Seq::<RecordView>::empty() =~= x);
        }
    } else {
        let ab = a + b;
        assert(ab.drop_last() =~= a + b.drop_last());
        assert(ab.last() == b.last());
        lemma_walk_list_append(a, b.drop_last());
        match (walk_list(a), walk_list(b.drop_last()), walk_node(b.last())) {
            (Some(x), Some(y), Some(z)) => {
                assert(x + y + z =~= x + (y + z));
            },
            _ => {},
        }
    }
}

proof fn lemma_silent_node_inserted(before: Seq<JsonView>, n: JsonView, after: Seq<JsonView>)
    requires
        walk_node(n) == Some(Seq::<RecordView>::empty()),
    ensures
        emit(flatten_list(before + seq![n] + after)) == emit(flatten_list(before + after)),
{
    let single = seq![n];
    assert(single.drop_last() =~= Seq::<JsonView>::empty());
    assert(walk_list(single.drop_last()) == Some(Seq::<RecordView>::empty()));
    assert(walk_list(single) == Some(Seq::<RecordView>::empty() + Seq::<RecordView>::empty()));
    assert(Seq::<RecordView>::empty() + Seq::<RecordView>::empty() =~= Seq::<RecordView>::empty());
    lemma_flatten_list_emits_walk(before + single + after);
    lemma_flatten_list_emits_walk(before + after);
    lemma_walk_list_append(before, single);
    lemma_walk_list_append(before + single, after);
    lemma_walk_list_append(before, after);
    if let Some(x) = walk_list(before) {
        assert(x + Seq::<RecordView>::empty() =~= x);
    }
}

/// Inserting, anywhere among a folder's children, a folder with no bookmark
/// entry below it changes none of the folder's records.
pub proof fn lemma_folder_without_bookmarks_inserted(before: Seq<JsonView>, f: JsonView, after: Seq<JsonView>)
    requires
        folder_children(f) is Some,
        no_bookmark_below(f),
    ensures
        emit(flatten_list(before + seq![f] + after)) == emit(flatten_list(before + after)),
{
    lemma_walk_without_bookmarks(f);
    lemma_silent_node_inserted(before, f, after);
}

/// Inserting, anywhere among a folder's children, a leaf whose `type` is not
/// `url` changes none of the folder's records.
pub proof fn lemma_non_bookmark_leaf_inserted(before: Seq<JsonView>, leaf: JsonView, after: Seq<JsonView>)
    requires
        folder_children(leaf) is None,
        !is_url_entry(leaf),
    ensures
        emit(flatten_list(before + seq![leaf] + after)) == emit(flatten_list(before + after)),
{
    lemma_silent_node_inserted(before, leaf, after);
}

/// `b` is `a` with the node `n` inserted once among the children of a folder
/// at some depth: directly among `a`'s own children, or inside exactly one
/// of them, the other children staying as they are.
pub open spec fn inserted_below(a: JsonView, b: JsonView, n: JsonView) -> bool
    decreases b,
{
    match (folder_children(a), folder_children(b)) {
        (Some(ca), Some(cb)) => {
            proof {
                lemma_children_decrease(b);
            }
            ||| exists|i: int| 0 <= i <= ca.len() && cb == ca.subrange(0, i) + seq![n] + ca.subrange(i, ca.len() as int)
            ||| exists|i: int|
                0 <= i < ca.len() && cb.len() == ca.len() && cb.subrange(0, i) == ca.subrange(0, i)
                    && cb.subrange(i + 1, cb.len() as int) == ca.subrange(i + 1, ca.len() as int)
                    && inserted_below(ca[i], #[trigger] cb[i], n)
        },
        _ => false,
    }
}

proof fn lemma_walk_list_replace(pre: Seq<JsonView>, x: JsonView, y: JsonView, post: Seq<JsonView>)
    requires
        walk_node(x) == walk_node(y),
    ensures
        walk_list(pre + seq![x] + post) == walk_list(pre + seq![y] + post),
{
    let sx = seq![x];
    let sy = seq![y];
    assert(sx.drop_last() =~= Seq::<JsonView>::empty());
    assert(sy.drop_last() =~= Seq::<JsonView>::empty());
    assert(walk_list(sx) == join_results(walk_list(sx.drop_last()), walk_node(x)));
    assert(walk_list(sy) == join_results(walk_list(sy.drop_last()), walk_node(y)));
    lemma_walk_list_append(pre, sx);
    lemma_walk_list_append(pre + sx, post);
    lemma_walk_list_append(pre, sy);
    lemma_walk_list_append(pre + sy, post);
}

/// Inserting a node that yields no records, such as a folder with no
/// bookmark entry below it or a leaf whose `type` is not `url`, among the
/// children of a folder at any depth below `a` changes none of `a`'s records.
pub proof fn lemma_silent_insertion_at_any_depth(a: JsonView, b: JsonView, n: JsonView)
    requires
        inserted_below(a, b, n),
        no_bookmark_below(n),
    ensures
        walk_node(b) == walk_node(a),
    decreases b,
{
    lemma_walk_without_bookmarks(n);
    let ca = folder_children(a)->Some_0;
    let cb = folder_children(b)->Some_0;
    lemma_children_decrease(b);
    if exists|i: int| 0 <= i <= ca.len() && cb == ca.subrange(0, i) + seq![n] + ca.subrange(i, ca.len() as int) {
        let i = choose|i: int| 0 <= i <= ca.len() && cb == ca.subrange(0, i) + seq![n] + ca.subrange(i, ca.len() as int);
        let pre = ca.subrange(0, i);
        let post = ca.subrange(i, ca.len() as int);
        assert(pre + post =~= ca);
        let single = seq![n];
        assert(single.drop_last() =~= Seq::<JsonView>::empty());
        assert(walk_list(single.drop_last()) == Some(Seq::<RecordView>::empty()));
        assert(Seq::<RecordView>::empty() + Seq::<RecordView>::empty() =~= Seq::<RecordView>::empty());
        lemma_walk_list_append(pre, single);
        lemma_walk_list_append(pre + single, post);
        lemma_walk_list_append(pre, post);
        if let Some(x) = walk_list(pre) {
            assert(x + Seq::<RecordView>::empty() =~= x);
        }
    } else {
        let i = choose|i: int|
            0 <= i < ca.len() && cb.len() == ca.len() && cb.subrange(0, i) == ca.subrange(0, i)
                && cb.subrange(i + 1, cb.len() as int) == ca.subrange(i + 1, ca.len() as int)
                && inserted_below(ca[i], #[trigger] cb[i], n);
        assert(decreases_to!(cb => cb[i]));
        lemma_silent_insertion_at_any_depth(ca[i], cb[i], n);
        let pre = ca.subrange(0, i);
        let post = ca.subrange(i + 1, ca.len() as int);
        assert(ca =~= pre + seq![ca[i]] + post);
        assert(cb =~= pre + seq![cb[i]] + post);
        lemma_walk_list_replace(pre, ca[i], cb[i], post);
    }
}

/// Inserting such a node at any depth of the bookmarks bar leaves the
/// document's records as they were.
pub proof fn lemma_silent_insertion_in_bookmarks_bar(bar: JsonView, bar2: JsonView, other: JsonView, n: JsonView)
    requires
        inserted_below(bar, bar2, n),
        no_bookmark_below(n),
    ensures
        document_records(
            document_with_roots(
                seq![
                    MemberView { key: "bookmark_bar"@, value: bar2 },
                    MemberView { key: "other"@, value: other },
                ],
            ),
        ) == document_records(
            document_with_roots(
                seq![
                    MemberView { key: "bookmark_bar"@, value: bar },
                    MemberView { key: "other"@, value: other },
                ],
            ),
        ),
{
    lemma_silent_insertion_at_any_depth(bar, bar2, n);
    lemma_bar_before_other(bar, other);
    lemma_bar_before_other(bar2, other);
    lemma_records_in_preorder(document_with_roots(seq![MemberView { key: "bookmark_bar"@, value: bar }]));
    lemma_records_in_preorder(document_with_roots(seq![MemberView { key: "bookmark_bar"@, value: bar2 }]));
    reveal_strlit("bookmark_bar");
    reveal_strlit("other");
    assert("bookmark_bar"@.len() != "other"@.len());
    let m = seq![MemberView { key: "bookmark_bar"@, value: bar }];
    let m2 = seq![MemberView { key: "bookmark_bar"@, value: bar2 }];
    assert(member_index_from(m, "bookmark_bar"@, 0) == Some(0int));
    assert(member_index_from(m, "other"@, 1) == None::<int>);
    assert(member_index_from(m, "other"@, 0) == None::<int>);
    assert(member_index_from(m2, "bookmark_bar"@, 0) == Some(0int));
    assert(member_index_from(m2, "other"@, 1) == None::<int>);
    assert(member_index_from(m2, "other"@, 0) == None::<int>);
    assert(folder_children(bar) is Some && folder_children(bar2) is Some);
}

/// Inserting such a node at any depth of the other bookmarks leaves the
/// document's records as they were.
pub proof fn lemma_silent_insertion_in_other_bookmarks(bar: JsonView, other: JsonView, other2: JsonView, n: JsonView)
    requires
        inserted_below(other, other2, n),
        no_bookmark_below(n),
    ensures
        document_records(
            document_with_roots(
                seq![
                    MemberView { key: "bookmark_bar"@, value: bar },
                    MemberView { key: "other"@, value: other2 },
                ],
            ),
        ) == document_records(
            document_with_roots(
                seq![
                    MemberView { key: "bookmark_bar"@, value: bar },
                    MemberView { key: "other"@, value: other },
                ],
            ),
        ),
{
    lemma_silent_insertion_at_any_depth(other, other2, n);
    lemma_bar_before_other(bar, other);
    lemma_bar_before_other(bar, other2);
    lemma_records_in_preorder(document_with_roots(seq![MemberView { key: "other"@, value: other }]));
    lemma_records_in_preorder(document_with_roots(seq![MemberView { key: "other"@, value: other2 }]));
    reveal_strlit("bookmark_bar");
    reveal_strlit("other");
    assert("bookmark_bar"@.len() != "other"@.len());
    let m = seq![MemberView { key: "other"@, value: other }];
    let m2 = seq![MemberView { key: "other"@, value: other2 }];
    assert(member_index_from(m, "other"@, 0) == Some(0int));
    assert(member_index_from(m, "bookmark_bar"@, 1) == None::<int>);
    assert(member_index_from(m, "bookmark_bar"@, 0) == None::<int>);
    assert(member_index_from(m2, "other"@, 0) == Some(0int));
    assert(member_index_from(m2, "bookmark_bar"@, 1) == None::<int>);
    assert(member_index_from(m2, "bookmark_bar"@, 0) == None::<int>);
    assert(folder_children(other) is Some && folder_children(other2) is Some);
}

/// The number of bookmark entries below a node: in a folder, those below its
/// children; otherwise one where the node is a bookmark entry itself.
pub open spec fn bookmarks_below(v: JsonView) -> nat
    decreases v,
{
    match folder_children(v) {
        Some(children) => {
            proof {
                lemma_children_decrease(v);
            }
            bookmarks_in(children)
        },
        None => if is_url_entry(v) {
            1
        } else {
            0
        },
    }
}

/// The number of bookmark entries in or below the nodes.
pub open spec fn bookmarks_in(nodes: Seq<JsonView>) -> nat
    decreases nodes,
{
    if nodes.len() == 0 {
        0
    } else {
        bookmarks_in(nodes.drop_last()) + bookmarks_below(nodes.last())
    }
}

/// The number of bookmark entries below a root folder.
pub open spec fn root_bookmarks(root: Option<JsonView>) -> nat {
    match root {
        Some(v) => if folder_children(v) is Some {
            bookmarks_below(v)
        } else {
            0
        },
        None => 0,
    }
}

/// The number of bookmark entries below the two roots of a document.
pub open spec fn document_bookmark_count(doc: JsonView) -> nat {
    match lookup(doc, "roots"@) {
        Some(roots) => root_bookmarks(lookup(roots, "bookmark_bar"@)) + root_bookmarks(lookup(roots, "other"@)),
        None => 0,
    }
}

proof fn lemma_walk_counts(v: JsonView)
    ensures
        walk_node(v) matches Some(records) ==> records.len() == bookmarks_below(v),
    decreases v,
{
    if let Some(children) = folder_children(v) {
        lemma_children_decrease(v);
        lemma_walk_list_counts(children);
    }
}

proof fn lemma_walk_list_counts(nodes: Seq<JsonView>)
    ensures
        walk_list(nodes) matches Some(records) ==> records.len() == bookmarks_in(nodes),
    decreases nodes,
{
    if nodes.len() > 0 {
        let init = nodes.drop_last();
        assert(init == nodes.subrange(0, nodes.len() - 1));
        assert(decreases_to!(nodes => init));
        assert(decreases_to!(nodes => nodes[nodes.len() - 1]));
        lemma_walk_list_counts(init);
        lemma_walk_counts(nodes.last());
    }
}

/// Where a document yields its records, there is exactly one for each
/// bookmark entry below its two roots.
pub proof fn lemma_one_record_per_bookmark(doc: JsonView)
    ensures
        document_records(doc) matches Some(records) ==> records.len() == document_bookmark_count(doc),
{
    lemma_records_in_preorder(doc);
    if let Some(roots) = lookup(doc, "roots"@) {
        if let Some(v) = lookup(roots, "bookmark_bar"@) {
            lemma_walk_counts(v);
        }
        if let Some(v) = lookup(roots, "other"@) {
            lemma_walk_counts(v);
        }
    }
}

} // verus!
