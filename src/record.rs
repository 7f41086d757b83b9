//! Bookmark records and the two text forms they are rendered in.

use vstd::prelude::*;

verus! {

/// One bookmark: its title and the URL it points to.
pub struct BookmarkRecord {
    pub title: String,
    pub url: String,
}

/// The mathematical value of a record: its two fields as character sequences.
pub ghost struct RecordView {
    pub title: Seq<char>,
    pub url: Seq<char>,
}

impl View for BookmarkRecord {
    type V = RecordView;

    open spec fn view(&self) -> RecordView {
        RecordView { title: self.title@, url: self.url@ }
    }
}

/// The views of a sequence of records, in the same order.
pub open spec fn records_view(records: Seq<BookmarkRecord>) -> Seq<RecordView> {
    records.map_values(|r: BookmarkRecord| r@)
}

/// How records are written out.
#[derive(Clone, Copy, Debug, PartialEq, Eq, Structural)]
pub enum ExportFormat {
    /// The title on one line, the URL on the next.
    Plain,
    /// One line `[title](url)` per record.
    Link,
}

/// A record as a link: `[title](url)`, without a line terminator.
pub open spec fn link_line(r: RecordView) -> Seq<char> {
    seq!['['] + r.title + seq![']', '('] + r.url + seq![')']
}

/// The text that one record contributes in the given form.
pub open spec fn rendered(r: RecordView, format: ExportFormat) -> Seq<char> {
    match format {
        ExportFormat::Plain => r.title + seq!['\n'] + r.url + seq!['\n'],
        ExportFormat::Link => link_line(r) + seq!['\n'],
    }
}

/// The text of a whole sequence of records: each record's text, in order.
pub open spec fn render_all(records: Seq<RecordView>, format: ExportFormat) -> Seq<char>
    decreases records.len(),
{
    if records.len() == 0 {
        Seq::empty()
    } else {
        render_all(records.drop_last(), format) + rendered(records.last(), format)
    }
}

/// The text made of the given lines, each followed by a line terminator.
pub open spec fn join_lines(lines: Seq<Seq<char>>) -> Seq<char>
    decreases lines.len(),
{
    if lines.len() == 0 {
        Seq::empty()
    } else {
        join_lines(lines.drop_last()) + lines.last() + seq!['\n']
    }
}

/// The lines of plain output: title, then URL, for each record in order.
pub open spec fn plain_lines(records: Seq<RecordView>) -> Seq<Seq<char>>
    decreases records.len(),
{
    if records.len() == 0 {
        Seq::empty()
    } else {
        plain_lines(records.drop_last()) + seq![records.last().title, records.last().url]
    }
}

/// Whether a character sequence holds no line terminator.
pub open spec fn single_line(s: Seq<char>) -> bool {
    forall|i: int| 0 <= i < s.len() ==> s[i] != '\n'
}

/// Whether both fields of every record fit on one line.
pub open spec fn records_single_line(records: Seq<RecordView>) -> bool {
    forall|i: int| 0 <= i < records.len() ==> single_line(#[trigger] records[i].title) && single_line(records[i].url)
}

/// The first index at or after `from` where `]` is directly followed by `(`.
pub open spec fn link_split_from(s: Seq<char>, from: int) -> Option<int>
    decreases s.len() - from,
{
    if from < 0 || from + 1 >= s.len() {
        None
    } else if s[from] == ']' && s[from + 1] == '(' {
        Some(from)
    } else {
        link_split_from(s, from + 1)
    }
}

/// Whether `]` is never directly followed by `(` in a text.
pub open spec fn no_link_split(s: Seq<char>) -> bool {
    forall|i: int| 0 < i < s.len() ==> !(s[i - 1] == ']' && #[trigger] s[i] == '(')
}

/// Reading a link line back: `[`, the title up to the first `](`, the URL,
/// and a final `)`.
pub open spec fn parse_link(line: Seq<char>) -> Option<RecordView> {
    if line.len() >= 1 && line[0] == '[' {
        match link_split_from(line, 1) {
            Some(j) => if j + 3 <= line.len() && line.last() == ')' {
                Some(RecordView { title: line.subrange(1, j), url: line.subrange(j + 2, line.len() - 1) })
            } else {
                None
            },
            None => None,
        }
    } else {
        None
    }
}

fn append_record(text: &mut String, record: &BookmarkRecord, format: ExportFormat)
    ensures
        final(text)@ == old(text)@ + rendered(record@, format),
{
    proof {
        reveal_strlit("\n");
        reveal_strlit("[");
        reveal_strlit("](");
        reveal_strlit(")\n");
    }
    match format {
        ExportFormat::Plain => {
            text.append(record.title.as_str());
            text.append("\n");
            text.append(record.url.as_str());
            text.append("\n");
        },
        ExportFormat::Link => {
            text.append("[");
            text.append(record.title.as_str());
            text.append("](");
            text.append(record.url.as_str());
            text.append(")\n");
        },
    }
    assert(final(text)@ =~= old(text)@ + rendered(record@, format));
}

/// Renders the records, in order, in the given form. No records give an
/// empty text.
pub fn format_records(records: &Vec<BookmarkRecord>, format: ExportFormat) -> (text: String)
    ensures
        text@ == render_all(records_view(records@), format),
{
    let mut text = String::new();
    let mut i: usize = 0;
    while i < records.len()
        invariant
            i <= records.len(),
            text@ == render_all(records_view(records@).subrange(0, i as int), format),
        decreases records.len() - i,
    {
        append_record(&mut text, &records[i], format);
        proof {
            let all = records_view(records@);
            assert(all.subrange(0, i + 1).drop_last() =~= all.subrange(0, i as int));
        }
        i += 1;
    }
    proof {
        assert(records_view(records@).subrange(0, i as int) =~= records_view(records@));
    }
    text
}

/// Reads a line written in link form back into a record; `None` where the
/// line is not of the form `[title](url)`, the title ending at the first `](`.
pub fn parse_link_line(line: &str) -> (r: Option<BookmarkRecord>)
    ensures
        match parse_link(line@) {
            Some(v) => r matches Some(rec) && rec@ == v,
            None => r is None,
        },
{
    let n: usize = line.unicode_len();
    if n < 1 || line.get_char(0) != '[' {
        return None;
    }
    let mut k: usize = 1;
    while k < n - 1 && !(line.get_char(k) == ']' && line.get_char(k + 1) == '(')
        invariant
            1 <= k <= n,
            n == line@.len(),
            link_split_from(line@, k as int) == link_split_from(line@, 1),
        decreases n - k,
    {
        k += 1;
    }
    if k >= n - 1 {
        return None;
    }
    if n - k < 3 || line.get_char(n - 1) != ')' {
        return None;
    }
    let title = String::from_str(line.substring_char(1, k));
    let url = String::from_str(line.substring_char(k + 2, n - 1));
    Some(BookmarkRecord { title, url })
}

proof fn lemma_single_line_at(records: Seq<RecordView>, i: int)
    requires
        records_single_line(records),
        0 <= i < records.len(),
    ensures
        single_line(records[i].title) && single_line(records[i].url),
{
}

proof fn lemma_single_line_prefix(records: Seq<RecordView>)
    requires
        records_single_line(records),
        records.len() > 0,
    ensures
        records_single_line(records.drop_last()),
{
    let init = records.drop_last();
    assert forall|i: int| 0 <= i < init.len() implies single_line(#[trigger] init[i].title) && single_line(
        init[i].url,
    ) by {
        assert(init[i] == records[i]);
        lemma_single_line_at(records, i);
    }
}

/// Plain output is exactly two lines per record, the title and then the URL,
/// as long as no field holds a line terminator of its own.
pub proof fn lemma_plain_two_lines_per_record(records: Seq<RecordView>)
    requires
        records_single_line(records),
    ensures
        render_all(records, ExportFormat::Plain) == join_lines(plain_lines(records)),
        plain_lines(records).len() == 2 * records.len(),
        forall|i: int|
            0 <= i < records.len() ==> plain_lines(records)[2 * i] == records[i].title
                && plain_lines(records)[2 * i + 1] == records[i].url,
        forall|k: int| 0 <= k < plain_lines(records).len() ==> single_line(#[trigger] plain_lines(records)[k]),
    decreases records.len(),
{
    if records.len() > 0 {
        let init = records.drop_last();
        let last = records.last();
        lemma_single_line_prefix(records);
        lemma_single_line_at(records, records.len() - 1);
        lemma_plain_two_lines_per_record(init);
        let lines = plain_lines(records);
        let head = plain_lines(init);
        assert(lines == head + seq![last.title, last.url]);
        assert(lines.drop_last() =~= head + seq![last.title]);
        assert((head + seq![last.title]).drop_last() =~= head);
        assert((head + seq![last.title]).last() == last.title);
        assert(join_lines(head + seq![last.title]) == join_lines(head) + last.title + seq!['\n']);
        assert(join_lines(lines) =~= join_lines(head) + last.title + seq!['\n'] + last.url + seq!['\n']);
        assert forall|i: int|
            0 <= i < records.len() implies lines[2 * i] == records[i].title && lines[2 * i + 1] == records[i].url by {
            if i < init.len() {
                assert(init[i] == records[i]);
            }
        }
    }
}

/// Link output is exactly one line `[title](url)` per record, as long as no
/// field holds a line terminator of its own.
pub proof fn lemma_link_one_line_per_record(records: Seq<RecordView>)
    requires
        records_single_line(records),
    ensures
        render_all(records, ExportFormat::Link) == join_lines(records.map_values(|r: RecordView| link_line(r))),
        forall|i: int| 0 <= i < records.len() ==> single_line(#[trigger] link_line(records[i])),
    decreases records.len(),
{
    let lines = records.map_values(|r: RecordView| link_line(r));
    assert forall|i: int| 0 <= i < records.len() implies single_line(#[trigger] link_line(records[i])) by {
        let r = records[i];
        lemma_single_line_at(records, i);
        let line = link_line(r);
        assert forall|k: int| 0 <= k < line.len() implies line[k] != '\n' by {
            if 1 <= k < 1 + r.title.len() {
                assert(line[k] == r.title[k - 1]);
            } else if 3 + r.title.len() <= k < 3 + r.title.len() + r.url.len() {
                assert(line[k] == r.url[k - 3 - r.title.len()]);
            }
        }
    }
    if records.len() > 0 {
        let init = records.drop_last();
        lemma_single_line_prefix(records);
        lemma_link_one_line_per_record(init);
        assert(lines.drop_last() =~= init.map_values(|r: RecordView| link_line(r)));
    }
}

/// A link line reads back as the record it was written from, as long as the
/// title holds no `](`.
pub proof fn lemma_link_line_round_trip(r: RecordView)
    requires
        no_link_split(r.title),
    ensures
        parse_link(link_line(r)) == Some(r),
{
    let line = link_line(r);
    let j: int = r.title.len() as int + 1;
    assert(line[j] == ']' && line[j + 1] == '(');
    assert forall|k: int| 1 <= k < j implies !(#[trigger] line[k] == ']' && line[k + 1] == '(') by {
        if k + 1 < j {
            assert(line[k] == r.title[k - 1] && line[k + 1] == r.title[k]);
            assert(!(r.title[k - 1] == ']' && r.title[k] == '('));
        } else {
            assert(line[k + 1] == ']');
        }
    }
    lemma_split_skips(line, 1, j);
    assert(line.subrange(1, j) =~= r.title);
    assert(line.subrange(j + 2, line.len() - 1) =~= r.url);
}

proof fn lemma_split_skips(line: Seq<char>, from: int, j: int)
    requires
        1 <= from <= j,
        j + 1 < line.len(),
        line[j] == ']' && line[j + 1] == '(',
        forall|k: int| from <= k < j ==> !(#[trigger] line[k] == ']' && line[k + 1] == '('),
    ensures
        link_split_from(line, from) == Some(j),
    decreases j - from,
{
    if from < j {
        lemma_split_skips(line, from + 1, j);
    }
}

/// No records render as the empty text, in either form.
pub proof fn lemma_empty_renders_empty(format: ExportFormat)
    ensures
        render_all(Seq::empty(), format) == Seq::<char>::empty(),
{
}

} // verus!
