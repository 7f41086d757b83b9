use bookmark_exporter::places::{bookmarks_from_rows, PlaceRow, PLACES_QUERY};

fn row(title: Option<&str>, url: Option<&str>) -> PlaceRow {
    PlaceRow { title: title.map(|s| s.to_string()), url: url.map(|s| s.to_string()) }
}

#[test]
fn row_with_empty_title_is_left_out() {
    let rows = vec![row(Some("Example"), Some("https://example.com")), row(Some(""), Some("https://skip.example"))];
    let records = bookmarks_from_rows(&rows);
    assert_eq!(records.len(), 1);
    assert_eq!(records[0].title, "Example");
    assert_eq!(records[0].url, "https://example.com");
}

#[test]
fn rows_with_null_or_empty_fields_are_left_out() {
    let rows = vec![
        row(None, Some("https://a")),
        row(Some("B"), None),
        row(Some("C"), Some("")),
        row(Some("D"), Some("https://d")),
        row(Some("E"), Some("https://e")),
    ];
    let records = bookmarks_from_rows(&rows);
    let got: Vec<(&str, &str)> = records.iter().map(|r| (r.title.as_str(), r.url.as_str())).collect();
    assert_eq!(got, vec![("D", "https://d"), ("E", "https://e")]);
}

#[test]
fn store_query_skips_rows_without_title() {
    let connection = rusqlite::Connection::open_in_memory().unwrap();
    connection
        .execute_batch(
            "create table moz_places (id integer primary key, url text);
             create table moz_bookmarks (id integer primary key, fk integer, title text);
             insert into moz_places (id, url) values (1, 'https://example.com'), (2, 'https://skip.example');
             insert into moz_bookmarks (id, fk, title) values (1, 1, 'Example'), (2, 2, ''), (3, null, 'Folder');",
        )
        .unwrap();
    let mut statement = connection.prepare(PLACES_QUERY).unwrap();
    let rows: Vec<PlaceRow> = statement
        .query_map([], |r| Ok(PlaceRow { title: r.get(0)?, url: r.get(1)? }))
        .unwrap()
        .map(|r| r.unwrap())
        .collect();
    let records = bookmarks_from_rows(&rows);
    assert_eq!(records.len(), 1);
    assert_eq!(records[0].title, "Example");
    assert_eq!(records[0].url, "https://example.com");
}
