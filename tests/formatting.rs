use bookmark_exporter::record::{format_records, parse_link_line, BookmarkRecord, ExportFormat};

fn record(title: &str, url: &str) -> BookmarkRecord {
    BookmarkRecord { title: title.to_string(), url: url.to_string() }
}

#[test]
fn plain_format_writes_title_then_url() {
    let records = vec![record("Example", "https://example.com"), record("Rust", "https://rust-lang.org")];
    let text = format_records(&records, ExportFormat::Plain);
    assert_eq!(text, "Example\nhttps://example.com\nRust\nhttps://rust-lang.org\n");
}

#[test]
fn plain_format_has_two_lines_per_record() {
    let records = vec![record("a", "u1"), record("b", "u2"), record("c", "u3")];
    let text = format_records(&records, ExportFormat::Plain);
    let lines: Vec<&str> = text.lines().collect();
    assert_eq!(lines.len(), 6);
    assert_eq!(lines, vec!["a", "u1", "b", "u2", "c", "u3"]);
}

#[test]
fn link_format_writes_one_line_per_record() {
    let records = vec![record("Example", "https://example.com"), record("B", "https://b")];
    let text = format_records(&records, ExportFormat::Link);
    assert_eq!(text, "[Example](https://example.com)\n[B](https://b)\n");
}

#[test]
fn empty_records_format_to_empty_text() {
    let records: Vec<BookmarkRecord> = Vec::new();
    assert_eq!(format_records(&records, ExportFormat::Plain), "");
    assert_eq!(format_records(&records, ExportFormat::Link), "");
}

#[test]
fn link_line_reads_back() {
    let records = vec![record("Docs (stable)", "https://doc.rust-lang.org/a)b")];
    let text = format_records(&records, ExportFormat::Link);
    let line = text.lines().next().unwrap();
    let back = parse_link_line(line).unwrap();
    assert_eq!(back.title, "Docs (stable)");
    assert_eq!(back.url, "https://doc.rust-lang.org/a)b");
}

#[test]
fn link_line_with_brackets_in_title_reads_back() {
    let records = vec![record("[draft] a]b", "https://example.com/(x)")];
    let text = format_records(&records, ExportFormat::Link);
    let back = parse_link_line(text.trim_end_matches('\n')).unwrap();
    assert_eq!(back.title, "[draft] a]b");
    assert_eq!(back.url, "https://example.com/(x)");
}

#[test]
fn link_line_with_non_ascii_reads_back() {
    let back = parse_link_line("[Café ☕](https://example.com/ü)").unwrap();
    assert_eq!(back.title, "Café ☕");
    assert_eq!(back.url, "https://example.com/ü");
}

#[test]
fn malformed_link_lines_are_refused() {
    assert!(parse_link_line("").is_none());
    assert!(parse_link_line("Example(https://example.com)").is_none());
    assert!(parse_link_line("[Example]https://example.com").is_none());
    assert!(parse_link_line("[Example](https://example.com").is_none());
    assert!(parse_link_line("[Example").is_none());
    assert!(parse_link_line("[]()").is_some());
}
