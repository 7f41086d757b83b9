use bookmark_exporter::error::ExportError;
use bookmark_exporter::places::PlaceRow;
use bookmark_exporter::record::ExportFormat;
use bookmark_exporter::{export_targets, Browser, BookmarkExporterLog, BookmarkExporterTool};

struct QuietLog;

impl BookmarkExporterLog for QuietLog {
    fn output(&self, _message: &str) {}
    fn warning(&self, _message: &str) {}
    fn error(&self, _message: &str) {}
}

#[test]
fn targets_follow_a_fixed_order() {
    assert_eq!(export_targets(true, true), vec![Browser::Firefox, Browser::Chrome]);
    assert_eq!(export_targets(true, false), vec![Browser::Firefox]);
    assert_eq!(export_targets(false, true), vec![Browser::Chrome]);
    assert_eq!(export_targets(false, false), Vec::<Browser>::new());
}

#[test]
fn tool_exports_rows_as_text() {
    let log = QuietLog;
    let tool = BookmarkExporterTool::new(&log);
    let rows = vec![
        PlaceRow { title: Some("Example".to_string()), url: Some("https://example.com".to_string()) },
        PlaceRow { title: Some("".to_string()), url: Some("https://skip.example".to_string()) },
    ];
    assert_eq!(tool.export_firefox_bookmarks(&rows, ExportFormat::Plain), "Example\nhttps://example.com\n");
    assert_eq!(tool.export_firefox_bookmarks(&rows, ExportFormat::Link), "[Example](https://example.com)\n");
}

#[test]
fn tool_exports_document_as_text() {
    let log = QuietLog;
    let tool: BookmarkExporterTool<dyn BookmarkExporterLog> = BookmarkExporterTool::new(&log);
    let document = r#"{"roots": {"bookmark_bar": {"children": [{"type":"folder","children":[{"type":"url","name":"A","url":"https://a"}]},{"type":"url","name":"B","url":"https://b"}]}}}"#;
    assert_eq!(tool.export_chrome_bookmarks(document, ExportFormat::Plain).unwrap(), "A\nhttps://a\nB\nhttps://b\n");
    assert!(matches!(tool.export_chrome_bookmarks("{", ExportFormat::Plain), Err(ExportError::Parse(_))));
}

#[test]
fn tool_reports_missing_profile() {
    let log = QuietLog;
    let tool = BookmarkExporterTool::new(&log);
    let none: Vec<String> = Vec::new();
    assert!(matches!(tool.locate_firefox_database(&none), Err(ExportError::ProfileNotFound)));
    let dirs = vec!["/p/b.default-release".to_string(), "/p/a.default-release".to_string()];
    assert_eq!(tool.locate_firefox_database(&dirs).unwrap(), "/p/a.default-release/places.sqlite");
}
