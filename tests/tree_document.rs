use bookmark_exporter::document::{fractions_fit_in, parse_document};
use bookmark_exporter::error::ExportError;
use bookmark_exporter::record::ExportFormat;
use bookmark_exporter::render_document;
use bookmark_exporter::tree::{document_bookmarks, flatten_node, member_value, same_text, Json, Member};

fn text(s: &str) -> Json {
    Json::Str(s.to_string())
}

fn object(members: Vec<(&str, Json)>) -> Json {
    Json::Object(members.into_iter().map(|(k, v)| Member { key: k.to_string(), value: v }).collect())
}

fn bookmark(name: &str, url: &str) -> Json {
    object(vec![("type", text("url")), ("name", text(name)), ("url", text(url))])
}

fn records_of(document: &str) -> Result<Vec<(String, String)>, ExportError> {
    let doc = parse_document(document)?;
    let records = document_bookmarks(&doc)?;
    Ok(records.into_iter().map(|r| (r.title, r.url)).collect())
}

fn pairs(expected: &[(&str, &str)]) -> Vec<(String, String)> {
    expected.iter().map(|(a, b)| (a.to_string(), b.to_string())).collect()
}

#[test]
fn nested_folder_is_flattened_in_preorder() {
    let document = r#"{"roots": {"bookmark_bar": {"children": [{"type":"folder","children":[{"type":"url","name":"A","url":"https://a"}]},{"type":"url","name":"B","url":"https://b"}]}}}"#;
    assert_eq!(records_of(document).unwrap(), pairs(&[("A", "https://a"), ("B", "https://b")]));
}

#[test]
fn nested_folder_model_is_flattened_in_preorder() {
    let folder = object(vec![("type", text("folder")), ("children", Json::Array(vec![bookmark("A", "https://a")]))]);
    let bar = object(vec![("children", Json::Array(vec![folder, bookmark("B", "https://b")]))]);
    let doc = object(vec![("roots", object(vec![("bookmark_bar", bar)]))]);
    let records = document_bookmarks(&doc).unwrap();
    assert_eq!(records.len(), 2);
    assert_eq!(records[0].title, "A");
    assert_eq!(records[0].url, "https://a");
    assert_eq!(records[1].title, "B");
    assert_eq!(records[1].url, "https://b");
}

#[test]
fn bookmarks_bar_comes_before_other_bookmarks() {
    let document = r#"{"roots": {"other": {"children": [{"type":"url","name":"O","url":"https://o"}]},
        "bookmark_bar": {"children": [{"type":"url","name":"B","url":"https://b"}]}}}"#;
    assert_eq!(records_of(document).unwrap(), pairs(&[("B", "https://b"), ("O", "https://o")]));
}

#[test]
fn deep_nesting_keeps_document_order() {
    let document = r#"{"roots": {"bookmark_bar": {"children": [
        {"type":"url","name":"1","url":"https://one"},
        {"type":"folder","children":[
            {"type":"url","name":"2","url":"https://two"},
            {"type":"folder","children":[{"type":"url","name":"3","url":"https://three"}]},
            {"type":"url","name":"4","url":"https://four"}]},
        {"type":"url","name":"5","url":"https://five"}]}}}"#;
    let expected = pairs(&[
        ("1", "https://one"),
        ("2", "https://two"),
        ("3", "https://three"),
        ("4", "https://four"),
        ("5", "https://five"),
    ]);
    assert_eq!(records_of(document).unwrap(), expected);
}

#[test]
fn folder_without_bookmarks_contributes_nothing() {
    let document = r#"{"roots": {"bookmark_bar": {"children": [
        {"type":"folder","children":[{"type":"folder","children":[]},{"type":"separator"}]},
        {"type":"url","name":"B","url":"https://b"}]}}}"#;
    assert_eq!(records_of(document).unwrap(), pairs(&[("B", "https://b")]));
}

#[test]
fn entries_of_other_types_are_skipped() {
    let document = r#"{"roots": {"bookmark_bar": {"children": [
        {"type":"note","name":"N","url":"https://n"},
        {"name":"untyped","url":"https://u"},
        42,
        {"type":"url","name":"B","url":"https://b"}]}}}"#;
    assert_eq!(records_of(document).unwrap(), pairs(&[("B", "https://b")]));
}

#[test]
fn long_strings_are_read_whole() {
    let name = "A title that is longer than thirty-two bytes in all";
    let url = "https://example.com/a/rather/long/path/to/some/page.html";
    let document = format!(r#"{{"roots": {{"bookmark_bar": {{"children": [{{"type":"url","name":"{}","url":"{}"}}]}}}}}}"#, name, url);
    assert_eq!(records_of(&document).unwrap(), pairs(&[(name, url)]));
}

#[test]
fn missing_or_odd_roots_give_no_records() {
    assert_eq!(records_of("{}").unwrap(), pairs(&[]));
    assert_eq!(records_of(r#"{"roots": 3}"#).unwrap(), pairs(&[]));
    assert_eq!(records_of(r#"{"roots": {"bookmark_bar": [1, 2], "other": "x"}}"#).unwrap(), pairs(&[]));
    assert_eq!(records_of("[]").unwrap(), pairs(&[]));
}

#[test]
fn bookmark_without_url_is_a_parse_error() {
    let document = r#"{"roots": {"bookmark_bar": {"children": [{"type":"url","name":"A"}]}}}"#;
    assert!(matches!(records_of(document), Err(ExportError::Parse(_))));
    let document = r#"{"roots": {"bookmark_bar": {"children": [{"type":"url","name":7,"url":"https://a"}]}}}"#;
    assert!(matches!(records_of(document), Err(ExportError::Parse(_))));
}

#[test]
fn invalid_json_is_a_parse_error() {
    assert!(matches!(parse_document("{\"roots\": "), Err(ExportError::Parse(_))));
    assert!(matches!(parse_document("not json"), Err(ExportError::Parse(_))));
}

#[test]
fn parsed_scalars_keep_their_values() {
    let doc = parse_document(r#"{"b": true, "n": 12.5, "s": "x", "z": null}"#).unwrap();
    assert!(matches!(member_value(&doc, "b"), Some(Json::Bool(true))));
    assert!(matches!(member_value(&doc, "n"), Some(Json::Number(n)) if n == "12.5"));
    assert!(matches!(member_value(&doc, "s"), Some(Json::Str(s)) if s == "x"));
    assert!(matches!(member_value(&doc, "z"), Some(Json::Null)));
    assert!(member_value(&doc, "missing").is_none());
}

#[test]
fn a_leaf_is_no_folder() {
    assert!(flatten_node(&bookmark("A", "https://a")).is_none());
    assert!(flatten_node(&text("x")).is_none());
    let empty = object(vec![("children", Json::Array(vec![]))]);
    assert_eq!(flatten_node(&empty).unwrap().len(), 0);
}

#[test]
fn same_text_compares_characters() {
    assert!(same_text("url", "url"));
    assert!(!same_text("url", "urls"));
    assert!(!same_text("url", "URL"));
    assert!(same_text("", ""));
}

#[test]
fn rendered_document_in_both_forms() {
    let doc = parse_document(r#"{"roots": {"bookmark_bar": {"children": [{"type":"url","name":"A","url":"https://a"}]}}}"#).unwrap();
    assert_eq!(render_document(&doc, ExportFormat::Plain).unwrap(), "A\nhttps://a\n");
    assert_eq!(render_document(&doc, ExportFormat::Link).unwrap(), "[A](https://a)\n");
}

#[test]
fn document_records_split_between_roots() {
    let bar = r#"{"children": [{"type":"url","name":"B1","url":"https://b1"},{"type":"folder","children":[{"type":"url","name":"B2","url":"https://b2"}]}]}"#;
    let other = r#"{"children": [{"type":"url","name":"O1","url":"https://o1"}]}"#;
    let both = records_of(&format!(r#"{{"roots": {{"bookmark_bar": {}, "other": {}}}}}"#, bar, other)).unwrap();
    let mut split = records_of(&format!(r#"{{"roots": {{"bookmark_bar": {}}}}}"#, bar)).unwrap();
    split.extend(records_of(&format!(r#"{{"roots": {{"other": {}}}}}"#, other)).unwrap());
    assert_eq!(both, split);
    assert_eq!(both.len(), 3);
}

#[test]
fn inserted_folder_without_bookmarks_changes_nothing() {
    let without = r#"{"roots": {"bookmark_bar": {"children": [{"type":"url","name":"A","url":"https://a"},{"type":"url","name":"B","url":"https://b"}]}}}"#;
    let with = r#"{"roots": {"bookmark_bar": {"children": [{"type":"url","name":"A","url":"https://a"},
        {"type":"folder","children":[{"type":"separator"},{"type":"folder","children":[]}]},
        {"type":"separator","name":"S"},
        {"type":"url","name":"B","url":"https://b"}]}}}"#;
    assert_eq!(records_of(with).unwrap(), records_of(without).unwrap());
}

#[test]
fn overlong_fraction_is_a_parse_error() {
    let long = format!(r#"{{"roots": {{}}, "n": 0.{}}}"#, "0".repeat(32769));
    assert!(matches!(parse_document(&long), Err(ExportError::Parse(_))));
    let fits = format!(r#"{{"roots": {{}}, "n": 0.{}}}"#, "0".repeat(32768));
    assert!(parse_document(&fits).is_ok());
}

#[test]
fn fraction_digit_runs_are_counted_after_points() {
    assert!(fractions_fit_in("1.5 and 2.25"));
    assert!(fractions_fit_in(&"9".repeat(40000)));
    assert!(!fractions_fit_in(&format!(".{}", "1".repeat(32769))));
    assert!(fractions_fit_in(&format!(".{}", "1".repeat(32768))));
}

#[test]
fn deep_insertion_of_silent_nodes_changes_nothing() {
    let without = r#"{"roots": {"bookmark_bar": {"children": [{"type":"folder","children":[{"type":"folder","children":[{"type":"url","name":"A","url":"https://a"}]}]}]},
        "other": {"children": [{"type":"url","name":"O","url":"https://o"}]}}}"#;
    let with = r#"{"roots": {"bookmark_bar": {"children": [{"type":"folder","children":[{"type":"folder","children":[{"type":"separator"},{"type":"url","name":"A","url":"https://a"},{"type":"folder","children":[{"type":"note"}]}]}]}]},
        "other": {"children": [{"type":"url","name":"O","url":"https://o"},{"type":"folder","children":[]}]}}}"#;
    let records = records_of(with).unwrap();
    assert_eq!(records, records_of(without).unwrap());
    assert_eq!(records.len(), 2);
}
