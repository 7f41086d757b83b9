use bookmark_exporter::error::ExportError;
use bookmark_exporter::profile::{
    chrome_bookmarks_path, choose_profile_dir, firefox_profile_pattern, join_path_text, places_database_path,
    text_le_exec,
};

#[test]
fn paths_are_joined_with_one_separator() {
    assert_eq!(join_path_text("/home/u", "x"), "/home/u/x");
    assert_eq!(join_path_text("/home/u/", "x"), "/home/u/x");
    assert_eq!(join_path_text("", "x"), "x");
}

#[test]
fn browser_paths_below_home() {
    assert_eq!(
        firefox_profile_pattern("/Users/me"),
        "/Users/me/Library/Application Support/Firefox/Profiles/*.default-release"
    );
    assert_eq!(
        chrome_bookmarks_path("/Users/me"),
        "/Users/me/Library/Application Support/Google/Chrome/Default/Bookmarks"
    );
    assert_eq!(places_database_path("/p/abc.default-release"), "/p/abc.default-release/places.sqlite");
}

#[test]
fn no_matching_profile_is_an_error() {
    let none: Vec<String> = Vec::new();
    assert!(matches!(choose_profile_dir(&none), Err(ExportError::ProfileNotFound)));
}

#[test]
fn first_profile_in_lexicographic_order_is_chosen() {
    let candidates = vec!["/p/zz.default-release".to_string(), "/p/ab.default-release".to_string(), "/p/b.default-release".to_string()];
    assert_eq!(choose_profile_dir(&candidates).unwrap(), "/p/ab.default-release");
    let one = vec!["/p/only.default-release".to_string()];
    assert_eq!(choose_profile_dir(&one).unwrap(), "/p/only.default-release");
}

#[test]
fn text_order_is_lexicographic() {
    assert!(text_le_exec("a", "b"));
    assert!(!text_le_exec("b", "a"));
    assert!(text_le_exec("ab", "abc"));
    assert!(!text_le_exec("abc", "ab"));
    assert!(text_le_exec("", ""));
    assert!(text_le_exec("same", "same"));
}
