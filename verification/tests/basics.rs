use internetarchive_core::item::{ArchiveItem, ArchiveItemKind};
use internetarchive_core::search::SearchQuery;
use internetarchive_core::session::{ArchiveSession, ArchiveSessionConfig};
use internetarchive_core::utils::{flatten_pipe_patterns, needs_quote, norm_filepath, norm_filepath_with};

#[test]
fn detects_collections() {
    let mut item = ArchiveItem::new("nasa");
    item.mediatype = Some("collection".to_string());
    assert_eq!(item.kind(), ArchiveItemKind::Collection);
}

#[test]
fn plain_items_are_items() {
    let mut item = ArchiveItem::new("nasa");
    assert_eq!(item.kind(), ArchiveItemKind::Item);
    item.mediatype = Some("texts".to_string());
    assert_eq!(item.kind(), ArchiveItemKind::Item);
    assert_eq!(item.identifier, "nasa");
    assert!(!item.exists);
    assert!(item.files.is_empty());
}

#[test]
fn builds_search_query() {
    let query = SearchQuery::new("nasa");
    assert_eq!(query.query, "nasa");
    assert!(!query.full_text_search);
}

#[test]
fn new_search_query_is_empty() {
    let query = SearchQuery::new("collection:nasa");
    assert!(query.fields.is_empty());
    assert!(query.sorts.is_empty());
    assert!(!query.dsl_fts);
}

#[test]
fn defaults_to_https_archive_org() {
    let session = ArchiveSession::new(ArchiveSessionConfig::default());
    assert_eq!(session.protocol(), "https:");
    assert_eq!(session.host(), "archive.org");
}

#[test]
fn insecure_session_uses_http() {
    let mut config = ArchiveSessionConfig::default();
    config.secure = false;
    config.host = "example.org".to_string();
    let session = ArchiveSession::new(config);
    assert_eq!(session.protocol(), "http:");
    assert_eq!(session.host(), "example.org");
    assert_eq!(session.config.access_key, None);
}

#[test]
fn normalizes_paths() {
    assert_eq!(norm_filepath("foo/bar"), "/foo/bar");
}

#[test]
fn normalizing_keeps_a_leading_slash_and_is_idempotent() {
    assert_eq!(norm_filepath("/foo/bar"), "/foo/bar");
    assert_eq!(norm_filepath(""), "/");
    let once = norm_filepath("a/b");
    assert_eq!(norm_filepath(&once), once);
}

#[test]
fn normalizing_replaces_the_given_separator() {
    assert_eq!(norm_filepath_with("a\\b\\c.txt", '\\'), "/a/b/c.txt");
    assert_eq!(norm_filepath_with("\\root", '\\'), "/root");
    assert_eq!(norm_filepath_with("a\\b", '/'), "/a\\b");
    assert_eq!(norm_filepath_with("/x/y", '/'), "/x/y");
}

#[test]
fn detects_quote_need() {
    assert!(needs_quote("hello world"));
    assert!(needs_quote("føø"));
    assert!(!needs_quote("hello-world"));
}

#[test]
fn quote_need_covers_all_whitespace() {
    assert!(needs_quote("tab\there"));
    assert!(needs_quote("line\nbreak"));
    assert!(needs_quote("nbsp\u{a0}"));
    assert!(!needs_quote(""));
    assert!(!needs_quote("~!@#$%^&*()"));
}

#[test]
fn flattens_pipe_patterns() {
    let patterns = ["*.jpg|*.xml", "*.torrent"];
    assert_eq!(
        flatten_pipe_patterns(&patterns),
        vec!["*.jpg", "*.xml", "*.torrent"]
    );
}

#[test]
fn flattening_keeps_empty_pieces() {
    assert_eq!(flatten_pipe_patterns(&["a||b", ""]), vec!["a", "", "b", ""]);
    let none: [&str; 0] = [];
    assert!(flatten_pipe_patterns(&none).is_empty());
    // Flattening a concatenation is concatenating the flattenings.
    let mut joined = flatten_pipe_patterns(&["x|y"]);
    joined.extend(flatten_pipe_patterns(&["z"]));
    assert_eq!(flatten_pipe_patterns(&["x|y", "z"]), joined);
}

#[test]
fn pieces_of_one_pattern_join_back() {
    for pattern in ["*.jpg|*.xml", "", "|", "a||b|", "plain"] {
        let pieces = flatten_pipe_patterns(&[pattern]);
        assert_eq!(pieces.join("|"), pattern);
        assert_eq!(pieces.len(), pattern.matches('|').count() + 1);
    }
}
