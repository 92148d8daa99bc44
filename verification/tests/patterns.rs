//! Tests for the pattern splitter and the exclusion matcher.

use loch::error::Error;
use loch::url::{
    is_url_excluded, parse_exclusion_patterns, parse_pattern, split_pattern, url_matches_pattern,
    url_matches_url_pattern,
};

fn test_match(url: &str, url_pattern: &str) -> bool {
    url_matches_url_pattern(url, url_pattern).unwrap()
}

#[test]
fn test_split_pattern() {
    assert_eq!(split_pattern("https://"), None);
    assert_eq!(
        split_pattern("sub.domain.com"),
        Some((None, vec!["sub", "domain", "com"], vec![]))
    );
    assert_eq!(
        split_pattern("http://sub.domain.com//"),
        Some((Some("http://"), vec!["sub", "domain", "com"], vec![]))
    );
    assert_eq!(
        split_pattern("com/path/to//element.html"),
        Some((None, vec!["com"], vec!["path", "to", "element.html"]))
    );
    assert_eq!(
        split_pattern("http://example.com/path/to/element.html"),
        Some((Some("http://"), vec!["example", "com"], vec!["path", "to", "element.html"]))
    );
    assert_eq!(
        split_pattern("https:sub.example.com/path/"),
        Some((Some("https:"), vec!["sub", "example", "com"], vec!["path"]))
    );
}

#[test]
fn test_urls_match() {
    assert!(test_match("example.com/", "example.com"));
    assert!(test_match("sub.example.com", "sub.example.com/"));
    assert!(test_match("sub.example.com", "example.com/"));
    assert!(test_match("sub.example.com/page/index.html", "sub.example.com/page/index.html"));

    assert!(test_match("http://sub.example.com/", "sub.example.com"));
    assert!(test_match("http://sub.example.com", "sub.example.com/"));
    assert!(test_match("sub.example.com", "https://sub.example.com/"));
    assert!(test_match("sub.example.com", "https://example.com/"));
    assert!(test_match("sub.example.com/page/index.html", "http://sub.example.com/page"));
    assert!(!test_match(
        "https://sub.example.com/page/index.html",
        "http://sub.example.com/page/index.html"
    ));

    assert!(test_match("sub.example.com/page/index.html", "sub.example.com"));
    assert!(test_match("sub.example.com/page/index.html", "example.com"));
    assert!(!test_match("example.com/page/index.html", "sub.example.com/page"));
    assert!(!test_match("sub.example.com", "sub.example.com/page/index.html"));

    assert!(test_match("sub.example.com", "example.com"));
    assert!(test_match("sub.example.com/page/index.html", "example.com"));
    assert!(!test_match("example.com", "sub.example.com"));
}

// A pattern string that itself parses as a URL always covers itself.
#[test]
fn matching_is_reflexive() {
    for p in [
        "example.com",
        "http://example.com",
        "https://sub.example.com/page/index.html",
        "sub.domain.com/",
        "https:sub.example.com/path/",
    ] {
        assert!(test_match(p, p), "pattern should cover itself: {}", p);
    }
}

// A pattern's domain labels cover by suffix: the URL may be more specific
// than the pattern, never less.
#[test]
fn domain_suffix_asymmetry() {
    assert!(test_match("sub.example.com", "example.com"));
    assert!(!test_match("example.com", "sub.example.com"));
}

// A scheme mismatch blocks only when both sides give a scheme and the
// schemes differ.
#[test]
fn scheme_mismatch_blocks_only_both_given() {
    assert!(!test_match("https://sub.example.com/page", "http://sub.example.com/page"));
    assert!(test_match("sub.example.com", "https://sub.example.com/"));
    assert!(test_match("http://sub.example.com", "sub.example.com"));
    // The slash variants of one scheme are identical.
    assert!(test_match("http:/sub.example.com", "http://sub.example.com"));
    assert!(test_match("http:sub.example.com", "http://sub.example.com"));
}

// A pattern with no path covers any path; a pattern path covers by prefix.
#[test]
fn path_prefix_rule() {
    assert!(test_match("sub.example.com/page/index.html", "sub.example.com"));
    assert!(!test_match("sub.example.com", "sub.example.com/page/index.html"));
    assert!(test_match("sub.example.com/page/index.html", "sub.example.com/page"));
    assert!(!test_match("sub.example.com/other/index.html", "sub.example.com/page"));
}

// A split fails exactly when no domain label can be carved out.
#[test]
fn split_none_only_without_domain() {
    assert_eq!(split_pattern("https://"), None);
    assert_eq!(split_pattern("//"), None);
    assert_eq!(split_pattern(""), None);
    assert!(split_pattern("a").is_some());
    assert!(split_pattern("//test.com/").is_some());
}

// An unparseable pattern is reported with its text, not silently skipped.
#[test]
fn invalid_pattern_is_an_error() {
    let err = url_matches_url_pattern("example.com", "https://").unwrap_err();
    match err {
        Error::InvalidPattern(p) => {
            assert_eq!(p, "https://");
        }
        _ => panic!("expected an invalid-pattern error"),
    }
    let msg = Error::InvalidPattern(String::from("https://")).message();
    assert_eq!(msg, "Invalid URL exclusion pattern: https://");
}

// A URL is excluded when any configured pattern covers it.
#[test]
fn excluded_by_any_pattern() {
    let p1 = parse_pattern("other.org").unwrap();
    let p2 = parse_pattern("example.com").unwrap();
    let patterns = vec![p1, p2];
    assert!(is_url_excluded("sub.example.com/page", &patterns));
    assert!(!is_url_excluded("unrelated.net/", &patterns));
    assert!(!is_url_excluded("sub.example.com/page", &[]));
}

// A trailing slash on a pattern yields only empty, dropped path segments:
// such a pattern parses like the bare domain and covers by suffix.
#[test]
fn trailing_slash_pattern_covers_by_suffix() {
    let slashed = parse_pattern("example.com/").unwrap();
    let bare = parse_pattern("example.com").unwrap();
    assert!(url_matches_pattern("example.com", &slashed));
    assert!(url_matches_pattern("sub.example.com", &slashed));
    assert!(url_matches_pattern("sub.example.com", &bare));
    assert!(!url_matches_pattern("other.org", &slashed));
    // A pattern with a real path still covers by suffix and path prefix.
    assert!(test_match("www.example.com/docs/intro", "example.com/docs"));
}

// When several patterns are malformed, the error names the first.
#[test]
fn invalid_patterns_report_the_first() {
    let patterns = vec![
        String::from("good.com"),
        String::from("https://"),
        String::from("//"),
    ];
    match parse_exclusion_patterns(&patterns) {
        Err(Error::InvalidPattern(p)) => assert_eq!(p, "https://"),
        _ => panic!("expected an invalid-pattern error"),
    }
    assert!(parse_exclusion_patterns(&vec![String::from("good.com")]).is_ok());
}
