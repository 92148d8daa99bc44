//! Tests for the URL extractor.

use loch::parse::get_urls;
use loch::url::split_pattern;

/// Asserts that the two lists hold the same elements, unordered.
fn assert_list_eq(list1: &[&str], list2: &[&str]) {
    let mut list1 = list1.to_vec();
    let mut list2 = list2.to_vec();
    list1.sort();
    list2.sort();
    assert_eq!(list1, list2);
}

// Checks one line in scheme-prefixed mode: the line itself splits, and the
// extracted URLs, deduplicated, are the ones expected.
fn check_parse_http(line: &str, expected: &[&str]) {
    assert!(split_pattern(line).is_some());
    let mut urls = get_urls(line, false);
    urls.sort();
    urls.dedup();
    assert_list_eq(&urls, expected);
}

// The same in bare-domain mode.
fn check_parse_nohttp(line: &str, expected: &[&str]) {
    assert!(split_pattern(line).is_some());
    let mut urls = get_urls(line, true);
    urls.sort();
    urls.dedup();
    assert_list_eq(&urls, expected);
}

#[test]
fn parse_urls_http() {
    check_parse_http(" \"http:test\"", &["http:test"]);

    check_parse_http("http://test/.., ", &["http://test/"]);

    check_parse_http(
        "http://. http:/test. https://example.com-",
        &["http:/test", "https://example.com-"],
    );

    check_parse_http("https://www.google.com/", &["https://www.google.com/"]);

    check_parse_http("[https://www.test.com]", &["https://www.test.com"]);

    check_parse_http(
        "[http://test.asdfasdf/](http://www.test.com)",
        &["http://test.asdfasdf/", "http://www.test.com"],
    );

    check_parse_http(
        "(http://test)(http:///example)",
        &["http://test", "http:///example"],
    );

    check_parse_http("{http://google.com/example}{test}", &["http://google.com/example"]);

    check_parse_http("See http://www.test.com.", &["http://www.test.com"]);

    check_parse_http(
        "https://test.com: a nice website, https://example.com--even nicer",
        &["https://test.com", "https://example.com--even"],
    );

    check_parse_http(
        "http://www.example.com/~page~/index.html,www.test.com,https://example.com//, \
         ,example.com/page, ,www.example.com",
        &["https://example.com//", "http://www.example.com/~page~/index.html"],
    );

    check_parse_http(
        "http://example.com/#, http://example.com#About\"",
        &["http://example.com/#", "http://example.com#About"],
    );

    check_parse_http(
        "// https://github.com/maidsafe/QA/blob/master/Documentation/Rust%20Lint%20Checks.md",
        &["https://github.com/maidsafe/QA/blob/master/Documentation/Rust%20Lint%20Checks.md"],
    );

    check_parse_http(
        "https://www.youtube.com/watch?time_continue=866&v=WGchhsKhG-A",
        &["https://www.youtube.com/watch?time_continue=866&v=WGchhsKhG-A"],
    );

    check_parse_http(
        "http://example.com/#`, http://example.com#About`",
        &["http://example.com/#", "http://example.com#About"],
    );

    check_parse_http(
        "https://github.com/mola-T/flymd</a>.</p>",
        &["https://github.com/mola-T/flymd"],
    );
}

#[test]
fn parse_urls_nohttp() {
    let none: &[&str] = &[];

    check_parse_nohttp("www.google.com/ ", &["www.google.com/"]);

    check_parse_nohttp("http://test http://test.com/.., ", &["http://test.com/"]);

    check_parse_nohttp("example.com/page", &["example.com/page"]);

    check_parse_nohttp("./ test./ test.test() example.com/index", &["example.com/index"]);

    check_parse_nohttp("www.google.com", none);

    check_parse_nohttp("https://www.google.com/", &["https://www.google.com/"]);

    check_parse_nohttp(
        "goog.com/~page~, www.google.com/.",
        &["goog.com/~page~", "www.google.com/"],
    );

    check_parse_nohttp("[https://www.test.com]", &["https://www.test.com"]);

    check_parse_nohttp("[test.asdfasdf/](http:www.test.asdfasdf)", &["test.asdfasdf/"]);

    check_parse_nohttp("(test.com/)(test.com)(ftp:///example)", &["test.com/"]);

    check_parse_nohttp("{google.com/example}{test}", &["google.com/example"]);

    check_parse_nohttp("See www.test.com/.", &["www.test.com/"]);

    check_parse_nohttp(
        "test.com/: a nice website, example.com/--even nicer",
        &["example.com/--even", "test.com/"],
    );

    check_parse_nohttp(
        "www.example.com/page/index.html,www.test.com,https://example.com, ,example.com/page, \
         ,www.example.com/",
        &[
            "example.com/page",
            "https://example.com",
            "www.example.com/",
            "www.example.com/page/index.html",
        ],
    );

    check_parse_nohttp(
        "example.com/#, example.com/#About\"",
        &["example.com/#", "example.com/#About"],
    );

    check_parse_nohttp(
        "// https://github.com/maidsafe/QA/blob/master/Documentation/Rust%20Lint%20Checks.md",
        &["https://github.com/maidsafe/QA/blob/master/Documentation/Rust%20Lint%20Checks.md"],
    );

    check_parse_nohttp(
        "www.youtube.com/watch?time_continue=866&v=WGchhsKhG-A",
        &["www.youtube.com/watch?time_continue=866&v=WGchhsKhG-A"],
    );

    check_parse_nohttp(
        "example.com/#`, example.com/#About`",
        &["example.com/#", "example.com/#About"],
    );

    check_parse_nohttp(
        "https://github.com/mola-T/flymd</a>.</p>",
        &["https://github.com/mola-T/flymd"],
    );

    check_parse_nohttp(
        "//test.com/ ftp://test.com/page ://test.com/",
        &["test.com/", "ftp://test.com/page"],
    );
}

// A line under scheme-prefixed mode drops trailing sentence punctuation.
#[test]
fn scheme_mode_trims_trailing_period() {
    assert_eq!(get_urls("See http://www.test.com.", false), vec!["http://www.test.com"]);
}

// A line under bare-domain mode keeps only matches with a path.
#[test]
fn bare_mode_requires_a_slash() {
    assert_eq!(
        get_urls("goog.com/page, www.google.com/.", true),
        vec!["goog.com/page", "www.google.com/"],
    );
    assert_eq!(get_urls("www.google.com", true), Vec::<&str>::new());
    assert_eq!(get_urls("www.google.com/", true), vec!["www.google.com/"]);
}

// Extracted substrings are never empty and stand left to right without
// overlapping: each match begins after the previous one ends.
#[test]
fn extraction_ordered_and_nonempty() {
    let line = "http://a.com/x http://a.com/x, see http://b.org/y.";
    let urls = get_urls(line, false);
    assert_eq!(urls, vec!["http://a.com/x", "http://a.com/x", "http://b.org/y"]);
    let mut from = 0;
    for u in urls {
        assert!(!u.is_empty());
        let at = line[from..].find(u).expect("match must appear after the previous one") + from;
        from = at + u.len();
    }
}

// A line with no URL-shaped text yields an empty list, never an error.
#[test]
fn no_urls_no_matches() {
    assert_eq!(get_urls("nothing to see here", false), Vec::<&str>::new());
    assert_eq!(get_urls("", false), Vec::<&str>::new());
    assert_eq!(get_urls("", true), Vec::<&str>::new());
}

// Scheme-mode corner cases: at least two characters and a boundary must
// follow the colon, and a second scheme inside the run is swallowed.
#[test]
fn scheme_mode_corner_cases() {
    assert_eq!(get_urls("http://.", false), Vec::<&str>::new());
    assert_eq!(get_urls("http://ab ", false), vec!["http://ab"]);
    assert_eq!(get_urls("http:ab", false), Vec::<&str>::new());
    assert_eq!(get_urls("http:abc", false), vec!["http:abc"]);
    assert_eq!(get_urls("http:http://a", false), vec!["http:http://a"]);
    assert_eq!(get_urls("HTTP://example.com/", false), Vec::<&str>::new());
    assert_eq!(get_urls("httpss://example.com/", false), Vec::<&str>::new());
}

// White space, including the Unicode kinds such as a no-break space,
// ends a match.
#[test]
fn whitespace_ends_a_match() {
    assert_eq!(
        get_urls("http://a.com/x\u{a0}http://b.org/y", false),
        vec!["http://a.com/x", "http://b.org/y"],
    );
    assert_eq!(get_urls("a.com/x\u{2003}b.org/y", true), vec!["a.com/x", "b.org/y"]);
    assert_eq!(get_urls("http://a.com/\u{3000}", false), vec!["http://a.com/"]);
}

// Bare-mode corner cases: the dot must stand at least two places before
// the end, and a trailing colon is trimmed like a period.
#[test]
fn bare_mode_corner_cases() {
    assert_eq!(get_urls("test./", true), Vec::<&str>::new());
    assert_eq!(get_urls("test.com/:", true), vec!["test.com/"]);
    assert_eq!(get_urls("a.b/", true), vec!["a.b/"]);
    assert_eq!(get_urls(".a/b", true), Vec::<&str>::new());
}
