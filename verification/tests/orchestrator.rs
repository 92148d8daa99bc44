//! Tests for the check orchestrator, the configuration and the helpers.

use loch::check::{apply_probe_results, count_distinct_urls, probe_plan, sort_file_urls};
use loch::config::{split_input, Config};
use loch::url::parse_pattern;
use loch::{file_urls_from_lines, response_code_is_bad, FileUrl, Info};

fn occurrence(url: &str, filepath: &str, line: usize, excluded: bool) -> FileUrl {
    FileUrl {
        url: url.into(),
        filepath: filepath.into(),
        line,
        bad: None,
        excluded,
    }
}

#[test]
fn sort_groups_duplicates() {
    let mut urls = vec![
        occurrence("b.com/y", "f1", 2, false),
        occurrence("a.com/x", "f2", 3, false),
        occurrence("a.com/x", "f1", 1, false),
    ];
    sort_file_urls(&mut urls);
    assert_eq!(urls[0].url, "a.com/x");
    assert_eq!(urls[0].filepath, "f1");
    assert_eq!(urls[1].url, "a.com/x");
    assert_eq!(urls[1].filepath, "f2");
    assert_eq!(urls[2].url, "b.com/y");
}

#[test]
fn distinct_count_counts_transitions() {
    let mut urls = vec![
        occurrence("a.com/x", "f1", 1, false),
        occurrence("a.com/x", "f2", 3, false),
        occurrence("b.com/y", "f1", 2, true),
    ];
    sort_file_urls(&mut urls);
    assert_eq!(count_distinct_urls(&urls), 2);
    assert_eq!(count_distinct_urls(&Vec::new()), 0);
}

// The dedup law: a duplicated URL text is planned (and so probed) once,
// and every occurrence of it receives the identical classification.
#[test]
fn duplicates_probed_once_and_classified_alike() {
    let mut urls = vec![
        occurrence("b.com/y", "f1", 2, false),
        occurrence("a.com/x", "f2", 3, false),
        occurrence("a.com/x", "f1", 1, false),
    ];
    sort_file_urls(&mut urls);
    let plan = probe_plan(&urls, false);
    assert_eq!(plan, vec!["a.com/x".to_string(), "b.com/y".to_string()]);

    // One outcome per planned text: a.com/x is bad, b.com/y is good.
    let outcomes = vec![true, false];
    let num_bad = apply_probe_results(&mut urls, &outcomes, false);
    assert_eq!(urls[0].bad, Some(true));
    assert_eq!(urls[1].bad, Some(true));
    assert_eq!(urls[0].bad, urls[1].bad);
    assert_eq!(urls[2].bad, Some(false));
    // Both occurrences of the bad text count.
    assert_eq!(num_bad, 2);
}

// An excluded URL is never planned and gets no classification.
#[test]
fn excluded_urls_are_not_probed() {
    let mut urls = vec![
        occurrence("a.com/x", "f1", 1, true),
        occurrence("b.com/y", "f1", 2, false),
    ];
    sort_file_urls(&mut urls);
    let plan = probe_plan(&urls, false);
    assert_eq!(plan, vec!["b.com/y".to_string()]);
    let outcomes = vec![false];
    let num_bad = apply_probe_results(&mut urls, &outcomes, false);
    assert_eq!(urls[0].bad, None);
    assert!(urls[0].excluded);
    assert_eq!(urls[1].bad, Some(false));
    assert_eq!(num_bad, 0);
}

// With checking disabled nothing is planned and nothing is classified.
#[test]
fn no_check_probes_nothing() {
    let mut urls = vec![
        occurrence("a.com/x", "f1", 1, false),
        occurrence("b.com/y", "f1", 2, false),
    ];
    sort_file_urls(&mut urls);
    let plan = probe_plan(&urls, true);
    assert!(plan.is_empty());
    let num_bad = apply_probe_results(&mut urls, &Vec::new(), true);
    assert_eq!(urls[0].bad, None);
    assert_eq!(urls[1].bad, None);
    assert_eq!(num_bad, 0);
}

#[test]
fn response_codes_classify() {
    assert!(response_code_is_bad(0));
    assert!(response_code_is_bad(199));
    assert!(!response_code_is_bad(200));
    assert!(!response_code_is_bad(301));
    assert!(!response_code_is_bad(399));
    assert!(response_code_is_bad(400));
    assert!(response_code_is_bad(404));
    assert!(response_code_is_bad(500));
}

#[test]
fn file_urls_tag_lines_and_exclusions() {
    let patterns = vec![parse_pattern("test.com").unwrap()];
    let lines = vec![
        String::from("See http://www.test.com."),
        String::from("nothing"),
        String::from("http://example.org/a and http://www.test.com/b"),
    ];
    let urls = file_urls_from_lines("doc.md", &lines, false, &patterns);
    assert_eq!(urls.len(), 3);
    assert_eq!(urls[0].url, "http://www.test.com");
    assert_eq!(urls[0].line, 1);
    assert!(urls[0].excluded);
    assert_eq!(urls[0].filepath, "doc.md");
    assert_eq!(urls[0].bad, None);
    assert_eq!(urls[1].url, "http://example.org/a");
    assert_eq!(urls[1].line, 3);
    assert!(!urls[1].excluded);
    assert_eq!(urls[2].url, "http://www.test.com/b");
    assert_eq!(urls[2].line, 3);
    assert!(urls[2].excluded);
}

#[test]
fn file_ref_formats_path_and_line() {
    let fu = occurrence("a.com/x", "src/main.rs", 17, false);
    assert_eq!(fu.file_ref(), "[src/main.rs:17]");
    let fu = occurrence("a.com/x", "f", 0, false);
    assert_eq!(fu.file_ref(), "[f:0]");
    let fu = occurrence("a.com/x", "f", 120450, false);
    assert_eq!(fu.file_ref(), "[f:120450]");
}

#[test]
fn config_builders_set_single_flags() {
    let c = Config::default();
    assert!(!c.silent && !c.no_http && !c.verbose);
    assert!(c.exclude_urls.is_empty() && c.timeout.is_none());
    let c = Config::default().silent().no_http();
    assert!(c.silent && c.no_http);
    assert!(!c.verbose && !c.no_check && !c.no_color && !c.no_ignore && !c.follow);
    let c = Config::default()
        .all_urls()
        .follow()
        .list_files()
        .no_check()
        .no_color()
        .no_ignore()
        .verbose()
        .exclude_paths(&["*.md"])
        .exclude_urls(&["example.com", "test.org/x"]);
    assert!(c.all_urls && c.follow && c.list_files && c.no_check);
    assert!(c.no_color && c.no_ignore && c.verbose);
    assert_eq!(c.exclude_paths, vec!["*.md".to_string()]);
    assert_eq!(c.exclude_urls, vec!["example.com".to_string(), "test.org/x".to_string()]);
}

#[test]
fn split_input_on_spaces_and_commas() {
    let input = vec![
        String::from("a b,c"),
        String::from(""),
        String::from(",, d ,"),
        String::from("e"),
    ];
    let pieces = split_input(&input);
    assert_eq!(
        pieces,
        vec![
            "a".to_string(),
            "b".to_string(),
            "c".to_string(),
            "d".to_string(),
            "e".to_string(),
        ]
    );
}

#[test]
fn info_default_is_empty() {
    let info = Info::default();
    assert!(info.file_urls.is_empty());
    assert!(info.files.is_none());
    assert_eq!(info.num_files, 0);
    assert_eq!(info.num_urls, 0);
    assert_eq!(info.num_bad_urls, 0);
}
