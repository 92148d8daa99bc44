//! Link-out check: find URL-shaped substrings in text, match them against
//! exclusion patterns, and classify each occurrence with a probe result.
//!
//! The library holds the three algorithms of the system: the URL extractor
//! (`parse`), the pattern splitter and exclusion matcher (`url`), and the
//! check orchestrator (`check`), which deduplicates occurrences so that
//! each distinct URL text is probed at most once.  Reading files, issuing
//! network probes and printing stay with the caller, which hands plain
//! values in and takes plain values back.

pub mod chars;
pub mod check;
pub mod config;
pub mod error;
pub mod parse;
pub mod url;

use crate::parse::spec_get_urls;
use crate::url::{spec_url_matches, ExclusionPattern, ParsedUrl};
use vstd::prelude::*;

verus! {

/// Decides whether an HTTP response code counts as a failed probe.
/// Codes in the 200..400 range (success and redirect classes) are good;
/// everything else is bad.
pub fn response_code_is_bad(code: u32) -> (bad: bool)
    ensures
        bad == (code < 200 || code >= 400),
{
    code < 200 || code >= 400
}

/// A URL occurrence: the URL's text, the file and 1-based line it stands
/// on, whether its probe failed (`None` when it was never probed), and
/// whether an exclusion pattern covers it.
#[derive(Clone, Debug, Eq, Hash, Ord, PartialEq, PartialOrd)]
pub struct FileUrl {
    /// The URL.
    pub url: String,
    /// The path of the file containing the URL.
    pub filepath: String,
    /// The 1-based line the URL was found on.
    pub line: usize,
    /// If the URL was checked, the inner value is true if it failed to
    /// resolve.
    pub bad: Option<bool>,
    /// Whether this URL is covered by an exclusion pattern.
    pub excluded: bool,
}

/// Results of a run: the URL occurrences with their classifications, the
/// files visited when listing was asked for, and the distinct counts.
#[derive(Debug)]
pub struct Info {
    /// The URL occurrences that were processed.
    pub file_urls: Vec<FileUrl>,
    /// The files that were visited, when listing was asked for.
    pub files: Option<Vec<String>>,
    /// Total number of files visited.
    pub num_files: u64,
    /// Total number of distinct URL texts seen.
    pub num_urls: u64,
    /// Total number of occurrences classified bad.
    pub num_bad_urls: u64,
}

impl Default for Info {
    /// An empty result set with zero counts.
    fn default() -> (r: Self)
        ensures
            r.file_urls@.len() == 0,
            r.files is None,
            r.num_files == 0,
            r.num_urls == 0,
            r.num_bad_urls == 0,
    {
        Info { file_urls: Vec::new(), files: None, num_files: 0, num_urls: 0, num_bad_urls: 0 }
    }
}

/// The decimal digit characters in order.
pub open spec fn digit_char(d: nat) -> char {
    seq!['0', '1', '2', '3', '4', '5', '6', '7', '8', '9'][d as int]
}

/// The decimal writing of `n`, most significant digit first.
pub open spec fn spec_decimal(n: nat) -> Seq<char>
    decreases n
{
    if n < 10 {
        seq![digit_char(n)]
    } else {
        spec_decimal(n / 10).push(digit_char(n % 10))
    }
}

fn digit_to_char(d: usize) -> (c: char)
    requires
        d < 10,
    ensures
        c == digit_char(d as nat),
{
    match d {
        0 => '0',
        1 => '1',
        2 => '2',
        3 => '3',
        4 => '4',
        5 => '5',
        6 => '6',
        7 => '7',
        8 => '8',
        _ => '9',
    }
}

/// Relies on String::push: appends one character to the end of the string.
#[verifier::external_body]
fn push_char(s: &mut String, c: char)
    ensures
        final(s)@ == old(s)@ + seq![c],
{
    s.push(c);
}

/// Writes `x` in decimal.
fn usize_to_string(x: usize) -> (s: String)
    ensures
        s@ == spec_decimal(x as nat),
{
    let mut digits: Vec<char> = Vec::new();
    let mut v = x;
    while v >= 10
        invariant
            spec_decimal(x as nat) == spec_decimal(v as nat) + digits@.reverse(),
        decreases v,
    {
        let d = digit_to_char(v % 10);
        proof {
            let pre = digits@;
            assert(spec_decimal(v as nat) == spec_decimal((v / 10) as nat).push(
                digit_char((v % 10) as nat),
            ));
            assert(pre.push(d).reverse() =~= seq![d] + pre.reverse());
            assert(spec_decimal((v / 10) as nat).push(d) + pre.reverse() =~= spec_decimal(
                (v / 10) as nat,
            ) + (seq![d] + pre.reverse()));
        }
        digits.push(d);
        v = v / 10;
    }
    let d = digit_to_char(v);
    proof {
        let pre = digits@;
        assert(spec_decimal(v as nat) == seq![digit_char(v as nat)]);
        assert(pre.push(d).reverse() =~= seq![d] + pre.reverse());
        assert(seq![d] + pre.reverse() =~= spec_decimal(v as nat) + pre.reverse());
    }
    digits.push(d);
    let ghost target = spec_decimal(x as nat);
    proof {
        assert(digits@.reverse() == target);
    }
    let mut s = String::new();
    let mut j = digits.len();
    proof {
        assert(s@ =~= target.subrange(0, 0));
    }
    while j > 0
        invariant
            j <= digits@.len(),
            digits@.reverse() == target,
            s@ == target.subrange(0, digits@.len() - j),
        decreases j,
    {
        let c = digits[j - 1];
        push_char(&mut s, c);
        proof {
            assert(target[digits@.len() - j] == digits@[j - 1]);
            assert(s@ =~= target.subrange(0, digits@.len() - (j - 1)));
        }
        j -= 1;
    }
    proof {
        assert(s@ =~= target);
    }
    s
}

impl FileUrl {
    /// The `[path:line]` reference of this occurrence.
    pub fn file_ref(&self) -> (r: String)
        ensures
            r@ == seq!['['] + self.filepath@ + seq![':'] + spec_decimal(self.line as nat) + seq![
                ']',
            ],
    {
        let mut s = String::new();
        push_char(&mut s, '[');
        s.append(self.filepath.as_str());
        push_char(&mut s, ':');
        let line = usize_to_string(self.line);
        s.append(line.as_str());
        push_char(&mut s, ']');
        proof {
            assert(s@ =~= seq!['['] + self.filepath@ + seq![':'] + spec_decimal(self.line as nat)
                + seq![']']);
        }
        s
    }
}

/// Whether any of the parsed patterns covers the URL text.
pub open spec fn spec_any_match(u: Seq<char>, pats: Seq<ParsedUrl>) -> bool {
    exists|k: int| 0 <= k < pats.len() && spec_url_matches(u, #[trigger] pats[k])
}

/// The views of a list of parsed patterns.
pub open spec fn pats_view(pats: Seq<ExclusionPattern>) -> Seq<ParsedUrl> {
    pats.map_values(|p: ExclusionPattern| p@)
}

/// What `file_urls_from_lines` records for one occurrence.
pub ghost struct UrlRecord {
    /// The URL text.
    pub url: Seq<char>,
    /// The 1-based line number.
    pub line: int,
    /// Whether an exclusion pattern covers the URL.
    pub excluded: bool,
}

/// The records of one line of text: its extracted URLs in order, each
/// tagged with the line number and its exclusion.
pub open spec fn line_records(
    text: Seq<char>,
    lineno: int,
    no_http: bool,
    pats: Seq<ParsedUrl>,
) -> Seq<UrlRecord> {
    spec_get_urls(text, no_http).map_values(
        |u: Seq<char>| UrlRecord { url: u, line: lineno, excluded: spec_any_match(u, pats) },
    )
}

/// The records of all lines at or after `i`, line numbers 1-based.
pub open spec fn file_records(
    lines: Seq<Seq<char>>,
    i: int,
    no_http: bool,
    pats: Seq<ParsedUrl>,
) -> Seq<UrlRecord>
    decreases lines.len() - i when 0 <= i
{
    if !(0 <= i < lines.len()) {
        Seq::empty()
    } else {
        line_records(lines[i], i + 1, no_http, pats) + file_records(lines, i + 1, no_http, pats)
    }
}

/// The record each occurrence carries, with its file path and probe state
/// stripped.
pub open spec fn records_of(s: Seq<FileUrl>) -> Seq<UrlRecord> {
    s.map_values(|f: FileUrl| UrlRecord { url: f.url@, line: f.line as int, excluded: f.excluded })
}

/// Extracts every URL of a file's lines, in order, tagging each occurrence
/// with the file path, its 1-based line number and whether an exclusion
/// pattern covers it.  No occurrence is probed yet: every `bad` is `None`.
pub fn file_urls_from_lines(
    filepath: &str,
    lines: &Vec<String>,
    no_http: bool,
    exclude_urls: &[ExclusionPattern],
) -> (r: Vec<FileUrl>)
    ensures
        records_of(r@) == file_records(lines.deep_view(), 0, no_http, pats_view(exclude_urls@)),
        forall|k: int|
            0 <= k < r@.len() ==> (#[trigger] r@[k]).filepath@ == filepath@ && r@[k].bad is None,
{
    let ghost dv = lines.deep_view();
    let ghost pv = pats_view(exclude_urls@);
    let mut out: Vec<FileUrl> = Vec::new();
    let mut li: usize = 0;
    proof {
        assert(records_of(out@) + file_records(dv, 0, no_http, pv) =~= file_records(
            dv,
            0,
            no_http,
            pv,
        ));
    }
    while li < lines.len()
        invariant
            li <= lines@.len(),
            dv == lines.deep_view(),
            pv == pats_view(exclude_urls@),
            records_of(out@) + file_records(dv, li as int, no_http, pv) == file_records(
                dv,
                0,
                no_http,
                pv,
            ),
            forall|k: int|
                0 <= k < out@.len() ==> (#[trigger] out@[k]).filepath@ == filepath@
                    && out@[k].bad is None,
        decreases lines@.len() - li,
    {
        let text: &str = lines[li].as_str();
        proof {
            assert(text@ == dv[li as int]);
        }
        let lineno = li + 1;
        let urls = parse::get_urls(text, no_http);
        let ghost lrecs = line_records(text@, li + 1, no_http, pv);
        let ghost base = records_of(out@);
        let n = urls.len();
        let mut j: usize = 0;
        proof {
            assert(base + lrecs.subrange(0, 0) =~= base);
        }
        while j < n
            invariant
                j <= n,
                n == urls@.len(),
                li < lines@.len(),
                lineno == li + 1,
                dv == lines.deep_view(),
                pv == pats_view(exclude_urls@),
                text@ == dv[li as int],
                urls.deep_view() == spec_get_urls(text@, no_http),
                lrecs == line_records(text@, li + 1, no_http, pv),
                records_of(out@) == base + lrecs.subrange(0, j as int),
                forall|k: int|
                    0 <= k < out@.len() ==> (#[trigger] out@[k]).filepath@ == filepath@
                        && out@[k].bad is None,
            decreases n - j,
        {
            let u: &str = urls[j];
            proof {
                assert(u@ == urls.deep_view()[j as int]);
                assert(u@ == spec_get_urls(text@, no_http)[j as int]);
            }
            let excluded = url::is_url_excluded(u, exclude_urls);
            proof {
                if excluded {
                    let k = choose|k: int|
                        0 <= k < exclude_urls@.len() && spec_url_matches(
                            u@,
                            #[trigger] exclude_urls@[k]@,
                        );
                    assert(pv[k] == exclude_urls@[k]@);
                    assert(spec_any_match(u@, pv));
                } else {
                    if spec_any_match(u@, pv) {
                        let k = choose|k: int|
                            0 <= k < pv.len() && spec_url_matches(u@, #[trigger] pv[k]);
                        assert(pv[k] == exclude_urls@[k]@);
                        assert(false);
                    }
                }
                assert(excluded == spec_any_match(u@, pv));
            }
            let record = FileUrl {
                url: u.to_owned(),
                filepath: filepath.to_owned(),
                line: lineno,
                bad: None,
                excluded,
            };
            let ghost pre = records_of(out@);
            out.push(record);
            proof {
                assert(records_of(out@) =~= pre.push(
                    UrlRecord { url: u@, line: li + 1, excluded },
                ));
                assert(lrecs[j as int] == UrlRecord { url: u@, line: li + 1, excluded });
                assert(records_of(out@) =~= base + lrecs.subrange(0, j + 1));
            }
            j += 1;
        }
        proof {
            assert(lrecs.subrange(0, n as int) =~= lrecs);
            assert(file_records(dv, li as int, no_http, pv) == lrecs + file_records(
                dv,
                li + 1,
                no_http,
                pv,
            ));
            assert((base + lrecs) + file_records(dv, li + 1, no_http, pv) =~= base + (lrecs
                + file_records(dv, li + 1, no_http, pv)));
        }
        li += 1;
    }
    proof {
        assert(file_records(dv, li as int, no_http, pv) =~= Seq::<UrlRecord>::empty());
        assert(records_of(out@) + Seq::<UrlRecord>::empty() =~= records_of(out@));
    }
    out
}

} // verus!
