//! The pattern splitter and the exclusion matcher.
//!
//! `split_pattern` decomposes a URL or an exclusion pattern into an optional
//! scheme prefix, the dot-separated domain labels, and the slash-separated
//! path segments.  `url_matches_pattern` decides whether a concrete URL is
//! covered by a parsed pattern: schemes must agree when both are given, the
//! pattern's labels must be a suffix of the URL's, and the pattern's
//! segments must be a prefix of the URL's.

use crate::chars::str_eq;
use vstd::prelude::*;

verus! {

/// First position in `[i, e)` holding `c`, or `e` if there is none.
pub open spec fn find_in(t: Seq<char>, i: int, e: int, c: char) -> int
    decreases e - i
{
    if !(0 <= i < e <= t.len()) {
        e
    } else if t[i] == c {
        i
    } else {
        find_in(t, i + 1, e, c)
    }
}

pub proof fn lemma_find_in(t: Seq<char>, i: int, e: int, c: char)
    requires
        0 <= i <= e <= t.len(),
    ensures
        i <= find_in(t, i, e, c) <= e,
        forall|k: int| i <= k < find_in(t, i, e, c) ==> t[k] != c,
        find_in(t, i, e, c) < e ==> t[find_in(t, i, e, c)] == c,
    decreases e - i,
{
    if i < e && t[i] != c {
        lemma_find_in(t, i + 1, e, c);
    }
}

/// First position at or after `i` that does not hold `/`.
pub open spec fn skip_slashes(t: Seq<char>, i: int) -> int
    decreases t.len() - i when 0 <= i <= t.len()
{
    if !(0 <= i < t.len()) {
        i
    } else if t[i] == '/' {
        skip_slashes(t, i + 1)
    } else {
        i
    }
}

pub proof fn lemma_skip_slashes(t: Seq<char>, i: int)
    requires
        0 <= i <= t.len(),
    ensures
        i <= skip_slashes(t, i) <= t.len(),
        forall|k: int| i <= k < skip_slashes(t, i) ==> t[k] == '/',
        skip_slashes(t, i) < t.len() ==> t[skip_slashes(t, i)] != '/',
    decreases t.len() - i,
{
    if i < t.len() && t[i] == '/' {
        lemma_skip_slashes(t, i + 1);
    }
}

/// End of the scheme prefix: when a `:` stands before the first `/`, the
/// prefix reaches past the colon and up to two following slashes; otherwise
/// there is no prefix and the result is 0.
pub open spec fn prefix_end(t: Seq<char>) -> int {
    let colon = find_in(t, 0, t.len() as int, ':');
    let slash = find_in(t, 0, t.len() as int, '/');
    if colon < t.len() && colon < slash {
        if colon + 1 < t.len() && t[colon + 1] == '/' {
            if colon + 2 < t.len() && t[colon + 2] == '/' {
                colon + 3
            } else {
                colon + 2
            }
        } else {
            colon + 1
        }
    } else {
        0
    }
}

pub proof fn lemma_prefix_end(t: Seq<char>)
    ensures
        0 <= prefix_end(t) <= t.len(),
{
    lemma_find_in(t, 0, t.len() as int, ':');
    lemma_find_in(t, 0, t.len() as int, '/');
}

/// Start of the domain region: the first non-`/` character after the prefix.
pub open spec fn domain_start(t: Seq<char>) -> int {
    skip_slashes(t, prefix_end(t))
}

/// End of the domain region: the first `/` at or after its start.
pub open spec fn domain_end(t: Seq<char>) -> int {
    find_in(t, domain_start(t), t.len() as int, '/')
}

/// The pieces of `t[i..e)` split on `sep`, empty pieces kept.
pub open spec fn split_range(t: Seq<char>, i: int, e: int, sep: char) -> Seq<Seq<char>>
    decreases e - i when 0 <= i <= e <= t.len()
        via split_range_decreases
{
    if !(0 <= i <= e <= t.len()) {
        Seq::empty()
    } else {
        let k = find_in(t, i, e, sep);
        if k >= e {
            seq![t.subrange(i, e)]
        } else {
            seq![t.subrange(i, k)] + split_range(t, k + 1, e, sep)
        }
    }
}

#[via_fn]
proof fn split_range_decreases(t: Seq<char>, i: int, e: int, sep: char) {
    if 0 <= i <= e <= t.len() {
        lemma_find_in(t, i, e, sep);
    }
}

/// The pieces of `t[i..e)` split on `sep`, empty pieces dropped.
pub open spec fn split_range_ne(t: Seq<char>, i: int, e: int, sep: char) -> Seq<Seq<char>>
    decreases e - i when 0 <= i <= e <= t.len()
        via split_range_ne_decreases
{
    if !(0 <= i <= e <= t.len()) {
        Seq::empty()
    } else {
        let k = find_in(t, i, e, sep);
        if k >= e {
            if i == e {
                Seq::empty()
            } else {
                seq![t.subrange(i, e)]
            }
        } else if k == i {
            split_range_ne(t, i + 1, e, sep)
        } else {
            seq![t.subrange(i, k)] + split_range_ne(t, k + 1, e, sep)
        }
    }
}

#[via_fn]
proof fn split_range_ne_decreases(t: Seq<char>, i: int, e: int, sep: char) {
    if 0 <= i <= e <= t.len() {
        lemma_find_in(t, i, e, sep);
    }
}

/// The three-part decomposition of a URL or pattern string.
pub ghost struct ParsedUrl {
    /// The scheme prefix, colon and slash variants included, if one is given.
    pub prefix: Option<Seq<char>>,
    /// The domain labels, in the order written.
    pub labels: Seq<Seq<char>>,
    /// The path segments, in the order written, empties dropped.
    pub segments: Seq<Seq<char>>,
}

/// Splits a string into prefix, domain labels and path segments.  The split
/// fails exactly when nothing but slashes follows the prefix, so that no
/// domain region exists.
pub open spec fn spec_split(t: Seq<char>) -> Option<ParsedUrl> {
    if domain_start(t) < t.len() {
        Some(
            ParsedUrl {
                prefix: if prefix_end(t) > 0 {
                    Some(t.subrange(0, prefix_end(t)))
                } else {
                    None
                },
                labels: split_range(t, domain_start(t), domain_end(t), '.'),
                segments: split_range_ne(t, domain_end(t), t.len() as int, '/'),
            },
        )
    } else {
        None
    }
}

/// Length of a scheme prefix with its trailing slashes dropped.
pub open spec fn scheme_len(p: Seq<char>) -> int
    decreases p.len()
{
    if p.len() > 0 && p[p.len() - 1] == '/' {
        scheme_len(p.drop_last())
    } else {
        p.len() as int
    }
}

pub proof fn lemma_scheme_len(p: Seq<char>)
    ensures
        0 <= scheme_len(p) <= p.len(),
    decreases p.len(),
{
    if p.len() > 0 && p[p.len() - 1] == '/' {
        lemma_scheme_len(p.drop_last());
    }
}

/// A scheme prefix with its trailing slashes dropped: `http:`, `http:/` and
/// `http://` all reduce to `http:`.
pub open spec fn spec_scheme(p: Seq<char>) -> Seq<char> {
    p.subrange(0, scheme_len(p))
}

/// The scheme predicate of matching: a missing prefix on either side imposes
/// no constraint; two given prefixes must carry the same scheme.
pub open spec fn scheme_ok(u: ParsedUrl, p: ParsedUrl) -> bool {
    ||| u.prefix is None
    ||| p.prefix is None
    ||| spec_scheme(u.prefix->0) == spec_scheme(p.prefix->0)
}

/// Whether the parsed URL `u` is covered by the parsed pattern `p`: the
/// three predicates of matching, ANDed.
pub open spec fn spec_matches(u: ParsedUrl, p: ParsedUrl) -> bool {
    &&& scheme_ok(u, p)
    &&& p.labels.is_suffix_of(u.labels)
    &&& p.segments.is_prefix_of(u.segments)
}

/// Whether the URL string `url` is covered by the parsed pattern `p`.
/// A string with no parseable domain matches nothing.
pub open spec fn spec_url_matches(url: Seq<char>, p: ParsedUrl) -> bool {
    match spec_split(url) {
        Some(u) => spec_matches(u, p),
        None => false,
    }
}

/// `spec_split` returns nothing exactly when no domain label can be carved
/// out: every character after the scheme prefix is a `/` (as in `https://`).
pub proof fn lemma_split_none_iff_no_domain(t: Seq<char>)
    ensures
        spec_split(t) is None <==> (forall|k: int|
            prefix_end(t) <= k < t.len() ==> t[k] == '/'),
{
    lemma_prefix_end(t);
    lemma_skip_slashes(t, prefix_end(t));
    if spec_split(t) is None {
        assert(domain_start(t) == t.len());
    } else {
        assert(domain_start(t) < t.len());
        assert(t[domain_start(t)] != '/');
    }
}

/// Matching is reflexive: any pattern string that itself parses as a URL is
/// covered by its own parse.
pub proof fn lemma_matches_reflexive(t: Seq<char>)
    requires
        spec_split(t) is Some,
    ensures
        spec_url_matches(t, spec_split(t)->0),
{
    let u = spec_split(t)->0;
    assert(u.labels =~= u.labels.subrange(0, u.labels.len() as int));
    assert(u.labels.is_suffix_of(u.labels));
    assert(u.segments.is_prefix_of(u.segments));
}

/// Domain coverage is one-sided: a pattern with more domain labels than
/// the URL never covers it, while a pattern whose labels form a suffix of
/// the URL's can.  `example.com` may cover `sub.example.com`, never the
/// other way round.
pub proof fn lemma_pattern_never_more_specific(u: ParsedUrl, p: ParsedUrl)
    requires
        p.labels.len() > u.labels.len(),
    ensures
        !spec_matches(u, p),
{
}

/// The scheme gate of matching: a scheme mismatch blocks a match only when
/// both sides carry an explicit prefix and those prefixes name different
/// schemes (ignoring the `//` and `/` suffix variants).
pub proof fn lemma_scheme_blocks_only_on_conflict(u: ParsedUrl, p: ParsedUrl)
    ensures
        (u.prefix is None || p.prefix is None) ==> scheme_ok(u, p),
        !scheme_ok(u, p) <==> (u.prefix is Some && p.prefix is Some && spec_scheme(u.prefix->0)
            != spec_scheme(p.prefix->0)),
        !scheme_ok(u, p) ==> !spec_matches(u, p),
{
}

} // verus!

verus! {

fn find_char(s: &str, i: usize, e: usize, c: char) -> (k: usize)
    requires
        i <= e <= s@.len(),
    ensures
        k as int == find_in(s@, i as int, e as int, c),
        i <= k <= e,
{
    let mut j = i;
    while j < e
        invariant
            i <= j <= e <= s@.len(),
            find_in(s@, i as int, e as int, c) == find_in(s@, j as int, e as int, c),
        decreases e - j,
    {
        if s.get_char(j) == c {
            return j;
        }
        j += 1;
    }
    j
}

fn skip_slashes_exec(s: &str, i: usize, n: usize) -> (k: usize)
    requires
        n == s@.len(),
        i <= n,
    ensures
        k as int == skip_slashes(s@, i as int),
        i <= k <= n,
{
    let mut j = i;
    while j < n
        invariant
            i <= j <= n == s@.len(),
            skip_slashes(s@, i as int) == skip_slashes(s@, j as int),
        decreases n - j,
    {
        if s.get_char(j) != '/' {
            return j;
        }
        j += 1;
    }
    j
}

fn split_push<'a>(s: &'a str, i: usize, e: usize, sep: char, parts: &mut Vec<&'a str>)
    requires
        i <= e <= s@.len(),
    ensures
        final(parts).deep_view() == old(parts).deep_view() + split_range(
            s@,
            i as int,
            e as int,
            sep,
        ),
    decreases e - i,
{
    let k = find_char(s, i, e, sep);
    proof {
        lemma_find_in(s@, i as int, e as int, sep);
    }
    if k >= e {
        let piece = s.substring_char(i, e);
        let ghost pre = parts.deep_view();
        parts.push(piece);
        proof {
            assert(parts.deep_view() =~= pre + seq![s@.subrange(i as int, e as int)]);
        }
    } else {
        let piece = s.substring_char(i, k);
        let ghost pre = parts.deep_view();
        parts.push(piece);
        proof {
            assert(parts.deep_view() =~= pre + seq![s@.subrange(i as int, k as int)]);
        }
        split_push(s, k + 1, e, sep, parts);
        proof {
            assert((pre + seq![s@.subrange(i as int, k as int)]) + split_range(
                s@,
                k + 1,
                e as int,
                sep,
            ) =~= pre + (seq![s@.subrange(i as int, k as int)] + split_range(
                s@,
                k + 1,
                e as int,
                sep,
            )));
        }
    }
}

fn split_ne_push<'a>(s: &'a str, i: usize, e: usize, sep: char, parts: &mut Vec<&'a str>)
    requires
        i <= e <= s@.len(),
    ensures
        final(parts).deep_view() == old(parts).deep_view() + split_range_ne(
            s@,
            i as int,
            e as int,
            sep,
        ),
    decreases e - i,
{
    let k = find_char(s, i, e, sep);
    proof {
        lemma_find_in(s@, i as int, e as int, sep);
    }
    if k >= e {
        if i == e {
            proof {
                assert(parts.deep_view() =~= parts.deep_view() + Seq::<Seq<char>>::empty());
            }
        } else {
            let piece = s.substring_char(i, e);
            let ghost pre = parts.deep_view();
            parts.push(piece);
            proof {
                assert(parts.deep_view() =~= pre + seq![s@.subrange(i as int, e as int)]);
            }
        }
    } else if k == i {
        split_ne_push(s, i + 1, e, sep, parts);
    } else {
        let piece = s.substring_char(i, k);
        let ghost pre = parts.deep_view();
        parts.push(piece);
        proof {
            assert(parts.deep_view() =~= pre + seq![s@.subrange(i as int, k as int)]);
        }
        split_ne_push(s, k + 1, e, sep, parts);
        proof {
            assert((pre + seq![s@.subrange(i as int, k as int)]) + split_range_ne(
                s@,
                k + 1,
                e as int,
                sep,
            ) =~= pre + (seq![s@.subrange(i as int, k as int)] + split_range_ne(
                s@,
                k + 1,
                e as int,
                sep,
            )));
        }
    }
}

/// A parsed exclusion pattern, borrowing its pieces from the pattern string.
pub struct ExclusionPattern<'a> {
    /// The scheme prefix, colon and slash variants included, if one is given.
    pub prefix: Option<&'a str>,
    /// The domain labels, in the order written.
    pub domains: Vec<&'a str>,
    /// The path segments, in the order written, empties dropped.
    pub path: Vec<&'a str>,
}

impl<'a> View for ExclusionPattern<'a> {
    type V = ParsedUrl;

    open spec fn view(&self) -> ParsedUrl {
        ParsedUrl {
            prefix: match self.prefix {
                Some(s) => Some(s@),
                None => None,
            },
            labels: self.domains.deep_view(),
            segments: self.path.deep_view(),
        }
    }
}

/// Splits a URL or pattern string into its three-part decomposition, or
/// returns nothing when no domain region exists.
pub fn parse_pattern<'a>(s: &'a str) -> (r: Option<ExclusionPattern<'a>>)
    ensures
        r is Some <==> spec_split(s@) is Some,
        match r {
            Some(p) => p@ == spec_split(s@)->0,
            None => true,
        },
{
    let n = s.unicode_len();
    let colon = find_char(s, 0, n, ':');
    let slash = find_char(s, 0, n, '/');
    let pe: usize = if colon < n && colon < slash {
        if colon + 1 < n && s.get_char(colon + 1) == '/' {
            if colon + 2 < n && s.get_char(colon + 2) == '/' {
                colon + 3
            } else {
                colon + 2
            }
        } else {
            colon + 1
        }
    } else {
        0
    };
    proof {
        assert(pe as int == prefix_end(s@));
    }
    let ds = skip_slashes_exec(s, pe, n);
    if ds >= n {
        return None;
    }
    let de = find_char(s, ds, n, '/');
    let prefix: Option<&'a str> = if pe > 0 {
        Some(s.substring_char(0, pe))
    } else {
        None
    };
    let mut domains: Vec<&'a str> = Vec::new();
    split_push(s, ds, de, '.', &mut domains);
    let mut path: Vec<&'a str> = Vec::new();
    split_ne_push(s, de, n, '/', &mut path);
    let result = ExclusionPattern { prefix, domains, path };
    proof {
        assert(Seq::<Seq<char>>::empty() + split_range(s@, ds as int, de as int, '.')
            =~= split_range(s@, ds as int, de as int, '.'));
        assert(Seq::<Seq<char>>::empty() + split_range_ne(s@, de as int, n as int, '/')
            =~= split_range_ne(s@, de as int, n as int, '/'));
    }
    Some(result)
}

/// Returns the prefix if present, the list of domain labels in order, and
/// the path segments if present; or nothing when the string holds no
/// parseable domain.
pub fn split_pattern<'a>(url_pattern: &'a str) -> (r: Option<
    (Option<&'a str>, Vec<&'a str>, Vec<&'a str>),
>)
    ensures
        r is Some <==> spec_split(url_pattern@) is Some,
        match r {
            Some(parts) => {
                let p = spec_split(url_pattern@)->0;
                &&& match parts.0 {
                    Some(pre) => p.prefix == Some(pre@),
                    None => p.prefix is None,
                }
                &&& parts.1.deep_view() == p.labels
                &&& parts.2.deep_view() == p.segments
            },
            None => true,
        },
{
    match parse_pattern(url_pattern) {
        Some(p) => Some((p.prefix, p.domains, p.path)),
        None => None,
    }
}

} // verus!

verus! {

fn scheme_trim_len(p: &str) -> (l: usize)
    ensures
        l as int == scheme_len(p@),
{
    let n = p.unicode_len();
    proof {
        assert(p@.subrange(0, n as int) =~= p@);
    }
    let mut l = n;
    while l > 0
        invariant
            l <= n,
            n == p@.len(),
            scheme_len(p@) == scheme_len(p@.subrange(0, l as int)),
        decreases l,
    {
        if p.get_char(l - 1) != '/' {
            proof {
                let sub = p@.subrange(0, l as int);
                assert(sub[sub.len() - 1] == p@[l as int - 1]);
                assert(scheme_len(sub) == l as int);
            }
            return l;
        }
        proof {
            let sub = p@.subrange(0, l as int);
            assert(sub[sub.len() - 1] == p@[l as int - 1]);
            assert(sub.drop_last() =~= p@.subrange(0, l as int - 1));
        }
        l -= 1;
    }
    proof {
        assert(scheme_len(p@.subrange(0, 0)) == 0);
    }
    0
}

fn scheme_eq(a: &str, b: &str) -> (r: bool)
    ensures
        r == (spec_scheme(a@) == spec_scheme(b@)),
{
    proof {
        lemma_scheme_len(a@);
        lemma_scheme_len(b@);
    }
    let la = scheme_trim_len(a);
    let lb = scheme_trim_len(b);
    if la != lb {
        proof {
            assert(spec_scheme(a@).len() != spec_scheme(b@).len());
        }
        return false;
    }
    let mut i: usize = 0;
    while i < la
        invariant
            i <= la,
            la == lb,
            la as int == scheme_len(a@),
            lb as int == scheme_len(b@),
            la <= a@.len(),
            lb <= b@.len(),
            forall|k: int| 0 <= k < i ==> a@[k] == b@[k],
        decreases la - i,
    {
        if a.get_char(i) != b.get_char(i) {
            proof {
                assert(spec_scheme(a@)[i as int] != spec_scheme(b@)[i as int]);
            }
            return false;
        }
        i += 1;
    }
    proof {
        assert(spec_scheme(a@) =~= spec_scheme(b@));
    }
    true
}

fn labels_suffix(p: &Vec<&str>, u: &Vec<&str>) -> (r: bool)
    ensures
        r == p.deep_view().is_suffix_of(u.deep_view()),
{
    let pl = p.len();
    let ul = u.len();
    if pl > ul {
        return false;
    }
    let mut k: usize = 0;
    while k < pl
        invariant
            k <= pl <= ul,
            pl == p@.len(),
            ul == u@.len(),
            forall|j: int| 0 <= j < k ==> p.deep_view()[j] == u.deep_view()[ul - pl + j],
        decreases pl - k,
    {
        if !str_eq(p[k], u[ul - pl + k]) {
            proof {
                assert(p.deep_view()[k as int] != u.deep_view()[ul - pl + k as int]);
                if p.deep_view().is_suffix_of(u.deep_view()) {
                    assert(p.deep_view()[k as int] == u.deep_view().subrange(
                        ul - pl,
                        ul as int,
                    )[k as int]);
                }
            }
            return false;
        }
        k += 1;
    }
    proof {
        assert(p.deep_view() =~= u.deep_view().subrange(ul - pl, ul as int));
    }
    true
}

fn segments_prefix(p: &Vec<&str>, u: &Vec<&str>) -> (r: bool)
    ensures
        r == p.deep_view().is_prefix_of(u.deep_view()),
{
    let pl = p.len();
    let ul = u.len();
    if pl > ul {
        return false;
    }
    let mut k: usize = 0;
    while k < pl
        invariant
            k <= pl <= ul,
            pl == p@.len(),
            ul == u@.len(),
            forall|j: int| 0 <= j < k ==> p.deep_view()[j] == u.deep_view()[j],
        decreases pl - k,
    {
        if !str_eq(p[k], u[k]) {
            proof {
                assert(p.deep_view()[k as int] != u.deep_view()[k as int]);
                if p.deep_view().is_prefix_of(u.deep_view()) {
                    assert(p.deep_view()[k as int] == u.deep_view().subrange(
                        0,
                        pl as int,
                    )[k as int]);
                }
            }
            return false;
        }
        k += 1;
    }
    proof {
        assert(p.deep_view() =~= u.deep_view().subrange(0, pl as int));
    }
    true
}

/// Returns true if the URL is a match of the exclusion pattern: the schemes
/// agree when both are given, the pattern's domain labels are a suffix of
/// the URL's, and the pattern's path segments are a prefix of the URL's.
/// A URL with no parseable domain matches nothing.
pub fn url_matches_pattern(url: &str, pattern: &ExclusionPattern) -> (r: bool)
    ensures
        r == spec_url_matches(url@, pattern@),
{
    match parse_pattern(url) {
        Some(u) => {
            let scheme_fine = match (u.prefix, pattern.prefix) {
                (Some(a), Some(b)) => scheme_eq(a, b),
                _ => true,
            };
            if !scheme_fine {
                return false;
            }
            if !labels_suffix(&pattern.domains, &u.domains) {
                return false;
            }
            segments_prefix(&pattern.path, &u.path)
        },
        None => false,
    }
}

/// Returns true if the URL matches one of the exclusion patterns.
pub fn is_url_excluded(url: &str, exclude_patterns: &[ExclusionPattern]) -> (r: bool)
    ensures
        r == exists|k: int|
            0 <= k < exclude_patterns@.len() && spec_url_matches(
                url@,
                #[trigger] exclude_patterns@[k]@,
            ),
{
    let n = exclude_patterns.len();
    let mut i: usize = 0;
    while i < n
        invariant
            i <= n,
            n == exclude_patterns@.len(),
            forall|k: int| 0 <= k < i ==> !spec_url_matches(url@, #[trigger] exclude_patterns@[k]@),
        decreases n - i,
    {
        let pat = vstd::slice::slice_index_get(exclude_patterns, i);
        if url_matches_pattern(url, pat) {
            return true;
        }
        i += 1;
    }
    false
}

/// Returns true if the URL is a match of the URL exclusion pattern, or an
/// `InvalidPattern` error carrying the pattern's text when the pattern
/// itself has no parseable domain.
pub fn url_matches_url_pattern(url: &str, url_pattern: &str) -> (r: crate::error::LochResult<bool>)
    ensures
        r is Ok <==> spec_split(url_pattern@) is Some,
        match r {
            Ok(b) => b == spec_url_matches(url@, spec_split(url_pattern@)->0),
            Err(e) => e matches crate::error::Error::InvalidPattern(pt) && pt@ == url_pattern@,
        },
{
    match parse_pattern(url_pattern) {
        Some(p) => Ok(url_matches_pattern(url, &p)),
        None => Err(crate::error::Error::InvalidPattern(url_pattern.to_owned())),
    }
}

/// Parses every exclusion pattern, or reports the first one with no
/// parseable domain as an `InvalidPattern` error.
pub fn parse_exclusion_patterns<'a>(patterns: &'a Vec<String>) -> (r: crate::error::LochResult<
    Vec<ExclusionPattern<'a>>,
>)
    ensures
        r is Ok <==> (forall|k: int|
            0 <= k < patterns@.len() ==> spec_split(#[trigger] patterns@[k]@) is Some),
        match r {
            Ok(v) => v@.len() == patterns@.len() && forall|k: int|
                0 <= k < v@.len() ==> #[trigger] v@[k]@ == spec_split(patterns@[k]@)->0,
            Err(e) => e matches crate::error::Error::InvalidPattern(pt) && exists|k: int|
                {
                    &&& 0 <= k < patterns@.len()
                    &&& pt@ == #[trigger] patterns@[k]@
                    &&& spec_split(patterns@[k]@) is None
                    &&& forall|j: int| 0 <= j < k ==> spec_split(#[trigger] patterns@[j]@) is Some
                },
        },
{
    let n = patterns.len();
    let mut out: Vec<ExclusionPattern<'a>> = Vec::new();
    let mut i: usize = 0;
    while i < n
        invariant
            i <= n,
            n == patterns@.len(),
            out@.len() == i as int,
            forall|k: int| 0 <= k < i ==> spec_split(#[trigger] patterns@[k]@) is Some,
            forall|k: int| 0 <= k < i ==> #[trigger] out@[k]@ == spec_split(patterns@[k]@)->0,
        decreases n - i,
    {
        match parse_pattern(patterns[i].as_str()) {
            Some(p) => {
                out.push(p);
            },
            None => {
                return Err(crate::error::Error::InvalidPattern(patterns[i].clone()));
            },
        }
        i += 1;
    }
    Ok(out)
}

} // verus!

