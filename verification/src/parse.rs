//! The URL extractor.
//!
//! `get_urls` scans one line of text left to right and returns the
//! URL-shaped substrings it contains, in order and without overlap.
//!
//! In the default mode a match is an `http:`/`https:` scheme followed by a
//! run of valid characters, trimmed back to the last boundary character,
//! with at least three characters after the colon.  With `no_http` set, a
//! match instead begins on a start character, runs to the last boundary
//! character of the surrounding valid-character run, and must contain a `.`
//! at least two places before its end; such a match is kept only if it
//! contains a `/`, since a bare domain without a path is too weak a signal.

use crate::chars::{
    boundary_char, is_boundary_char, is_invalid_char, is_start_char, is_valid_char, start_char,
    valid_char,
};
use vstd::prelude::*;

verus! {

/// First position at or after `i` where the run of valid characters ends.
pub open spec fn run_end(s: Seq<char>, i: int) -> int
    decreases s.len() - i when 0 <= i <= s.len()
{
    if i < 0 || i >= s.len() {
        i
    } else if is_invalid_char(s[i]) {
        i
    } else {
        run_end(s, i + 1)
    }
}

pub proof fn lemma_run_end(s: Seq<char>, i: int)
    requires
        0 <= i <= s.len(),
    ensures
        i <= run_end(s, i) <= s.len(),
        forall|k: int| i <= k < run_end(s, i) ==> is_valid_char(#[trigger] s[k]),
        run_end(s, i) == s.len() || is_invalid_char(s[run_end(s, i)]),
    decreases s.len() - i,
{
    if i < s.len() && is_valid_char(s[i]) {
        lemma_run_end(s, i + 1);
    }
}

/// Largest position in `[i, e)` holding a boundary character, if any.
pub open spec fn last_boundary(s: Seq<char>, i: int, e: int) -> Option<int>
    decreases e - i when i <= e
{
    if e <= i {
        None
    } else if is_boundary_char(s[e - 1]) {
        Some(e - 1)
    } else {
        last_boundary(s, i, e - 1)
    }
}

pub proof fn lemma_last_boundary(s: Seq<char>, i: int, e: int)
    requires
        i <= e,
    ensures
        last_boundary(s, i, e) is Some ==> {
            let q = last_boundary(s, i, e)->0;
            &&& i <= q < e
            &&& is_boundary_char(s[q])
            &&& forall|k: int| q < k < e ==> !is_boundary_char(#[trigger] s[k])
        },
        last_boundary(s, i, e) is None ==> forall|k: int|
            i <= k < e ==> !is_boundary_char(#[trigger] s[k]),
    decreases e - i,
{
    if e > i && !is_boundary_char(s[e - 1]) {
        lemma_last_boundary(s, i, e - 1);
    }
}

/// Position just past an `http:` or `https:` scheme written at `i`.
pub open spec fn scheme_end(s: Seq<char>, i: int) -> Option<int> {
    if i + 6 <= s.len() && s[i] == 'h' && s[i + 1] == 't' && s[i + 2] == 't' && s[i + 3] == 'p'
        && s[i + 4] == 's' && s[i + 5] == ':' {
        Some(i + 6)
    } else if i + 5 <= s.len() && s[i] == 'h' && s[i + 1] == 't' && s[i + 2] == 't'
        && s[i + 3] == 'p' && s[i + 4] == ':' {
        Some(i + 5)
    } else {
        None
    }
}

/// Whether some position in `[a, b]` holds a `.`.
pub open spec fn has_dot(s: Seq<char>, a: int, b: int) -> bool {
    exists|p: int| a <= p <= b && s[p] == '.'
}

/// End of a scheme-prefixed match starting at `i`: the scheme, then the
/// surrounding valid run trimmed to its last boundary character, keeping at
/// least three characters after the colon.
pub open spec fn match_end_http(s: Seq<char>, i: int) -> Option<int> {
    match scheme_end(s, i) {
        Some(j) => {
            let e = run_end(s, j);
            match last_boundary(s, j, e) {
                Some(q) => if q >= j + 2 {
                    Some(q + 1)
                } else {
                    None
                },
                None => None,
            }
        },
        None => None,
    }
}

/// End of a bare-domain match starting at `i`: a start character, then the
/// valid run trimmed to its last boundary character `q`, provided a `.`
/// stands strictly inside, at least two places before `q`.
pub open spec fn match_end_bare(s: Seq<char>, i: int) -> Option<int> {
    if 0 <= i < s.len() && is_start_char(s[i]) {
        let e = run_end(s, i);
        match last_boundary(s, i, e) {
            Some(q) => if has_dot(s, i + 1, q - 2) {
                Some(q + 1)
            } else {
                None
            },
            None => None,
        }
    } else {
        None
    }
}

/// End of the match starting at `i` in the given mode, if any.
pub open spec fn match_end(s: Seq<char>, i: int, no_http: bool) -> Option<int> {
    if no_http {
        match_end_bare(s, i)
    } else {
        match_end_http(s, i)
    }
}

pub proof fn lemma_match_end_bounds(s: Seq<char>, i: int, no_http: bool)
    requires
        0 <= i < s.len(),
        match_end(s, i, no_http) is Some,
    ensures
        i + 4 <= match_end(s, i, no_http)->0 <= s.len(),
{
    if no_http {
        lemma_run_end(s, i);
        lemma_last_boundary(s, i, run_end(s, i));
        let q = last_boundary(s, i, run_end(s, i))->0;
        let p = choose|p: int| i + 1 <= p <= q - 2 && s[p] == '.';
        assert(q >= p + 2 >= i + 3);
    } else {
        let j = scheme_end(s, i)->0;
        lemma_run_end(s, j);
        lemma_last_boundary(s, j, run_end(s, j));
    }
}

/// Whether the substring contains a `/`.
pub open spec fn contains_slash(t: Seq<char>) -> bool {
    exists|k: int| 0 <= k < t.len() && t[k] == '/'
}

/// Whether a match survives the mode's filter: in bare-domain mode only
/// matches containing a `/` are kept.
pub open spec fn keep_match(t: Seq<char>, no_http: bool) -> bool {
    !no_http || contains_slash(t)
}

/// The `[start, end)` spans of the kept matches at or after `i`, scanning
/// left to right without overlap.
pub open spec fn kept_spans(s: Seq<char>, i: int, no_http: bool) -> Seq<(int, int)>
    decreases s.len() - i when 0 <= i
        via kept_spans_decreases
{
    if !(0 <= i < s.len()) {
        Seq::empty()
    } else {
        match match_end(s, i, no_http) {
            Some(end) => if keep_match(s.subrange(i, end), no_http) {
                seq![(i, end)] + kept_spans(s, end, no_http)
            } else {
                kept_spans(s, end, no_http)
            },
            None => kept_spans(s, i + 1, no_http),
        }
    }
}

#[via_fn]
proof fn kept_spans_decreases(s: Seq<char>, i: int, no_http: bool) {
    if 0 <= i < s.len() {
        match match_end(s, i, no_http) {
            Some(end) => lemma_match_end_bounds(s, i, no_http),
            None => {},
        }
    }
}

/// The substrings of the kept matches at or after `i`.
pub open spec fn urls_from(s: Seq<char>, i: int, no_http: bool) -> Seq<Seq<char>> {
    kept_spans(s, i, no_http).map_values(|sp: (int, int)| s.subrange(sp.0, sp.1))
}

/// All URL-shaped substrings of the line, in order of occurrence.
pub open spec fn spec_get_urls(s: Seq<char>, no_http: bool) -> Seq<Seq<char>> {
    urls_from(s, 0, no_http)
}

proof fn lemma_kept_spans_wf(s: Seq<char>, i: int, no_http: bool)
    requires
        0 <= i,
    ensures
        forall|k: int| 0 <= k < kept_spans(s, i, no_http).len() ==> i <= (#[trigger] kept_spans(
            s,
            i,
            no_http,
        )[k]).0 && kept_spans(s, i, no_http)[k].0 + 4 <= kept_spans(s, i, no_http)[k].1 <= s.len(),
        forall|k: int, l: int|
            0 <= k < l < kept_spans(s, i, no_http).len()
                ==> (#[trigger] kept_spans(s, i, no_http)[k]).1
                <= (#[trigger] kept_spans(s, i, no_http)[l]).0,
    decreases s.len() - i,
{
    if 0 <= i < s.len() {
        let ks = kept_spans(s, i, no_http);
        match match_end(s, i, no_http) {
            Some(end) => {
                lemma_match_end_bounds(s, i, no_http);
                lemma_kept_spans_wf(s, end, no_http);
                let rest = kept_spans(s, end, no_http);
                if keep_match(s.subrange(i, end), no_http) {
                    assert(ks == seq![(i, end)] + rest);
                    assert forall|k: int| 0 <= k < ks.len() implies i <= (#[trigger] ks[k]).0
                        && ks[k].0 + 4 <= ks[k].1 <= s.len() by {
                        if k == 0 {
                            assert(ks[0] == (i, end));
                        } else {
                            assert(ks[k] == rest[k - 1]);
                        }
                    }
                    assert forall|k: int, l: int|
                        0 <= k < l < ks.len() implies (#[trigger] ks[k]).1
                        <= (#[trigger] ks[l]).0 by {
                        assert(ks[l] == rest[l - 1]);
                        if k > 0 {
                            assert(ks[k] == rest[k - 1]);
                        } else {
                            assert(ks[0] == (i, end));
                        }
                    }
                } else {
                    assert(ks == rest);
                    assert forall|k: int| 0 <= k < ks.len() implies i <= (#[trigger] ks[k]).0
                        && ks[k].0 + 4 <= ks[k].1 <= s.len() by {
                        assert(ks[k] == rest[k]);
                    }
                    assert forall|k: int, l: int|
                        0 <= k < l < ks.len() implies (#[trigger] ks[k]).1
                        <= (#[trigger] ks[l]).0 by {
                        assert(ks[k] == rest[k]);
                        assert(ks[l] == rest[l]);
                    }
                }
            },
            None => {
                lemma_kept_spans_wf(s, i + 1, no_http);
                let rest = kept_spans(s, i + 1, no_http);
                assert(ks == rest);
                assert forall|k: int| 0 <= k < ks.len() implies i <= (#[trigger] ks[k]).0
                    && ks[k].0 + 4 <= ks[k].1 <= s.len() by {
                    assert(ks[k] == rest[k]);
                }
                assert forall|k: int, l: int|
                    0 <= k < l < ks.len() implies (#[trigger] ks[k]).1 <= (#[trigger] ks[l]).0 by {
                    assert(ks[k] == rest[k]);
                    assert(ks[l] == rest[l]);
                }
            },
        }
    }
}

/// The extractor never produces an empty substring, and its matches stand
/// left to right without overlap: each match ends at or before the start of
/// the next.
pub proof fn lemma_extraction_disjoint(s: Seq<char>, no_http: bool)
    ensures
        forall|k: int| 0 <= k < kept_spans(s, 0, no_http).len() ==> 0 <= (#[trigger] kept_spans(
            s,
            0,
            no_http,
        )[k]).0 && kept_spans(s, 0, no_http)[k].0 < kept_spans(s, 0, no_http)[k].1 <= s.len(),
        forall|k: int, l: int|
            0 <= k < l < kept_spans(s, 0, no_http).len()
                ==> (#[trigger] kept_spans(s, 0, no_http)[k]).1
                <= (#[trigger] kept_spans(s, 0, no_http)[l]).0,
        forall|k: int| 0 <= k < spec_get_urls(s, no_http).len()
            ==> (#[trigger] spec_get_urls(s, no_http)[k]).len() > 0,
{
    lemma_kept_spans_wf(s, 0, no_http);
}

/// In bare-domain mode every extracted substring contains a `/`.
pub proof fn lemma_bare_urls_have_slash(s: Seq<char>)
    ensures
        forall|k: int| 0 <= k < spec_get_urls(s, true).len()
            ==> contains_slash(#[trigger] spec_get_urls(s, true)[k]),
{
    lemma_kept_urls_filtered(s, 0, true);
}

proof fn lemma_kept_urls_filtered(s: Seq<char>, i: int, no_http: bool)
    requires
        0 <= i,
    ensures
        forall|k: int| 0 <= k < kept_spans(s, i, no_http).len() ==> keep_match(
            s.subrange(
                (#[trigger] kept_spans(s, i, no_http)[k]).0,
                kept_spans(s, i, no_http)[k].1,
            ),
            no_http,
        ),
    decreases s.len() - i,
{
    if 0 <= i < s.len() {
        let ks = kept_spans(s, i, no_http);
        match match_end(s, i, no_http) {
            Some(end) => {
                lemma_match_end_bounds(s, i, no_http);
                lemma_kept_urls_filtered(s, end, no_http);
                let rest = kept_spans(s, end, no_http);
                if keep_match(s.subrange(i, end), no_http) {
                    assert(ks == seq![(i, end)] + rest);
                    assert forall|k: int| 0 <= k < ks.len() implies keep_match(
                        s.subrange((#[trigger] ks[k]).0, ks[k].1),
                        no_http,
                    ) by {
                        if k == 0 {
                            assert(ks[0] == (i, end));
                        } else {
                            assert(ks[k] == rest[k - 1]);
                        }
                    }
                } else {
                    assert(ks == rest);
                    assert forall|k: int| 0 <= k < ks.len() implies keep_match(
                        s.subrange((#[trigger] ks[k]).0, ks[k].1),
                        no_http,
                    ) by {
                        assert(ks[k] == rest[k]);
                    }
                }
            },
            None => {
                lemma_kept_urls_filtered(s, i + 1, no_http);
                let rest = kept_spans(s, i + 1, no_http);
                assert(ks == rest);
                assert forall|k: int| 0 <= k < ks.len() implies keep_match(
                    s.subrange((#[trigger] ks[k]).0, ks[k].1),
                    no_http,
                ) by {
                    assert(ks[k] == rest[k]);
                }
            },
        }
    }
}

} // verus!


verus! {

fn find_run_end(line: &str, j: usize, n: usize) -> (e: usize)
    requires
        n == line@.len(),
        j <= n,
    ensures
        run_end(line@, j as int) == e as int,
        j <= e <= n,
{
    let mut k = j;
    while k < n
        invariant
            n == line@.len(),
            j <= k <= n,
            run_end(line@, j as int) == run_end(line@, k as int),
        decreases n - k,
    {
        if !valid_char(line.get_char(k)) {
            return k;
        }
        k += 1;
    }
    k
}

fn find_last_boundary(line: &str, i: usize, e: usize) -> (r: Option<usize>)
    requires
        e <= line@.len(),
        i <= e,
    ensures
        ({
            let lb = last_boundary(line@, i as int, e as int);
            match r {
                Some(q) => lb == Some(q as int) && i <= q < e,
                None => lb is None,
            }
        }),
{
    let mut k = e;
    while k > i
        invariant
            i <= k <= e,
            e <= line@.len(),
            last_boundary(line@, i as int, e as int) == last_boundary(line@, i as int, k as int),
        decreases k,
    {
        if boundary_char(line.get_char(k - 1)) {
            return Some(k - 1);
        }
        k -= 1;
    }
    None
}

fn has_dot_exec(line: &str, a: usize, b: usize) -> (r: bool)
    requires
        a <= b,
        b < line@.len(),
    ensures
        r == has_dot(line@, a as int, b as int),
{
    let mut p = a;
    while p < b
        invariant
            a <= p <= b,
            b < line@.len(),
            forall|k: int| a <= k < p ==> line@[k] != '.',
        decreases b - p,
    {
        if line.get_char(p) == '.' {
            assert(line@[p as int] == '.');
            return true;
        }
        p += 1;
    }
    if line.get_char(b) == '.' {
        assert(line@[b as int] == '.');
        true
    } else {
        false
    }
}

fn contains_slash_exec(t: &str) -> (r: bool)
    ensures
        r == contains_slash(t@),
{
    let n = t.unicode_len();
    let mut p: usize = 0;
    while p < n
        invariant
            n == t@.len(),
            p <= n,
            forall|k: int| 0 <= k < p ==> t@[k] != '/',
        decreases n - p,
    {
        if t.get_char(p) == '/' {
            assert(t@[p as int] == '/');
            return true;
        }
        p += 1;
    }
    false
}

fn match_end_at(line: &str, i: usize, n: usize, no_http: bool) -> (r: Option<usize>)
    requires
        n == line@.len(),
        i < n,
    ensures
        ({
            let m = match_end(line@, i as int, no_http);
            match r {
                Some(e) => m == Some(e as int) && i < e <= n,
                None => m is None,
            }
        }),
{
    proof {
        if match_end(line@, i as int, no_http) is Some {
            lemma_match_end_bounds(line@, i as int, no_http);
        }
    }
    if no_http {
        if !start_char(line.get_char(i)) {
            return None;
        }
        let e = find_run_end(line, i, n);
        match find_last_boundary(line, i, e) {
            Some(q) => {
                let found = if q - i >= 3 {
                    has_dot_exec(line, i + 1, q - 2)
                } else {
                    false
                };
                if found {
                    Some(q + 1)
                } else {
                    None
                }
            },
            None => None,
        }
    } else {
        let scheme: Option<usize> = if n - i >= 6 && line.get_char(i) == 'h' && line.get_char(
            i + 1,
        ) == 't' && line.get_char(i + 2) == 't' && line.get_char(i + 3) == 'p' && line.get_char(
            i + 4,
        ) == 's' && line.get_char(i + 5) == ':' {
            Some(i + 6)
        } else if n - i >= 5 && line.get_char(i) == 'h' && line.get_char(i + 1) == 't'
            && line.get_char(i + 2) == 't' && line.get_char(i + 3) == 'p' && line.get_char(i + 4)
            == ':' {
            Some(i + 5)
        } else {
            None
        };
        match scheme {
            Some(j) => {
                let e = find_run_end(line, j, n);
                match find_last_boundary(line, j, e) {
                    Some(q) => if q - j >= 2 {
                        Some(q + 1)
                    } else {
                        None
                    },
                    None => None,
                }
            },
            None => None,
        }
    }
}

/// Returns the URL-shaped substrings of `line`, left to right.
///
/// With `no_http` set, bare domains count as URLs, but only when followed
/// by a path (`www.google.com/` matches, `www.google.com` alone does not);
/// otherwise a match must start with `http:` or `https:`.
pub fn get_urls<'a>(line: &'a str, no_http: bool) -> (urls: Vec<&'a str>)
    ensures
        urls.deep_view() == spec_get_urls(line@, no_http),
{
    let n = line.unicode_len();
    let mut urls: Vec<&'a str> = Vec::new();
    let mut i: usize = 0;
    proof {
        assert(urls.deep_view() + urls_from(line@, 0, no_http) =~= urls_from(
            line@,
            0,
            no_http,
        ));
    }
    while i < n
        invariant
            n == line@.len(),
            i <= n,
            urls.deep_view() + urls_from(line@, i as int, no_http) == spec_get_urls(
                line@,
                no_http,
            ),
        decreases n - i,
    {
        match match_end_at(line, i, n, no_http) {
            Some(end) => {
                let t = line.substring_char(i, end);
                let keep = if no_http {
                    contains_slash_exec(t)
                } else {
                    true
                };
                proof {
                    assert(t@ == line@.subrange(i as int, end as int));
                    let ks = kept_spans(line@, i as int, no_http);
                    let rest = kept_spans(line@, end as int, no_http);
                    if keep_match(t@, no_http) {
                        assert(ks == seq![(i as int, end as int)] + rest);
                        assert(urls_from(line@, i as int, no_http) =~= seq![t@] + urls_from(
                            line@,
                            end as int,
                            no_http,
                        ));
                    } else {
                        assert(ks == rest);
                        assert(urls_from(line@, i as int, no_http) =~= urls_from(
                            line@,
                            end as int,
                            no_http,
                        ));
                    }
                }
                if keep {
                    let ghost old_dv = urls.deep_view();
                    urls.push(t);
                    proof {
                        assert(urls.deep_view() =~= old_dv.push(t@));
                        assert(old_dv.push(t@) + urls_from(line@, end as int, no_http) =~= old_dv
                            + (seq![t@] + urls_from(line@, end as int, no_http)));
                    }
                }
                i = end;
            },
            None => {
                proof {
                    assert(urls_from(line@, i as int, no_http) =~= urls_from(
                        line@,
                        i + 1,
                        no_http,
                    ));
                }
                i += 1;
            },
        }
    }
    proof {
        assert(urls_from(line@, i as int, no_http) =~= Seq::<Seq<char>>::empty());
        assert(urls.deep_view() + Seq::<Seq<char>>::empty() =~= urls.deep_view());
    }
    urls
}

} // verus!
