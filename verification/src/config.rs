//! The configuration value for a check run.

use vstd::prelude::*;
use vstd::slice::slice_index_get;

verus! {

/// Configuration parameters for a check run.  A fresh value has every flag
/// off and every list empty; the builder methods below switch single
/// options on.
pub struct Config {
    /// Keep all URL records in the result, including the ones that
    /// resolved successfully.
    pub all_urls: bool,
    /// File patterns not to visit.
    pub exclude_paths: Vec<String>,
    /// URL patterns not to check.
    pub exclude_urls: Vec<String>,
    /// Follow symbolic links.
    pub follow: bool,
    /// List all files visited in the result.
    pub list_files: bool,
    /// Disable URL checking.
    pub no_check: bool,
    /// Disable color output.
    pub no_color: bool,
    /// URLs do not need to start with `http://` or `https://`.
    pub no_http: bool,
    /// Visit files and directories that are ignored by default.
    pub no_ignore: bool,
    /// Silence standard, non-verbose output.
    pub silent: bool,
    /// Bound each probe attempt, in seconds.
    pub timeout: Option<u64>,
    /// Display more information, such as every file name and URL processed.
    pub verbose: bool,
}

impl Default for Config {
    /// A configuration with every flag off, every list empty and no timeout.
    fn default() -> (c: Self)
        ensures
            !c.all_urls && !c.follow && !c.list_files && !c.no_check && !c.no_color && !c.no_http
                && !c.no_ignore && !c.silent && !c.verbose,
            c.exclude_paths@.len() == 0,
            c.exclude_urls@.len() == 0,
            c.timeout is None,
    {
        Config {
            all_urls: false,
            exclude_paths: Vec::new(),
            exclude_urls: Vec::new(),
            follow: false,
            list_files: false,
            no_check: false,
            no_color: false,
            no_http: false,
            no_ignore: false,
            silent: false,
            timeout: None,
            verbose: false,
        }
    }
}

impl Config {
    /// Set all_urls=true.
    pub fn all_urls(self) -> (c: Self)
        ensures
            c == (Config { all_urls: true, ..self }),
    {
        Config { all_urls: true, ..self }
    }

    /// Set exclude_paths.
    pub fn exclude_paths(self, exclude_paths: &[&str]) -> (c: Self)
        ensures
            c.exclude_paths.deep_view() == exclude_paths.deep_view(),
            c == (Config { exclude_paths: c.exclude_paths, ..self }),
    {
        let owned = to_owned_strings(exclude_paths);
        Config { exclude_paths: owned, ..self }
    }

    /// Set exclude_urls.
    pub fn exclude_urls(self, exclude_urls: &[&str]) -> (c: Self)
        ensures
            c.exclude_urls.deep_view() == exclude_urls.deep_view(),
            c == (Config { exclude_urls: c.exclude_urls, ..self }),
    {
        let owned = to_owned_strings(exclude_urls);
        Config { exclude_urls: owned, ..self }
    }

    /// Set follow=true.
    pub fn follow(self) -> (c: Self)
        ensures
            c == (Config { follow: true, ..self }),
    {
        Config { follow: true, ..self }
    }

    /// Set list_files=true.
    pub fn list_files(self) -> (c: Self)
        ensures
            c == (Config { list_files: true, ..self }),
    {
        Config { list_files: true, ..self }
    }

    /// Set no_check=true.
    pub fn no_check(self) -> (c: Self)
        ensures
            c == (Config { no_check: true, ..self }),
    {
        Config { no_check: true, ..self }
    }

    /// Set no_color=true.
    pub fn no_color(self) -> (c: Self)
        ensures
            c == (Config { no_color: true, ..self }),
    {
        Config { no_color: true, ..self }
    }

    /// Set no_http=true.
    pub fn no_http(self) -> (c: Self)
        ensures
            c == (Config { no_http: true, ..self }),
    {
        Config { no_http: true, ..self }
    }

    /// Set no_ignore=true.
    pub fn no_ignore(self) -> (c: Self)
        ensures
            c == (Config { no_ignore: true, ..self }),
    {
        Config { no_ignore: true, ..self }
    }

    /// Set silent=true.
    pub fn silent(self) -> (c: Self)
        ensures
            c == (Config { silent: true, ..self }),
    {
        Config { silent: true, ..self }
    }

    /// Set verbose=true.
    pub fn verbose(self) -> (c: Self)
        ensures
            c == (Config { verbose: true, ..self }),
    {
        Config { verbose: true, ..self }
    }
}

/// Copies borrowed strings into owned ones, preserving order and contents.
fn to_owned_strings(items: &[&str]) -> (r: Vec<String>)
    ensures
        r.deep_view() == items.deep_view(),
{
    let n = items.len();
    let mut r: Vec<String> = Vec::new();
    let mut i: usize = 0;
    while i < n
        invariant
            i <= n,
            n == items@.len(),
            r@.len() == i as int,
            forall|k: int| 0 <= k < i ==> #[trigger] r.deep_view()[k] == items.deep_view()[k],
        decreases n - i,
    {
        let s: &str = *slice_index_get(items, i);
        let ghost pre = r.deep_view();
        r.push(s.to_owned());
        proof {
            assert(r.deep_view() =~= pre.push(s@));
        }
        i += 1;
    }
    proof {
        assert(r.deep_view() =~= items.deep_view());
    }
    r
}

} // verus!

verus! {

/// Characters that separate pieces of one command-line list value.
pub open spec fn is_input_sep(c: char) -> bool {
    c == ' ' || c == ','
}

/// First position in `[i, e)` holding a separator, or `e` if there is none.
pub open spec fn find_sep(t: Seq<char>, i: int, e: int) -> int
    decreases e - i
{
    if !(0 <= i < e <= t.len()) {
        e
    } else if is_input_sep(t[i]) {
        i
    } else {
        find_sep(t, i + 1, e)
    }
}

proof fn lemma_find_sep(t: Seq<char>, i: int, e: int)
    requires
        0 <= i <= e <= t.len(),
    ensures
        i <= find_sep(t, i, e) <= e,
    decreases e - i,
{
    if i < e && !is_input_sep(t[i]) {
        lemma_find_sep(t, i + 1, e);
    }
}

/// The pieces of `t[i..)` split on spaces and commas, empty pieces dropped.
pub open spec fn split_seps(t: Seq<char>, i: int) -> Seq<Seq<char>>
    decreases t.len() - i when 0 <= i <= t.len()
        via split_seps_decreases
{
    if !(0 <= i <= t.len()) {
        Seq::empty()
    } else {
        let e = t.len() as int;
        let k = find_sep(t, i, e);
        if k >= e {
            if i == e {
                Seq::empty()
            } else {
                seq![t.subrange(i, e)]
            }
        } else if k == i {
            split_seps(t, i + 1)
        } else {
            seq![t.subrange(i, k)] + split_seps(t, k + 1)
        }
    }
}

#[via_fn]
proof fn split_seps_decreases(t: Seq<char>, i: int) {
    if 0 <= i <= t.len() {
        lemma_find_sep(t, i, t.len() as int);
    }
}

/// The pieces of all the input values at or after `i`, in order.
pub open spec fn spec_split_input(items: Seq<Seq<char>>, i: int) -> Seq<Seq<char>>
    decreases items.len() - i when 0 <= i
{
    if !(0 <= i < items.len()) {
        Seq::empty()
    } else {
        split_seps(items[i], 0) + spec_split_input(items, i + 1)
    }
}

fn find_sep_exec(s: &str, i: usize, e: usize) -> (k: usize)
    requires
        i <= e <= s@.len(),
    ensures
        k as int == find_sep(s@, i as int, e as int),
        i <= k <= e,
{
    let mut j = i;
    while j < e
        invariant
            i <= j <= e <= s@.len(),
            find_sep(s@, i as int, e as int) == find_sep(s@, j as int, e as int),
        decreases e - j,
    {
        let c = s.get_char(j);
        if c == ' ' || c == ',' {
            return j;
        }
        j += 1;
    }
    j
}

fn split_seps_push(s: &str, i: usize, n: usize, parts: &mut Vec<String>)
    requires
        i <= n,
        n == s@.len(),
    ensures
        final(parts).deep_view() == old(parts).deep_view() + split_seps(s@, i as int),
    decreases n - i,
{
    let k = find_sep_exec(s, i, n);
    if k >= n {
        if i == n {
            proof {
                assert(parts.deep_view() =~= parts.deep_view() + Seq::<Seq<char>>::empty());
            }
        } else {
            let piece = s.substring_char(i, n);
            let ghost pre = parts.deep_view();
            parts.push(piece.to_owned());
            proof {
                assert(parts.deep_view() =~= pre + seq![s@.subrange(i as int, n as int)]);
            }
        }
    } else if k == i {
        split_seps_push(s, i + 1, n, parts);
    } else {
        let piece = s.substring_char(i, k);
        let ghost pre = parts.deep_view();
        parts.push(piece.to_owned());
        proof {
            assert(parts.deep_view() =~= pre + seq![s@.subrange(i as int, k as int)]);
        }
        split_seps_push(s, k + 1, n, parts);
        proof {
            assert((pre + seq![s@.subrange(i as int, k as int)]) + split_seps(s@, k + 1) =~= pre
                + (seq![s@.subrange(i as int, k as int)] + split_seps(s@, k + 1)));
        }
    }
}

/// Splits each input value on spaces and commas, dropping empty pieces and
/// keeping the order of values and of pieces within a value.
pub fn split_input(input: &Vec<String>) -> (r: Vec<String>)
    ensures
        r.deep_view() == spec_split_input(input.deep_view(), 0),
{
    let ghost dv = input.deep_view();
    let mut r: Vec<String> = Vec::new();
    let mut i: usize = 0;
    proof {
        assert(r.deep_view() + spec_split_input(dv, 0) =~= spec_split_input(dv, 0));
    }
    while i < input.len()
        invariant
            i <= input@.len(),
            dv == input.deep_view(),
            r.deep_view() + spec_split_input(dv, i as int) == spec_split_input(dv, 0),
        decreases input@.len() - i,
    {
        let s: &str = input[i].as_str();
        proof {
            assert(s@ == dv[i as int]);
        }
        let n = s.unicode_len();
        let ghost pre = r.deep_view();
        split_seps_push(s, 0, n, &mut r);
        proof {
            assert((pre + split_seps(dv[i as int], 0)) + spec_split_input(dv, i + 1) =~= pre + (
            split_seps(dv[i as int], 0) + spec_split_input(dv, i + 1)));
        }
        i += 1;
    }
    proof {
        assert(spec_split_input(dv, i as int) =~= Seq::<Seq<char>>::empty());
        assert(r.deep_view() + Seq::<Seq<char>>::empty() =~= r.deep_view());
    }
    r
}

} // verus!
