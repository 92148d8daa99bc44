//! The check orchestrator.
//!
//! A run's occurrences are sorted by URL text (file path and line breaking
//! ties), which stands every occurrence of one URL text next to its
//! duplicates.  `probe_plan` then lists each distinct, non-excluded text
//! once, in order; the caller probes each planned text exactly once and
//! hands the outcomes back to `apply_probe_results`, which classifies every
//! occurrence, copying the result of the first occurrence to its
//! duplicates.

use crate::chars::str_eq;
use crate::FileUrl;
use vstd::prelude::*;

verus! {

/// Lexicographic less-or-equal on the characters of `a` and `b` at or
/// after position `i`, ordered by unicode value.
pub open spec fn lex_le_from(a: Seq<char>, b: Seq<char>, i: int) -> bool
    decreases a.len() - i when 0 <= i
{
    if i >= a.len() {
        true
    } else if i >= b.len() {
        false
    } else if a[i] == b[i] {
        lex_le_from(a, b, i + 1)
    } else {
        (a[i] as u32) < (b[i] as u32)
    }
}

/// Lexicographic less-or-equal on character sequences.
pub open spec fn lex_le(a: Seq<char>, b: Seq<char>) -> bool {
    lex_le_from(a, b, 0)
}

proof fn lemma_lex_total(a: Seq<char>, b: Seq<char>, i: int)
    requires
        0 <= i,
    ensures
        lex_le_from(a, b, i) || lex_le_from(b, a, i),
    decreases a.len() - i,
{
    if i < a.len() && i < b.len() {
        if a[i] == b[i] {
            lemma_lex_total(a, b, i + 1);
        } else {
            assert(a[i] as u32 != b[i] as u32) by {
                if a[i] as u32 == b[i] as u32 {
                    vstd::utf8::char_u32_cast(a[i], a[i] as u32);
                    vstd::utf8::char_u32_cast(b[i], b[i] as u32);
                }
            }
        }
    }
}

proof fn lemma_lex_antisym(a: Seq<char>, b: Seq<char>, i: int)
    requires
        0 <= i <= a.len(),
        i <= b.len(),
        lex_le_from(a, b, i),
        lex_le_from(b, a, i),
        forall|k: int| 0 <= k < i ==> a[k] == b[k],
    ensures
        a == b,
    decreases a.len() - i,
{
    if i >= a.len() {
        assert(i == b.len());
        assert(a =~= b);
    } else if i >= b.len() {
        assert(false);
    } else if a[i] == b[i] {
        lemma_lex_antisym(a, b, i + 1);
    } else {
        assert(false);
    }
}

proof fn lemma_lex_trans(a: Seq<char>, b: Seq<char>, c: Seq<char>, i: int)
    requires
        0 <= i,
        lex_le_from(a, b, i),
        lex_le_from(b, c, i),
    ensures
        lex_le_from(a, c, i),
    decreases a.len() - i,
{
    if i < a.len() && i < b.len() && i < c.len() && a[i] == b[i] && b[i] == c[i] {
        lemma_lex_trans(a, b, c, i + 1);
    }
}

/// The total order on occurrences: by URL text, then file path, then line.
pub open spec fn fu_le(x: FileUrl, y: FileUrl) -> bool {
    if x.url@ != y.url@ {
        lex_le(x.url@, y.url@)
    } else if x.filepath@ != y.filepath@ {
        lex_le(x.filepath@, y.filepath@)
    } else {
        x.line <= y.line
    }
}

/// `fu_le` orders any two occurrences one way or the other.
pub proof fn lemma_fu_total(x: FileUrl, y: FileUrl)
    ensures
        fu_le(x, y) || fu_le(y, x),
{
    lemma_lex_total(x.url@, y.url@, 0);
    lemma_lex_total(x.filepath@, y.filepath@, 0);
}

/// `fu_le` is transitive.
pub proof fn lemma_fu_trans(x: FileUrl, y: FileUrl, z: FileUrl)
    requires
        fu_le(x, y),
        fu_le(y, z),
    ensures
        fu_le(x, z),
{
    if x.url@ != y.url@ && y.url@ != z.url@ {
        lemma_lex_trans(x.url@, y.url@, z.url@, 0);
        if x.url@ == z.url@ {
            lemma_lex_antisym(x.url@, y.url@, 0);
        }
    } else if x.url@ == y.url@ && y.url@ == z.url@ {
        if x.filepath@ != y.filepath@ && y.filepath@ != z.filepath@ {
            lemma_lex_trans(x.filepath@, y.filepath@, z.filepath@, 0);
            if x.filepath@ == z.filepath@ {
                lemma_lex_antisym(x.filepath@, y.filepath@, 0);
            }
        }
    }
}

/// Whether the occurrences stand in order.
pub open spec fn sorted(s: Seq<FileUrl>) -> bool {
    forall|i: int, j: int| 0 <= i < j < s.len() ==> fu_le(#[trigger] s[i], #[trigger] s[j])
}

fn lex_le_str(a: &str, b: &str) -> (r: bool)
    ensures
        r == lex_le(a@, b@),
{
    let na = a.unicode_len();
    let nb = b.unicode_len();
    let mut i: usize = 0;
    while i < na && i < nb
        invariant
            i <= na,
            i <= nb,
            na == a@.len(),
            nb == b@.len(),
            lex_le(a@, b@) == lex_le_from(a@, b@, i as int),
        decreases na - i,
    {
        let ca = a.get_char(i);
        let cb = b.get_char(i);
        if ca != cb {
            return (ca as u32) < (cb as u32);
        }
        i += 1;
    }
    i >= na
}

/// Less-or-equal on occurrences: by URL text, then file path, then line.
fn file_url_le(x: &FileUrl, y: &FileUrl) -> (r: bool)
    ensures
        r == fu_le(*x, *y),
{
    if !str_eq(x.url.as_str(), y.url.as_str()) {
        lex_le_str(x.url.as_str(), y.url.as_str())
    } else if !str_eq(x.filepath.as_str(), y.filepath.as_str()) {
        lex_le_str(x.filepath.as_str(), y.filepath.as_str())
    } else {
        x.line <= y.line
    }
}

/// Sorts the occurrences by URL text, file path and line, so that every
/// occurrence of one URL text stands next to its duplicates.  The result
/// holds exactly the occurrences given, rearranged.
pub fn sort_file_urls(urls: &mut Vec<FileUrl>)
    ensures
        sorted(final(urls)@),
        final(urls)@.to_multiset() == old(urls)@.to_multiset(),
        final(urls)@.len() == old(urls)@.len(),
{
    let n = urls.len();
    let mut i: usize = 1;
    while i < n
        invariant
            1 <= i,
            n == urls@.len(),
            urls@.to_multiset() == old(urls)@.to_multiset(),
            n > 0 ==> i <= n && sorted(urls@.subrange(0, i as int)),
            n == 0 ==> i == 1,
        decreases n - i,
    {
        let mut j: usize = i;
        while j > 0 && !file_url_le(&urls[j - 1], &urls[i])
            invariant
                0 <= j <= i < n == urls@.len(),
                forall|k: int| j <= k < i ==> !fu_le(#[trigger] urls@[k], urls@[i as int]),
            decreases j,
        {
            j -= 1;
        }
        let ghost pre = urls@;
        let x = urls.remove(i);
        urls.insert(j, x);
        proof {
            let s1 = pre.remove(i as int);
            let s2 = s1.insert(j as int, x);
            assert(urls@ == s2);
            broadcast use vstd::seq_lib::group_to_multiset_ensures;
            broadcast use vstd::multiset::group_multiset_axioms;

            assert(s1.to_multiset() =~= pre.to_multiset().remove(x));
            s1.insert_ensures(j as int, x);
            assert(s2.to_multiset() =~= s1.to_multiset().insert(x));
            assert(pre.contains(x));
            assert(pre.to_multiset().count(x) > 0);
            assert(s2.to_multiset() =~= pre.to_multiset());
            // the prefix of length i + 1 is sorted again
            assert forall|a: int, b: int|
                0 <= a < b < i + 1 implies fu_le(
                #[trigger] urls@.subrange(0, i + 1)[a],
                #[trigger] urls@.subrange(0, i + 1)[b],
            ) by {
                let sp = pre.subrange(0, i as int);
                assert(forall|k: int| 0 <= k < j ==> s2[k] == pre[k]);
                assert(s2[j as int] == x);
                assert(forall|k: int| j < k <= i ==> s2[k] == pre[k - 1]);
                assert forall|k: int| j <= k < i implies fu_le(x, #[trigger] pre[k]) by {
                    lemma_fu_total(pre[k], x);
                }
                if b < j {
                    assert(fu_le(pre[a], pre[b]));
                } else if b == j {
                    if j > 0 {
                        assert(fu_le(pre[j - 1], x));
                        if a < j - 1 {
                            assert(fu_le(pre[a], pre[j - 1]));
                            lemma_fu_trans(pre[a], pre[j - 1], x);
                        }
                    }
                } else if a == j {
                    assert(fu_le(x, pre[b - 1]));
                } else if a < j {
                    if a == b - 1 {
                        assert(s2[a] == s2[b]);
                        lemma_fu_total(s2[a], s2[b]);
                    } else {
                        assert(fu_le(pre[a], pre[b - 1]));
                    }
                } else {
                    if a == b - 1 {
                        lemma_fu_total(s2[a], s2[a]);
                    } else {
                        assert(fu_le(pre[a - 1], pre[b - 1]));
                    }
                }
            }
        }
        i += 1;
    }
    proof {
        if n > 0 {
            assert(urls@.subrange(0, n as int) =~= urls@);
        } else {
            assert(sorted(urls@));
        }
    }
}

} // verus!

verus! {

/// Whether occurrence `i` is the first of its URL text: in a sorted run,
/// exactly the occurrences whose text differs from their left neighbour's.
pub open spec fn is_first(s: Seq<FileUrl>, i: int) -> bool {
    i == 0 || s[i].url@ != s[i - 1].url@
}

/// How many occurrences below `i` are the first of their URL text.
pub open spec fn count_first(s: Seq<FileUrl>, i: int) -> int
    decreases i
{
    if i <= 0 {
        0
    } else {
        count_first(s, i - 1) + if is_first(s, i - 1) {
            1int
        } else {
            0int
        }
    }
}

/// Counts the distinct URL texts of a sorted run: the number of
/// occurrences whose text differs from their left neighbour's.
pub fn count_distinct_urls(urls: &Vec<FileUrl>) -> (n: u64)
    ensures
        n as int == count_first(urls@, urls@.len() as int),
{
    let len = urls.len();
    let mut n: u64 = 0;
    let mut i: usize = 0;
    while i < len
        invariant
            i <= len,
            len == urls@.len(),
            n as int == count_first(urls@, i as int),
            n <= i as u64,
        decreases len - i,
    {
        let first = i == 0 || !str_eq(urls[i].url.as_str(), urls[i - 1].url.as_str());
        if first {
            n += 1;
        }
        i += 1;
    }
    n
}

/// The URL texts to probe, in order: each occurrence that is the first of
/// its text and not excluded contributes its text once.
pub open spec fn spec_plan(s: Seq<FileUrl>, i: int) -> Seq<Seq<char>>
    decreases i
{
    if i <= 0 {
        Seq::empty()
    } else {
        spec_plan(s, i - 1) + if is_first(s, i - 1) && !s[i - 1].excluded {
            seq![s[i - 1].url@]
        } else {
            Seq::empty()
        }
    }
}

/// Lists each distinct, non-excluded URL text of the sorted run once, in
/// order, for probing.  With `no_check` set nothing is probed and the plan
/// is empty.
pub fn probe_plan(urls: &Vec<FileUrl>, no_check: bool) -> (plan: Vec<String>)
    ensures
        no_check ==> plan@.len() == 0,
        !no_check ==> plan.deep_view() == spec_plan(urls@, urls@.len() as int),
{
    let mut plan: Vec<String> = Vec::new();
    if no_check {
        return plan;
    }
    let len = urls.len();
    let mut i: usize = 0;
    proof {
        assert(plan.deep_view() =~= spec_plan(urls@, 0));
    }
    while i < len
        invariant
            i <= len,
            len == urls@.len(),
            plan.deep_view() == spec_plan(urls@, i as int),
        decreases len - i,
    {
        let first = i == 0 || !str_eq(urls[i].url.as_str(), urls[i - 1].url.as_str());
        let ghost pre = plan.deep_view();
        if first && !urls[i].excluded {
            plan.push(urls[i].url.clone());
            proof {
                assert(plan.deep_view() =~= pre.push(urls@[i as int].url@));
                assert(pre.push(urls@[i as int].url@) =~= pre + seq![urls@[i as int].url@]);
            }
        } else {
            proof {
                assert(pre + Seq::<Seq<char>>::empty() =~= pre);
            }
        }
        i += 1;
    }
    plan
}

/// The classification of occurrence `i`: copied from the previous
/// occurrence when its URL text repeats; `None` when checking is off or
/// the occurrence is excluded; otherwise the outcome of its planned probe.
pub open spec fn spec_bad(
    s: Seq<FileUrl>,
    outcomes: Seq<bool>,
    no_check: bool,
    i: int,
) -> Option<bool>
    decreases i
{
    if !(0 <= i < s.len()) {
        None
    } else if !is_first(s, i) {
        spec_bad(s, outcomes, no_check, i - 1)
    } else if no_check || s[i].excluded {
        None
    } else {
        let k = spec_plan(s, i).len();
        if k < outcomes.len() {
            Some(outcomes[k as int])
        } else {
            None
        }
    }
}

/// How many occurrences below `i` are classified bad.
pub open spec fn count_bad(s: Seq<FileUrl>, outcomes: Seq<bool>, no_check: bool, i: int) -> int
    decreases i
{
    if i <= 0 {
        0
    } else {
        count_bad(s, outcomes, no_check, i - 1) + if spec_bad(s, outcomes, no_check, i - 1)
            == Some(true) {
            1int
        } else {
            0int
        }
    }
}

proof fn lemma_plan_len_mono(s: Seq<FileUrl>, i: int, j: int)
    requires
        0 <= i <= j,
    ensures
        spec_plan(s, i).len() <= spec_plan(s, j).len(),
    decreases j,
{
    if i < j {
        lemma_plan_len_mono(s, i, j - 1);
    }
}

/// Classifies every occurrence of the sorted run, given one probe outcome
/// (true when bad) per planned URL text, in plan order.  An occurrence
/// whose text equals its left neighbour's copies that neighbour's
/// classification; an excluded occurrence, or any occurrence under
/// `no_check`, gets none; every other occurrence gets its own probe's
/// outcome.  Returns how many occurrences were classified bad.
pub fn apply_probe_results(urls: &mut Vec<FileUrl>, outcomes: &Vec<bool>, no_check: bool) -> (num_bad:
    u64)
    requires
        !no_check ==> outcomes@.len() == spec_plan(old(urls)@, old(urls)@.len() as int).len(),
    ensures
        final(urls)@.len() == old(urls)@.len(),
        forall|i: int|
            0 <= i < old(urls)@.len() ==> final(urls)@[i] == (FileUrl {
                bad: spec_bad(old(urls)@, outcomes@, no_check, i),
                ..old(urls)@[i]
            }),
        num_bad as int == count_bad(old(urls)@, outcomes@, no_check, old(urls)@.len() as int),
{
    let ghost s = urls@;
    let len = urls.len();
    let total = outcomes.len();
    let mut out: Vec<FileUrl> = Vec::new();
    let mut num_bad: u64 = 0;
    let mut k: usize = 0;
    let mut prev_bad: Option<bool> = None;
    let mut i: usize = 0;
    while i < len
        invariant
            i <= len,
            len == urls@.len(),
            s == urls@,
            total == outcomes@.len(),
            !no_check ==> outcomes@.len() == spec_plan(s, s.len() as int).len(),
            !no_check ==> k as int == spec_plan(s, i as int).len(),
            no_check ==> k == 0,
            i > 0 ==> prev_bad == spec_bad(s, outcomes@, no_check, i - 1),
            out@.len() == i as int,
            forall|j: int|
                0 <= j < i ==> out@[j] == (FileUrl {
                    bad: spec_bad(s, outcomes@, no_check, j),
                    ..s[j]
                }),
            num_bad as int == count_bad(s, outcomes@, no_check, i as int),
            num_bad <= i as u64,
        decreases len - i,
    {
        let first = i == 0 || !str_eq(urls[i].url.as_str(), urls[i - 1].url.as_str());
        let bad: Option<bool> = if !first {
            prev_bad
        } else if no_check || urls[i].excluded {
            None
        } else {
            proof {
                lemma_plan_len_mono(s, i + 1, s.len() as int);
                assert(k < total);
            }
            let b = outcomes[k];
            k += 1;
            Some(b)
        };
        proof {
            assert(bad == spec_bad(s, outcomes@, no_check, i as int));
        }
        out.push(
            FileUrl {
                url: urls[i].url.clone(),
                filepath: urls[i].filepath.clone(),
                line: urls[i].line,
                bad,
                excluded: urls[i].excluded,
            },
        );
        if let Some(true) = bad {
            num_bad += 1;
        }
        prev_bad = bad;
        i += 1;
    }
    *urls = out;
    num_bad
}

/// In a sorted run, every occurrence standing between two occurrences of
/// one URL text carries that same text.
pub proof fn lemma_sorted_urls_between(s: Seq<FileUrl>, i: int, j: int, k: int)
    requires
        sorted(s),
        0 <= i <= k <= j < s.len(),
        s[i].url@ == s[j].url@,
    ensures
        s[k].url@ == s[i].url@,
{
    if s[k].url@ != s[i].url@ {
        assert(i < k && k < j);
        assert(fu_le(s[i], s[k]));
        assert(fu_le(s[k], s[j]));
        assert(lex_le_from(s[i].url@, s[k].url@, 0));
        assert(lex_le_from(s[k].url@, s[i].url@, 0));
        lemma_lex_antisym(s[i].url@, s[k].url@, 0);
    }
}

/// The dedup law, first half: in a sorted run, any two occurrences of the
/// same URL text receive the same classification, whatever the outcomes.
pub proof fn lemma_duplicate_results_equal(
    s: Seq<FileUrl>,
    outcomes: Seq<bool>,
    no_check: bool,
    i: int,
    j: int,
)
    requires
        sorted(s),
        0 <= i <= j < s.len(),
        s[i].url@ == s[j].url@,
    ensures
        spec_bad(s, outcomes, no_check, i) == spec_bad(s, outcomes, no_check, j),
    decreases j - i,
{
    if i < j {
        lemma_sorted_urls_between(s, i, j, j - 1);
        assert(!is_first(s, j));
        lemma_duplicate_results_equal(s, outcomes, no_check, i, j - 1);
    }
}

proof fn lemma_plan_distinct_upto(s: Seq<FileUrl>, i: int)
    requires
        sorted(s),
        0 <= i <= s.len(),
    ensures
        forall|k: int, l: int|
            0 <= k < l < spec_plan(s, i).len() ==> #[trigger] spec_plan(s, i)[k]
                != #[trigger] spec_plan(s, i)[l],
        forall|k: int|
            0 <= k < spec_plan(s, i).len() ==> exists|j: int|
                0 <= j < i && is_first(s, j) && #[trigger] spec_plan(s, i)[k] == s[j].url@,
    decreases i,
{
    if i > 0 {
        lemma_plan_distinct_upto(s, i - 1);
        let pre = spec_plan(s, i - 1);
        let cur = spec_plan(s, i);
        if is_first(s, i - 1) && !s[i - 1].excluded {
            assert(cur == pre + seq![s[i - 1].url@]);
            assert forall|k: int|
                0 <= k < cur.len() implies exists|j: int|
                0 <= j < i && is_first(s, j) && #[trigger] cur[k] == s[j].url@ by {
                if k < pre.len() {
                    assert(cur[k] == pre[k]);
                    let j = choose|j: int|
                        0 <= j < i - 1 && is_first(s, j) && #[trigger] pre[k] == s[j].url@;
                    assert(0 <= j < i && is_first(s, j) && cur[k] == s[j].url@);
                } else {
                    assert(cur[k] == s[i - 1].url@);
                    assert(0 <= i - 1 < i && is_first(s, i - 1) && cur[k] == s[i - 1].url@);
                }
            }
            assert forall|k: int, l: int|
                0 <= k < l < cur.len() implies #[trigger] cur[k] != #[trigger] cur[l] by {
                if l < pre.len() {
                    assert(cur[k] == pre[k] && cur[l] == pre[l]);
                } else {
                    assert(cur[l] == s[i - 1].url@);
                    assert(cur[k] == pre[k]);
                    let j = choose|j: int|
                        0 <= j < i - 1 && is_first(s, j) && #[trigger] pre[k] == s[j].url@;
                    if pre[k] == s[i - 1].url@ {
                        lemma_sorted_urls_between(s, j, i - 1, i - 2);
                        assert(s[i - 2].url@ == s[i - 1].url@);
                        assert(false);
                    }
                }
            }
        } else {
            assert(cur =~= pre);
            assert forall|k: int|
                0 <= k < cur.len() implies exists|j: int|
                0 <= j < i && is_first(s, j) && #[trigger] cur[k] == s[j].url@ by {
                let j = choose|j: int|
                    0 <= j < i - 1 && is_first(s, j) && #[trigger] pre[k] == s[j].url@;
                assert(0 <= j < i && is_first(s, j) && cur[k] == s[j].url@);
            }
        }
    }
}

/// Every occurrence that is the first of its URL text and not excluded
/// has its text in the probe plan: nothing that should be probed is
/// dropped.
pub proof fn lemma_first_occurrence_planned(s: Seq<FileUrl>, i: int)
    requires
        0 <= i < s.len(),
        is_first(s, i),
        !s[i].excluded,
    ensures
        spec_plan(s, s.len() as int).contains(s[i].url@),
{
    lemma_plan_extends(s, i, s.len() as int);
}

proof fn lemma_plan_extends(s: Seq<FileUrl>, i: int, j: int)
    requires
        0 <= i < j,
        is_first(s, i),
        !s[i].excluded,
    ensures
        spec_plan(s, j).contains(s[i].url@),
    decreases j,
{
    if i == j - 1 {
        let pre = spec_plan(s, j - 1);
        assert(spec_plan(s, j) == pre + seq![s[i].url@]);
        assert(spec_plan(s, j)[pre.len() as int] == s[i].url@);
    } else {
        lemma_plan_extends(s, i, j - 1);
        let pre = spec_plan(s, j - 1);
        let k = choose|k: int| 0 <= k < pre.len() && pre[k] == s[i].url@;
        assert(spec_plan(s, j)[k] == s[i].url@);
    }
}

/// The dedup law, second half: the probe plan of a sorted run names each
/// URL text at most once, so the probe is invoked exactly once per
/// distinct, non-excluded text.
pub proof fn lemma_plan_has_no_duplicates(s: Seq<FileUrl>)
    requires
        sorted(s),
    ensures
        forall|k: int, l: int|
            0 <= k < l < spec_plan(s, s.len() as int).len() ==> #[trigger] spec_plan(
                s,
                s.len() as int,
            )[k] != #[trigger] spec_plan(s, s.len() as int)[l],
{
    lemma_plan_distinct_upto(s, s.len() as int);
}

} // verus!
