//! Fusion of ranked search results, with test files marked down.

use vstd::prelude::*;
use crate::domain::SearchResult;
use crate::fusion::{
    Keyed, Scored, concat, first_of_each, fuse, fused, lemma_first_of_each, lemma_fused_bound,
    views,
};
use crate::order::{arrange, arranged, lemma_arranged, lemma_filter_in_rank_order};
use crate::text::{
    begins, chars_of, ends_with, finishes, replace_char, rows, same_chars, split, split_at_char,
    starts_with, string_of, with_replaced,
};
use crate::unicode::{lowercase, to_lowercase};

verus! {

/// The score below which a fused result is dropped.
pub const RRF_MIN_SCORE: u128 = 13_000_000_000_000_000;

/// What the score of a result from a test file is divided by.
pub const TEST_FILE_DIVISOR: u128 = 2;

/// A directory name that holds tests.
pub open spec fn is_test_dir(d: Seq<char>) -> bool {
    d == "test"@ || d == "tests"@ || d == "spec"@ || d == "specs"@ || d == "__tests__"@ || d
        == "__test__"@ || d == "testdata"@
}

/// A middle part of a file name that marks tests.
pub open spec fn is_test_mark(d: Seq<char>) -> bool {
    d == "test"@ || d == "spec"@
}

/// A path, in small letters and with forward slashes, that looks like a test
/// file: a directory on it holds tests, a middle part of the file name marks
/// tests, or the name up to its first dot begins with `test_` or ends with
/// `_test`.
pub open spec fn test_path(path: Seq<char>) -> bool {
    let parts = split(path, '/');
    let dots = split(parts.last(), '.');
    ||| exists|i: int| 0 <= i < parts.len() - 1 && is_test_dir(#[trigger] parts[i])
    ||| exists|i: int| 1 <= i < dots.len() - 1 && is_test_mark(#[trigger] dots[i])
    ||| starts_with(dots[0], "test_"@)
    ||| ends_with(dots[0], "_test"@)
}

/// A path that looks like a test file.
pub open spec fn test_file(path: Seq<char>) -> bool {
    test_path(lowercase(replace_char(path, '\\', '/')))
}

fn equals(a: &[char], s: &str) -> (r: bool)
    ensures
        r == (a@ == s@),
{
    let b = chars_of(s);
    same_chars(a, &b)
}

fn test_dir(d: &[char]) -> (r: bool)
    ensures
        r == is_test_dir(d@),
{
    equals(d, "test") || equals(d, "tests") || equals(d, "spec") || equals(d, "specs") || equals(
        d,
        "__tests__",
    ) || equals(d, "__test__") || equals(d, "testdata")
}

/// Whether a path in small letters and with forward slashes looks like a test
/// file.
pub fn is_test_path(path: &str) -> (r: bool)
    ensures
        r == test_path(path@),
{
    let cs = chars_of(path);
    let parts = split_at_char(&cs, '/');
    let ghost ps = split(path@, '/');
    let last: usize = parts.len() - 1;
    let mut i: usize = 0;
    while i < last
        invariant
            i <= last,
            last == parts@.len() - 1,
            rows(parts@) == ps,
            ps == split(path@, '/'),
            forall|k: int| 0 <= k < i ==> !is_test_dir(#[trigger] ps[k]),
        decreases last - i,
    {
        assert(ps[i as int] == parts@[i as int]@);
        if test_dir(&parts[i]) {
            return true;
        }
        i += 1;
    }
    assert(ps[last as int] == parts@[last as int]@);
    let dots = split_at_char(&parts[last], '.');
    let ghost ds = split(ps.last(), '.');
    let mut j: usize = 1;
    while j < dots.len() - 1
        invariant
            1 <= j,
            dots@.len() >= 1,
            rows(dots@) == ds,
            ps == split(path@, '/'),
            ds == split(ps.last(), '.'),
            forall|k: int| 1 <= k < j ==> !is_test_mark(#[trigger] ds[k]),
        decreases dots@.len() - j,
    {
        assert(ds[j as int] == dots@[j as int]@);
        if equals(&dots[j], "test") || equals(&dots[j], "spec") {
            return true;
        }
        j += 1;
    }
    assert(ds[0] == dots@[0]@);
    let prefix = chars_of("test_");
    let suffix = chars_of("_test");
    begins(&dots[0], &prefix) || finishes(&dots[0], &suffix)
}

/// Whether a path looks like a test file, by the conventions of common
/// languages.
pub fn is_test_file(path: &str) -> (r: bool)
    ensures
        r == test_file(path@),
{
    let cs = chars_of(path);
    let slashed = string_of(&with_replaced(&cs, '\\', '/'));
    is_test_path(to_lowercase(slashed.as_str()).as_str())
}

impl Keyed for SearchResult {
    /// Results are told apart by the chunk they hold.
    open spec fn key(self) -> Seq<char> {
        self.chunk.id@
    }

    fn key_text(&self) -> (r: &str) {
        self.chunk.id.as_str()
    }
}

/// The scores with those of test files marked down.
pub open spec fn penalized(s: Seq<Scored<SearchResult>>) -> Seq<Scored<SearchResult>> {
    Seq::new(
        s.len(),
        |i: int|
            Scored {
                item: s[i].item,
                score: if test_file(s[i].item.chunk.file_path@) {
                    (s[i].score / TEST_FILE_DIVISOR) as u128
                } else {
                    s[i].score
                },
            },
    )
}

/// Scored high enough to be kept.
pub open spec fn strong() -> spec_fn(Scored<SearchResult>) -> bool {
    |e: Scored<SearchResult>| e.score >= RRF_MIN_SCORE
}

/// Results that carry the scores they were ranked by.
pub open spec fn rescored(s: Seq<Scored<SearchResult>>) -> Seq<SearchResult> {
    Seq::new(s.len(), |i: int| SearchResult {
        chunk: s[i].item.chunk,
        score: s[i].score as i128,
    })
}

/// At most the first `n` of `s`.
pub open spec fn at_most<A>(s: Seq<A>, n: int) -> Seq<A> {
    if n < s.len() {
        s.take(n)
    } else {
        s
    }
}

/// The lists fused: by falling score, test files marked down, weak results
/// dropped, at most `limit` kept.
pub open spec fn rrf_results(lists: Seq<Seq<SearchResult>>, limit: int) -> Seq<SearchResult> {
    at_most(rescored(arranged(penalized(fused(lists))).filter(strong())), limit)
}

proof fn lemma_ranked_bound(lists: Seq<Seq<SearchResult>>)
    requires
        concat(lists).len() <= usize::MAX,
    ensures
        forall|i: int|
            0 <= i < arranged(penalized(fused(lists))).len() ==> (#[trigger] arranged(
                penalized(fused(lists)),
            )[i]).score <= i128::MAX,
{
    let p = penalized(fused(lists));
    let a = arranged(p);
    lemma_fused_bound(lists);
    lemma_arranged(p);
    broadcast use vstd::seq_lib::group_to_multiset_ensures;
    assert forall|i: int| 0 <= i < a.len() implies (#[trigger] a[i]).score <= i128::MAX by {
        assert(a.contains(a[i]));
        assert(p.to_multiset().count(a[i]) > 0);
        assert(p.contains(a[i]));
        let m = choose|m: int| 0 <= m < p.len() && p[m] == a[i];
        assert(fused(lists)[m].score <= i128::MAX);
    }
}

/// Merges ranked result lists: each result scores one part in
/// `RRF_K + rank` of every list it stands in.
pub fn rrf_fuse(lists: Vec<Vec<SearchResult>>, limit: usize) -> (r: Vec<SearchResult>)
    requires
        concat(views(lists@)).len() <= usize::MAX,
    ensures
        r@ == rrf_results(views(lists@), limit as int),
{
    let ghost all = views(lists@);
    let entries = fuse(lists);
    let mut marked: Vec<Scored<SearchResult>> = Vec::new();
    for e in it: entries
        invariant
            it.seq() == fused(all),
            marked@.len() == it.index(),
            forall|k: int| 0 <= k < marked@.len() ==> marked@[k] == penalized(fused(all))[k],
    {
        let score = if is_test_file(e.item.chunk.file_path.as_str()) {
            e.score / TEST_FILE_DIVISOR
        } else {
            e.score
        };
        marked.push(Scored { item: e.item, score });
    }
    assert(marked@ =~= penalized(fused(all)));
    let ranked = arrange(marked);
    let ghost rs = ranked@;
    proof {
        lemma_ranked_bound(all);
    }
    let mut r: Vec<SearchResult> = Vec::new();
    proof {
        assert(rs.take(0).filter(strong()) =~= Seq::<Scored<SearchResult>>::empty()) by {
            reveal(Seq::filter);
        }
    }
    for e in it: ranked
        invariant
            it.seq() == rs,
            forall|k: int| 0 <= k < rs.len() ==> (#[trigger] rs[k]).score <= i128::MAX,
            r@ == rescored(rs.take(it.index() as int).filter(strong())),
    {
        proof {
            let done = rs.take(it.index() as int);
            assert(rs.take(it.index() as int + 1) =~= done.push(e));
            done.lemma_filter_push(e, strong());
            let f = done.filter(strong());
            assert(rescored(f.push(e)) =~= rescored(f).push(
                SearchResult { chunk: e.item.chunk, score: e.score as i128 },
            ));
        }
        if e.score >= RRF_MIN_SCORE {
            r.push(SearchResult { chunk: e.item.chunk, score: e.score as i128 });
        }
    }
    assert(rs.take(rs.len() as int) =~= rs);
    r.truncate(limit);
    r
}

/// A fused list is in falling order of score and holds no chunk twice, none
/// that no list held, and none that scored below the floor.
pub proof fn lemma_rrf_results(lists: Seq<Seq<SearchResult>>, limit: int)
    requires
        0 <= limit,
        concat(lists).len() <= usize::MAX,
    ensures
        rrf_results(lists, limit).len() <= limit,
        forall|i: int, j: int|
            0 <= i < j < rrf_results(lists, limit).len() ==> (#[trigger] rrf_results(
                lists,
                limit,
            )[i]).score >= (#[trigger] rrf_results(lists, limit)[j]).score,
        forall|i: int|
            0 <= i < rrf_results(lists, limit).len() ==> (#[trigger] rrf_results(
                lists,
                limit,
            )[i]).score >= RRF_MIN_SCORE,
        forall|i: int|
            0 <= i < rrf_results(lists, limit).len() ==> exists|k: int|
                0 <= k < concat(lists).len() && #[trigger] concat(lists)[k].chunk == (
                #[trigger] rrf_results(lists, limit)[i]).chunk,
{
    let f = fused(lists);
    let p = penalized(f);
    let a = arranged(p);
    let kept = a.filter(strong());
    lemma_arranged(p);
    lemma_ranked_bound(lists);
    lemma_filter_in_rank_order(a, strong());
    lemma_first_of_each(concat(lists));
    broadcast use vstd::seq_lib::group_to_multiset_ensures;
    assert forall|i: int| 0 <= i < kept.len() implies exists|k: int|
        0 <= k < concat(lists).len() && #[trigger] concat(lists)[k].chunk == (
        #[trigger] kept[i]).item.chunk by {
        assert(kept.contains(kept[i]));
        a.lemma_filter_contains_rev(strong(), kept[i]);
        assert(a.contains(kept[i]));
        assert(p.to_multiset().count(kept[i]) > 0);
        assert(p.contains(kept[i]));
        let m = choose|m: int| 0 <= m < p.len() && p[m] == kept[i];
        assert(concat(lists).contains(first_of_each(concat(lists))[m]));
        let k = choose|k: int|
            0 <= k < concat(lists).len() && concat(lists)[k] == first_of_each(concat(lists))[m];
        assert(concat(lists)[k].chunk == kept[i].item.chunk);
    }
    assert forall|i: int| 0 <= i < kept.len() implies (#[trigger] kept[i]).score
        >= RRF_MIN_SCORE && kept[i].score <= i128::MAX by {
        a.lemma_filter_pred(strong(), i);
        assert(kept.contains(kept[i]));
        a.lemma_filter_contains_rev(strong(), kept[i]);
        let m = choose|m: int| 0 <= m < a.len() && a[m] == kept[i];
        assert(a[m].score <= i128::MAX);
    }
}

} // verus!
