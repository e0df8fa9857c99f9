//! Reciprocal rank fusion: several ranked lists made into one.
//!
//! Scores are whole numbers of parts of [`SCORE_ONE`].

use vstd::prelude::*;
use crate::order::Ranked;
use crate::text::same_text;

verus! {

/// The score that stands for one.
pub const SCORE_ONE: u128 = 1_000_000_000_000_000_000;

/// Smoothing constant: higher values reduce the difference between ranks.
pub const RRF_K: u128 = 60;

/// Things that are told apart by a text.
pub trait Keyed: Sized {
    /// The text.
    spec fn key(self) -> Seq<char>;

    /// The text, as a string slice.
    fn key_text(&self) -> (r: &str)
        ensures
            r@ == self.key(),
    ;
}

/// An item with a score.
pub struct Scored<T> {
    pub item: T,
    pub score: u128,
}

impl<T> Ranked for Scored<T> {
    /// Higher scores come first.
    open spec fn ranks_before(self, other: Self) -> bool {
        self.score > other.score
    }

    fn goes_before(&self, other: &Self) -> (r: bool) {
        self.score > other.score
    }

    proof fn rank_laws(a: Self, b: Self, c: Self) {
    }
}

/// What an item gains from standing at place `rank` (from 0) of a list.
pub open spec fn contribution(rank: int) -> int {
    (SCORE_ONE as int) / (RRF_K + rank + 1)
}

/// What the item known as `key` gains from one list.
pub open spec fn list_score<T: Keyed>(list: Seq<T>, key: Seq<char>) -> int
    decreases list.len(),
{
    if list.len() == 0 {
        0
    } else {
        list_score(list.drop_last(), key) + if list.last().key() == key {
            contribution(list.len() - 1)
        } else {
            0
        }
    }
}

/// What the item known as `key` gains from all lists together.
pub open spec fn total_score<T: Keyed>(lists: Seq<Seq<T>>, key: Seq<char>) -> int
    decreases lists.len(),
{
    if lists.len() == 0 {
        0
    } else {
        total_score(lists.drop_last(), key) + list_score(lists.last(), key)
    }
}

/// The lists one behind the other.
pub open spec fn concat<T>(lists: Seq<Seq<T>>) -> Seq<T>
    decreases lists.len(),
{
    if lists.len() == 0 {
        Seq::empty()
    } else {
        concat(lists.drop_last()) + lists.last()
    }
}

/// `s` holds an item known as `key`.
pub open spec fn has_key<T: Keyed>(s: Seq<T>, key: Seq<char>) -> bool {
    exists|i: int| 0 <= i < s.len() && (#[trigger] s[i]).key() == key
}

/// The first item of each key in `s`, in the order of `s`.
pub open spec fn first_of_each<T: Keyed>(s: Seq<T>) -> Seq<T>
    decreases s.len(),
{
    if s.len() == 0 {
        s
    } else {
        let d = first_of_each(s.drop_last());
        if has_key(d, s.last().key()) {
            d
        } else {
            d.push(s.last())
        }
    }
}

/// Each item that stands in some list, once, in the order in which they are
/// first met, with the sum of what it gains from the lists.
pub open spec fn fused<T: Keyed>(lists: Seq<Seq<T>>) -> Seq<Scored<T>> {
    let firsts = first_of_each(concat(lists));
    Seq::new(
        firsts.len(),
        |i: int|
            Scored { item: firsts[i], score: total_score(lists, firsts[i].key()) as u128 },
    )
}

/// The views of a sequence of vectors.
pub open spec fn views<T>(lists: Seq<Vec<T>>) -> Seq<Seq<T>> {
    Seq::new(lists.len(), |i: int| lists[i]@)
}

/// `first_of_each` holds each key once, loses none, and takes its items from `s`.
pub proof fn lemma_first_of_each<T: Keyed>(s: Seq<T>)
    ensures
        forall|k: Seq<char>| has_key(first_of_each(s), k) <==> has_key(s, k),
        forall|i: int, j: int|
            0 <= i < j < first_of_each(s).len() ==> (#[trigger] first_of_each(s)[i]).key() != (
            #[trigger] first_of_each(s)[j]).key(),
        forall|i: int|
            0 <= i < first_of_each(s).len() ==> s.contains(#[trigger] first_of_each(s)[i]),
        first_of_each(s).len() <= s.len(),
    decreases s.len(),
{
    if s.len() > 0 {
        let p = s.drop_last();
        lemma_first_of_each(p);
        let f = first_of_each(s);
        let d = first_of_each(p);
        assert forall|i: int| 0 <= i < f.len() implies s.contains(#[trigger] f[i]) by {
            if i < d.len() {
                assert(p.contains(d[i]));
                let k = choose|k: int| 0 <= k < p.len() && p[k] == d[i];
                assert(s[k] == f[i]);
            } else {
                assert(s[s.len() - 1] == f[i]);
            }
        }
        assert forall|k: Seq<char>| has_key(f, k) <==> has_key(s, k) by {
            if has_key(f, k) {
                let i = choose|i: int| 0 <= i < f.len() && (#[trigger] f[i]).key() == k;
                assert(s.contains(f[i]));
                let j = choose|j: int| 0 <= j < s.len() && s[j] == f[i];
                assert(s[j].key() == k);
            }
            if has_key(s, k) {
                let i = choose|i: int| 0 <= i < s.len() && (#[trigger] s[i]).key() == k;
                if i < p.len() {
                    assert(p[i].key() == k);
                    assert(has_key(p, k));
                    assert(has_key(d, k));
                    let j = choose|j: int| 0 <= j < d.len() && (#[trigger] d[j]).key() == k;
                    assert(f[j].key() == k);
                } else if !has_key(d, k) {
                    assert(f[d.len() as int].key() == k);
                } else {
                    let j = choose|j: int| 0 <= j < d.len() && (#[trigger] d[j]).key() == k;
                    assert(f[j].key() == k);
                }
            }
        }
    }
}

proof fn lemma_contribution(rank: int)
    requires
        0 <= rank,
    ensures
        0 <= contribution(rank) <= SCORE_ONE,
{
    assert(0 <= (SCORE_ONE as int) / (RRF_K + rank + 1) <= SCORE_ONE) by (nonlinear_arith)
        requires
            0 <= rank,
            SCORE_ONE == 1_000_000_000_000_000_000u128,
            RRF_K == 60u128,
    ;
}

proof fn lemma_list_score_bound<T: Keyed>(list: Seq<T>, key: Seq<char>)
    ensures
        0 <= list_score(list, key) <= list.len() * SCORE_ONE,
    decreases list.len(),
{
    if list.len() > 0 {
        lemma_list_score_bound(list.drop_last(), key);
        lemma_contribution(list.len() - 1);
        assert((list.len() - 1) * SCORE_ONE + SCORE_ONE == list.len() * SCORE_ONE)
            by (nonlinear_arith);
    }
}

/// A total score is at most one for each entry of the lists.
pub proof fn lemma_total_score_bound<T: Keyed>(lists: Seq<Seq<T>>, key: Seq<char>)
    ensures
        0 <= total_score(lists, key) <= concat(lists).len() * SCORE_ONE,
    decreases lists.len(),
{
    if lists.len() > 0 {
        lemma_total_score_bound(lists.drop_last(), key);
        lemma_list_score_bound(lists.last(), key);
        let a = concat(lists.drop_last()).len();
        let b = lists.last().len();
        assert(a * SCORE_ONE + b * SCORE_ONE == (a + b) * SCORE_ONE) by (nonlinear_arith);
    }
}

/// A better place gains more, up to a place that no list reaches.
pub proof fn lemma_contribution_falls(better: int, worse: int)
    requires
        0 <= better < worse < 999_999_000,
    ensures
        contribution(better) > contribution(worse),
{
    let one = SCORE_ONE as int;
    let a = RRF_K + better + 1;
    let b = RRF_K + worse + 1;
    let q = one / b;
    assert(q * b <= one) by (nonlinear_arith)
        requires
            q == one / b,
            b > 0,
            one > 0,
    ;
    assert(one < (q + 1) * b) by (nonlinear_arith)
        requires
            q == one / b,
            b > 0,
            one > 0,
    ;
    assert(q >= b) by (nonlinear_arith)
        requires
            one < (q + 1) * b,
            0 < b < 999_999_500,
            one == 1_000_000_000_000_000_000int,
    ;
    assert((q + 1) * a <= one) by (nonlinear_arith)
        requires
            q * b <= one,
            q >= b,
            0 < a <= b - 1,
    ;
    assert(one / a >= q + 1) by (nonlinear_arith)
        requires
            (q + 1) * a <= one,
            a > 0,
    ;
}

/// Every fused score fits a signed number.
pub proof fn lemma_fused_bound<T: Keyed>(lists: Seq<Seq<T>>)
    requires
        concat(lists).len() <= usize::MAX,
    ensures
        forall|i: int|
            0 <= i < fused(lists).len() ==> (#[trigger] fused(lists)[i]).score <= usize::MAX
                * SCORE_ONE <= i128::MAX,
{
    assert forall|i: int| 0 <= i < fused(lists).len() implies (#[trigger] fused(lists)[i]).score
        <= usize::MAX * SCORE_ONE <= i128::MAX by {
        let key = first_of_each(concat(lists))[i].key();
        let n = concat(lists).len();
        lemma_total_score_bound(lists, key);
        assert(n * SCORE_ONE <= usize::MAX * SCORE_ONE) by (nonlinear_arith)
            requires
                n <= usize::MAX,
        ;
    }
}

/// A key that stands in no list gains nothing.
pub proof fn lemma_absent_gains_nothing<T: Keyed>(lists: Seq<Seq<T>>, key: Seq<char>)
    requires
        !has_key(concat(lists), key),
    ensures
        total_score(lists, key) == 0,
    decreases lists.len(),
{
    if lists.len() > 0 {
        let c = concat(lists);
        let a = concat(lists.drop_last());
        let b = lists.last();
        assert forall|i: int| 0 <= i < a.len() implies (#[trigger] a[i]).key() != key by {
            assert(c[i] == a[i]);
        }
        assert forall|i: int| 0 <= i < b.len() implies (#[trigger] b[i]).key() != key by {
            assert(c[a.len() + i] == b[i]);
        }
        lemma_absent_gains_nothing(lists.drop_last(), key);
        lemma_absent_in_list(b, key);
    }
}

proof fn lemma_absent_in_list<T: Keyed>(list: Seq<T>, key: Seq<char>)
    requires
        !has_key(list, key),
    ensures
        list_score(list, key) == 0,
    decreases list.len(),
{
    if list.len() > 0 {
        let d = list.drop_last();
        assert forall|i: int| 0 <= i < d.len() implies (#[trigger] d[i]).key() != key by {
            assert(list[i] == d[i]);
        }
        assert(list[list.len() - 1] == list.last());
        lemma_absent_in_list(d, key);
    }
}

/// The first lists hold no more than all of them.
pub proof fn lemma_concat_prefix<T>(lists: Seq<Seq<T>>, n: int)
    requires
        0 <= n <= lists.len(),
    ensures
        concat(lists.take(n)).len() <= concat(lists).len(),
    decreases lists.len(),
{
    if n < lists.len() {
        lemma_concat_prefix(lists.drop_last(), n);
        assert(lists.drop_last().take(n) =~= lists.take(n));
    } else {
        assert(lists.take(n) =~= lists);
    }
}

/// What an item gains from standing at place `rank` (from 0) of a list.
pub fn contribution_of(rank: usize) -> (r: u128)
    ensures
        r == contribution(rank as int),
        r <= SCORE_ONE,
{
    proof {
        lemma_contribution(rank as int);
    }
    SCORE_ONE / (RRF_K + rank as u128 + 1)
}

/// Where the item known as `key` stands in `s`.
pub fn find_key<T: Keyed>(s: &[Scored<T>], key: &str) -> (r: Option<usize>)
    ensures
        r matches Some(i) ==> i < s@.len() && s@[i as int].item.key() == key@,
        r is None ==> forall|i: int| 0 <= i < s@.len() ==> (#[trigger] s@[i]).item.key() != key@,
{
    let mut i: usize = 0;
    while i < s.len()
        invariant
            i <= s@.len(),
            forall|j: int| 0 <= j < i ==> (#[trigger] s@[j]).item.key() != key@,
        decreases s@.len() - i,
    {
        if same_text(s[i].item.key_text(), key) {
            return Some(i);
        }
        i += 1;
    }
    None
}

/// Makes one list of several: each item once, with the sum of what it gains
/// from every place at which it stands.
pub fn fuse<T: Keyed>(lists: Vec<Vec<T>>) -> (r: Vec<Scored<T>>)
    requires
        concat(views(lists@)).len() <= usize::MAX,
    ensures
        r@ == fused(views(lists@)),
{
    let ghost all = views(lists@);
    let mut acc: Vec<Scored<T>> = Vec::new();
    proof {
        assert(concat(all.take(0)) =~= Seq::<T>::empty());
        assert(fused(all.take(0)) =~= Seq::<Scored<T>>::empty());
    }
    for list in it: lists
        invariant
            it.seq() == lists@,
            all == views(lists@),
            concat(all).len() <= usize::MAX,
            acc@ == fused(all.take(it.index() as int)),
    {
        let ghost l = it.index() as int;
        let ghost done = all.take(l);
        let ghost cur = list@;
        let mut rank: usize = 0;
        proof {
            assert(all[l] == cur);
            assert(all.take(l + 1) =~= done.push(cur));
            assert(done.push(cur).drop_last() =~= done);
            lemma_concat_prefix(all, l + 1);
            assert(concat(done) + cur.take(0) =~= concat(done));
            assert(done.push(cur.take(0)).drop_last() =~= done);
            assert(concat(done.push(cur.take(0))) =~= concat(done));
            assert forall|k: Seq<char>| total_score(done.push(cur.take(0)), k) == total_score(
                done,
                k,
            ) by {
                assert(done.push(cur.take(0)).last() == cur.take(0));
            }
            assert(fused(done.push(cur.take(0))) =~= fused(done));
        }
        for x in it2: list
            invariant
                it2.seq() == cur,
                rank == it2.index(),
                acc@ == fused(done.push(cur.take(it2.index() as int))),
                concat(done).len() + cur.len() <= usize::MAX,
        {
            let ghost r = it2.index() as int;
            let ghost old_lists = done.push(cur.take(r));
            let ghost new_lists = done.push(cur.take(r + 1));
            let ghost before = acc@;
            proof {
                assert(old_lists.drop_last() =~= done);
                assert(new_lists.drop_last() =~= done);
                assert(cur.take(r + 1).drop_last() =~= cur.take(r));
                assert(cur.take(r + 1).last() == x);
                assert(concat(new_lists) =~= concat(old_lists).push(x));
                assert(concat(new_lists).drop_last() =~= concat(old_lists));
                lemma_first_of_each(concat(old_lists));
                assert forall|k: Seq<char>| #[trigger] total_score(new_lists, k) == total_score(
                    old_lists,
                    k,
                ) + if x.key() == k {
                    contribution(r)
                } else {
                    0
                } by {}
                assert forall|k: Seq<char>| 0 <= #[trigger] total_score(old_lists, k) <= usize::MAX
                    * SCORE_ONE by {
                    lemma_total_score_bound(old_lists, k);
                    let n = concat(old_lists).len();
                    assert(n * SCORE_ONE <= usize::MAX * SCORE_ONE) by (nonlinear_arith)
                        requires
                            n <= usize::MAX,
                    ;
                }
                assert(usize::MAX * SCORE_ONE + SCORE_ONE <= u128::MAX);
            }
            let gain = contribution_of(rank);
            match find_key(&acc, x.key_text()) {
                Some(i) => {
                    let score = acc[i].score + gain;
                    acc[i].score = score;
                    proof {
                        let f = first_of_each(concat(old_lists));
                        assert(f[i as int].key() == x.key());
                        assert(has_key(f, x.key()));
                        assert(first_of_each(concat(new_lists)) == f);
                        assert(acc@ =~= fused(new_lists));
                    }
                },
                None => {
                    proof {
                        let f = first_of_each(concat(old_lists));
                        assert forall|i: int| 0 <= i < f.len() implies (#[trigger] f[i]).key()
                            != x.key() by {
                            assert(before[i].item == f[i]);
                        }
                        assert(!has_key(f, x.key()));
                        assert(!has_key(concat(old_lists), x.key()));
                        lemma_absent_gains_nothing(old_lists, x.key());
                        assert(first_of_each(concat(new_lists)) == f.push(x));
                    }
                    acc.push(Scored { item: x, score: gain });
                    proof {
                        assert(acc@ =~= fused(new_lists));
                    }
                },
            }
            rank = if rank < usize::MAX { rank + 1 } else { rank };
        }
        proof {
            assert(cur.take(cur.len() as int) =~= cur);
        }
    }
    proof {
        assert(all.take(all.len() as int) =~= all);
    }
    acc
}

} // verus!
