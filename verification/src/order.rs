//! Ordering: the order of texts, and a stable sort of anything that ranks.

use vstd::prelude::*;
use vstd::multiset::Multiset;
use crate::text::{chars_of, same_text, texts};

verus! {

/// `a` stands before `b` in the order of their characters' code points.
pub open spec fn text_lt(a: Seq<char>, b: Seq<char>) -> bool
    decreases a.len(),
{
    if b.len() == 0 {
        false
    } else if a.len() == 0 {
        true
    } else if a[0] != b[0] {
        (a[0] as u32) < (b[0] as u32)
    } else {
        text_lt(a.skip(1), b.skip(1))
    }
}

/// No text stands before itself.
pub proof fn lemma_text_lt_irreflexive(a: Seq<char>)
    ensures
        !text_lt(a, a),
    decreases a.len(),
{
    if a.len() > 0 {
        lemma_text_lt_irreflexive(a.skip(1));
    }
}

proof fn lemma_code_points_differ(x: char, y: char)
    ensures
        x != y ==> x as u32 != y as u32,
{
}

/// Of two different texts exactly one stands before the other.
pub proof fn lemma_text_lt_total(a: Seq<char>, b: Seq<char>)
    ensures
        a != b ==> text_lt(a, b) || text_lt(b, a),
        !(text_lt(a, b) && text_lt(b, a)),
    decreases a.len(),
{
    if a.len() > 0 && b.len() > 0 {
        if a[0] == b[0] {
            lemma_text_lt_total(a.skip(1), b.skip(1));
            if a.skip(1) == b.skip(1) {
                assert forall|i: int| 0 <= i < a.len() implies a[i] == b[i] by {
                    if i > 0 {
                        assert(a.skip(1)[i - 1] == b.skip(1)[i - 1]);
                    }
                }
                assert(a.skip(1).len() == b.skip(1).len());
                assert(a =~= b);
            }
        } else {
            lemma_code_points_differ(a[0], b[0]);
        }
    } else if a.len() == 0 && b.len() == 0 {
        assert(a =~= b);
    }
}

/// The order of texts is transitive.
pub proof fn lemma_text_lt_transitive(a: Seq<char>, b: Seq<char>, c: Seq<char>)
    requires
        text_lt(a, b),
        text_lt(b, c),
    ensures
        text_lt(a, c),
    decreases a.len(),
{
    if a.len() > 0 && a[0] == b[0] && b[0] == c[0] {
        lemma_text_lt_transitive(a.skip(1), b.skip(1), c.skip(1));
    }
}

/// The three laws of the order of texts at once, for the triple `a`, `b`, `c`.
pub proof fn lemma_text_order(a: Seq<char>, b: Seq<char>, c: Seq<char>)
    ensures
        !(text_lt(a, b) && text_lt(b, a)),
        !text_lt(b, a) && !text_lt(c, b) ==> !text_lt(c, a),
        a != b ==> text_lt(a, b) || text_lt(b, a),
        b != c ==> text_lt(b, c) || text_lt(c, b),
        a != c ==> text_lt(a, c) || text_lt(c, a),
        text_lt(a, b) && text_lt(b, c) ==> text_lt(a, c),
        !text_lt(a, a),
{
    lemma_text_lt_total(a, b);
    lemma_text_lt_total(b, c);
    lemma_text_lt_total(a, c);
    lemma_text_lt_irreflexive(a);
    if text_lt(a, b) && text_lt(b, c) {
        lemma_text_lt_transitive(a, b, c);
    }
}

/// Whether the characters of `a` stand before those of `b`.
pub fn chars_less(a: &[char], b: &[char]) -> (r: bool)
    ensures
        r == text_lt(a@, b@),
{
    let mut i: usize = 0;
    assert(a@.skip(0) =~= a@);
    assert(b@.skip(0) =~= b@);
    loop
        invariant
            i <= a@.len(),
            i <= b@.len(),
            text_lt(a@, b@) == text_lt(a@.skip(i as int), b@.skip(i as int)),
        decreases a@.len() - i,
    {
        if i >= b.len() {
            return false;
        }
        if i >= a.len() {
            return true;
        }
        proof {
            assert(a@.skip(i as int).skip(1) =~= a@.skip(i + 1));
            assert(b@.skip(i as int).skip(1) =~= b@.skip(i + 1));
        }
        if a[i] != b[i] {
            return (a[i] as u32) < (b[i] as u32);
        }
        i += 1;
    }
}

/// Whether `a` stands before `b`.
pub fn text_less(a: &str, b: &str) -> (r: bool)
    ensures
        r == text_lt(a@, b@),
{
    let x = chars_of(a);
    let y = chars_of(b);
    chars_less(&x, &y)
}

/// The views of a list of string slices.
pub open spec fn str_views(v: Seq<&str>) -> Seq<Seq<char>> {
    Seq::new(v.len(), |i: int| v[i]@)
}

/// A list of texts stands before another: at the first place where they differ
/// it has the lesser text, or it ends first.
pub open spec fn texts_lt(a: Seq<Seq<char>>, b: Seq<Seq<char>>) -> bool
    decreases a.len(),
{
    if b.len() == 0 {
        false
    } else if a.len() == 0 {
        true
    } else if a[0] != b[0] {
        text_lt(a[0], b[0])
    } else {
        texts_lt(a.skip(1), b.skip(1))
    }
}

/// Of two different lists exactly one stands before the other.
pub proof fn lemma_texts_lt_total(a: Seq<Seq<char>>, b: Seq<Seq<char>>)
    ensures
        a != b ==> texts_lt(a, b) || texts_lt(b, a),
        !(texts_lt(a, b) && texts_lt(b, a)),
        a == b ==> !texts_lt(a, b),
    decreases a.len(),
{
    if a.len() > 0 && b.len() > 0 {
        lemma_text_lt_total(a[0], b[0]);
        if a[0] == b[0] {
            let x = a.skip(1);
            let y = b.skip(1);
            lemma_texts_lt_total(x, y);
            if x == y {
                assert forall|i: int| 0 <= i < a.len() implies a[i] == b[i] by {
                    if i > 0 {
                        assert(x[i - 1] == y[i - 1]);
                    }
                }
                assert(x.len() == y.len());
                assert(a =~= b);
            }
        }
    } else if a.len() == 0 && b.len() == 0 {
        assert(a =~= b);
    }
}

/// The order of lists of texts is transitive.
pub proof fn lemma_texts_lt_transitive(a: Seq<Seq<char>>, b: Seq<Seq<char>>, c: Seq<Seq<char>>)
    requires
        texts_lt(a, b),
        texts_lt(b, c),
    ensures
        texts_lt(a, c),
    decreases a.len(),
{
    if a.len() > 0 {
        lemma_text_order(a[0], b[0], c[0]);
        if a[0] == b[0] && b[0] == c[0] {
            lemma_texts_lt_transitive(a.skip(1), b.skip(1), c.skip(1));
        }
    }
}

/// The laws of the order of lists at once, for the triple `a`, `b`, `c`.
pub proof fn lemma_texts_order(a: Seq<Seq<char>>, b: Seq<Seq<char>>, c: Seq<Seq<char>>)
    ensures
        !(texts_lt(a, b) && texts_lt(b, a)),
        !texts_lt(b, a) && !texts_lt(c, b) ==> !texts_lt(c, a),
        a != b ==> texts_lt(a, b) || texts_lt(b, a),
        b != c ==> texts_lt(b, c) || texts_lt(c, b),
        a != c ==> texts_lt(a, c) || texts_lt(c, a),
        !texts_lt(a, a),
{
    lemma_texts_lt_total(a, b);
    lemma_texts_lt_total(b, c);
    lemma_texts_lt_total(a, c);
    lemma_texts_lt_total(a, a);
    if texts_lt(a, b) && texts_lt(b, c) {
        lemma_texts_lt_transitive(a, b, c);
    }
}

/// Whether a list of texts stands before another.
pub fn texts_less(a: &[&str], b: &[&str]) -> (r: bool)
    ensures
        r == texts_lt(str_views(a@), str_views(b@)),
{
    let ghost x = str_views(a@);
    let ghost y = str_views(b@);
    let mut i: usize = 0;
    assert(x.skip(0) =~= x);
    assert(y.skip(0) =~= y);
    loop
        invariant
            i <= a@.len(),
            i <= b@.len(),
            x == str_views(a@),
            y == str_views(b@),
            texts_lt(x, y) == texts_lt(x.skip(i as int), y.skip(i as int)),
        decreases a@.len() - i,
    {
        if i >= b.len() {
            return false;
        }
        if i >= a.len() {
            return true;
        }
        proof {
            assert(x.skip(i as int)[0] == a@[i as int]@);
            assert(y.skip(i as int)[0] == b@[i as int]@);
            assert(x.skip(i as int).skip(1) =~= x.skip(i + 1));
            assert(y.skip(i as int).skip(1) =~= y.skip(i + 1));
        }
        if !same_text(a[i], b[i]) {
            return text_less(a[i], b[i]);
        }
        i += 1;
    }
}

/// Things that can be put in an order in which some may tie.
pub trait Ranked: Sized {
    /// `self` ranks strictly before `other`.
    spec fn ranks_before(self, other: Self) -> bool;

    /// Whether `self` ranks strictly before `other`.
    fn goes_before(&self, other: &Self) -> (r: bool)
        ensures
            r == self.ranks_before(*other),
    ;

    /// Ranking is asymmetric, and ranking no later is transitive.
    proof fn rank_laws(a: Self, b: Self, c: Self)
        ensures
            !(a.ranks_before(b) && b.ranks_before(a)),
            !b.ranks_before(a) && !c.ranks_before(b) ==> !c.ranks_before(a),
    ;
}

/// `x` put into the arrangement `s` behind all that it does not rank before.
pub open spec fn place<T: Ranked>(s: Seq<T>, x: T) -> Seq<T>
    decreases s.len(),
{
    if s.len() == 0 || !x.ranks_before(s.last()) {
        s.push(x)
    } else {
        place(s.drop_last(), x).push(s.last())
    }
}

/// The items of `s` by rank, those that tie in the order they had in `s`.
pub open spec fn arranged<T: Ranked>(s: Seq<T>) -> Seq<T>
    decreases s.len(),
{
    if s.len() == 0 {
        s
    } else {
        place(arranged(s.drop_last()), s.last())
    }
}

/// No item ranks before one that stands ahead of it.
pub open spec fn in_rank_order<T: Ranked>(s: Seq<T>) -> bool {
    forall|i: int, j: int| 0 <= i < j < s.len() ==> !(#[trigger] s[j]).ranks_before(#[trigger] s[i])
}

proof fn lemma_place<T: Ranked>(s: Seq<T>, x: T)
    requires
        in_rank_order(s),
    ensures
        in_rank_order(place(s, x)),
        place(s, x).to_multiset() == s.to_multiset().insert(x),
        place(s, x).len() == s.len() + 1,
    decreases s.len(),
{
    broadcast use vstd::seq_lib::group_to_multiset_ensures;
    let p = place(s, x);
    if s.len() == 0 || !x.ranks_before(s.last()) {
        assert forall|i: int, j: int| 0 <= i < j < p.len() implies !(#[trigger]
        p[j]).ranks_before(#[trigger] p[i]) by {
            if j == s.len() {
                if i < s.len() - 1 {
                    T::rank_laws(s[i], s[s.len() - 1], x);
                }
            }
        }
    } else {
        let q = place(s.drop_last(), x);
        assert(in_rank_order(s.drop_last()));
        lemma_place(s.drop_last(), x);
        assert(s.drop_last().push(s.last()) =~= s);
        assert forall|i: int| 0 <= i < q.len() implies !s.last().ranks_before(#[trigger] q[i]) by {
            assert(q.to_multiset().count(q[i]) > 0) by {
                assert(q.contains(q[i]));
            }
            assert(s.drop_last().to_multiset().insert(x).count(q[i]) > 0);
            if q[i] == x {
                T::rank_laws(x, s.last(), s.last());
            } else {
                assert(s.drop_last().to_multiset().count(q[i]) > 0);
                assert(s.drop_last().contains(q[i]));
                let k = choose|k: int| 0 <= k < s.drop_last().len() && s.drop_last()[k] == q[i];
                assert(s[k] == q[i]);
            }
        }
        assert(p == q.push(s.last()));
        assert(p.to_multiset() =~= s.to_multiset().insert(x));
    }
}

/// What `arranged` gives holds the same items, and is in order.
pub proof fn lemma_arranged<T: Ranked>(s: Seq<T>)
    ensures
        in_rank_order(arranged(s)),
        arranged(s).to_multiset() == s.to_multiset(),
        arranged(s).len() == s.len(),
    decreases s.len(),
{
    broadcast use vstd::seq_lib::group_to_multiset_ensures;
    if s.len() > 0 {
        lemma_arranged(s.drop_last());
        lemma_place(arranged(s.drop_last()), s.last());
        assert(s.drop_last().push(s.last()) =~= s);
    }
}

proof fn lemma_place_keeps<T: Ranked>(s: Seq<T>, x: T, p: spec_fn(T) -> bool)
    requires
        forall|a: T, b: T| p(a) && p(b) ==> !a.ranks_before(b),
    ensures
        place(s, x).filter(p) == s.push(x).filter(p),
    decreases s.len(),
{
    if s.len() > 0 && x.ranks_before(s.last()) {
        let d = s.drop_last();
        lemma_place_keeps(d, x, p);
        assert(d.push(s.last()) =~= s);
        place(d, x).lemma_filter_push(s.last(), p);
        d.lemma_filter_push(x, p);
        d.lemma_filter_push(s.last(), p);
        s.lemma_filter_push(x, p);
    }
}

/// Items that tie keep the order they had: for any class `p` of items none of
/// which ranks before another, sorting leaves the members of the class in
/// their order.
pub proof fn lemma_arranged_stable<T: Ranked>(s: Seq<T>, p: spec_fn(T) -> bool)
    requires
        forall|a: T, b: T| p(a) && p(b) ==> !a.ranks_before(b),
    ensures
        arranged(s).filter(p) == s.filter(p),
    decreases s.len(),
{
    if s.len() > 0 {
        let d = s.drop_last();
        lemma_arranged_stable(d, p);
        lemma_place_keeps(arranged(d), s.last(), p);
        arranged(d).lemma_filter_push(s.last(), p);
        d.lemma_filter_push(s.last(), p);
        assert(d.push(s.last()) =~= s);
    }
}

/// Arranging loses nothing and adds nothing.
pub proof fn lemma_arranged_contains<T: Ranked>(s: Seq<T>)
    ensures
        forall|x: T| #[trigger] arranged(s).contains(x) <==> s.contains(x),
{
    lemma_arranged(s);
    broadcast use vstd::seq_lib::group_to_multiset_ensures;
    assert forall|x: T| #[trigger] arranged(s).contains(x) <==> s.contains(x) by {
        assert(arranged(s).contains(x) <==> arranged(s).to_multiset().count(x) > 0);
        assert(s.contains(x) <==> s.to_multiset().count(x) > 0);
    }
}

/// Filtering keeps the order of ranks.
pub proof fn lemma_filter_in_rank_order<T: Ranked>(s: Seq<T>, p: spec_fn(T) -> bool)
    requires
        in_rank_order(s),
    ensures
        in_rank_order(s.filter(p)),
    decreases s.len(),
{
    reveal(Seq::filter);
    if s.len() > 0 {
        let d = s.drop_last();
        assert(in_rank_order(d));
        lemma_filter_in_rank_order(d, p);
        let f = d.filter(p);
        assert forall|i: int| 0 <= i < f.len() implies !s.last().ranks_before(
            #[trigger] f[i],
        ) by {
            assert(f.contains(f[i]));
            d.lemma_filter_contains_rev(p, f[i]);
            let k = choose|k: int| 0 <= k < d.len() && d[k] == f[i];
            assert(s[k] == f[i]);
            assert(s[s.len() - 1] == s.last());
        }
    }
}

proof fn lemma_place_at<T: Ranked>(s: Seq<T>, x: T, k: int)
    requires
        0 <= k <= s.len(),
        forall|j: int| k <= j < s.len() ==> x.ranks_before(#[trigger] s[j]),
        k > 0 ==> !x.ranks_before(s[k - 1]),
    ensures
        place(s, x) == s.insert(k, x),
    decreases s.len(),
{
    if k == s.len() {
        assert(s.insert(k, x) =~= s.push(x));
    } else {
        let d = s.drop_last();
        lemma_place_at(d, x, k);
        assert(d.insert(k, x).push(s.last()) =~= s.insert(k, x));
    }
}

/// Sorts `v` by rank, keeping the order of items that tie.
pub fn arrange<T: Ranked>(v: Vec<T>) -> (r: Vec<T>)
    ensures
        r@ == arranged(v@),
{
    let ghost s = v@;
    let mut r: Vec<T> = Vec::new();
    assert(s.take(0) =~= Seq::<T>::empty());
    for x in it: v
        invariant
            it.seq() == s,
            r@ == arranged(s.take(it.index() as int)),
    {
        let mut k: usize = r.len();
        while k > 0 && x.goes_before(&r[k - 1])
            invariant
                k <= r@.len(),
                forall|j: int| k <= j < r@.len() ==> x.ranks_before(#[trigger] r@[j]),
            decreases k,
        {
            k -= 1;
        }
        proof {
            lemma_place_at(r@, x, k as int);
            assert(s.take(it.index() as int + 1).drop_last() =~= s.take(it.index() as int));
        }
        r.insert(k, x);
    }
    assert(s.take(s.len() as int) =~= s);
    r
}

impl Ranked for String {
    open spec fn ranks_before(self, other: Self) -> bool {
        text_lt(self@, other@)
    }

    fn goes_before(&self, other: &Self) -> (r: bool) {
        text_less(self.as_str(), other.as_str())
    }

    proof fn rank_laws(a: Self, b: Self, c: Self) {
        lemma_text_order(a@, b@, c@);
    }
}

/// `x` put into the rising texts `s`.
pub open spec fn place_text(s: Seq<Seq<char>>, x: Seq<char>) -> Seq<Seq<char>>
    decreases s.len(),
{
    if s.len() == 0 || !text_lt(x, s.last()) {
        s.push(x)
    } else {
        place_text(s.drop_last(), x).push(s.last())
    }
}

/// The texts of `s` in their order.
pub open spec fn sorted_texts(s: Seq<Seq<char>>) -> Seq<Seq<char>>
    decreases s.len(),
{
    if s.len() == 0 {
        s
    } else {
        place_text(sorted_texts(s.drop_last()), s.last())
    }
}

proof fn lemma_place_text(s: Seq<String>, x: String)
    ensures
        texts(place(s, x)) == place_text(texts(s), x@),
    decreases s.len(),
{
    if s.len() == 0 || !text_lt(x@, s.last()@) {
        assert(texts(s.push(x)) =~= texts(s).push(x@));
        if s.len() > 0 {
            assert(texts(s).last() == s.last()@);
        }
    } else {
        lemma_place_text(s.drop_last(), x);
        assert(texts(s).drop_last() =~= texts(s.drop_last()));
        assert(texts(s).last() == s.last()@);
        let p = place(s.drop_last(), x);
        assert(texts(p.push(s.last())) =~= texts(p).push(s.last()@));
    }
}

proof fn lemma_sorted_texts(s: Seq<String>)
    ensures
        texts(arranged(s)) == sorted_texts(texts(s)),
    decreases s.len(),
{
    if s.len() == 0 {
        assert(texts(s) =~= Seq::<Seq<char>>::empty());
    } else {
        lemma_sorted_texts(s.drop_last());
        lemma_place_text(arranged(s.drop_last()), s.last());
        assert(texts(s).drop_last() =~= texts(s.drop_last()));
        assert(texts(s).last() == s.last()@);
    }
}

/// The texts rise.
pub open spec fn texts_rise(s: Seq<Seq<char>>) -> bool {
    forall|i: int, j: int| 0 <= i < j < s.len() ==> text_lt(#[trigger] s[i], #[trigger] s[j])
}

/// No text stands before one that is ahead of it.
pub open spec fn texts_in_order(s: Seq<Seq<char>>) -> bool {
    forall|i: int, j: int|
        0 <= i < j < s.len() ==> !text_lt(#[trigger] s[j], #[trigger] s[i])
}

proof fn lemma_place_text_sorts(s: Seq<Seq<char>>, x: Seq<char>)
    requires
        texts_in_order(s),
    ensures
        texts_in_order(place_text(s, x)),
        place_text(s, x).to_multiset() == s.to_multiset().insert(x),
        place_text(s, x).len() == s.len() + 1,
        place_text(s, x).last() == x || (s.len() > 0 && place_text(s, x).last() == s.last()),
    decreases s.len(),
{
    broadcast use vstd::seq_lib::group_to_multiset_ensures;

    if s.len() == 0 || !text_lt(x, s.last()) {
        let r = s.push(x);
        assert forall|i: int, j: int| 0 <= i < j < r.len() implies !text_lt(
            #[trigger] r[j],
            #[trigger] r[i],
        ) by {
            if j == s.len() && i < s.len() - 1 {
                assert(!text_lt(s[s.len() - 1], s[i]));
                lemma_text_order(s[i], s.last(), x);
            }
        }
    } else {
        let d = s.drop_last();
        let p = place_text(d, x);
        lemma_place_text_sorts(d, x);
        let r = p.push(s.last());
        assert(d.push(s.last()) =~= s);
        assert(r.to_multiset() =~= s.to_multiset().insert(x));
        assert forall|i: int, j: int| 0 <= i < j < r.len() implies !text_lt(
            #[trigger] r[j],
            #[trigger] r[i],
        ) by {
            if j == p.len() {
                if i < p.len() - 1 {
                    assert(!text_lt(p[p.len() - 1], p[i]));
                }
                lemma_text_order(x, s.last(), s.last());
                if d.len() > 0 {
                    assert(!text_lt(s[s.len() - 1], s[s.len() - 2]));
                }
                lemma_text_order(p[i], p.last(), s.last());
                lemma_text_order(p.last(), p.last(), s.last());
            }
        }
    }
}

/// Sorting keeps the texts and puts them in order.
pub proof fn lemma_sorted(s: Seq<Seq<char>>)
    ensures
        texts_in_order(sorted_texts(s)),
        sorted_texts(s).to_multiset() == s.to_multiset(),
        sorted_texts(s).len() == s.len(),
        forall|x: Seq<char>| sorted_texts(s).contains(x) <==> s.contains(x),
    decreases s.len(),
{
    broadcast use vstd::seq_lib::group_to_multiset_ensures;

    if s.len() > 0 {
        lemma_sorted(s.drop_last());
        lemma_place_text_sorts(sorted_texts(s.drop_last()), s.last());
        assert(s.drop_last().push(s.last()) =~= s);
    }
    assert forall|x: Seq<char>| sorted_texts(s).contains(x) <==> s.contains(x) by {
        assert(sorted_texts(s).to_multiset().count(x) == s.to_multiset().count(x));
    }
}

/// Sorts strings.
pub fn sort_texts(v: Vec<String>) -> (r: Vec<String>)
    ensures
        texts(r@) == sorted_texts(texts(v@)),
        r@.len() == v@.len(),
{
    proof {
        lemma_sorted_texts(v@);
        lemma_arranged(v@);
    }
    arrange(v)
}

/// The items of `s` without repeats, each where it first stands.
pub open spec fn distinct<A>(s: Seq<A>) -> Seq<A>
    decreases s.len(),
{
    if s.len() == 0 {
        s
    } else {
        let d = distinct(s.drop_last());
        if d.contains(s.last()) {
            d
        } else {
            d.push(s.last())
        }
    }
}

/// `distinct` repeats nothing and loses nothing.
pub proof fn lemma_distinct<A>(s: Seq<A>)
    ensures
        distinct(s).no_duplicates(),
        forall|a: A| distinct(s).contains(a) <==> s.contains(a),
        distinct(s).len() <= s.len(),
    decreases s.len(),
{
    if s.len() > 0 {
        let p = s.drop_last();
        lemma_distinct(p);
        assert(p.push(s.last()) =~= s);
        assert forall|a: A| distinct(s).contains(a) <==> s.contains(a) by {
            if s.contains(a) {
                let i = choose|i: int| 0 <= i < s.len() && s[i] == a;
                if i < p.len() {
                    assert(p[i] == a);
                    assert(p.contains(a));
                    let k = choose|k: int| 0 <= k < distinct(p).len() && distinct(p)[k] == a;
                    assert(distinct(s)[k] == a);
                } else if !distinct(p).contains(s.last()) {
                    assert(distinct(s)[distinct(p).len() as int] == a);
                }
            }
            if distinct(s).contains(a) {
                let k = choose|k: int| 0 <= k < distinct(s).len() && distinct(s)[k] == a;
                if k < distinct(p).len() {
                    assert(distinct(p)[k] == a);
                    assert(distinct(p).contains(a));
                    assert(p.contains(a));
                    let i = choose|i: int| 0 <= i < p.len() && p[i] == a;
                    assert(s[i] == a);
                } else {
                    assert(s[s.len() - 1] == a);
                }
            }
        }
    }
}

} // verus!
