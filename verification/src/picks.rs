//! Sequences that are picked from others, element by element.

use vstd::prelude::*;

verus! {

/// What `f` gives for the elements of `s`, in order, where it gives anything.
pub open spec fn picks<A, B>(s: Seq<A>, f: spec_fn(A) -> Option<B>) -> Seq<B>
    decreases s.len(),
{
    if s.len() == 0 {
        Seq::empty()
    } else {
        let d = picks(s.drop_last(), f);
        match f(s.last()) {
            Some(x) => d.push(x),
            None => d,
        }
    }
}

/// What `f` gives for the elements of `s`, each once, in the order in which they
/// are first met.
pub open spec fn picks_once<A, B>(s: Seq<A>, f: spec_fn(A) -> Option<B>) -> Seq<B>
    decreases s.len(),
{
    if s.len() == 0 {
        Seq::empty()
    } else {
        let d = picks_once(s.drop_last(), f);
        match f(s.last()) {
            Some(x) => if d.contains(x) {
                d
            } else {
                d.push(x)
            },
            None => d,
        }
    }
}

/// The number of elements of `s` for which `p` holds.
pub open spec fn count_where<A>(s: Seq<A>, p: spec_fn(A) -> bool) -> nat
    decreases s.len(),
{
    if s.len() == 0 {
        0
    } else {
        count_where(s.drop_last(), p) + if p(s.last()) {
            1nat
        } else {
            0
        }
    }
}

/// `f` gives `x` for some element of `s`.
pub open spec fn gives<A, B>(s: Seq<A>, f: spec_fn(A) -> Option<B>, x: B) -> bool {
    exists|i: int| 0 <= i < s.len() && f(#[trigger] s[i]) == Some(x)
}

/// What is picked is what `f` gives.
pub proof fn lemma_picks<A, B>(s: Seq<A>, f: spec_fn(A) -> Option<B>)
    ensures
        picks(s, f).len() <= s.len(),
        forall|x: B| #[trigger] picks(s, f).contains(x) <==> gives(s, f, x),
    decreases s.len(),
{
    if s.len() > 0 {
        let d = s.drop_last();
        lemma_picks(d, f);
        assert forall|x: B| #[trigger] picks(s, f).contains(x) <==> gives(s, f, x) by {
            let before = picks(d, f);
            let all = picks(s, f);
            lemma_gives(s, f, x);
            if before.contains(x) {
                let k = choose|k: int| 0 <= k < before.len() && before[k] == x;
                assert(all[k] == x);
            } else if all.contains(x) {
                let k = choose|k: int| 0 <= k < all.len() && all[k] == x;
                if k < before.len() {
                    assert(before[k] == x);
                }
            }
            if f(s.last()) == Some(x) {
                assert(all[before.len() as int] == x);
            }
        }
    }
}

proof fn lemma_gives<A, B>(s: Seq<A>, f: spec_fn(A) -> Option<B>, x: B)
    requires
        s.len() > 0,
    ensures
        gives(s, f, x) <==> gives(s.drop_last(), f, x) || f(s.last()) == Some(x),
{
    let d = s.drop_last();
    if gives(s, f, x) {
        let i = choose|i: int| 0 <= i < s.len() && f(#[trigger] s[i]) == Some(x);
        if i < d.len() {
            assert(d[i] == s[i]);
        }
    }
    if gives(d, f, x) {
        let i = choose|i: int| 0 <= i < d.len() && f(#[trigger] d[i]) == Some(x);
        assert(s[i] == d[i]);
    }
    assert(s[s.len() - 1] == s.last());
}

/// What is picked once is what `f` gives, without repetition.
pub proof fn lemma_picks_once<A, B>(s: Seq<A>, f: spec_fn(A) -> Option<B>)
    ensures
        picks_once(s, f).no_duplicates(),
        picks_once(s, f).len() <= s.len(),
        forall|x: B| #[trigger] picks_once(s, f).contains(x) <==> gives(s, f, x),
    decreases s.len(),
{
    if s.len() > 0 {
        let d = s.drop_last();
        lemma_picks_once(d, f);
        assert forall|x: B| #[trigger] picks_once(s, f).contains(x) <==> gives(s, f, x) by {
            let before = picks_once(d, f);
            let all = picks_once(s, f);
            lemma_gives(s, f, x);
            if before.contains(x) {
                let k = choose|k: int| 0 <= k < before.len() && before[k] == x;
                assert(all[k] == x);
            } else if all.contains(x) {
                let k = choose|k: int| 0 <= k < all.len() && all[k] == x;
                if k < before.len() {
                    assert(before[k] == x);
                }
            }
            if f(s.last()) == Some(x) && !before.contains(x) {
                assert(all[before.len() as int] == x);
            }
        }
    }
}

/// Counting is filtering and taking the length.
pub proof fn lemma_count_where<A>(s: Seq<A>, p: spec_fn(A) -> bool)
    ensures
        count_where(s, p) == s.filter(p).len(),
        count_where(s, p) <= s.len(),
    decreases s.len(),
{
    if s.len() > 0 {
        let d = s.drop_last();
        lemma_count_where(d, p);
        assert(d.push(s.last()) =~= s);
        d.lemma_filter_push(s.last(), p);
    } else {
        reveal(Seq::filter);
    }
}

/// The sum of what `f` gives for the elements of `s`.
pub open spec fn sum_of<A>(s: Seq<A>, f: spec_fn(A) -> int) -> int
    decreases s.len(),
{
    if s.len() == 0 {
        0
    } else {
        sum_of(s.drop_last(), f) + f(s.last())
    }
}

/// Sums of what is not negative are not negative, and no part of them is greater
/// than the whole.
pub proof fn lemma_sum_of<A>(s: Seq<A>, f: spec_fn(A) -> int, g: spec_fn(A) -> int)
    requires
        forall|x: A| 0 <= #[trigger] f(x) <= g(x),
    ensures
        0 <= sum_of(s, f) <= sum_of(s, g),
    decreases s.len(),
{
    if s.len() > 0 {
        lemma_sum_of(s.drop_last(), f, g);
        assert(0 <= f(s.last()) <= g(s.last()));
    }
}

} // verus!
