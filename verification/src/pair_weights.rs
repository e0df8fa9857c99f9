//! Weights of undirected pairs, summed up and kept in order.

use vstd::prelude::*;
use crate::text::opt_text;

verus! {

/// A pair with its weight, and the kind that it was first seen with.
#[derive(Debug)]
pub struct PairEntry {
    pub lo: usize,
    pub hi: usize,
    pub weight: u128,
    pub kind: Option<String>,
}

/// The first pair stands before the second.
pub open spec fn pair_before(a: (usize, usize), b: (usize, usize)) -> bool {
    a.0 < b.0 || (a.0 == b.0 && a.1 < b.1)
}

/// The pairs rise.
pub open spec fn pairs_rise(s: Seq<PairEntry>) -> bool {
    forall|i: int, j: int|
        0 <= i < j < s.len() ==> pair_before(
            ((#[trigger] s[i]).lo, s[i].hi),
            ((#[trigger] s[j]).lo, s[j].hi),
        )
}

/// What is known of a pair: its weight and kind.
pub open spec fn pair_value(s: Seq<PairEntry>, lo: usize, hi: usize) -> Option<
    (u128, Option<Seq<char>>),
>
    decreases s.len(),
{
    if s.len() == 0 {
        None
    } else if s.last().lo == lo && s.last().hi == hi {
        Some((s.last().weight, opt_text(s.last().kind)))
    } else {
        pair_value(s.drop_last(), lo, hi)
    }
}

/// A pair that stands at `i` has the value that stands there; one that stands
/// nowhere has none.
pub proof fn lemma_pair_value(s: Seq<PairEntry>, lo: usize, hi: usize)
    requires
        pairs_rise(s),
    ensures
        forall|i: int|
            0 <= i < s.len() && (#[trigger] s[i]).lo == lo && s[i].hi == hi ==> pair_value(s, lo, hi)
                == Some((s[i].weight, opt_text(s[i].kind))),
        (forall|i: int| 0 <= i < s.len() ==> !((#[trigger] s[i]).lo == lo && s[i].hi == hi))
            ==> pair_value(s, lo, hi) is None,
    decreases s.len(),
{
    if s.len() > 0 {
        let d = s.drop_last();
        assert(pairs_rise(d)) by {
            assert forall|i: int, j: int| 0 <= i < j < d.len() implies pair_before(
                ((#[trigger] d[i]).lo, d[i].hi),
                ((#[trigger] d[j]).lo, d[j].hi),
            ) by {
                assert(d[i] == s[i] && d[j] == s[j]);
            }
        }
        lemma_pair_value(d, lo, hi);
        assert forall|i: int| 0 <= i < d.len() implies d[i] == #[trigger] s[i] by {}
        if s.last().lo == lo && s.last().hi == hi {
            assert forall|i: int|
                0 <= i < s.len() && (#[trigger] s[i]).lo == lo && s[i].hi == hi implies i == s.len()
                - 1 by {
                if i < s.len() - 1 {
                    assert(pair_before((s[i].lo, s[i].hi), (s[s.len() - 1].lo, s[s.len() - 1].hi)));
                }
            }
        }
        if forall|i: int| 0 <= i < s.len() ==> !((#[trigger] s[i]).lo == lo && s[i].hi == hi) {
            assert(!(s[s.len() - 1].lo == lo && s[s.len() - 1].hi == hi));
            assert forall|i: int| 0 <= i < d.len() implies !((#[trigger] d[i]).lo == lo && d[i].hi
                == hi) by {
                assert(s[i] == d[i]);
            }
        }
    }
}

/// A value with more weight; a kind is taken up only where there is none.
pub open spec fn heavier(
    value: Option<(u128, Option<Seq<char>>)>,
    weight: u128,
    kind: Option<Seq<char>>,
) -> Option<(u128, Option<Seq<char>>)> {
    match value {
        Some((w, k)) => Some(
            (
                (w + weight) as u128,
                if k is Some {
                    k
                } else {
                    kind
                },
            ),
        ),
        None => Some((weight, kind)),
    }
}

/// Adds weight to a pair.
pub fn add_weight(list: &mut Vec<PairEntry>, lo: usize, hi: usize, weight: u128, kind: Option<String>)
    requires
        pairs_rise(old(list)@),
        pair_value(old(list)@, lo, hi) matches Some((w, _)) ==> w + weight <= u128::MAX,
    ensures
        pairs_rise(final(list)@),
        pair_value(final(list)@, lo, hi) == heavier(
            pair_value(old(list)@, lo, hi),
            weight,
            opt_text(kind),
        ),
        forall|a: usize, b: usize|
            (a, b) != (lo, hi) ==> #[trigger] pair_value(final(list)@, a, b) == pair_value(
                old(list)@,
                a,
                b,
            ),
        forall|i: int|
            0 <= i < final(list)@.len() ==> ((#[trigger] final(list)@[i]).lo, final(list)@[i].hi)
                == (lo, hi) || pair_value(
                old(list)@,
                final(list)@[i].lo,
                final(list)@[i].hi,
            ) is Some,
{
    let ghost s = list@;
    let mut at: usize = 0;
    while at < list.len() && (list[at].lo < lo || (list[at].lo == lo && list[at].hi < hi))
        invariant
            at <= list@.len(),
            list@ == s,
            forall|i: int|
                0 <= i < at ==> pair_before(((#[trigger] s[i]).lo, s[i].hi), (lo, hi)),
        decreases list@.len() - at,
    {
        at += 1;
    }
    if at < list.len() && list[at].lo == lo && list[at].hi == hi {
        proof {
            lemma_pair_value(s, lo, hi);
            assert(s[at as int].lo == lo);
        }
        let total: u128 = list[at].weight + weight;
        list[at].weight = total;
        let ghost k = opt_text(kind);
        if list[at].kind.is_none() {
            list[at].kind = kind;
        }
        proof {
            let t = list@;
            let e = t[at as int];
            assert(t =~= s.update(at as int, e));
            assert(e.lo == lo && e.hi == hi);
            assert forall|i: int| 0 <= i < t.len() implies (#[trigger] t[i]).lo == s[i].lo && t[i].hi
                == s[i].hi by {}
            assert(pairs_rise(t)) by {
                assert forall|i: int, j: int| 0 <= i < j < t.len() implies pair_before(
                    ((#[trigger] t[i]).lo, t[i].hi),
                    ((#[trigger] t[j]).lo, t[j].hi),
                ) by {
                    assert(pair_before((s[i].lo, s[i].hi), (s[j].lo, s[j].hi)));
                }
            }
            lemma_pair_value(t, lo, hi);
            assert(t[at as int].lo == lo);
            assert forall|a: usize, b: usize| (a, b) != (lo, hi) implies #[trigger] pair_value(
                t,
                a,
                b,
            ) == pair_value(s, a, b) by {
                lemma_same_elsewhere(s, t, at as int, a, b);
            }
            assert forall|i: int| 0 <= i < t.len() implies ((#[trigger] t[i]).lo, t[i].hi) == (
                lo,
                hi,
            ) || pair_value(s, t[i].lo, t[i].hi) is Some by {
                lemma_pair_value(s, s[i].lo, s[i].hi);
                assert(s[i].lo == t[i].lo);
            }
        }
    } else {
        let ghost e = PairEntry { lo, hi, weight, kind };
        list.insert(at, PairEntry { lo, hi, weight, kind });
        proof {
            let t = list@;
            assert(t =~= s.insert(at as int, e));
            assert forall|i: int| at <= i < s.len() implies pair_before(
                (lo, hi),
                ((#[trigger] s[i]).lo, s[i].hi),
            ) by {
                if i > at {
                    assert(pair_before(
                        (s[at as int].lo, s[at as int].hi),
                        (s[i].lo, s[i].hi),
                    ));
                }
            }
            assert(pairs_rise(t)) by {
                assert forall|i: int, j: int| 0 <= i < j < t.len() implies pair_before(
                    ((#[trigger] t[i]).lo, t[i].hi),
                    ((#[trigger] t[j]).lo, t[j].hi),
                ) by {
                    if j < at {
                        assert(t[i] == s[i] && t[j] == s[j]);
                    } else if j == at {
                        assert(t[i] == s[i]);
                    } else if i < at {
                        assert(t[i] == s[i] && t[j] == s[j - 1]);
                    } else if i == at {
                        assert(t[j] == s[j - 1]);
                    } else {
                        assert(t[i] == s[i - 1] && t[j] == s[j - 1]);
                    }
                }
            }
            assert(t[at as int] == e);
            lemma_pair_value(t, lo, hi);
            lemma_pair_value(s, lo, hi);
            assert forall|i: int| 0 <= i < s.len() implies !((#[trigger] s[i]).lo == lo && s[i].hi
                == hi) by {}
            assert forall|a: usize, b: usize| (a, b) != (lo, hi) implies #[trigger] pair_value(
                t,
                a,
                b,
            ) == pair_value(s, a, b) by {
                lemma_inserted_elsewhere(s, t, at as int, a, b);
            }
            assert forall|i: int| 0 <= i < t.len() implies ((#[trigger] t[i]).lo, t[i].hi) == (
                lo,
                hi,
            ) || pair_value(s, t[i].lo, t[i].hi) is Some by {
                if i < at {
                    assert(s[i] == t[i]);
                    lemma_pair_value(s, s[i].lo, s[i].hi);
                } else if i > at {
                    assert(s[i - 1] == t[i]);
                    lemma_pair_value(s, s[i - 1].lo, s[i - 1].hi);
                }
            }
        }
    }
}

proof fn lemma_same_elsewhere(s: Seq<PairEntry>, t: Seq<PairEntry>, at: int, a: usize, b: usize)
    requires
        pairs_rise(s),
        pairs_rise(t),
        0 <= at < s.len(),
        t == s.update(at, t[at]),
        t[at].lo == s[at].lo && t[at].hi == s[at].hi,
        (a, b) != (s[at].lo, s[at].hi),
    ensures
        pair_value(t, a, b) == pair_value(s, a, b),
{
    lemma_pair_value(s, a, b);
    lemma_pair_value(t, a, b);
    if exists|i: int| 0 <= i < s.len() && (#[trigger] s[i]).lo == a && s[i].hi == b {
        let i = choose|i: int| 0 <= i < s.len() && (#[trigger] s[i]).lo == a && s[i].hi == b;
        assert(t[i] == s[i]);
    } else {
        assert forall|i: int| 0 <= i < t.len() implies !((#[trigger] t[i]).lo == a && t[i].hi
            == b) by {
            if i != at {
                assert(t[i] == s[i]);
            }
        }
    }
}

proof fn lemma_inserted_elsewhere(
    s: Seq<PairEntry>,
    t: Seq<PairEntry>,
    at: int,
    a: usize,
    b: usize,
)
    requires
        pairs_rise(s),
        pairs_rise(t),
        0 <= at <= s.len(),
        t == s.insert(at, t[at]),
        (a, b) != (t[at].lo, t[at].hi),
    ensures
        pair_value(t, a, b) == pair_value(s, a, b),
{
    lemma_pair_value(s, a, b);
    lemma_pair_value(t, a, b);
    if exists|i: int| 0 <= i < s.len() && (#[trigger] s[i]).lo == a && s[i].hi == b {
        let i = choose|i: int| 0 <= i < s.len() && (#[trigger] s[i]).lo == a && s[i].hi == b;
        if i < at {
            assert(t[i] == s[i]);
        } else {
            assert(t[i + 1] == s[i]);
        }
    } else {
        assert forall|i: int| 0 <= i < t.len() implies !((#[trigger] t[i]).lo == a && t[i].hi
            == b) by {
            if i < at {
                assert(t[i] == s[i]);
            } else if i > at {
                assert(t[i] == s[i - 1]);
            }
        }
    }
}

} // verus!
