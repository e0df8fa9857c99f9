//! Grouping by label, and clusters of members that are ranked and capped.

use vstd::prelude::*;
use crate::order::{
    Ranked, arrange, arranged, distinct, lemma_arranged, lemma_distinct, lemma_text_order,
    text_less, text_lt,
};
use crate::rrf::at_most;

verus! {

/// The places at which `label` stands, rising.
pub open spec fn members_of(labels: Seq<usize>, label: usize) -> Seq<usize>
    decreases labels.len(),
{
    if labels.len() == 0 {
        Seq::empty()
    } else {
        let d = members_of(labels.drop_last(), label);
        if labels.last() == label {
            d.push((labels.len() - 1) as usize)
        } else {
            d
        }
    }
}

/// For each label, in the order in which they are first met, the places at
/// which it stands.
pub open spec fn grouped(labels: Seq<usize>) -> Seq<Seq<usize>> {
    let order = distinct(labels);
    Seq::new(order.len(), |k: int| members_of(labels, order[k]))
}

/// The views of lists of places.
pub open spec fn place_lists(v: Seq<Vec<usize>>) -> Seq<Seq<usize>> {
    Seq::new(v.len(), |i: int| v[i]@)
}

/// The places of a label are those at which it stands, rising.
pub proof fn lemma_members_of(labels: Seq<usize>, label: usize)
    requires
        labels.len() <= usize::MAX,
    ensures
        forall|i: int|
            0 <= i < members_of(labels, label).len() ==> (#[trigger] members_of(labels, label)[i])
                < labels.len() && labels[members_of(labels, label)[i] as int] == label,
        forall|i: int, j: int|
            0 <= i < j < members_of(labels, label).len() ==> (#[trigger] members_of(
                labels,
                label,
            )[i]) < (#[trigger] members_of(labels, label)[j]),
        forall|p: usize|
            p < labels.len() && #[trigger] labels[p as int] == label ==> members_of(
                labels,
                label,
            ).contains(p),
    decreases labels.len(),
{
    if labels.len() > 0 {
        let q = labels.drop_last();
        lemma_members_of(q, label);
        let d = members_of(q, label);
        let m = members_of(labels, label);
        assert forall|p: usize|
            p < labels.len() && #[trigger] labels[p as int] == label implies m.contains(p) by {
            if p < q.len() {
                assert(q[p as int] == label);
                assert(d.contains(p));
                let k = choose|k: int| 0 <= k < d.len() && d[k] == p;
                assert(m[k] == p);
            } else {
                assert(m[d.len() as int] == p);
            }
        }
    }
}

/// The place `p` stands in one of the groups.
pub open spec fn in_some_group(labels: Seq<usize>, p: usize) -> bool {
    exists|k: int| 0 <= k < grouped(labels).len() && #[trigger] grouped(labels)[k].contains(p)
}

/// Grouping loses nothing and doubles nothing: each place stands in exactly
/// one group, that of its label, and places stand in a group in rising order.
pub proof fn lemma_grouped(labels: Seq<usize>)
    requires
        labels.len() <= usize::MAX,
    ensures
        forall|k: int, i: int|
            0 <= k < grouped(labels).len() && 0 <= i < grouped(labels)[k].len() ==> (#[trigger]
            grouped(labels)[k][i]) < labels.len() && labels[grouped(labels)[k][i] as int]
                == distinct(labels)[k],
        forall|p: usize|
            p < labels.len() ==> in_some_group(labels, p),
        forall|p: usize, k: int, m: int|
            0 <= k < grouped(labels).len() && 0 <= m < grouped(labels).len() && #[trigger] grouped(
                labels,
            )[k].contains(p) && #[trigger] grouped(labels)[m].contains(p) ==> k == m,
        forall|k: int, i: int, j: int|
            0 <= k < grouped(labels).len() && 0 <= i < j < grouped(labels)[k].len() ==> (#[trigger]
            grouped(labels)[k][i]) < (#[trigger] grouped(labels)[k][j]),
{
    let order = distinct(labels);
    lemma_distinct(labels);
    assert forall|k: int, i: int|
        0 <= k < grouped(labels).len() && 0 <= i < grouped(labels)[k].len() implies (#[trigger]
    grouped(labels)[k][i]) < labels.len() && labels[grouped(labels)[k][i] as int] == order[k] by {
        lemma_members_of(labels, order[k]);
    }
    assert forall|p: usize| p < labels.len() implies in_some_group(labels, p) by {
        assert(labels.contains(labels[p as int]));
        let k = choose|k: int| 0 <= k < order.len() && order[k] == labels[p as int];
        lemma_members_of(labels, order[k]);
        assert(grouped(labels)[k].contains(p));
    }
    assert forall|p: usize, k: int, m: int|
        0 <= k < grouped(labels).len() && 0 <= m < grouped(labels).len() && #[trigger] grouped(
            labels,
        )[k].contains(p) && #[trigger] grouped(labels)[m].contains(p) implies k == m by {
        let a = choose|a: int| 0 <= a < grouped(labels)[k].len() && grouped(labels)[k][a] == p;
        let b = choose|b: int| 0 <= b < grouped(labels)[m].len() && grouped(labels)[m][b] == p;
        assert(labels[grouped(labels)[k][a] as int] == order[k]);
        assert(labels[grouped(labels)[m][b] as int] == order[m]);
    }
    assert forall|k: int, i: int, j: int|
        0 <= k < grouped(labels).len() && 0 <= i < j < grouped(labels)[k].len() implies (#[trigger]
    grouped(labels)[k][i]) < (#[trigger] grouped(labels)[k][j]) by {
        lemma_members_of(labels, order[k]);
    }
}

/// Groups the places of `labels` by label.
pub fn group(labels: &[usize]) -> (r: Vec<Vec<usize>>)
    ensures
        place_lists(r@) == grouped(labels@),
{
    let mut order: Vec<usize> = Vec::new();
    let mut groups: Vec<Vec<usize>> = Vec::new();
    let mut i: usize = 0;
    assert(place_lists(groups@) =~= grouped(labels@.take(0)));
    assert(order@ =~= distinct(labels@.take(0)));
    while i < labels.len()
        invariant
            i <= labels@.len(),
            order@ == distinct(labels@.take(i as int)),
            place_lists(groups@) == grouped(labels@.take(i as int)),
        decreases labels@.len() - i,
    {
        let label: usize = labels[i];
        let ghost done = labels@.take(i as int);
        let ghost next = labels@.take(i + 1);
        let ghost before = groups@;
        proof {
            assert(next.drop_last() =~= done);
            assert(next.last() == label);
            assert(place_lists(groups@).len() == order@.len());
            lemma_distinct(done);
        }
        let mut at: usize = 0;
        while at < order.len() && order[at] != label
            invariant
                at <= order@.len(),
                forall|k: int| 0 <= k < at ==> order@[k] != label,
            decreases order@.len() - at,
        {
            at += 1;
        }
        if at < order.len() {
            assert(order@.contains(label));
            groups[at].push(i);
            proof {
                assert(distinct(next) == order@);
                assert forall|k: int| 0 <= k < order@.len() implies place_lists(groups@)[k]
                    == grouped(next)[k] by {
                    assert(place_lists(before)[k] == grouped(done)[k]);
                    if k == at {
                        assert(groups@[k]@ =~= before[k]@.push(i));
                    } else {
                        assert(groups@[k] == before[k]);
                        assert(order@[k] != label);
                    }
                }
                assert(place_lists(groups@) =~= grouped(next));
            }
        } else {
            assert(!order@.contains(label));
            let ghost order_before = order@;
            order.push(label);
            let mut fresh: Vec<usize> = Vec::new();
            fresh.push(i);
            let ghost f = fresh@;
            groups.push(fresh);
            proof {
                assert(!done.contains(label));
                lemma_no_members(done, label);
                assert forall|k: int| 0 <= k < order_before.len() implies place_lists(groups@)[k]
                    == grouped(next)[k] by {
                    assert(place_lists(before)[k] == grouped(done)[k]);
                    assert(groups@[k] == before[k]);
                    assert(order_before[k] != label);
                    assert(order@[k] == order_before[k]);
                }
                assert(f =~= Seq::<usize>::empty().push(i));
                assert(place_lists(groups@) =~= grouped(next));
            }
        }
        i += 1;
    }
    assert(labels@.take(i as int) =~= labels@);
    groups
}

proof fn lemma_no_members(labels: Seq<usize>, label: usize)
    requires
        !labels.contains(label),
    ensures
        members_of(labels, label) == Seq::<usize>::empty(),
    decreases labels.len(),
{
    if labels.len() > 0 {
        assert(labels[labels.len() - 1] != label);
        let q = labels.drop_last();
        assert forall|k: int| 0 <= k < q.len() implies q[k] != label by {
            assert(labels[k] == q[k]);
        }
        lemma_no_members(q, label);
    }
}

/// Members of clusters: ranked, copied, and with a text that breaks the ties
/// of clusters.
pub trait Member: Ranked {
    /// The text.
    spec fn label(self) -> Seq<char>;

    /// The text, as a string slice.
    fn label_text(&self) -> (r: &str)
        ensures
            r@ == self.label(),
    ;

    /// A copy.
    fn copied(&self) -> (r: Self)
        ensures
            r == *self,
    ;
}

/// Members that belong together.
pub struct Cluster<M> {
    pub members: Vec<M>,
}

impl<M: Member> Ranked for Cluster<M> {
    /// Largest first, then by the text of the first member.
    open spec fn ranks_before(self, other: Self) -> bool {
        let a = self.members@;
        let b = other.members@;
        ||| a.len() > b.len()
        ||| a.len() == b.len() && a.len() > 0 && text_lt(a[0].label(), b[0].label())
    }

    fn goes_before(&self, other: &Self) -> (r: bool) {
        if self.members.len() != other.members.len() {
            return self.members.len() > other.members.len();
        }
        if self.members.len() == 0 {
            return false;
        }
        text_less(self.members[0].label_text(), other.members[0].label_text())
    }

    proof fn rank_laws(a: Self, b: Self, c: Self) {
        if a.members@.len() > 0 && b.members@.len() > 0 && c.members@.len() > 0 {
            lemma_text_order(
                a.members@[0].label(),
                b.members@[0].label(),
                c.members@[0].label(),
            );
        } else if a.members@.len() > 0 && b.members@.len() > 0 {
            lemma_text_order(
                a.members@[0].label(),
                b.members@[0].label(),
                a.members@[0].label(),
            );
        }
    }
}

/// The members at the given places.
pub open spec fn picked<M>(all: Seq<M>, at: Seq<usize>) -> Seq<M> {
    Seq::new(at.len(), |i: int| all[at[i] as int])
}

/// For each group of two or more, its members by rank.
pub open spec fn ranked_groups<M: Member>(all: Seq<M>, groups: Seq<Seq<usize>>) -> Seq<Seq<M>>
    decreases groups.len(),
{
    if groups.len() == 0 {
        Seq::empty()
    } else {
        let d = ranked_groups(all, groups.drop_last());
        if groups.last().len() >= 2 {
            d.push(arranged(picked(all, groups.last())))
        } else {
            d
        }
    }
}

/// The views of clusters.
pub open spec fn cluster_views<M>(s: Seq<Cluster<M>>) -> Seq<Seq<M>> {
    Seq::new(s.len(), |i: int| s[i].members@)
}

/// The lists with at most `cap` members in each.
pub open spec fn capped<M>(lists: Seq<Seq<M>>, cap: int) -> Seq<Seq<M>> {
    Seq::new(lists.len(), |i: int| at_most(lists[i], cap))
}

/// The clusters are those of the labelled members: at least two with one
/// label, the largest first, at most `max`; of each the members by rank, at
/// most `cap`.
pub open spec fn are_clusters<M: Member>(
    clusters: Seq<Cluster<M>>,
    all: Seq<M>,
    labels: Seq<usize>,
    cap: int,
    max: int,
) -> bool {
    exists|unsorted: Seq<Cluster<M>>| #[trigger]
        cluster_views(unsorted) == ranked_groups(all, grouped(labels)) && cluster_views(clusters)
            == capped(cluster_views(at_most(arranged(unsorted), max)), cap)
}

/// The largest come first: no cluster that is left out is larger than one that
/// is taken.
pub proof fn lemma_largest_first<M: Member>(unsorted: Seq<Cluster<M>>, i: int, j: int)
    requires
        0 <= i < j < unsorted.len(),
    ensures
        arranged(unsorted)[i].members@.len() >= arranged(unsorted)[j].members@.len(),
{
    lemma_arranged(unsorted);
}

/// Keeps at most `cap` members of each cluster.
fn cap_members<M>(clusters: Vec<Cluster<M>>, cap: usize) -> (r: Vec<Cluster<M>>)
    ensures
        cluster_views(r@) == capped(cluster_views(clusters@), cap as int),
{
    let ghost want = capped(cluster_views(clusters@), cap as int);
    let mut r: Vec<Cluster<M>> = Vec::new();
    for c in it: clusters
        invariant
            it.seq() == clusters@,
            want == capped(cluster_views(clusters@), cap as int),
            r@.len() == it.index(),
            forall|k: int| 0 <= k < r@.len() ==> (#[trigger] r@[k]).members@ == want[k],
    {
        let mut members = c.members;
        members.truncate(cap);
        assert(members@ =~= at_most(c.members@, cap as int));
        r.push(Cluster { members });
    }
    assert(cluster_views(r@) =~= want);
    r
}

/// Makes clusters of the members with equal labels.
pub fn make_clusters<M: Member>(
    all: &[M],
    labels: &[usize],
    cap: usize,
    max: usize,
) -> (r: Vec<Cluster<M>>)
    requires
        labels@.len() == all@.len(),
    ensures
        are_clusters(r@, all@, labels@, cap as int, max as int),
{
    let groups = group(labels);
    let ghost gs = place_lists(groups@);
    proof {
        assert(labels.len() == labels@.len());
        lemma_grouped(labels@);
    }
    let mut clusters: Vec<Cluster<M>> = Vec::new();
    let mut i: usize = 0;
    assert(cluster_views(clusters@) =~= ranked_groups(all@, gs.take(0)));
    while i < groups.len()
        invariant
            i <= groups@.len(),
            gs == place_lists(groups@),
            gs == grouped(labels@),
            labels@.len() == all@.len(),
            forall|k: int, i: int|
                0 <= k < grouped(labels@).len() && 0 <= i < grouped(labels@)[k].len() ==> (
                #[trigger] grouped(labels@)[k][i]) < labels@.len(),
            cluster_views(clusters@) == ranked_groups(all@, gs.take(i as int)),
        decreases groups@.len() - i,
    {
        let at = &groups[i];
        let ghost before = clusters@;
        proof {
            assert(gs.take(i + 1).drop_last() =~= gs.take(i as int));
            assert(gs.take(i + 1).last() == at@);
            assert(gs[i as int] == at@);
        }
        if at.len() >= 2 {
            let mut members: Vec<M> = Vec::new();
            let mut k: usize = 0;
            while k < at.len()
                invariant
                    k <= at@.len(),
                    forall|m: int| 0 <= m < at@.len() ==> (#[trigger] at@[m]) < all@.len(),
                    members@.len() == k,
                    forall|m: int| 0 <= m < k ==> members@[m] == picked(all@, at@)[m],
                decreases at@.len() - k,
            {
                let p: usize = at[k];
                members.push(all[p].copied());
                k += 1;
            }
            assert(members@ =~= picked(all@, at@));
            let members = arrange(members);
            let ghost v = members@;
            clusters.push(Cluster { members });
            proof {
                assert(cluster_views(clusters@) =~= cluster_views(before).push(v));
            }
        }
        i += 1;
    }
    assert(gs.take(i as int) =~= gs);
    let ghost unsorted = clusters@;
    let mut clusters = arrange(clusters);
    clusters.truncate(max);
    assert(clusters@ =~= at_most(arranged(unsorted), max as int));
    cap_members(clusters, cap)
}

} // verus!
