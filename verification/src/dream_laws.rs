//! What is brought together when the memory is consolidated, and what is recalled.

use vstd::prelude::*;
use crate::claim_dream::{ClaimMember, are_components, are_members, common_project};
use crate::claim_recall::{MAX_EXPANSION_SEEDS, Recalled, entries_of, results_of, seeds_of};
use crate::claims::Claim;
use crate::clustering::{
    Cluster, Member, are_clusters, capped, cluster_views, grouped, lemma_grouped, lemma_members_of,
    members_of, picked, ranked_groups,
};
use crate::order::{
    Ranked, arranged, distinct, lemma_arranged, lemma_arranged_contains, lemma_distinct,
};
use crate::rrf::at_most;
use crate::text::opt_text;
use crate::union_find::{connected, is_pair, is_way};

verus! {

/// The member stands at a place with the label.
pub open spec fn has_label<M>(all: Seq<M>, labels: Seq<usize>, label: usize, x: M) -> bool {
    exists|p: int|
        0 <= p < all.len() && p < labels.len() && #[trigger] labels[p] == label && all[p] == x
}

/// All on the list stand at places with the label.
pub open spec fn all_have_label<M>(
    all: Seq<M>,
    labels: Seq<usize>,
    label: usize,
    list: Seq<M>,
) -> bool {
    forall|k: int| 0 <= k < list.len() ==> has_label(all, labels, label, #[trigger] list[k])
}

/// A list is one of the groups of two or more, in rank order.
spec fn is_ranked_group<M: Member>(all: Seq<M>, groups: Seq<Seq<usize>>, list: Seq<M>) -> bool {
    exists|g: int|
        0 <= g < groups.len() && groups[g].len() >= 2 && list == arranged(
            picked(all, #[trigger] groups[g]),
        )
}

proof fn lemma_ranked_groups<M: Member>(all: Seq<M>, groups: Seq<Seq<usize>>)
    ensures
        ranked_groups(all, groups).len() <= groups.len(),
        forall|c: int|
            0 <= c < ranked_groups(all, groups).len() ==> is_ranked_group(
                all,
                groups,
                #[trigger] ranked_groups(all, groups)[c],
            ),
        forall|g: int|
            0 <= g < groups.len() && (#[trigger] groups[g]).len() >= 2 ==> ranked_groups(
                all,
                groups,
            ).contains(arranged(picked(all, groups[g]))),
    decreases groups.len(),
{
    if groups.len() > 0 {
        let d = groups.drop_last();
        lemma_ranked_groups(all, d);
        let before = ranked_groups(all, d);
        let r = ranked_groups(all, groups);
        assert forall|c: int| 0 <= c < r.len() implies is_ranked_group(
            all,
            groups,
            #[trigger] r[c],
        ) by {
            if c < before.len() {
                assert(r[c] == before[c]);
                assert(is_ranked_group(all, d, before[c]));
                let g = choose|g: int|
                    0 <= g < d.len() && d[g].len() >= 2 && before[c] == arranged(
                        picked(all, #[trigger] d[g]),
                    );
                assert(groups[g] == d[g]);
            } else {
                assert(r[c] == arranged(picked(all, groups[groups.len() - 1])));
            }
        }
        assert forall|g: int| 0 <= g < groups.len() && (#[trigger] groups[g]).len() >= 2 implies
        r.contains(arranged(picked(all, groups[g]))) by {
            let x = arranged(picked(all, groups[g]));
            if g < d.len() {
                assert(d[g] == groups[g]);
                assert(before.contains(x));
                let k = choose|k: int| 0 <= k < before.len() && before[k] == x;
                assert(r[k] == x);
            } else {
                assert(r[before.len() as int] == x);
            }
        }
    }
}

/// A cluster has from two members to as many as allowed, all of one label, and
/// there are no more clusters than allowed.
pub proof fn lemma_cluster_members<M: Member>(
    clusters: Seq<Cluster<M>>,
    all: Seq<M>,
    labels: Seq<usize>,
    cap: int,
    max: int,
    c: int,
)
    requires
        are_clusters(clusters, all, labels, cap, max),
        labels.len() == all.len() <= usize::MAX,
        2 <= cap,
        0 <= max,
        0 <= c < clusters.len(),
    ensures
        clusters.len() <= max,
        2 <= clusters[c].members@.len() <= cap,
        exists|label: usize| #[trigger] all_have_label(all, labels, label, clusters[c].members@),
{
    let groups = grouped(labels);
    let unsorted = choose|unsorted: Seq<Cluster<M>>| #[trigger]
        cluster_views(unsorted) == ranked_groups(all, groups) && cluster_views(clusters) == capped(
            cluster_views(at_most(arranged(unsorted), max)),
            cap,
        );
    let sorted = arranged(unsorted);
    let kept = at_most(sorted, max);
    lemma_arranged(unsorted);
    lemma_arranged_contains(unsorted);
    lemma_ranked_groups(all, groups);
    lemma_grouped(labels);
    assert(cluster_views(clusters).len() == clusters.len());
    assert(cluster_views(clusters)[c] == at_most(kept[c].members@, cap));
    assert(kept[c] == sorted[c]);
    assert(sorted.contains(sorted[c]));
    let u = choose|u: int| 0 <= u < unsorted.len() && unsorted[u] == sorted[c];
    let list = sorted[c].members@;
    assert(cluster_views(unsorted)[u] == list);
    assert(is_ranked_group(all, groups, ranked_groups(all, groups)[u]));
    let g = choose|g: int|
        0 <= g < groups.len() && groups[g].len() >= 2 && list == arranged(
            picked(all, #[trigger] groups[g]),
        );
    let source = picked(all, groups[g]);
    lemma_arranged(source);
    lemma_arranged_contains(source);
    let label = distinct(labels)[g];
    let members = clusters[c].members@;
    assert(members == at_most(list, cap));
    assert forall|k: int| 0 <= k < members.len() implies has_label(
        all,
        labels,
        label,
        #[trigger] members[k],
    ) by {
        assert(members[k] == list[k]);
        assert(arranged(source).contains(list[k]));
        let i = choose|i: int| 0 <= i < source.len() && source[i] == list[k];
        let p = groups[g][i];
        assert(labels[p as int] == label);
        assert(all[p as int] == list[k]);
    }
    assert(all_have_label(all, labels, label, members));
}

proof fn lemma_members_len(labels: Seq<usize>, label: usize)
    ensures
        members_of(labels, label).len() <= labels.len(),
    decreases labels.len(),
{
    if labels.len() > 0 {
        lemma_members_len(labels.drop_last(), label);
    }
}

/// The cluster has both members.
pub open spec fn has_both<M>(c: Cluster<M>, x: M, y: M) -> bool {
    c.members@.contains(x) && c.members@.contains(y)
}

/// Two members of one label are in one cluster, where the limits leave room for
/// all.
pub proof fn lemma_alike_are_clustered<M: Member>(
    clusters: Seq<Cluster<M>>,
    all: Seq<M>,
    labels: Seq<usize>,
    cap: int,
    max: int,
    p: usize,
    q: usize,
)
    requires
        are_clusters(clusters, all, labels, cap, max),
        labels.len() == all.len() <= usize::MAX,
        all.len() <= cap,
        all.len() <= max,
        p < q < all.len(),
        labels[p as int] == labels[q as int],
    ensures
        exists|c: int|
            0 <= c < clusters.len() && #[trigger] has_both(
                clusters[c],
                all[p as int],
                all[q as int],
            ),
{
    let groups = grouped(labels);
    let unsorted = choose|unsorted: Seq<Cluster<M>>| #[trigger]
        cluster_views(unsorted) == ranked_groups(all, groups) && cluster_views(clusters) == capped(
            cluster_views(at_most(arranged(unsorted), max)),
            cap,
        );
    let sorted = arranged(unsorted);
    lemma_arranged(unsorted);
    lemma_arranged_contains(unsorted);
    lemma_ranked_groups(all, groups);
    lemma_distinct(labels);
    let label = labels[p as int];
    assert(labels.contains(label));
    let order = distinct(labels);
    let g = choose|g: int| 0 <= g < order.len() && order[g] == label;
    assert(groups[g] == members_of(labels, label));
    lemma_members_of(labels, label);
    lemma_members_len(labels, label);
    let group = groups[g];
    assert(group.contains(p) && group.contains(q));
    let i = choose|i: int| 0 <= i < group.len() && group[i] == p;
    let j = choose|j: int| 0 <= j < group.len() && group[j] == q;
    let source = picked(all, group);
    assert(source[i] == all[p as int] && source[j] == all[q as int]);
    lemma_arranged(source);
    lemma_arranged_contains(source);
    let list = arranged(source);
    assert(list.contains(all[p as int]) && list.contains(all[q as int]));
    assert(ranked_groups(all, groups).contains(list));
    let u = choose|u: int|
        0 <= u < ranked_groups(all, groups).len() && ranked_groups(all, groups)[u] == list;
    assert(cluster_views(unsorted).len() == unsorted.len());
    assert(cluster_views(unsorted)[u] == unsorted[u].members@);
    assert(sorted.contains(unsorted[u]));
    let c = choose|c: int| 0 <= c < sorted.len() && sorted[c] == unsorted[u];
    assert(at_most(sorted, max) == sorted);
    assert(cluster_views(clusters).len() == clusters.len());
    assert(cluster_views(clusters)[c] == at_most(sorted[c].members@, cap));
    assert(clusters[c].members@ == list);
    assert(has_both(clusters[c], all[p as int], all[q as int]));
}

/// The claim is one of those at the places, by its place and its id.
pub open spec fn stands_for(m: ClaimMember, claims: Seq<Claim>, at: Seq<usize>, p: int) -> bool {
    0 <= p < at.len() && m.at == at[p] && m.id@ == claims[at[p] as int].id@
}

/// Claims of one cluster are linked through similar ones, and each is a claim that
/// was looked at.
pub proof fn lemma_clustered_claims_are_similar(
    clusters: Seq<Cluster<ClaimMember>>,
    members: Seq<ClaimMember>,
    labels: Seq<usize>,
    claims: Seq<Claim>,
    embedded: Seq<usize>,
    similar: Seq<(usize, usize)>,
    c: int,
    i: int,
    j: int,
)
    requires
        are_members(members, claims, embedded),
        are_components(labels, similar),
        labels.len() == embedded.len() <= usize::MAX,
        are_clusters(clusters, members, labels, 8, 8),
        0 <= c < clusters.len(),
        0 <= i < clusters[c].members@.len(),
        0 <= j < clusters[c].members@.len(),
    ensures
        exists|p: int, q: int|
            #[trigger] stands_for(clusters[c].members@[i], claims, embedded, p)
                && #[trigger] stands_for(clusters[c].members@[j], claims, embedded, q) && connected(
                similar,
                p,
                q,
            ),
{
    lemma_cluster_members(clusters, members, labels, 8, 8, c);
    let list = clusters[c].members@;
    let label = choose|label: usize| #[trigger] all_have_label(members, labels, label, list);
    assert(has_label(members, labels, label, list[i]));
    assert(has_label(members, labels, label, list[j]));
    let p = choose|p: int|
        0 <= p < members.len() && p < labels.len() && #[trigger] labels[p] == label && members[p]
            == list[i];
    let q = choose|q: int|
        0 <= q < members.len() && q < labels.len() && #[trigger] labels[q] == label && members[q]
            == list[j];
    assert(labels[p] == labels[q]);
    assert(stands_for(list[i], claims, embedded, p));
    assert(stands_for(list[j], claims, embedded, q));
}

/// Two claims found similar come into one cluster, where the limits leave room.
pub proof fn lemma_similar_claims_meet(
    clusters: Seq<Cluster<ClaimMember>>,
    members: Seq<ClaimMember>,
    labels: Seq<usize>,
    claims: Seq<Claim>,
    embedded: Seq<usize>,
    similar: Seq<(usize, usize)>,
    k: int,
)
    requires
        are_members(members, claims, embedded),
        are_components(labels, similar),
        labels.len() == embedded.len() <= 8,
        are_clusters(clusters, members, labels, 8, 8),
        0 <= k < similar.len(),
        similar[k].0 < similar[k].1 < embedded.len(),
    ensures
        exists|c: int|
            0 <= c < clusters.len() && #[trigger] has_both(
                clusters[c],
                members[similar[k].0 as int],
                members[similar[k].1 as int],
            ),
{
    let p = similar[k].0;
    let q = similar[k].1;
    let way = seq![p as int, q as int];
    assert(is_pair(similar, p as int, q as int));
    assert(is_way(similar, way, p as int, q as int));
    assert(labels[p as int] == labels[q as int]);
    lemma_alike_are_clustered(clusters, members, labels, 8, 8, p, q);
}

/// A cluster has a project only where all its claims share it.
pub proof fn lemma_shared_project(cluster: Seq<Claim>, i: int, j: int)
    requires
        0 <= i < cluster.len(),
        0 <= j < cluster.len(),
        opt_text(cluster[i].project) != opt_text(cluster[j].project),
    ensures
        common_project(cluster) is None,
{
}

/// Recall gives at most as many claims as asked for, the best of what was found,
/// by falling score.
pub proof fn lemma_recalled(found: Seq<Recalled>, limit: int)
    requires
        0 <= limit,
    ensures
        ({
            let r = results_of(at_most(arranged(found), limit));
            &&& r.len() == if limit < found.len() {
                limit
            } else {
                found.len() as int
            }
            &&& forall|i: int, j: int|
                0 <= i < j < r.len() ==> (#[trigger] r[i]).1 >= (#[trigger] r[j]).1
            &&& forall|i: int| #![trigger r[i]]
                0 <= i < r.len() ==> exists|k: int|
                    0 <= k < found.len() && (#[trigger] found[k]).claim == r[i].0 && found[k].score
                        == r[i].1
        }),
{
    let s = arranged(found);
    let r = results_of(at_most(s, limit));
    lemma_arranged(found);
    lemma_arranged_contains(found);
    assert forall|i: int, j: int| 0 <= i < j < r.len() implies (#[trigger] r[i]).1 >= (
    #[trigger] r[j]).1 by {
        assert(!s[j].ranks_before(s[i]));
    }
    assert forall|i: int| #![trigger r[i]] 0 <= i < r.len() implies exists|k: int|
        0 <= k < found.len() && (#[trigger] found[k]).claim == r[i].0 && found[k].score
            == r[i].1 by {
        assert(s.contains(s[i]));
        let k = choose|k: int| 0 <= k < found.len() && found[k] == s[i];
        assert(found[k].claim == r[i].0);
    }
}

/// Recall expands from at most five of the claims that were found, the best.
pub proof fn lemma_recall_seeds(found: Seq<Recalled>, i: int, j: int)
    requires
        0 <= i < j < found.len(),
    ensures
        ({
            let s = arranged(seeds_of(found));
            let r = at_most(s, crate::claim_recall::MAX_EXPANSION_SEEDS as int);
            r.len() <= 5 && s[i].score >= s[j].score
        }),
{
    let all = seeds_of(found);
    lemma_arranged(all);
    assert(!arranged(all)[j].ranks_before(arranged(all)[i]));
}

/// Claims start recall with the score of the fused list they were found on.
pub proof fn lemma_recall_entries(s: Seq<crate::fusion::Scored<Claim>>, i: int)
    requires
        0 <= i < s.len(),
    ensures
        entries_of(s).len() == s.len(),
        entries_of(s)[i].claim == s[i].item && entries_of(s)[i].score == s[i].score
            && entries_of(s)[i].id == s[i].item.id,
{
}

} // verus!
