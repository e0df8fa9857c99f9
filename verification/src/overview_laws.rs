//! What the overviews of a repository say of its modules, symbols and channels.

use vstd::prelude::*;
use crate::channel_link::ChannelEdge;
use crate::channels::ChannelEndpoint;
use crate::cluster_detection::{
    Cluster, WEIGHT_ONE, edge_weight, language_of, lemma_edge_weight, total_weight,
};
use crate::domain::{FileEdge, FileGraphRepo, Repository, SymbolReference};
use crate::file_relationship::EdgeView;
use crate::module_overview::{
    GraphNodeView, ModuleDependency, cluster_pair, cluster_with, degree_of, dependency_sum,
    first_cluster_with, first_with_id, has_graph_node, member_nodes, name_of, named_cluster,
    node_ids, pair_texts, pairs_of_clusters, rounded, top_dependencies, with_members,
};
use crate::namespace_graph::qualified_edge;
use crate::order::{Ranked, arranged, lemma_arranged};
use crate::pair_weights::{PairEntry, lemma_pair_value, pair_value};
use crate::paths::{base_text, without_dots};
use crate::picks::{count_where, sum_of};
use crate::repository_overview::{LanguageShare, name_by_id, own_edges, own_endpoints, scope_with};
use crate::split_analysis::repo_label;
use crate::symbol_cluster_detection::{
    SymbolCommunity, SymbolGraph, bare_name, community_place, first_language, inner_pairs,
    outer_pairs, owner_of, symbol_node,
};
use crate::text::{decimal, lacks, lemma_split_append, non_empty, split, texts};

verus! {

/// No file is in two of the clusters, and no two clusters have one id.
pub open spec fn are_apart(clusters: Seq<Cluster>) -> bool {
    &&& forall|i: int, j: int|
        0 <= i < j < clusters.len() ==> (#[trigger] clusters[i]).id@ != (
        #[trigger] clusters[j]).id@
    &&& forall|i: int, j: int, f: Seq<char>|
        0 <= i < clusters.len() && 0 <= j < clusters.len() && i != j && (#[trigger] texts(
            clusters[i].members@,
        ).contains(f)) ==> !#[trigger] texts(clusters[j].members@).contains(f)
}

/// The edge leads from a file of the first cluster to one of the second.
pub open spec fn crosses(a: Cluster, b: Cluster) -> spec_fn(FileEdge) -> bool {
    |e: FileEdge|
        texts(a.members@).contains(e.from_file@) && texts(b.members@).contains(e.to_file@)
}

/// What an edge adds to the dependency of the first cluster on the second.
pub open spec fn weight_across(a: Cluster, b: Cluster) -> spec_fn(FileEdge) -> int {
    |e: FileEdge|
        if crosses(a, b)(e) {
            edge_weight(e)
        } else {
            0
        }
}

proof fn lemma_cluster_with(clusters: Seq<Cluster>, f: Seq<char>)
    ensures
        ({
            let c = cluster_with(clusters, f);
            &&& -1 <= c < clusters.len()
            &&& c >= 0 ==> texts(clusters[c].members@).contains(f)
            &&& c < 0 ==> forall|i: int|
                0 <= i < clusters.len() ==> !texts((#[trigger] clusters[i]).members@).contains(f)
        }),
    decreases clusters.len(),
{
    if clusters.len() > 0 {
        let d = clusters.drop_last();
        lemma_cluster_with(d, f);
        if cluster_with(clusters, f) < 0 {
            assert forall|i: int| 0 <= i < clusters.len() implies !texts(
                (#[trigger] clusters[i]).members@,
            ).contains(f) by {
                if i < d.len() {
                    assert(d[i] == clusters[i]);
                }
            }
        }
    }
}

proof fn lemma_first_with_id(clusters: Seq<Cluster>, p: int)
    requires
        0 <= p < clusters.len(),
        forall|i: int, j: int|
            0 <= i < j < clusters.len() ==> (#[trigger] clusters[i]).id@ != (
            #[trigger] clusters[j]).id@,
    ensures
        first_with_id(clusters, clusters[p].id@) == p,
    decreases clusters.len(),
{
    let d = clusters.drop_last();
    let id = clusters[p].id@;
    if p < d.len() {
        assert(d[p] == clusters[p]);
        lemma_first_with_id(d, p);
    } else {
        lemma_no_such_id(d, id);
    }
}

proof fn lemma_no_such_id(clusters: Seq<Cluster>, id: Seq<char>)
    requires
        forall|i: int| 0 <= i < clusters.len() ==> (#[trigger] clusters[i]).id@ != id,
    ensures
        first_with_id(clusters, id) < 0,
    decreases clusters.len(),
{
    if clusters.len() > 0 {
        let d = clusters.drop_last();
        assert forall|i: int| 0 <= i < d.len() implies (#[trigger] d[i]).id@ != id by {
            assert(d[i] == clusters[i]);
        }
        lemma_no_such_id(d, id);
        assert(clusters[clusters.len() - 1].id@ != id);
    }
}

proof fn lemma_pair_is(clusters: Seq<Cluster>, e: FileEdge, a: usize, b: usize)
    requires
        are_apart(clusters),
        a != b,
        a < clusters.len() <= usize::MAX,
        b < clusters.len(),
    ensures
        cluster_pair(clusters, e) == Some((a, b)) <==> crosses(
            clusters[a as int],
            clusters[b as int],
        )(e),
{
    let u = cluster_with(clusters, e.from_file@);
    let v = cluster_with(clusters, e.to_file@);
    lemma_cluster_with(clusters, e.from_file@);
    lemma_cluster_with(clusters, e.to_file@);
    if u >= 0 {
        lemma_first_with_id(clusters, u);
    }
    if v >= 0 {
        lemma_first_with_id(clusters, v);
    }
    if crosses(clusters[a as int], clusters[b as int])(e) {
        assert(texts(clusters[a as int].members@).contains(e.from_file@));
        assert(texts(clusters[b as int].members@).contains(e.to_file@));
        assert(u == a && v == b);
    }
}

proof fn lemma_dependency_sum(clusters: Seq<Cluster>, edges: Seq<FileEdge>, a: usize, b: usize)
    requires
        are_apart(clusters),
        a != b,
        a < clusters.len() <= usize::MAX,
        b < clusters.len(),
        total_weight(edges) <= u128::MAX,
    ensures
        dependency_sum(clusters, edges, a, b) is Some <==> exists|i: int|
            0 <= i < edges.len() && crosses(clusters[a as int], clusters[b as int])(
                #[trigger] edges[i],
            ),
        dependency_sum(clusters, edges, a, b) matches Some((w, _)) ==> w == sum_of(
            edges,
            weight_across(clusters[a as int], clusters[b as int]),
        ),
        dependency_sum(clusters, edges, a, b) is None ==> sum_of(
            edges,
            weight_across(clusters[a as int], clusters[b as int]),
        ) == 0,
        0 <= sum_of(edges, weight_across(clusters[a as int], clusters[b as int])) <= total_weight(
            edges,
        ),
    decreases edges.len(),
{
    let p = crosses(clusters[a as int], clusters[b as int]);
    if edges.len() > 0 {
        let d = edges.drop_last();
        let e = edges.last();
        lemma_edge_weight(e);
        lemma_dependency_sum(clusters, d, a, b);
        lemma_pair_is(clusters, e, a, b);
        if p(e) {
            assert(p(edges[edges.len() - 1]));
        }
        if exists|i: int| 0 <= i < d.len() && p(#[trigger] d[i]) {
            let i = choose|i: int| 0 <= i < d.len() && p(#[trigger] d[i]);
            assert(p(edges[i]));
        }
        if exists|i: int| 0 <= i < edges.len() && p(#[trigger] edges[i]) {
            let i = choose|i: int| 0 <= i < edges.len() && p(#[trigger] edges[i]);
            if i < d.len() {
                assert(p(d[i]));
            }
        }
    }
}

/// One module depends on another if and only if an edge leads from a file of the
/// one to a file of the other, and as strongly as such edges weigh together. The
/// direction is kept.
pub proof fn lemma_module_dependency(
    pairs: Seq<PairEntry>,
    clusters: Seq<Cluster>,
    edges: Seq<FileEdge>,
    a: usize,
    b: usize,
)
    requires
        pairs_of_clusters(pairs, clusters, edges),
        are_apart(clusters),
        total_weight(edges) <= u128::MAX,
        a != b,
        a < clusters.len() <= usize::MAX,
        b < clusters.len(),
    ensures
        (exists|k: int| 0 <= k < pairs.len() && (#[trigger] pairs[k]).lo == a && pairs[k].hi == b)
            <==> exists|i: int|
            0 <= i < edges.len() && crosses(clusters[a as int], clusters[b as int])(
                #[trigger] edges[i],
            ),
        forall|k: int|
            0 <= k < pairs.len() && (#[trigger] pairs[k]).lo == a && pairs[k].hi == b
                ==> pairs[k].weight == sum_of(
                edges,
                weight_across(clusters[a as int], clusters[b as int]),
            ) && pair_texts(clusters, pairs)[k] == (
                clusters[a as int].id@,
                clusters[b as int].id@,
                pairs[k].weight,
            ),
{
    lemma_dependency_sum(clusters, edges, a, b);
    lemma_pair_value(pairs, a, b);
    assert(pair_value(pairs, a, b) == dependency_sum(clusters, edges, a, b));
}

/// Dependencies are listed from the strongest down.
pub proof fn lemma_dependencies_by_weight(deps: Seq<ModuleDependency>, i: int, j: int)
    requires
        0 <= i < j < deps.len(),
    ensures
        arranged(deps)[i].weight >= arranged(deps)[j].weight,
{
    lemma_arranged(deps);
    assert(!arranged(deps)[j].ranks_before(arranged(deps)[i]));
}

/// The cluster of a file is the first that has it as a member; there is none only
/// where no cluster has it.
pub proof fn lemma_cluster_of_file(clusters: Seq<Cluster>, f: Seq<char>)
    ensures
        ({
            let c = first_cluster_with(clusters, f);
            &&& -1 <= c < clusters.len()
            &&& c >= 0 ==> texts(clusters[c].members@).contains(f)
            &&& forall|i: int|
                0 <= i < clusters.len() && (c < 0 || i < c) ==> !texts(
                    (#[trigger] clusters[i]).members@,
                ).contains(f)
        }),
    decreases clusters.len(),
{
    if clusters.len() > 0 {
        let d = clusters.drop_last();
        lemma_cluster_of_file(d, f);
        let c = first_cluster_with(clusters, f);
        assert forall|i: int| 0 <= i < clusters.len() && (c < 0 || i < c) implies !texts(
            (#[trigger] clusters[i]).members@,
        ).contains(f) by {
            if i < d.len() {
                assert(d[i] == clusters[i]);
            }
        }
    }
}

/// The node stands for a member of a cluster: it has its path as id, its file name
/// as label, its language, and the place of the cluster as community.
pub open spec fn is_member_node(
    n: GraphNodeView,
    clusters: Seq<Cluster>,
    languages: Map<Seq<char>, String>,
) -> bool {
    &&& n.community < clusters.len()
    &&& texts(clusters[n.community as int].members@).contains(n.id)
    &&& n.label == base_text(n.id)
    &&& n.language == if languages.contains_key(n.id) {
        languages[n.id]@
    } else {
        "unknown"@
    }
    &&& n.repository is None
}

proof fn lemma_with_members(
    nodes: Seq<GraphNodeView>,
    members: Seq<Seq<char>>,
    community: nat,
    languages: Map<Seq<char>, String>,
)
    ensures
        ({
            let r = with_members(nodes, members, community, languages);
            &&& nodes.len() <= r.len()
            &&& forall|k: int| 0 <= k < nodes.len() ==> #[trigger] r[k] == nodes[k]
            &&& forall|k: int|
                nodes.len() <= k < r.len() ==> {
                    let n = #[trigger] r[k];
                    &&& members.contains(n.id)
                    &&& n.community == community
                    &&& n.label == base_text(n.id)
                    &&& n.language == language_of(languages, n.id)
                    &&& n.repository is None
                    &&& !has_graph_node(nodes, n.id)
                }
            &&& forall|m: int| 0 <= m < members.len() ==> has_graph_node(r, #[trigger] members[m])
            &&& node_ids(nodes).no_duplicates() ==> node_ids(r).no_duplicates()
        }),
    decreases members.len(),
{
    if members.len() > 0 {
        let front = members.drop_last();
        lemma_with_members(nodes, front, community, languages);
        let d = with_members(nodes, front, community, languages);
        let r = with_members(nodes, members, community, languages);
        let last = members.last();
        assert(members[members.len() - 1] == last);
        assert forall|k: int| nodes.len() <= k < r.len() implies {
            let n = #[trigger] r[k];
            &&& members.contains(n.id)
            &&& n.community == community
            &&& n.label == base_text(n.id)
            &&& n.language == language_of(languages, n.id)
            &&& n.repository is None
            &&& !has_graph_node(nodes, n.id)
        } by {
            if k < d.len() {
                assert(r[k] == d[k]);
                let m = choose|m: int| 0 <= m < front.len() && front[m] == d[k].id;
                assert(members[m] == d[k].id);
            } else if has_graph_node(nodes, last) {
                let m = choose|m: int| 0 <= m < nodes.len() && (#[trigger] nodes[m]).id == last;
                assert(d[m].id == last);
            }
        }
        assert forall|m: int| 0 <= m < members.len() implies has_graph_node(
            r,
            #[trigger] members[m],
        ) by {
            if m < front.len() {
                assert(front[m] == members[m]);
                assert(has_graph_node(d, front[m]));
                let k = choose|k: int| 0 <= k < d.len() && (#[trigger] d[k]).id == front[m];
                assert(r[k].id == members[m]);
            } else if !has_graph_node(d, last) {
                assert(r[d.len() as int].id == last);
            }
        }
        if node_ids(nodes).no_duplicates() && !has_graph_node(d, last) {
            let ids = node_ids(r);
            assert forall|i: int, j: int| 0 <= i < j < ids.len() implies ids[i] != ids[j] by {
                assert(node_ids(d)[i] == d[i].id);
                if j < d.len() {
                    assert(node_ids(d)[j] == d[j].id);
                } else {
                    assert(d[i].id != last);
                }
            }
        }
    }
}

/// The graph of files has one node for each member of a cluster and no others,
/// and each stands for its member.
pub proof fn lemma_graph_nodes(clusters: Seq<Cluster>, languages: Map<Seq<char>, String>)
    ensures
        node_ids(member_nodes(clusters, languages)).no_duplicates(),
        forall|k: int|
            0 <= k < member_nodes(clusters, languages).len() ==> is_member_node(
                #[trigger] member_nodes(clusters, languages)[k],
                clusters,
                languages,
            ),
        forall|i: int, m: int|
            0 <= i < clusters.len() && 0 <= m < clusters[i].members@.len() ==> has_graph_node(
                member_nodes(clusters, languages),
                #[trigger] clusters[i].members@[m]@,
            ),
    decreases clusters.len(),
{
    if clusters.len() > 0 {
        let front = clusters.drop_last();
        lemma_graph_nodes(front, languages);
        let d = member_nodes(front, languages);
        let r = member_nodes(clusters, languages);
        let members = texts(clusters.last().members@);
        lemma_with_members(d, members, (clusters.len() - 1) as nat, languages);
        assert forall|k: int| 0 <= k < r.len() implies is_member_node(
            #[trigger] r[k],
            clusters,
            languages,
        ) by {
            if k < d.len() {
                assert(r[k] == d[k]);
                assert(is_member_node(d[k], front, languages));
                assert(front[d[k].community as int] == clusters[d[k].community as int]);
            }
        }
        assert forall|i: int, m: int|
            0 <= i < clusters.len() && 0 <= m < clusters[i].members@.len() implies has_graph_node(
            r,
            #[trigger] clusters[i].members@[m]@,
        ) by {
            let id = clusters[i].members@[m]@;
            if i < front.len() {
                assert(front[i] == clusters[i]);
                assert(has_graph_node(d, front[i].members@[m]@));
                let k = choose|k: int| 0 <= k < d.len() && (#[trigger] d[k]).id == id;
                assert(r[k].id == id);
            } else {
                assert(members[m] == id);
            }
        }
    }
}

/// The pair has the node at one of its ends.
pub open spec fn ends_at(n: int) -> spec_fn(PairEntry) -> bool {
    |p: PairEntry| p.lo == n || p.hi == n
}

/// The degree of a node is the number of edges that end there.
pub proof fn lemma_degree(pairs: Seq<PairEntry>, n: int)
    ensures
        degree_of(pairs, n) == count_where(pairs, ends_at(n)),
    decreases pairs.len(),
{
    if pairs.len() > 0 {
        lemma_degree(pairs.drop_last(), n);
    }
}

/// A weight is rounded to the nearest whole number: no more than half is gained
/// or lost, and where it is half the result is even.
pub proof fn lemma_rounded(w: int)
    requires
        0 <= w,
    ensures
        2 * (w - rounded(w) * WEIGHT_ONE) <= WEIGHT_ONE,
        2 * (rounded(w) * WEIGHT_ONE - w) <= WEIGHT_ONE,
        2 * (w - rounded(w) * WEIGHT_ONE) == WEIGHT_ONE || 2 * (rounded(w) * WEIGHT_ONE - w)
            == WEIGHT_ONE ==> rounded(w) % 2 == 0,
{
    let one = WEIGHT_ONE as int;
    let q = w / one;
    let r = w % one;
    assert(w == q * one + r) by (nonlinear_arith)
        requires
            q == w / one,
            r == w % one,
            one > 0,
    ;
    assert((q + 1) * one == q * one + one) by (nonlinear_arith);
}

/// A cluster goes by the name that it was given, else by its id.
pub proof fn lemma_cluster_name(clusters: Seq<Cluster>, p: int)
    requires
        0 <= p < clusters.len(),
        forall|i: int, j: int|
            0 <= i < j < clusters.len() ==> (#[trigger] clusters[i]).id@ != (
            #[trigger] clusters[j]).id@,
    ensures
        name_of(clusters, clusters[p].id@) == match clusters[p].display_name {
            Some(n) => n@,
            None => clusters[p].id@,
        },
    decreases clusters.len(),
{
    let d = clusters.drop_last();
    if p < d.len() {
        assert(d[p] == clusters[p]);
        lemma_cluster_name(d, p);
        assert(clusters[p].id@ != clusters[clusters.len() - 1].id@);
    }
}

/// The dependency starts at the cluster.
pub open spec fn starts_at(id: Seq<char>) -> spec_fn(ModuleDependency) -> bool {
    |d: ModuleDependency| d.from_cluster_id@ == id
}

/// A row names the modules that its own depends on, up to three of them.
pub proof fn lemma_top_dependencies(
    clusters: Seq<Cluster>,
    deps: Seq<ModuleDependency>,
    id: Seq<char>,
)
    ensures
        ({
            let top = top_dependencies(clusters, deps, id);
            let n = count_where(deps, starts_at(id));
            &&& top.len() == if n < 3 {
                n
            } else {
                3
            }
            &&& forall|k: int|
                0 <= k < top.len() ==> exists|i: int|
                    0 <= i < deps.len() && (#[trigger] deps[i]).from_cluster_id@ == id
                        && #[trigger] top[k] == name_of(clusters, deps[i].to_cluster_id@) + " ("@
                        + decimal(rounded(deps[i].weight as int) as nat) + ")"@
        }),
    decreases deps.len(),
{
    if deps.len() > 0 {
        let front = deps.drop_last();
        lemma_top_dependencies(clusters, front, id);
        let before = top_dependencies(clusters, front, id);
        let top = top_dependencies(clusters, deps, id);
        assert forall|k: int| 0 <= k < top.len() implies exists|i: int|
            0 <= i < deps.len() && (#[trigger] deps[i]).from_cluster_id@ == id && #[trigger] top[k]
                == name_of(clusters, deps[i].to_cluster_id@) + " ("@ + decimal(
                rounded(deps[i].weight as int) as nat,
            ) + ")"@ by {
            if k < before.len() {
                let i = choose|i: int|
                    0 <= i < front.len() && (#[trigger] front[i]).from_cluster_id@ == id
                        && before[k] == name_of(clusters, front[i].to_cluster_id@) + " ("@
                        + decimal(rounded(front[i].weight as int) as nat) + ")"@;
                assert(deps[i] == front[i]);
            } else {
                assert(deps[deps.len() - 1].from_cluster_id@ == id);
            }
        }
    }
}

/// The channels of a repository are the edges that it produces to or consumes
/// from, and its own endpoints.
pub proof fn lemma_own_channels(
    edges: Seq<ChannelEdge>,
    ends: Seq<ChannelEndpoint>,
    id: Seq<char>,
)
    ensures
        forall|e: ChannelEdge|
            #[trigger] own_edges(edges, id).contains(e) <==> edges.contains(e) && (
            e.producer.repository_id@ == id || e.consumer.repository_id@ == id),
        forall|e: ChannelEndpoint|
            #[trigger] own_endpoints(ends, id).contains(e) <==> ends.contains(e)
                && e.repository_id@ == id,
{
    lemma_own_edges(edges, id);
    lemma_own_endpoints(ends, id);
}

proof fn lemma_own_edges(s: Seq<ChannelEdge>, id: Seq<char>)
    ensures
        forall|e: ChannelEdge|
            #[trigger] own_edges(s, id).contains(e) <==> s.contains(e) && (
            e.producer.repository_id@ == id || e.consumer.repository_id@ == id),
    decreases s.len(),
{
    if s.len() > 0 {
        let d = s.drop_last();
        lemma_own_edges(d, id);
        let last = s.last();
        let before = own_edges(d, id);
        let all = own_edges(s, id);
        assert(s =~= d.push(last));
        assert forall|e: ChannelEdge| #[trigger] all.contains(e) <==> s.contains(e) && (
        e.producer.repository_id@ == id || e.consumer.repository_id@ == id) by {
            lemma_contains_push(d, last, e);
            lemma_contains_push(before, last, e);
            assert(before.contains(e) <==> d.contains(e) && (e.producer.repository_id@ == id
                || e.consumer.repository_id@ == id));
        }
    }
}

proof fn lemma_own_endpoints(s: Seq<ChannelEndpoint>, id: Seq<char>)
    ensures
        forall|e: ChannelEndpoint|
            #[trigger] own_endpoints(s, id).contains(e) <==> s.contains(e) && e.repository_id@
                == id,
    decreases s.len(),
{
    if s.len() > 0 {
        let d = s.drop_last();
        lemma_own_endpoints(d, id);
        let last = s.last();
        let before = own_endpoints(d, id);
        let all = own_endpoints(s, id);
        assert(s =~= d.push(last));
        assert forall|e: ChannelEndpoint| #[trigger] all.contains(e) <==> s.contains(e)
            && e.repository_id@ == id by {
            lemma_contains_push(d, last, e);
            lemma_contains_push(before, last, e);
            assert(before.contains(e) <==> d.contains(e) && e.repository_id@ == id);
        }
    }
}

proof fn lemma_contains_push<A>(s: Seq<A>, x: A, y: A)
    ensures
        s.push(x).contains(y) <==> s.contains(y) || x == y,
{
    let all = s.push(x);
    if s.contains(y) {
        let k = choose|k: int| 0 <= k < s.len() && s[k] == y;
        assert(all[k] == y);
    }
    if x == y {
        assert(all[s.len() as int] == y);
    }
    if all.contains(y) {
        let k = choose|k: int| 0 <= k < all.len() && all[k] == y;
        if k < s.len() {
            assert(s[k] == y);
        }
    }
}

/// A repository goes by its own name.
pub proof fn lemma_repository_name(repos: Seq<Repository>, p: int)
    requires
        0 <= p < repos.len(),
        forall|i: int, j: int|
            0 <= i < j < repos.len() ==> (#[trigger] repos[i]).id@ != (#[trigger] repos[j]).id@,
    ensures
        name_by_id(repos, repos[p].id@) == Some(repos[p].name@),
    decreases repos.len(),
{
    let d = repos.drop_last();
    if p < d.len() {
        assert(d[p] == repos[p]);
        lemma_repository_name(d, p);
        assert(repos[p].id@ != repos[repos.len() - 1].id@);
    }
}

/// Languages are listed by falling share of chunks.
pub proof fn lemma_languages_by_share(s: Seq<LanguageShare>, i: int, j: int)
    requires
        0 <= i < j < s.len(),
    ensures
        arranged(s)[i].chunk_count >= arranged(s)[j].chunk_count,
{
    lemma_arranged(s);
    assert(!arranged(s)[j].ranks_before(arranged(s)[i]));
}

/// The reference joins the symbol to another.
pub open spec fn is_about(r: SymbolReference, x: Seq<char>) -> bool {
    &&& r.caller_symbol is Some
    &&& r.caller_symbol->Some_0@ != r.callee_symbol@
    &&& r.caller_symbol->Some_0@ == x || r.callee_symbol@ == x
}

/// A symbol's language is that of the first reference that joins it to another.
pub proof fn lemma_symbol_language(refs: Seq<SymbolReference>, p: int, x: Seq<char>)
    requires
        0 <= p < refs.len(),
        is_about(refs[p], x),
        forall|i: int| 0 <= i < p ==> !is_about(#[trigger] refs[i], x),
    ensures
        first_language(refs, x) == Some(refs[p].language.name()),
    decreases refs.len(),
{
    let d = refs.drop_last();
    if p < d.len() {
        assert(d[p] == refs[p]);
        assert forall|i: int| 0 <= i < p implies !is_about(#[trigger] d[i], x) by {
            assert(d[i] == refs[i]);
        }
        lemma_symbol_language(d, p, x);
    } else {
        assert forall|i: int| 0 <= i < d.len() implies !is_about(#[trigger] d[i], x) by {
            assert(d[i] == refs[i]);
        }
        lemma_no_language(d, x);
    }
}

proof fn lemma_no_language(refs: Seq<SymbolReference>, x: Seq<char>)
    requires
        forall|i: int| 0 <= i < refs.len() ==> !is_about(#[trigger] refs[i], x),
    ensures
        first_language(refs, x) is None,
        owner_of(refs, x) is None,
    decreases refs.len(),
{
    if refs.len() > 0 {
        let d = refs.drop_last();
        assert forall|i: int| 0 <= i < d.len() implies !is_about(#[trigger] d[i], x) by {
            assert(d[i] == refs[i]);
        }
        lemma_no_language(d, x);
        assert(!is_about(refs[refs.len() - 1], x));
    }
}

/// A symbol that calls others belongs to the repository where it does, as last
/// recorded.
pub proof fn lemma_caller_owns(refs: Seq<SymbolReference>, p: int, x: Seq<char>)
    requires
        0 <= p < refs.len(),
        is_about(refs[p], x) && refs[p].caller_symbol->Some_0@ == x,
        forall|i: int|
            p < i < refs.len() ==> !(is_about(#[trigger] refs[i], x)
                && refs[i].caller_symbol->Some_0@ == x),
    ensures
        owner_of(refs, x) == Some(refs[p].repository_id@),
    decreases refs.len(),
{
    let d = refs.drop_last();
    if p < d.len() {
        assert(d[p] == refs[p]);
        assert forall|i: int| p < i < d.len() implies !(is_about(#[trigger] d[i], x)
            && d[i].caller_symbol->Some_0@ == x) by {
            assert(d[i] == refs[i]);
        }
        lemma_caller_owns(d, p, x);
        assert(!(is_about(refs[refs.len() - 1], x) && refs[refs.len() - 1].caller_symbol->Some_0@
            == x));
    }
}

/// A symbol that is only called belongs to the repository that refers to it first.
pub proof fn lemma_callee_owner(refs: Seq<SymbolReference>, p: int, x: Seq<char>)
    requires
        0 <= p < refs.len(),
        is_about(refs[p], x),
        forall|i: int| 0 <= i < p ==> !is_about(#[trigger] refs[i], x),
        forall|i: int|
            0 <= i < refs.len() ==> !(is_about(#[trigger] refs[i], x)
                && refs[i].caller_symbol->Some_0@ == x),
    ensures
        owner_of(refs, x) == Some(refs[p].repository_id@),
    decreases refs.len(),
{
    let d = refs.drop_last();
    assert forall|i: int| 0 <= i < d.len() implies !(is_about(#[trigger] d[i], x)
        && d[i].caller_symbol->Some_0@ == x) by {
        assert(d[i] == refs[i]);
    }
    if p < d.len() {
        assert(d[p] == refs[p]);
        assert forall|i: int| 0 <= i < p implies !is_about(#[trigger] d[i], x) by {
            assert(d[i] == refs[i]);
        }
        lemma_callee_owner(d, p, x);
        assert(!(is_about(refs[refs.len() - 1], x) && refs[refs.len() - 1].caller_symbol->Some_0@
            == x));
    } else {
        assert forall|i: int| 0 <= i < d.len() implies !is_about(#[trigger] d[i], x) by {
            assert(d[i] == refs[i]);
        }
        lemma_no_language(d, x);
    }
}

/// A symbol's node has its community: one that has it as a member.
pub proof fn lemma_symbol_place(cs: Seq<SymbolCommunity>, x: Seq<char>)
    requires
        exists|i: int| 0 <= i < cs.len() && texts((#[trigger] cs[i]).members@).contains(x),
    ensures
        community_place(cs, x) < cs.len(),
        texts(cs[community_place(cs, x) as int].members@).contains(x),
    decreases cs.len(),
{
    if !texts(cs.last().members@).contains(x) {
        let d = cs.drop_last();
        let i = choose|i: int|
            0 <= i < cs.len() && texts((#[trigger] cs[i]).members@).contains(x);
        assert(d[i] == cs[i]);
        lemma_symbol_place(d, x);
    }
}

/// The last part of a path is its file name.
pub proof fn lemma_file_name(dir: Seq<char>, name: Seq<char>)
    requires
        lacks(name, '/'),
        name.len() > 0,
        name != "."@,
        name != ".."@,
    ensures
        base_text(dir + seq!['/'] + name) == name,
{
    lemma_split_append(dir, '/', name);
    let parts = split(dir, '/');
    let all = parts.push(name);
    assert(all.drop_last() =~= parts);
    assert(non_empty(all) == non_empty(parts).push(name));
    let kept = non_empty(parts);
    assert(kept.push(name).drop_last() =~= kept);
    assert(without_dots(kept.push(name)) == without_dots(kept).push(name));
}

/// A known name replaces what a cluster was called; a cluster without one keeps
/// what it had. Nothing else of it changes.
pub proof fn lemma_known_name(c: Cluster, names: Map<Seq<char>, String>)
    ensures
        ({
            let r = named_cluster(c, names);
            &&& names.contains_key(c.id@) ==> r.display_name == Some(names[c.id@]@)
            &&& !names.contains_key(c.id@) ==> r == c@
            &&& r.id == c.id@ && r.members == c@.members && r.size == c.size && r.cohesion
                == c.cohesion
        }),
{
}

/// In a graph of several repositories each end of an edge is named by its own
/// repository; what the edge weighs and what it is made of stays.
pub proof fn lemma_qualified_ends(repos: Seq<FileGraphRepo>, e: EdgeView)
    ensures
        ({
            let r = qualified_edge(repos, e);
            &&& r.ends.from_file == repo_label(repos, e.ends.from_repo_id) + ":"@
                + e.ends.from_file
            &&& r.ends.to_file == repo_label(repos, e.ends.to_repo_id) + ":"@ + e.ends.to_file
            &&& r.ends.from_repo_id == e.ends.from_repo_id && r.ends.to_repo_id
                == e.ends.to_repo_id
            &&& r.weight == e.weight && r.kinds == e.kinds && r.symbols == e.symbols
        }),
{
}

/// The node of a symbol shows its short name, its language, its community and the
/// repository that owns it.
pub proof fn lemma_symbol_node(
    sg: SymbolGraph,
    cs: Seq<SymbolCommunity>,
    names: Map<Seq<char>, String>,
    x: Seq<char>,
)
    ensures
        ({
            let n = symbol_node(sg, cs, names, x);
            &&& n.id == x && n.label == bare_name(x) && n.community == community_place(cs, x)
            &&& sg.language_of@.contains_key(x) ==> n.language == sg.language_of@[x]@
            &&& sg.repo_of@.contains_key(x) && names.contains_key(sg.repo_of@[x]@)
                ==> n.repository == Some(names[sg.repo_of@[x]@]@)
            &&& !sg.repo_of@.contains_key(x) ==> n.repository is None
        }),
{
}

/// The pair has both symbols in the community.
pub open spec fn pair_within(labels: Seq<usize>, l: usize) -> spec_fn(PairEntry) -> bool {
    |p: PairEntry| labels[p.lo as int] == l && labels[p.hi as int] == l
}

/// The pair has one symbol in the community and one outside.
pub open spec fn pair_across(labels: Seq<usize>, l: usize) -> spec_fn(PairEntry) -> bool {
    |p: PairEntry| (labels[p.lo as int] == l) != (labels[p.hi as int] == l)
}

/// How a community holds together is counted from the pairs within it and those
/// across its border.
pub proof fn lemma_community_pairs(pairs: Seq<PairEntry>, labels: Seq<usize>, l: usize)
    ensures
        inner_pairs(pairs, labels, l) == count_where(pairs, pair_within(labels, l)),
        outer_pairs(pairs, labels, l) == count_where(pairs, pair_across(labels, l)),
    decreases pairs.len(),
{
    if pairs.len() > 0 {
        lemma_community_pairs(pairs.drop_last(), labels, l);
    }
}

/// Channels are joined over the repositories asked for and the repository itself,
/// which is not listed twice.
pub proof fn lemma_joined_scope(scope: Seq<Seq<char>>, id: Seq<char>, x: Seq<char>)
    ensures
        scope_with(scope, id).contains(x) <==> scope.contains(x) || x == id,
        scope.no_duplicates() ==> scope_with(scope, id).no_duplicates(),
{
    lemma_contains_push(scope, id, x);
}

} // verus!
