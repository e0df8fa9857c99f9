//! The modules of a repository: how its clusters depend on each other, which of
//! them carry most, and the graph and table that show it.

use vstd::prelude::*;
use vstd::string::*;
use crate::cluster_detection::{
    Cluster, ClusterGraph, ClusterView, WEIGHT_ONE, composite_weight, edge_weight, file_language,
    language_of, lemma_edge_weight, lemma_total_weight, lemma_total_weight_positive, pairs_of_edges,
    total_weight, weigh_pairs,
};
use crate::collections::TextMap;
use crate::domain::{FileEdge, Language};
use crate::order::{
    Ranked, arrange, arranged, lemma_text_order, lemma_texts_order, str_views, text_less, text_lt,
    texts_less, texts_lt,
};
use crate::pair_weights::{PairEntry, add_weight, heavier, lemma_pair_value, pair_value, pairs_rise};
use crate::paths::{base_text, basename};
use crate::text::{
    copy_opt, decimal, decimal_text, has_text, join, join_texts, opt_text, same_text, texts,
    wide_decimal_text,
};

verus! {

/// A dependency of one cluster on another.
#[derive(Debug)]
pub struct ModuleDependency {
    pub from_cluster_id: String,
    pub to_cluster_id: String,
    /// Parts of [`WEIGHT_ONE`]: the weights of the file edges summed up.
    pub weight: u128,
}

/// The clusters of a repository with their dependencies.
#[derive(Debug)]
pub struct ModuleOverview {
    pub graph: ClusterGraph,
    /// The heaviest first.
    pub dependencies: Vec<ModuleDependency>,
}

impl Ranked for ModuleDependency {
    /// The heaviest first, then by the ends.
    open spec fn ranks_before(self, other: Self) -> bool {
        let a = seq![self.from_cluster_id@, self.to_cluster_id@];
        let b = seq![other.from_cluster_id@, other.to_cluster_id@];
        self.weight > other.weight || (self.weight == other.weight && texts_lt(a, b))
    }

    fn goes_before(&self, other: &Self) -> (r: bool) {
        if self.weight != other.weight {
            return self.weight > other.weight;
        }
        let a: [&str; 2] = [self.from_cluster_id.as_str(), self.to_cluster_id.as_str()];
        let b: [&str; 2] = [other.from_cluster_id.as_str(), other.to_cluster_id.as_str()];
        proof {
            assert(str_views(a@) =~= seq![self.from_cluster_id@, self.to_cluster_id@]);
            assert(str_views(b@) =~= seq![other.from_cluster_id@, other.to_cluster_id@]);
        }
        texts_less(a.as_slice(), b.as_slice())
    }

    proof fn rank_laws(a: Self, b: Self, c: Self) {
        lemma_texts_order(
            seq![a.from_cluster_id@, a.to_cluster_id@],
            seq![b.from_cluster_id@, b.to_cluster_id@],
            seq![c.from_cluster_id@, c.to_cluster_id@],
        );
    }
}

/// The last place of a cluster that holds the file, or -1.
pub open spec fn cluster_with(clusters: Seq<Cluster>, file: Seq<char>) -> int
    decreases clusters.len(),
{
    if clusters.len() == 0 {
        -1
    } else if texts(clusters.last().members@).contains(file) {
        clusters.len() - 1
    } else {
        cluster_with(clusters.drop_last(), file)
    }
}

proof fn lemma_cluster_with(clusters: Seq<Cluster>, file: Seq<char>)
    ensures
        -1 <= cluster_with(clusters, file) < clusters.len(),
    decreases clusters.len(),
{
    if clusters.len() > 0 && !texts(clusters.last().members@).contains(file) {
        lemma_cluster_with(clusters.drop_last(), file);
    }
}

/// The map gives the cluster of each file.
pub open spec fn maps_clusters(m: Map<Seq<char>, usize>, clusters: Seq<Cluster>) -> bool {
    &&& forall|f: Seq<char>| #[trigger] m.contains_key(f) <==> cluster_with(clusters, f) >= 0
    &&& forall|f: Seq<char>| #[trigger] m.contains_key(f) ==> m[f] == cluster_with(clusters, f)
}

/// The cluster of each file.
fn map_clusters(clusters: &[Cluster]) -> (r: TextMap<usize>)
    ensures
        maps_clusters(r@, clusters@),
{
    let mut r: TextMap<usize> = TextMap::new();
    let mut i: usize = 0;
    while i < clusters.len()
        invariant
            i <= clusters@.len(),
            maps_clusters(r@, clusters@.take(i as int)),
        decreases clusters@.len() - i,
    {
        let members = &clusters[i].members;
        let ghost ms = texts(members@);
        let ghost done = clusters@.take(i as int);
        proof {
            assert(clusters@.take(i + 1).drop_last() =~= done);
            assert(clusters@.take(i + 1).last() == clusters@[i as int]);
        }
        let mut k: usize = 0;
        while k < members.len()
            invariant
                k <= members@.len(),
                ms == texts(members@),
                forall|f: Seq<char>| #[trigger]
                    r@.contains_key(f) <==> ms.take(k as int).contains(f) || cluster_with(done, f)
                        >= 0,
                forall|f: Seq<char>| #[trigger]
                    r@.contains_key(f) ==> r@[f] == if ms.take(k as int).contains(f) {
                        i as int
                    } else {
                        cluster_with(done, f)
                    },
            decreases members@.len() - k,
        {
            let ghost before = r@;
            let ghost m = members@[k as int]@;
            r.insert(members[k].clone(), i);
            proof {
                assert(ms.take(k + 1) =~= ms.take(k as int).push(m));
                assert forall|f: Seq<char>| #[trigger]
                    ms.take(k + 1).contains(f) <==> ms.take(k as int).contains(f) || f == m by {
                    if ms.take(k as int).contains(f) {
                        let z = choose|z: int|
                            0 <= z < ms.take(k as int).len() && ms.take(k as int)[z] == f;
                        assert(ms.take(k + 1)[z] == f);
                    }
                    if f == m {
                        assert(ms.take(k + 1)[k as int] == f);
                    }
                }
                assert forall|f: Seq<char>| #[trigger]
                    r@.contains_key(f) <==> ms.take(k + 1).contains(f) || cluster_with(done, f)
                        >= 0 by {
                    assert(r@.contains_key(f) == (before.contains_key(f) || f == m));
                }
                assert forall|f: Seq<char>| #[trigger] r@.contains_key(f) implies r@[f] == if
                    ms.take(k + 1).contains(f) {
                    i as int
                } else {
                    cluster_with(done, f)
                } by {
                    if f != m {
                        assert(before.contains_key(f));
                    }
                }
            }
            k += 1;
        }
        assert(ms.take(k as int) =~= ms);
        i += 1;
    }
    assert(clusters@.take(i as int) =~= clusters@);
    r
}

/// The first place of a cluster with the id, or -1.
pub open spec fn first_with_id(clusters: Seq<Cluster>, id: Seq<char>) -> int
    decreases clusters.len(),
{
    if clusters.len() == 0 {
        -1
    } else {
        let d = first_with_id(clusters.drop_last(), id);
        if d < 0 && clusters.last().id@ == id {
            clusters.len() - 1
        } else {
            d
        }
    }
}

/// The clusters at the ends of an edge, where their ids differ; each is given
/// by the first that has its id.
pub open spec fn cluster_pair(clusters: Seq<Cluster>, e: FileEdge) -> Option<(usize, usize)> {
    let u = cluster_with(clusters, e.from_file@);
    let v = cluster_with(clusters, e.to_file@);
    if u < 0 || v < 0 || clusters[u].id@ == clusters[v].id@ {
        None
    } else {
        Some(
            (
                first_with_id(clusters, clusters[u].id@) as usize,
                first_with_id(clusters, clusters[v].id@) as usize,
            ),
        )
    }
}

/// The first place of a cluster with the id of the one at `at`.
fn find_first(clusters: &[Cluster], at: usize) -> (r: usize)
    requires
        at < clusters@.len(),
    ensures
        r == first_with_id(clusters@, clusters@[at as int].id@),
        r < clusters@.len(),
{
    let id = clusters[at].id.as_str();
    let mut found: Option<usize> = None;
    let mut i: usize = 0;
    while i < clusters.len()
        invariant
            i <= clusters@.len(),
            at < clusters@.len(),
            id@ == clusters@[at as int].id@,
            found is Some == (first_with_id(clusters@.take(i as int), id@) >= 0),
            found matches Some(k) ==> k < i && k == first_with_id(clusters@.take(i as int), id@),
            i > at ==> found is Some,
        decreases clusters@.len() - i,
    {
        proof {
            assert(clusters@.take(i + 1).drop_last() =~= clusters@.take(i as int));
            assert(clusters@.take(i + 1).last() == clusters@[i as int]);
        }
        if found.is_none() && same_text(clusters[i].id.as_str(), id) {
            found = Some(i);
        }
        i += 1;
    }
    assert(clusters@.take(i as int) =~= clusters@);
    match found {
        Some(k) => k,
        None => at,
    }
}

/// What the edges from one cluster to another weigh together.
pub open spec fn dependency_sum(
    clusters: Seq<Cluster>,
    edges: Seq<FileEdge>,
    from: usize,
    to: usize,
) -> Option<(u128, Option<Seq<char>>)>
    decreases edges.len(),
{
    if edges.len() == 0 {
        None
    } else {
        let d = dependency_sum(clusters, edges.drop_last(), from, to);
        let e = edges.last();
        if cluster_pair(clusters, e) == Some((from, to)) {
            heavier(d, edge_weight(e) as u128, None)
        } else {
            d
        }
    }
}

/// The pairs list the dependencies between clusters.
pub open spec fn pairs_of_clusters(
    pairs: Seq<PairEntry>,
    clusters: Seq<Cluster>,
    edges: Seq<FileEdge>,
) -> bool {
    &&& pairs_rise(pairs)
    &&& forall|a: usize, b: usize| #[trigger]
        pair_value(pairs, a, b) == dependency_sum(clusters, edges, a, b)
    &&& forall|i: int|
        0 <= i < pairs.len() ==> (#[trigger] pairs[i]).lo < clusters.len() && pairs[i].hi
            < clusters.len()
}

proof fn lemma_dependency_sum(clusters: Seq<Cluster>, edges: Seq<FileEdge>, a: usize, b: usize)
    requires
        total_weight(edges) <= u128::MAX,
    ensures
        dependency_sum(clusters, edges, a, b) matches Some((w, _)) ==> w <= total_weight(edges),
    decreases edges.len(),
{
    if edges.len() > 0 {
        lemma_edge_weight(edges.last());
        lemma_total_weight_positive(edges.drop_last());
        lemma_dependency_sum(clusters, edges.drop_last(), a, b);
    }
}

fn weigh_clusters(clusters: &[Cluster], edges: &[FileEdge]) -> (r: Vec<PairEntry>)
    requires
        total_weight(edges@) <= u128::MAX,
    ensures
        pairs_of_clusters(r@, clusters@, edges@),
{
    let index = map_clusters(clusters);
    let mut r: Vec<PairEntry> = Vec::new();
    let mut i: usize = 0;
    while i < edges.len()
        invariant
            i <= edges@.len(),
            maps_clusters(index@, clusters@),
            total_weight(edges@) <= u128::MAX,
            pairs_of_clusters(r@, clusters@, edges@.take(i as int)),
        decreases edges@.len() - i,
    {
        let e = &edges[i];
        let ghost done = edges@.take(i as int);
        let ghost next = edges@.take(i + 1);
        let ghost before = r@;
        proof {
            assert(next.drop_last() =~= done);
            assert(next.last() == *e);
            lemma_total_weight(edges@, i + 1);
            lemma_cluster_with(clusters@, e.from_file@);
            lemma_cluster_with(clusters@, e.to_file@);
        }
        if let Some(u) = index.get(e.from_file.as_str()) {
            if let Some(v) = index.get(e.to_file.as_str()) {
                let (u, v): (usize, usize) = (*u, *v);
                if !same_text(clusters[u].id.as_str(), clusters[v].id.as_str()) {
                    let u: usize = find_first(clusters, u);
                    let v: usize = find_first(clusters, v);
                    proof {
                        lemma_edge_weight(*e);
                        lemma_total_weight_positive(done);
                        lemma_dependency_sum(clusters@, done, u, v);
                        assert(pair_value(before, u, v) == dependency_sum(clusters@, done, u, v));
                    }
                    let weight: u128 = composite_weight(e);
                    add_weight(&mut r, u, v, weight, None);
                    proof {
                        assert(cluster_pair(clusters@, *e) == Some((u, v)));
                        assert forall|a: usize, b: usize| #[trigger]
                            pair_value(r@, a, b) == dependency_sum(clusters@, next, a, b) by {
                            assert(pair_value(before, a, b) == dependency_sum(
                                clusters@,
                                done,
                                a,
                                b,
                            ));
                        }
                        assert forall|k: int| 0 <= k < r@.len() implies (#[trigger] r@[k]).lo
                            < clusters@.len() && r@[k].hi < clusters@.len() by {
                            if (r@[k].lo, r@[k].hi) != (u, v) {
                                let (a, b) = (r@[k].lo, r@[k].hi);
                                lemma_pair_value(before, a, b);
                                let m = choose|m: int|
                                    0 <= m < before.len() && (#[trigger] before[m]).lo == a
                                        && before[m].hi == b;
                                assert(before[m].lo < clusters@.len());
                            }
                        }
                    }
                }
            }
        }
        proof {
            if cluster_pair(clusters@, *e) is None {
                assert forall|a: usize, b: usize| #[trigger]
                    pair_value(r@, a, b) == dependency_sum(clusters@, next, a, b) by {
                    assert(pair_value(before, a, b) == dependency_sum(clusters@, done, a, b));
                }
            }
        }
        i += 1;
    }
    assert(edges@.take(i as int) =~= edges@);
    r
}

/// What dependencies say: their ends and their weight.
pub open spec fn dependency_texts(s: Seq<ModuleDependency>) -> Seq<(Seq<char>, Seq<char>, u128)> {
    Seq::new(s.len(), |i: int| (s[i].from_cluster_id@, s[i].to_cluster_id@, s[i].weight))
}

/// What the pairs say as dependencies.
pub open spec fn pair_texts(clusters: Seq<Cluster>, pairs: Seq<PairEntry>) -> Seq<
    (Seq<char>, Seq<char>, u128),
> {
    Seq::new(
        pairs.len(),
        |i: int|
            (clusters[pairs[i].lo as int].id@, clusters[pairs[i].hi as int].id@, pairs[i].weight),
    )
}

/// The dependencies between the clusters, the heaviest first.
pub fn module_overview(graph: ClusterGraph, edges: &[FileEdge]) -> (r: ModuleOverview)
    requires
        total_weight(edges@) <= u128::MAX,
    ensures
        r.graph == graph,
        exists|pairs: Seq<PairEntry>, unsorted: Seq<ModuleDependency>| #[trigger]
            pairs_of_clusters(pairs, graph.clusters@, edges@) && #[trigger] dependency_texts(
                unsorted,
            ) == pair_texts(graph.clusters@, pairs) && r.dependencies@ == arranged(unsorted),
{
    let clusters = &graph.clusters;
    let pairs = weigh_clusters(clusters, edges);
    let ghost want = pair_texts(clusters@, pairs@);
    let mut unsorted: Vec<ModuleDependency> = Vec::new();
    let mut i: usize = 0;
    while i < pairs.len()
        invariant
            i <= pairs@.len(),
            pairs_of_clusters(pairs@, clusters@, edges@),
            want == pair_texts(clusters@, pairs@),
            unsorted@.len() == i,
            forall|k: int| 0 <= k < i ==> #[trigger] dependency_texts(unsorted@)[k] == want[k],
        decreases pairs@.len() - i,
    {
        let p = &pairs[i];
        let ghost before = unsorted@;
        assert(pairs@[i as int].lo < clusters@.len());
        unsorted.push(
            ModuleDependency {
                from_cluster_id: clusters[p.lo].id.clone(),
                to_cluster_id: clusters[p.hi].id.clone(),
                weight: p.weight,
            },
        );
        proof {
            assert forall|k: int| 0 <= k < i + 1 implies #[trigger] dependency_texts(unsorted@)[k]
                == want[k] by {
                if k < i {
                    assert(dependency_texts(before)[k] == want[k]);
                }
            }
        }
        i += 1;
    }
    proof {
        assert(dependency_texts(unsorted@) =~= want);
        assert(pairs_of_clusters(pairs@, graph.clusters@, edges@));
    }
    let dependencies = arrange(unsorted);
    ModuleOverview { graph, dependencies }
}

/// The weight of the dependencies that a cluster has on others and others on
/// it.
pub open spec fn external_weight(deps: Seq<ModuleDependency>, id: Seq<char>) -> int
    decreases deps.len(),
{
    if deps.len() == 0 {
        0
    } else {
        let d = deps.last();
        external_weight(deps.drop_last(), id) + (if d.from_cluster_id@ == id {
            d.weight as int
        } else {
            0
        }) + (if d.to_cluster_id@ == id {
            d.weight as int
        } else {
            0
        })
    }
}

proof fn lemma_external_weight(deps: Seq<ModuleDependency>, id: Seq<char>, n: int)
    requires
        0 <= n <= deps.len(),
    ensures
        0 <= external_weight(deps.take(n), id) <= external_weight(deps, id),
    decreases deps.len(),
{
    if n < deps.len() {
        lemma_external_weight(deps.drop_last(), id, n);
        assert(deps.drop_last().take(n) =~= deps.take(n));
    } else {
        assert(deps.take(n) =~= deps);
        if deps.len() > 0 {
            lemma_external_weight(deps.drop_last(), id, n - 1);
            assert(deps.drop_last().take(n - 1) =~= deps.drop_last());
        }
    }
}

/// How much a cluster carries: its size times one more than the weight of its
/// dependencies in both directions.
pub open spec fn importance(c: Cluster, deps: Seq<ModuleDependency>) -> int {
    c.size * (WEIGHT_ONE + external_weight(deps, c.id@))
}

/// A cluster with how much it carries.
pub struct Important<'a> {
    pub cluster: &'a Cluster,
    pub score: u128,
}

impl<'a> Ranked for Important<'a> {
    /// Those that carry most first, then by id.
    open spec fn ranks_before(self, other: Self) -> bool {
        self.score > other.score || (self.score == other.score && text_lt(
            self.cluster.id@,
            other.cluster.id@,
        ))
    }

    fn goes_before(&self, other: &Self) -> (r: bool) {
        if self.score != other.score {
            self.score > other.score
        } else {
            text_less(self.cluster.id.as_str(), other.cluster.id.as_str())
        }
    }

    proof fn rank_laws(a: Self, b: Self, c: Self) {
        lemma_text_order(a.cluster.id@, b.cluster.id@, c.cluster.id@);
    }
}

/// The clusters with how much they carry.
pub open spec fn importances<'a>(
    clusters: Seq<Cluster>,
    deps: Seq<ModuleDependency>,
) -> Seq<Important<'a>> {
    Seq::new(
        clusters.len(),
        |i: int| Important { cluster: &clusters[i], score: importance(clusters[i], deps) as u128 },
    )
}

/// The clusters of ranked ones.
pub open spec fn ranked_clusters<'a>(s: Seq<Important<'a>>) -> Seq<&'a Cluster> {
    Seq::new(s.len(), |i: int| s[i].cluster)
}

impl ModuleOverview {
    /// How much each cluster carries can be counted.
    pub open spec fn countable(self) -> bool {
        forall|i: int|
            0 <= i < self.graph.clusters@.len() ==> external_weight(
                self.dependencies@,
                (#[trigger] self.graph.clusters@[i]).id@,
            ) + WEIGHT_ONE <= u128::MAX && importance(
                self.graph.clusters@[i],
                self.dependencies@,
            ) <= u128::MAX
    }

    /// The clusters, those that carry most first.
    pub fn clusters_by_importance(&self) -> (r: Vec<&Cluster>)
        requires
            self.countable(),
        ensures
            r@ == ranked_clusters(
                arranged(importances(self.graph.clusters@, self.dependencies@)),
            ),
    {
        let clusters = &self.graph.clusters;
        let deps = &self.dependencies;
        let ghost want: Seq<Important> = importances(clusters@, deps@);
        let mut scored: Vec<Important> = Vec::new();
        let mut i: usize = 0;
        while i < clusters.len()
            invariant
                i <= clusters@.len(),
                self.countable(),
                clusters@ == self.graph.clusters@,
                deps@ == self.dependencies@,
                want == importances(clusters@, deps@),
                scored@.len() == i,
                forall|k: int| 0 <= k < i ==> #[trigger] scored@[k] == want[k],
            decreases clusters@.len() - i,
        {
            let c = &clusters[i];
            assert(external_weight(deps@, self.graph.clusters@[i as int].id@) + WEIGHT_ONE
                <= u128::MAX);
            let mut ext: u128 = 0;
            let mut k: usize = 0;
            while k < deps.len()
                invariant
                    k <= deps@.len(),
                    external_weight(deps@, c.id@) + WEIGHT_ONE <= u128::MAX,
                    ext == external_weight(deps@.take(k as int), c.id@),
                decreases deps@.len() - k,
            {
                proof {
                    assert(deps@.take(k + 1).drop_last() =~= deps@.take(k as int));
                    assert(deps@.take(k + 1).last() == deps@[k as int]);
                    lemma_external_weight(deps@, c.id@, k + 1);
                }
                if same_text(deps[k].from_cluster_id.as_str(), c.id.as_str()) {
                    ext = ext + deps[k].weight;
                }
                if same_text(deps[k].to_cluster_id.as_str(), c.id.as_str()) {
                    ext = ext + deps[k].weight;
                }
                k += 1;
            }
            assert(deps@.take(k as int) =~= deps@);
            let score: u128 = c.size as u128 * (WEIGHT_ONE + ext);
            scored.push(Important { cluster: c, score });
            i += 1;
        }
        assert(scored@ =~= want);
        let ranked = arrange(scored);
        let mut r: Vec<&Cluster> = Vec::new();
        let mut k: usize = 0;
        while k < ranked.len()
            invariant
                k <= ranked@.len(),
                r@.len() == k,
                forall|m: int| 0 <= m < k ==> #[trigger] r@[m] == ranked@[m].cluster,
            decreases ranked@.len() - k,
        {
            r.push(ranked[k].cluster);
            k += 1;
        }
        assert(r@ =~= ranked_clusters(ranked@));
        r
    }
}

/// What a cluster is called: its name, or its id where it has none.
pub open spec fn label_of_cluster(c: Cluster) -> Seq<char> {
    match c.display_name {
        Some(n) => n@,
        None => c.id@,
    }
}

/// What a cluster is called.
pub fn community_label<'a>(display_name: &'a Option<String>, id: &'a String) -> (r: &'a str)
    ensures
        r@ == match *display_name {
            Some(n) => n@,
            None => id@,
        },
{
    match display_name {
        Some(n) => n.as_str(),
        None => id.as_str(),
    }
}

/// What the cluster with the id is called; the id where there is none.
pub open spec fn name_of(clusters: Seq<Cluster>, id: Seq<char>) -> Seq<char>
    decreases clusters.len(),
{
    if clusters.len() == 0 {
        id
    } else if clusters.last().id@ == id {
        label_of_cluster(clusters.last())
    } else {
        name_of(clusters.drop_last(), id)
    }
}

fn find_name<'a>(clusters: &'a [Cluster], id: &'a str) -> (r: &'a str)
    ensures
        r@ == name_of(clusters@, id@),
{
    let mut n: usize = clusters.len();
    assert(clusters@.take(n as int) =~= clusters@);
    while n > 0
        invariant
            n <= clusters@.len(),
            name_of(clusters@, id@) == name_of(clusters@.take(n as int), id@),
        decreases n,
    {
        proof {
            assert(clusters@.take(n as int).last() == clusters@[n - 1]);
            assert(clusters@.take(n as int).drop_last() =~= clusters@.take(n - 1));
        }
        if same_text(clusters[n - 1].id.as_str(), id) {
            return community_label(&clusters[n - 1].display_name, &clusters[n - 1].id);
        }
        n -= 1;
    }
    id
}

/// A weight rounded to a whole number; halfway to the even one.
pub open spec fn rounded(w: int) -> int {
    let q = w / (WEIGHT_ONE as int);
    let r = w % (WEIGHT_ONE as int);
    if 2 * r > WEIGHT_ONE || (2 * r == WEIGHT_ONE && q % 2 == 1) {
        q + 1
    } else {
        q
    }
}

fn round_weight(w: u128) -> (r: u128)
    ensures
        r == rounded(w as int),
{
    let q: u128 = w / WEIGHT_ONE;
    let rest: u128 = w % WEIGHT_ONE;
    if 2 * rest > WEIGHT_ONE || (2 * rest == WEIGHT_ONE && q % 2 == 1) {
        q + 1
    } else {
        q
    }
}

/// The first three dependencies of the cluster, as they are shown.
pub open spec fn top_dependencies(
    clusters: Seq<Cluster>,
    deps: Seq<ModuleDependency>,
    id: Seq<char>,
) -> Seq<Seq<char>>
    decreases deps.len(),
{
    if deps.len() == 0 {
        Seq::empty()
    } else {
        let before = top_dependencies(clusters, deps.drop_last(), id);
        let d = deps.last();
        if before.len() < 3 && d.from_cluster_id@ == id {
            before.push(
                name_of(clusters, d.to_cluster_id@) + " ("@ + decimal(
                    rounded(d.weight as int) as nat,
                ) + ")"@,
            )
        } else {
            before
        }
    }
}

/// The row of a cluster.
pub open spec fn cluster_row(
    clusters: Seq<Cluster>,
    deps: Seq<ModuleDependency>,
    c: Cluster,
) -> Seq<char> {
    let top = top_dependencies(clusters, deps, c.id@);
    "| "@ + label_of_cluster(c) + " | "@ + decimal(c.size as nat) + " | "@ + c.dominant_language@
        + " | "@ + (if top.len() == 0 {
        "—"@
    } else {
        join(top, ", "@)
    }) + " |\n"@
}

/// The rows of clusters.
pub open spec fn cluster_rows(
    clusters: Seq<Cluster>,
    deps: Seq<ModuleDependency>,
    shown: Seq<&Cluster>,
) -> Seq<char>
    decreases shown.len(),
{
    if shown.len() == 0 {
        Seq::empty()
    } else {
        cluster_rows(clusters, deps, shown.drop_last()) + cluster_row(clusters, deps, *shown.last())
    }
}

/// The overview of a repository as a Markdown table.
pub open spec fn overview_text(repository_id: Seq<char>, o: ModuleOverview) -> Seq<char> {
    let clusters = o.graph.clusters@;
    if clusters.len() == 0 {
        "No clusters detected for repository `"@ + repository_id + "`."@
    } else {
        "# Architecture Overview\n\nRepository `"@ + repository_id + "` — "@ + decimal(
            clusters.len(),
        ) + " clusters, "@ + decimal(o.graph.total_files as nat) + " files, "@ + decimal(
            o.graph.total_edges as nat,
        ) + " dependency edges\n\n"@
            + "| Cluster | Files | Language | Top Dependencies |\n|---------|-------|----------|------------------|\n"@
            + cluster_rows(
            clusters,
            o.dependencies@,
            ranked_clusters(arranged(importances(clusters, o.dependencies@))),
        )
    }
}

fn make_row(clusters: &[Cluster], deps: &[ModuleDependency], c: &Cluster) -> (r: String)
    ensures
        r@ == cluster_row(clusters@, deps@, *c),
{
    let mut top: Vec<String> = Vec::new();
    let mut i: usize = 0;
    assert(texts(top@) =~= top_dependencies(clusters@, deps@.take(0), c.id@));
    while i < deps.len()
        invariant
            i <= deps@.len(),
            texts(top@) == top_dependencies(clusters@, deps@.take(i as int), c.id@),
        decreases deps@.len() - i,
    {
        let d = &deps[i];
        let ghost before = top@;
        proof {
            assert(deps@.take(i + 1).drop_last() =~= deps@.take(i as int));
            assert(deps@.take(i + 1).last() == deps@[i as int]);
            assert(texts(top@).len() == top@.len());
        }
        if top.len() < 3 && same_text(d.from_cluster_id.as_str(), c.id.as_str()) {
            let mut t = find_name(clusters, d.to_cluster_id.as_str()).to_string();
            t.append(" (");
            t.append(wide_decimal_text(round_weight(d.weight)).as_str());
            t.append(")");
            let ghost v = t@;
            top.push(t);
            assert(texts(top@) =~= texts(before).push(v));
        }
        i += 1;
    }
    proof {
        assert(deps@.take(i as int) =~= deps@);
        assert(texts(top@).len() == top@.len());
    }
    let mut r = "| ".to_string();
    r.append(community_label(&c.display_name, &c.id));
    r.append(" | ");
    r.append(decimal_text(c.size as u64).as_str());
    r.append(" | ");
    r.append(c.dominant_language.as_str());
    r.append(" | ");
    if top.len() == 0 {
        r.append("—");
    } else {
        r.append(join_texts(&top, ", ").as_str());
    }
    r.append(" |\n");
    r
}

/// The overview of a repository as a Markdown table: one row for each cluster,
/// those that carry most first, with the three heaviest dependencies of each.
pub fn architecture_overview(repository_id: &str, overview: &ModuleOverview) -> (r: String)
    requires
        overview.countable(),
    ensures
        r@ == overview_text(repository_id@, *overview),
{
    let clusters = &overview.graph.clusters;
    let deps = &overview.dependencies;
    if clusters.len() == 0 {
        let mut r = "No clusters detected for repository `".to_string();
        r.append(repository_id);
        r.append("`.");
        return r;
    }
    let mut r = "# Architecture Overview\n\nRepository `".to_string();
    r.append(repository_id);
    r.append("` — ");
    r.append(decimal_text(clusters.len() as u64).as_str());
    r.append(" clusters, ");
    r.append(decimal_text(overview.graph.total_files as u64).as_str());
    r.append(" files, ");
    r.append(decimal_text(overview.graph.total_edges as u64).as_str());
    r.append(" dependency edges\n\n");
    r.append(
        "| Cluster | Files | Language | Top Dependencies |\n|---------|-------|----------|------------------|\n",
    );
    let ghost head = r@;
    let shown = overview.clusters_by_importance();
    let mut i: usize = 0;
    assert(head + cluster_rows(clusters@, deps@, shown@.take(0)) =~= head);
    while i < shown.len()
        invariant
            i <= shown@.len(),
            r@ == head + cluster_rows(clusters@, deps@, shown@.take(i as int)),
        decreases shown@.len() - i,
    {
        let ghost d = cluster_rows(clusters@, deps@, shown@.take(i as int));
        let row = make_row(clusters, deps, shown[i]);
        proof {
            assert(shown@.take(i + 1).drop_last() =~= shown@.take(i as int));
            assert(shown@.take(i + 1).last() == shown@[i as int]);
            assert((head + d) + row@ =~= head + (d + row@));
        }
        r.append(row.as_str());
        i += 1;
    }
    assert(shown@.take(i as int) =~= shown@);
    r
}

/// The place of the first cluster that holds the file, or -1.
pub open spec fn first_cluster_with(clusters: Seq<Cluster>, file: Seq<char>) -> int
    decreases clusters.len(),
{
    if clusters.len() == 0 {
        -1
    } else {
        let d = first_cluster_with(clusters.drop_last(), file);
        if d < 0 && texts(clusters.last().members@).contains(file) {
            clusters.len() - 1
        } else {
            d
        }
    }
}

/// The cluster that a file belongs to.
pub fn cluster_for_file(clusters: Vec<Cluster>, file_path: &str) -> (r: Option<Cluster>)
    ensures
        r is Some == (first_cluster_with(clusters@, file_path@) >= 0),
        r matches Some(c) ==> c == clusters@[first_cluster_with(clusters@, file_path@)],
{
    let ghost all = clusters@;
    let mut found: Option<Cluster> = None;
    for c in it: clusters
        invariant
            it.seq() == all,
            found is Some == (first_cluster_with(all.take(it.index() as int), file_path@) >= 0),
            found matches Some(x) ==> first_cluster_with(all.take(it.index() as int), file_path@)
                < it.index() && x == all[first_cluster_with(
                all.take(it.index() as int),
                file_path@,
            )],
    {
        proof {
            let i = it.index() as int;
            assert(all.take(i + 1).drop_last() =~= all.take(i));
            assert(all.take(i + 1).last() == c);
        }
        if found.is_none() && has_text(&c.members, file_path) {
            found = Some(c);
        }
    }
    assert(all.take(all.len() as int) =~= all);
    found
}

/// The cluster with the name that is known for its id.
pub open spec fn named_cluster(c: Cluster, names: Map<Seq<char>, String>) -> ClusterView {
    ClusterView {
        display_name: if names.contains_key(c.id@) {
            Some(names[c.id@]@)
        } else {
            opt_text(c.display_name)
        },
        ..c@
    }
}

/// Gives clusters the names that are known for their ids.
pub fn apply_cached_names(clusters: &mut Vec<Cluster>, names: &TextMap<String>)
    ensures
        final(clusters)@.len() == old(clusters)@.len(),
        forall|i: int|
            0 <= i < old(clusters)@.len() ==> (#[trigger] final(clusters)@[i])@ == named_cluster(
                old(clusters)@[i],
                names@,
            ),
{
    let ghost before = clusters@;
    let mut i: usize = 0;
    while i < clusters.len()
        invariant
            i <= clusters@.len(),
            clusters@.len() == before.len(),
            forall|k: int|
                0 <= k < i ==> (#[trigger] clusters@[k])@ == named_cluster(before[k], names@),
            forall|k: int| i <= k < before.len() ==> (#[trigger] clusters@[k]) == before[k],
        decreases clusters@.len() - i,
    {
        let ghost old_c = clusters@[i as int];
        let name = match names.get(clusters[i].id.as_str()) {
            Some(n) => Some(n.clone()),
            None => None,
        };
        if name.is_some() {
            clusters[i].display_name = name;
        }
        i += 1;
    }
}

/// What a graph shows.
#[derive(Debug, Clone, Copy, PartialEq, Eq, Structural)]
pub enum GraphLevel {
    File,
    Symbol,
}

/// What the ids of communities of a level begin with.
pub fn id_prefix(level: GraphLevel) -> (r: &'static str)
    ensures
        r@ == match level {
            GraphLevel::File => "c"@,
            GraphLevel::Symbol => "s"@,
        },
{
    match level {
        GraphLevel::File => "c",
        GraphLevel::Symbol => "s",
    }
}

/// A node of a drawn graph.
#[derive(Debug)]
pub struct GraphNode {
    pub id: String,
    pub label: String,
    pub community: usize,
    pub degree: usize,
    pub language: String,
    /// The name of the repository, in graphs over several.
    pub repository: Option<String>,
}

/// An edge of a drawn graph.
#[derive(Debug)]
pub struct GraphEdge {
    pub source: usize,
    pub target: usize,
    /// Parts of [`WEIGHT_ONE`].
    pub weight: u128,
    pub kind: Option<String>,
}

/// A community of a drawn graph.
#[derive(Debug)]
pub struct CommunityMeta {
    pub index: usize,
    pub name: String,
    pub size: usize,
    pub cohesion: u64,
}

/// A graph that can be drawn.
#[derive(Debug)]
pub struct GraphView {
    pub repository_id: String,
    pub level: GraphLevel,
    pub nodes: Vec<GraphNode>,
    pub edges: Vec<GraphEdge>,
    pub communities: Vec<CommunityMeta>,
}

/// What a node says, besides its degree.
pub struct GraphNodeView {
    pub id: Seq<char>,
    pub label: Seq<char>,
    pub community: nat,
    pub language: Seq<char>,
    pub repository: Option<Seq<char>>,
}

/// What nodes say, besides their degrees.
pub open spec fn graph_node_views(s: Seq<GraphNode>) -> Seq<GraphNodeView> {
    Seq::new(
        s.len(),
        |i: int|
            GraphNodeView {
                id: s[i].id@,
                label: s[i].label@,
                community: s[i].community as nat,
                language: s[i].language@,
                repository: opt_text(s[i].repository),
            },
    )
}

/// A node of that id stands in the list.
pub open spec fn has_graph_node(s: Seq<GraphNodeView>, id: Seq<char>) -> bool {
    exists|i: int| 0 <= i < s.len() && (#[trigger] s[i]).id == id
}

/// The nodes with those of members behind them that are new.
pub open spec fn with_members(
    nodes: Seq<GraphNodeView>,
    members: Seq<Seq<char>>,
    community: nat,
    languages: Map<Seq<char>, String>,
) -> Seq<GraphNodeView>
    decreases members.len(),
{
    if members.len() == 0 {
        nodes
    } else {
        let d = with_members(nodes, members.drop_last(), community, languages);
        let m = members.last();
        if has_graph_node(d, m) {
            d
        } else {
            d.push(
                GraphNodeView {
                    id: m,
                    label: base_text(m),
                    community,
                    language: language_of(languages, m),
                    repository: None,
                },
            )
        }
    }
}

/// The nodes of all members, cluster by cluster.
pub open spec fn member_nodes(
    clusters: Seq<Cluster>,
    languages: Map<Seq<char>, String>,
) -> Seq<GraphNodeView>
    decreases clusters.len(),
{
    if clusters.len() == 0 {
        Seq::empty()
    } else {
        with_members(
            member_nodes(clusters.drop_last(), languages),
            texts(clusters.last().members@),
            (clusters.len() - 1) as nat,
            languages,
        )
    }
}

/// The ids of nodes.
pub open spec fn node_ids(s: Seq<GraphNodeView>) -> Seq<Seq<char>> {
    Seq::new(s.len(), |i: int| s[i].id)
}

/// How many pairs have the node at `n`.
pub open spec fn degree_of(pairs: Seq<PairEntry>, n: int) -> nat
    decreases pairs.len(),
{
    if pairs.len() == 0 {
        0
    } else {
        degree_of(pairs.drop_last(), n) + if pairs.last().lo == n || pairs.last().hi == n {
            1nat
        } else {
            0
        }
    }
}

/// The edges are those of the pairs.
pub open spec fn are_edges_of(edges: Seq<GraphEdge>, pairs: Seq<PairEntry>) -> bool {
    &&& edges.len() == pairs.len()
    &&& forall|i: int|
        0 <= i < edges.len() ==> (#[trigger] edges[i]).source == pairs[i].lo && edges[i].target
            == pairs[i].hi && edges[i].weight == pairs[i].weight && edges[i].kind == pairs[i].kind
}

/// The communities are those of the clusters.
pub open spec fn are_communities(s: Seq<CommunityMeta>, clusters: Seq<Cluster>) -> bool {
    &&& s.len() == clusters.len()
    &&& forall|i: int|
        0 <= i < s.len() ==> (#[trigger] s[i]).index == i && s[i].name@ == label_of_cluster(
            clusters[i],
        ) && s[i].size == clusters[i].size && s[i].cohesion == clusters[i].cohesion
}

fn push_member(
    nodes: &mut Vec<GraphNode>,
    member: &String,
    community: usize,
    languages: &TextMap<String>,
)
    ensures
        graph_node_views(final(nodes)@) == with_members(
            graph_node_views(old(nodes)@),
            seq![member@],
            community as nat,
            languages@,
        ),
        forall|i: int| 0 <= i < old(nodes)@.len() ==> final(nodes)@[i] == old(nodes)@[i],
        forall|i: int|
            old(nodes)@.len() <= i < final(nodes)@.len() ==> (#[trigger] final(nodes)@[i]).degree
                == 0,
        final(nodes)@.len() >= old(nodes)@.len(),
{
    let ghost before = nodes@;
    let ghost vs = graph_node_views(before);
    proof {
        assert(seq![member@].drop_last() =~= Seq::<Seq<char>>::empty());
        assert(with_members(vs, Seq::<Seq<char>>::empty(), community as nat, languages@) == vs);
    }
    let mut i: usize = 0;
    while i < nodes.len()
        invariant
            i <= nodes@.len(),
            nodes@ == before,
            vs == graph_node_views(before),
            seq![member@].drop_last() == Seq::<Seq<char>>::empty(),
            with_members(vs, Seq::<Seq<char>>::empty(), community as nat, languages@) == vs,
            forall|k: int| 0 <= k < i ==> (#[trigger] vs[k]).id != member@,
        decreases nodes@.len() - i,
    {
        assert(vs[i as int].id == nodes@[i as int].id@);
        if same_text(nodes[i].id.as_str(), member.as_str()) {
            assert(has_graph_node(vs, member@));
            return;
        }
        i += 1;
    }
    nodes.push(
        GraphNode {
            id: member.clone(),
            label: basename(member.as_str()),
            community,
            degree: 0,
            language: file_language(languages, member.as_str()),
            repository: None,
        },
    );
    assert(graph_node_views(nodes@) =~= vs.push(
        GraphNodeView {
            id: member@,
            label: base_text(member@),
            community: community as nat,
            language: language_of(languages@, member@),
            repository: None,
        },
    ));
}

proof fn lemma_with_members_step(
    nodes: Seq<GraphNodeView>,
    members: Seq<Seq<char>>,
    community: nat,
    languages: Map<Seq<char>, String>,
    m: Seq<char>,
)
    ensures
        with_members(nodes, members.push(m), community, languages) == with_members(
            with_members(nodes, members, community, languages),
            seq![m],
            community,
            languages,
        ),
{
    assert(members.push(m).drop_last() =~= members);
    assert(seq![m].drop_last() =~= Seq::<Seq<char>>::empty());
    let d = with_members(nodes, members, community, languages);
    assert(with_members(d, Seq::<Seq<char>>::empty(), community, languages) == d);
}

/// The graph of the files of clusters: each member once, under the first
/// cluster that holds it, and the edges between them.
pub fn graph_view(
    repository_id: &str,
    cg: &ClusterGraph,
    edges: &[FileEdge],
    languages: &TextMap<String>,
) -> (r: GraphView)
    requires
        total_weight(edges@) <= u128::MAX,
    ensures
        r.repository_id@ == repository_id@,
        r.level == GraphLevel::File,
        are_communities(r.communities@, cg.clusters@),
        graph_node_views(r.nodes@) == member_nodes(cg.clusters@, languages@),
        exists|pairs: Seq<PairEntry>| #[trigger]
            pairs_of_edges(
                pairs,
                node_ids(member_nodes(cg.clusters@, languages@)),
                edges@,
            ) && are_edges_of(r.edges@, pairs) && forall|i: int|
                0 <= i < r.nodes@.len() ==> (#[trigger] r.nodes@[i]).degree == degree_of(pairs, i),
{
    let clusters = &cg.clusters;
    let mut communities: Vec<CommunityMeta> = Vec::new();
    let mut nodes: Vec<GraphNode> = Vec::new();
    let mut i: usize = 0;
    assert(graph_node_views(nodes@) =~= member_nodes(clusters@.take(0), languages@));
    while i < clusters.len()
        invariant
            i <= clusters@.len(),
            communities@.len() == i,
            forall|k: int|
                0 <= k < i ==> (#[trigger] communities@[k]).index == k && communities@[k].name@
                    == label_of_cluster(clusters@[k]) && communities@[k].size == clusters@[k].size
                    && communities@[k].cohesion == clusters@[k].cohesion,
            graph_node_views(nodes@) == member_nodes(clusters@.take(i as int), languages@),
            forall|k: int| 0 <= k < nodes@.len() ==> (#[trigger] nodes@[k]).degree == 0,
        decreases clusters@.len() - i,
    {
        let c = &clusters[i];
        proof {
            assert(clusters@.take(i + 1).drop_last() =~= clusters@.take(i as int));
            assert(clusters@.take(i + 1).last() == clusters@[i as int]);
        }
        communities.push(
            CommunityMeta {
                index: i,
                name: community_label(&c.display_name, &c.id).to_string(),
                size: c.size,
                cohesion: c.cohesion,
            },
        );
        let ghost base = graph_node_views(nodes@);
        let ghost ms = texts(c.members@);
        let mut k: usize = 0;
        while k < c.members.len()
            invariant
                k <= c.members@.len(),
                ms == texts(c.members@),
                graph_node_views(nodes@) == with_members(
                    base,
                    ms.take(k as int),
                    i as nat,
                    languages@,
                ),
                forall|k: int| 0 <= k < nodes@.len() ==> (#[trigger] nodes@[k]).degree == 0,
            decreases c.members@.len() - k,
        {
            proof {
                assert(ms.take(k + 1) =~= ms.take(k as int).push(c.members@[k as int]@));
                lemma_with_members_step(
                    base,
                    ms.take(k as int),
                    i as nat,
                    languages@,
                    c.members@[k as int]@,
                );
            }
            push_member(&mut nodes, &c.members[k], i, languages);
            k += 1;
        }
        assert(ms.take(k as int) =~= ms);
        i += 1;
    }
    assert(clusters@.take(i as int) =~= clusters@);
    let ghost views = graph_node_views(nodes@);
    let mut ids: Vec<String> = Vec::new();
    let mut n: usize = 0;
    while n < nodes.len()
        invariant
            n <= nodes@.len(),
            ids@.len() == n,
            forall|k: int| 0 <= k < n ==> #[trigger] ids@[k]@ == nodes@[k].id@,
        decreases nodes@.len() - n,
    {
        ids.push(nodes[n].id.clone());
        n += 1;
    }
    assert(texts(ids@) =~= node_ids(views));
    let pairs = weigh_pairs(&ids, edges);
    let ghost ps = pairs@;
    let count: usize = pairs.len();
    let mut out: Vec<GraphEdge> = Vec::new();
    let mut m: usize = 0;
    assert(ids@.len() == nodes@.len());
    while m < pairs.len()
        invariant
            m <= pairs@.len(),
            count == pairs@.len(),
            pairs@ == ps,
            pairs_of_edges(ps, node_ids(views), edges@),
            views.len() == nodes@.len(),
            node_ids(views).len() == nodes@.len(),
            graph_node_views(nodes@) == views,
            out@.len() == m,
            forall|k: int|
                0 <= k < m ==> (#[trigger] out@[k]).source == ps[k].lo && out@[k].target == ps[k].hi
                    && out@[k].weight == ps[k].weight && out@[k].kind == ps[k].kind,
            forall|k: int|
                0 <= k < nodes@.len() ==> (#[trigger] nodes@[k]).degree == degree_of(
                    ps.take(m as int),
                    k,
                ) && nodes@[k].degree <= m,
        decreases pairs@.len() - m,
    {
        let p = &pairs[m];
        let ghost before = nodes@;
        proof {
            assert(ps[m as int].lo < ps[m as int].hi && ps[m as int].hi < node_ids(views).len());
            assert(ps.take(m + 1).drop_last() =~= ps.take(m as int));
            assert(ps.take(m + 1).last() == ps[m as int]);
            assert(before[p.lo as int].degree <= m);
            assert(before[p.hi as int].degree <= m);
        }
        let lo: usize = p.lo;
        let hi: usize = p.hi;
        let a: usize = nodes[lo].degree + 1;
        let b: usize = nodes[hi].degree + 1;
        nodes[lo].degree = a;
        nodes[hi].degree = b;
        out.push(
            GraphEdge { source: lo, target: hi, weight: p.weight, kind: copy_opt(&p.kind) },
        );
        proof {
            assert forall|k: int| 0 <= k < nodes@.len() implies (#[trigger] nodes@[k]).degree
                == degree_of(ps.take(m + 1), k) && nodes@[k].degree <= m + 1 by {
                assert(before[k].degree == degree_of(ps.take(m as int), k));
            }
            assert(graph_node_views(nodes@) =~= views);
        }
        m += 1;
    }
    assert(ps.take(m as int) =~= ps);
    GraphView {
        repository_id: repository_id.to_string(),
        level: GraphLevel::File,
        nodes,
        edges: out,
        communities,
    }
}

} // verus!
