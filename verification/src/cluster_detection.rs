//! Clusters of files: the weighted graph that is partitioned, and the named,
//! scored clusters that a partition makes.

use vstd::prelude::*;
use crate::clustering::{lemma_members_of, members_of};
use crate::collections::TextMap;
use crate::domain::{FileEdge, FileGraph};
use crate::order::{
    Ranked, arrange, arranged, lemma_sorted, lemma_text_order, sort_texts, sorted_texts, text_less,
    text_lt,
};
use crate::pair_weights::{PairEntry, add_weight, heavier, lemma_pair_value, pair_value, pairs_rise};
use crate::text::{copy_all, count_of, occurrences, opt_text, same_text, texts};
use crate::unicode::{lowercase, to_lowercase};

verus! {

/// The number of files below which a partition is not worth while.
pub const MIN_NODES_FOR_CLUSTERING: usize = 10;

/// The weight that stands for one. Its tenth can be shared out evenly among any
/// number up to [`EVEN_KINDS`].
pub const WEIGHT_ONE: u128 = 2_327_925_600;

/// A tenth of [`WEIGHT_ONE`]: the least common multiple of the numbers up to
/// [`EVEN_KINDS`].
pub const WEIGHT_TENTH: u128 = 232_792_560;

/// The number of kinds up to which a mean weight is exact.
pub const EVEN_KINDS: usize = 20;

/// The cohesion that stands for one.
pub const COHESION_ONE: u64 = 1_000_000_000_000_000_000;

/// A cluster of files.
#[derive(Debug)]
pub struct Cluster {
    pub id: String,
    pub display_name: Option<String>,
    pub repository_id: String,
    pub dominant_language: String,
    pub size: usize,
    /// Parts of [`COHESION_ONE`]: the share of edges that stay inside.
    pub cohesion: u64,
    pub members: Vec<String>,
}

/// The clusters of a repository.
#[derive(Debug)]
pub struct ClusterGraph {
    pub clusters: Vec<Cluster>,
    pub repository_id: String,
    pub total_files: usize,
    pub total_edges: usize,
}

/// What a cluster says.
pub struct ClusterView {
    pub id: Seq<char>,
    pub display_name: Option<Seq<char>>,
    pub repository_id: Seq<char>,
    pub dominant_language: Seq<char>,
    pub size: nat,
    pub cohesion: u64,
    pub members: Seq<Seq<char>>,
}

impl View for Cluster {
    type V = ClusterView;

    open spec fn view(&self) -> ClusterView {
        ClusterView {
            id: self.id@,
            display_name: opt_text(self.display_name),
            repository_id: self.repository_id@,
            dominant_language: self.dominant_language@,
            size: self.size as nat,
            cohesion: self.cohesion,
            members: texts(self.members@),
        }
    }
}

/// What clusters say.
pub open spec fn file_cluster_views(s: Seq<Cluster>) -> Seq<ClusterView> {
    Seq::new(s.len(), |i: int| s[i]@)
}

impl Ranked for Cluster {
    /// Largest first, then by id.
    open spec fn ranks_before(self, other: Self) -> bool {
        self.size > other.size || (self.size == other.size && text_lt(self.id@, other.id@))
    }

    fn goes_before(&self, other: &Self) -> (r: bool) {
        if self.size != other.size {
            self.size > other.size
        } else {
            text_less(self.id.as_str(), other.id.as_str())
        }
    }

    proof fn rank_laws(a: Self, b: Self, c: Self) {
        lemma_text_order(a.id@, b.id@, c.id@);
    }
}

/// The weight of a kind of reference, in tenths, by its name in small letters.
pub open spec fn kind_tenths(lowered: Seq<char>) -> u64 {
    if lowered == "call"@ || lowered == "methodcall"@ || lowered == "method_call"@ {
        10
    } else if lowered == "inheritance"@ {
        8
    } else if lowered == "implementation"@ {
        7
    } else if lowered == "typereference"@ || lowered == "type_reference"@ {
        6
    } else if lowered == "import"@ {
        5
    } else {
        3
    }
}

/// The weight of a kind of reference, in tenths, by its name in small letters.
pub fn lowered_kind_weight(lowered: &str) -> (r: u64)
    ensures
        r == kind_tenths(lowered@),
{
    if same_text(lowered, "call") || same_text(lowered, "methodcall") || same_text(
        lowered,
        "method_call",
    ) {
        10
    } else if same_text(lowered, "inheritance") {
        8
    } else if same_text(lowered, "implementation") {
        7
    } else if same_text(lowered, "typereference") || same_text(lowered, "type_reference") {
        6
    } else if same_text(lowered, "import") {
        5
    } else {
        3
    }
}

/// The weight of a kind of reference, in tenths.
pub fn kind_weight(kind: &str) -> (r: u64)
    ensures
        r == kind_tenths(lowercase(kind@)),
{
    lowered_kind_weight(to_lowercase(kind).as_str())
}

/// The weights of kinds, in tenths, summed up.
pub open spec fn tenths_sum(kinds: Seq<Seq<char>>) -> nat
    decreases kinds.len(),
{
    if kinds.len() == 0 {
        0
    } else {
        tenths_sum(kinds.drop_last()) + kind_tenths(lowercase(kinds.last())) as nat
    }
}

/// The mean weight of kinds, in parts of [`WEIGHT_ONE`].
pub open spec fn mean_weight(kinds: Seq<Seq<char>>) -> int {
    if kinds.len() == 0 {
        3 * WEIGHT_TENTH
    } else {
        tenths_sum(kinds) as int * WEIGHT_TENTH / kinds.len() as int
    }
}

/// The weight of an edge: the number of its references times the mean weight of
/// their kinds.
pub open spec fn edge_weight(e: FileEdge) -> int {
    e.weight * mean_weight(texts(e.reference_kinds@))
}

proof fn lemma_tenths_sum(kinds: Seq<Seq<char>>)
    ensures
        tenths_sum(kinds) <= 10 * kinds.len(),
    decreases kinds.len(),
{
    if kinds.len() > 0 {
        lemma_tenths_sum(kinds.drop_last());
    }
}

/// The mean weight of kinds is between nothing and one.
pub proof fn lemma_mean_weight(kinds: Seq<Seq<char>>)
    ensures
        0 <= mean_weight(kinds) <= WEIGHT_ONE,
{
    if kinds.len() > 0 {
        lemma_tenths_sum(kinds);
        let t = tenths_sum(kinds) as int;
        let n = kinds.len() as int;
        assert(0 <= t * 232_792_560 / n <= 2_327_925_600) by (nonlinear_arith)
            requires
                0 <= t <= 10 * n,
                n >= 1,
        ;
    }
}

/// The mean weight of up to [`EVEN_KINDS`] kinds is exact.
pub proof fn lemma_mean_weight_is_exact(kinds: Seq<Seq<char>>)
    requires
        1 <= kinds.len() <= EVEN_KINDS,
    ensures
        mean_weight(kinds) * kinds.len() == tenths_sum(kinds) * WEIGHT_TENTH,
{
    let t = tenths_sum(kinds) as int;
    let n = kinds.len() as int;
    assert(232_792_560int % n == 0) by {
        if n == 1 {
            assert(232_792_560int % 1 == 0);
        } else if n == 2 {
            assert(232_792_560int % 2 == 0);
        } else if n == 3 {
            assert(232_792_560int % 3 == 0);
        } else if n == 4 {
            assert(232_792_560int % 4 == 0);
        } else if n == 5 {
            assert(232_792_560int % 5 == 0);
        } else if n == 6 {
            assert(232_792_560int % 6 == 0);
        } else if n == 7 {
            assert(232_792_560int % 7 == 0);
        } else if n == 8 {
            assert(232_792_560int % 8 == 0);
        } else if n == 9 {
            assert(232_792_560int % 9 == 0);
        } else if n == 10 {
            assert(232_792_560int % 10 == 0);
        } else if n == 11 {
            assert(232_792_560int % 11 == 0);
        } else if n == 12 {
            assert(232_792_560int % 12 == 0);
        } else if n == 13 {
            assert(232_792_560int % 13 == 0);
        } else if n == 14 {
            assert(232_792_560int % 14 == 0);
        } else if n == 15 {
            assert(232_792_560int % 15 == 0);
        } else if n == 16 {
            assert(232_792_560int % 16 == 0);
        } else if n == 17 {
            assert(232_792_560int % 17 == 0);
        } else if n == 18 {
            assert(232_792_560int % 18 == 0);
        } else if n == 19 {
            assert(232_792_560int % 19 == 0);
        } else if n == 20 {
            assert(232_792_560int % 20 == 0);
        }
    }
    let k = 232_792_560int / n;
    assert(k * n == 232_792_560) by (nonlinear_arith)
        requires
            232_792_560int % n == 0,
            n >= 1,
            k == 232_792_560int / n,
    ;
    assert(t * 232_792_560 == (t * k) * n) by (nonlinear_arith)
        requires
            k * n == 232_792_560,
    ;
    assert(((t * k) * n) / n == t * k) by (nonlinear_arith)
        requires
            n >= 1,
    ;
}

/// The weight of an edge.
pub fn composite_weight(edge: &FileEdge) -> (r: u128)
    ensures
        r == edge_weight(*edge),
{
    let kinds = &edge.reference_kinds;
    let ghost all = texts(kinds@);
    proof {
        lemma_mean_weight(all);
        assert(edge.weight * mean_weight(all) <= usize::MAX * WEIGHT_ONE) by (nonlinear_arith)
            requires
                0 <= edge.weight <= usize::MAX,
                0 <= mean_weight(all) <= WEIGHT_ONE,
        ;
    }
    assert(all.len() == kinds@.len());
    let n: usize = kinds.len();
    if n == 0 {
        return edge.weight as u128 * (3 * WEIGHT_TENTH);
    }
    let mut sum: u128 = 0;
    let mut i: usize = 0;
    while i < n
        invariant
            i <= n,
            n == kinds@.len(),
            all == texts(kinds@),
            sum == tenths_sum(all.take(i as int)),
            sum <= 10 * i,
        decreases n - i,
    {
        proof {
            assert(all.take(i + 1).drop_last() =~= all.take(i as int));
            assert(all.take(i + 1).last() == kinds@[i as int]@);
        }
        sum = sum + kind_weight(kinds[i].as_str()) as u128;
        i += 1;
    }
    assert(all.take(i as int) =~= all);
    let mean: u128 = sum * WEIGHT_TENTH / n as u128;
    assert(mean == mean_weight(all));
    edge.weight as u128 * mean
}

/// The last place of a text in a list, or -1.
pub open spec fn place_of(files: Seq<Seq<char>>, f: Seq<char>) -> int
    decreases files.len(),
{
    if files.len() == 0 {
        -1
    } else if files.last() == f {
        files.len() - 1
    } else {
        place_of(files.drop_last(), f)
    }
}

/// What `place_of` gives is a place of the text.
pub proof fn lemma_place_of(files: Seq<Seq<char>>, f: Seq<char>)
    ensures
        -1 <= place_of(files, f) < files.len(),
        place_of(files, f) >= 0 ==> files[place_of(files, f)] == f,
    decreases files.len(),
{
    if files.len() > 0 && files.last() != f {
        lemma_place_of(files.drop_last(), f);
    }
}

/// The map gives the places of texts.
pub open spec fn places_texts(m: Map<Seq<char>, usize>, files: Seq<Seq<char>>) -> bool {
    &&& forall|f: Seq<char>| #[trigger] m.contains_key(f) <==> place_of(files, f) >= 0
    &&& forall|f: Seq<char>| #[trigger] m.contains_key(f) ==> m[f] == place_of(files, f)
}

/// The places of files by name.
pub fn place_files(files: &[String]) -> (r: TextMap<usize>)
    ensures
        places_texts(r@, texts(files@)),
{
    let ghost all = texts(files@);
    let mut r: TextMap<usize> = TextMap::new();
    let mut i: usize = 0;
    while i < files.len()
        invariant
            i <= files@.len(),
            all == texts(files@),
            places_texts(r@, all.take(i as int)),
        decreases files@.len() - i,
    {
        proof {
            assert(all.take(i + 1).drop_last() =~= all.take(i as int));
            assert(all.take(i + 1).last() == files@[i as int]@);
        }
        r.insert(files[i].clone(), i);
        i += 1;
    }
    assert(all.take(i as int) =~= all);
    r
}

/// The different places at the ends of an edge, the lesser first.
pub open spec fn pair_of(files: Seq<Seq<char>>, e: FileEdge) -> Option<(usize, usize)> {
    let u = place_of(files, e.from_file@);
    let v = place_of(files, e.to_file@);
    if u < 0 || v < 0 || u == v {
        None
    } else if u < v {
        Some((u as usize, v as usize))
    } else {
        Some((v as usize, u as usize))
    }
}

/// The first kind of an edge, in small letters.
pub open spec fn edge_kind(e: FileEdge) -> Option<Seq<char>> {
    if e.reference_kinds@.len() > 0 {
        Some(lowercase(e.reference_kinds@[0]@))
    } else {
        None
    }
}

/// What the edges give a pair: their weights summed up, whichever way they go,
/// and the first kind among them.
pub open spec fn pair_sum(
    files: Seq<Seq<char>>,
    edges: Seq<FileEdge>,
    lo: usize,
    hi: usize,
) -> Option<(u128, Option<Seq<char>>)>
    decreases edges.len(),
{
    if edges.len() == 0 {
        None
    } else {
        let d = pair_sum(files, edges.drop_last(), lo, hi);
        let e = edges.last();
        if pair_of(files, e) == Some((lo, hi)) {
            heavier(d, edge_weight(e) as u128, edge_kind(e))
        } else {
            d
        }
    }
}

/// The weights of all edges summed up.
pub open spec fn total_weight(edges: Seq<FileEdge>) -> int
    decreases edges.len(),
{
    if edges.len() == 0 {
        0
    } else {
        total_weight(edges.drop_last()) + edge_weight(edges.last())
    }
}

/// No edge weighs less than nothing.
pub proof fn lemma_edge_weight(e: FileEdge)
    ensures
        0 <= edge_weight(e),
{
    let all = texts(e.reference_kinds@);
    lemma_mean_weight(all);
    assert(0 <= e.weight * mean_weight(all)) by (nonlinear_arith)
        requires
            0 <= e.weight,
            0 <= mean_weight(all),
    ;
}

/// The first edges weigh no more than all of them.
pub proof fn lemma_total_weight(edges: Seq<FileEdge>, n: int)
    requires
        0 <= n <= edges.len(),
    ensures
        0 <= total_weight(edges.take(n)) <= total_weight(edges),
    decreases edges.len(),
{
    if n < edges.len() {
        lemma_total_weight(edges.drop_last(), n);
        assert(edges.drop_last().take(n) =~= edges.take(n));
        lemma_edge_weight(edges.last());
    } else {
        assert(edges.take(n) =~= edges);
        lemma_total_weight_positive(edges);
    }
}

/// Edges weigh no less than nothing together.
pub proof fn lemma_total_weight_positive(edges: Seq<FileEdge>)
    ensures
        0 <= total_weight(edges),
    decreases edges.len(),
{
    if edges.len() > 0 {
        lemma_total_weight_positive(edges.drop_last());
        lemma_edge_weight(edges.last());
    }
}

proof fn lemma_pair_sum(files: Seq<Seq<char>>, edges: Seq<FileEdge>, lo: usize, hi: usize)
    requires
        total_weight(edges) <= u128::MAX,
    ensures
        pair_sum(files, edges, lo, hi) matches Some((w, _)) ==> w <= total_weight(edges),
    decreases edges.len(),
{
    if edges.len() > 0 {
        lemma_edge_weight(edges.last());
        lemma_total_weight_positive(edges.drop_last());
        lemma_pair_sum(files, edges.drop_last(), lo, hi);
    }
}

/// The pairs list what the edges give.
pub open spec fn pairs_of_edges(
    pairs: Seq<PairEntry>,
    files: Seq<Seq<char>>,
    edges: Seq<FileEdge>,
) -> bool {
    &&& pairs_rise(pairs)
    &&& forall|lo: usize, hi: usize| #[trigger]
        pair_value(pairs, lo, hi) == pair_sum(files, edges, lo, hi)
    &&& forall|i: int|
        0 <= i < pairs.len() ==> (#[trigger] pairs[i]).lo < pairs[i].hi && pairs[i].hi
            < files.len()
}

/// The undirected weighted graph of files: each pair of places with an edge
/// between them once, in order, with the weights of its edges summed up.
pub fn weigh_pairs(files: &[String], edges: &[FileEdge]) -> (r: Vec<PairEntry>)
    requires
        total_weight(edges@) <= u128::MAX,
    ensures
        pairs_of_edges(r@, texts(files@), edges@),
{
    let index = place_files(files);
    let ghost all = texts(files@);
    let mut r: Vec<PairEntry> = Vec::new();
    let mut i: usize = 0;
    while i < edges.len()
        invariant
            i <= edges@.len(),
            all == texts(files@),
            places_texts(index@, all),
            total_weight(edges@) <= u128::MAX,
            pairs_of_edges(r@, all, edges@.take(i as int)),
        decreases edges@.len() - i,
    {
        let e = &edges[i];
        let ghost done = edges@.take(i as int);
        let ghost next = edges@.take(i + 1);
        let ghost before = r@;
        proof {
            assert(next.drop_last() =~= done);
            assert(next.last() == *e);
            lemma_total_weight(edges@, i + 1);
            lemma_place_of(all, e.from_file@);
            lemma_place_of(all, e.to_file@);
        }
        if let Some(u) = index.get(e.from_file.as_str()) {
            if let Some(v) = index.get(e.to_file.as_str()) {
                let (u, v): (usize, usize) = (*u, *v);
                if u != v {
                    let lo: usize = if u < v {
                        u
                    } else {
                        v
                    };
                    let hi: usize = if u < v {
                        v
                    } else {
                        u
                    };
                    let kind = if e.reference_kinds.len() > 0 {
                        Some(to_lowercase(e.reference_kinds[0].as_str()))
                    } else {
                        None
                    };
                    assert(opt_text(kind) == edge_kind(*e));
                    proof {
                        lemma_edge_weight(*e);
                        lemma_total_weight_positive(done);
                        lemma_pair_sum(all, done, lo, hi);
                        assert(pair_value(before, lo, hi) == pair_sum(all, done, lo, hi));
                    }
                    let weight: u128 = composite_weight(e);
                    add_weight(&mut r, lo, hi, weight, kind);
                    proof {
                        assert(pair_of(all, *e) == Some((lo, hi)));
                        assert forall|a: usize, b: usize| #[trigger]
                            pair_value(r@, a, b) == pair_sum(all, next, a, b) by {
                            assert(pair_value(before, a, b) == pair_sum(all, done, a, b));
                        }
                        assert forall|k: int| 0 <= k < r@.len() implies (#[trigger] r@[k]).lo
                            < r@[k].hi && r@[k].hi < all.len() by {
                            if (r@[k].lo, r@[k].hi) != (lo, hi) {
                                let (a, b) = (r@[k].lo, r@[k].hi);
                                assert(pair_value(before, a, b) is Some);
                                lemma_pair_value(before, a, b);
                                let m = choose|m: int|
                                    0 <= m < before.len() && (#[trigger] before[m]).lo == a
                                        && before[m].hi == b;
                                assert(before[m].lo < before[m].hi);
                            }
                        }
                    }
                }
            }
        }
        proof {
            if pair_of(all, *e) is None {
                assert forall|a: usize, b: usize| #[trigger]
                    pair_value(r@, a, b) == pair_sum(all, next, a, b) by {
                    assert(pair_value(before, a, b) == pair_sum(all, done, a, b));
                }
            }
        }
        i += 1;
    }
    assert(edges@.take(i as int) =~= edges@);
    r
}

/// The files of a graph, sorted: the places of the graph that is partitioned.
pub fn sorted_files(graph: &FileGraph) -> (r: Vec<String>)
    ensures
        texts(r@) == sorted_texts(texts(graph.files@)),
{
    sort_texts(copy_all(&graph.files))
}

/// The texts at the given places.
pub open spec fn texts_at(files: Seq<Seq<char>>, at: Seq<usize>) -> Seq<Seq<char>> {
    Seq::new(at.len(), |i: int| files[at[i] as int])
}

/// The files of one label, sorted.
pub open spec fn label_members(files: Seq<Seq<char>>, labels: Seq<usize>, l: usize) -> Seq<
    Seq<char>,
> {
    sorted_texts(texts_at(files, members_of(labels, l)))
}

/// The files of one label, sorted.
pub(crate) fn members_with(files: &[String], labels: &[usize], label: usize) -> (r: Vec<String>)
    requires
        labels@.len() == files@.len(),
    ensures
        texts(r@) == label_members(texts(files@), labels@, label),
        r@.len() == members_of(labels@, label).len(),
{
    let ghost all = texts(files@);
    let mut r: Vec<String> = Vec::new();
    let mut i: usize = 0;
    assert(texts(r@) =~= texts_at(all, members_of(labels@.take(0), label)));
    while i < files.len()
        invariant
            i <= files@.len(),
            labels@.len() == files@.len(),
            all == texts(files@),
            texts(r@) == texts_at(all, members_of(labels@.take(i as int), label)),
        decreases files@.len() - i,
    {
        let ghost before = r@;
        let ghost d = members_of(labels@.take(i as int), label);
        proof {
            assert(labels@.take(i + 1).drop_last() =~= labels@.take(i as int));
            assert(labels@.take(i + 1).last() == labels@[i as int]);
        }
        if labels[i] == label {
            r.push(files[i].clone());
            proof {
                assert(texts(r@) =~= texts(before).push(files@[i as int]@));
                assert(texts_at(all, d.push(i)) =~= texts_at(all, d).push(all[i as int]));
            }
        }
        i += 1;
    }
    proof {
        assert(labels@.take(i as int) =~= labels@);
        assert(texts(r@).len() == r@.len());
    }
    sort_texts(r)
}

/// A partition gives each of different files to one label, its own.
pub proof fn lemma_labels_partition(files: Seq<Seq<char>>, labels: Seq<usize>)
    requires
        labels.len() == files.len() <= usize::MAX,
        files.no_duplicates(),
    ensures
        forall|p: int, l: usize|
            0 <= p < files.len() ==> (#[trigger] label_members(files, labels, l).contains(
                #[trigger] files[p],
            ) <==> labels[p] == l),
        forall|x: Seq<char>, l: usize| #[trigger]
            label_members(files, labels, l).contains(x) ==> files.contains(x),
        forall|l: usize| label_count(labels) <= l ==> (#[trigger] label_members(
            files,
            labels,
            l,
        )).len() == 0,
{
    assert forall|p: int, l: usize| 0 <= p < files.len() implies (#[trigger] label_members(
        files,
        labels,
        l,
    ).contains(#[trigger] files[p]) <==> labels[p] == l) by {
        lemma_members_of(labels, l);
        let at = members_of(labels, l);
        let own = texts_at(files, at);
        lemma_sorted(own);
        if labels[p] == l {
            assert(labels[p as usize as int] == l);
            assert(at.contains(p as usize));
            let k = choose|k: int| 0 <= k < at.len() && at[k] == p as usize;
            assert(own[k] == files[p]);
            assert(own.contains(files[p]));
        }
        if own.contains(files[p]) {
            let k = choose|k: int| 0 <= k < own.len() && own[k] == files[p];
            assert(at[k] < labels.len() && labels[at[k] as int] == l);
            assert(files[at[k] as int] == files[p]);
        }
    }
    assert forall|x: Seq<char>, l: usize| #[trigger]
        label_members(files, labels, l).contains(x) implies files.contains(x) by {
        lemma_members_of(labels, l);
        let at = members_of(labels, l);
        let own = texts_at(files, at);
        lemma_sorted(own);
        assert(own.contains(x));
        let k = choose|k: int| 0 <= k < own.len() && own[k] == x;
        assert(files[at[k] as int] == x);
    }
    assert forall|l: usize| label_count(labels) <= l implies (#[trigger] label_members(
        files,
        labels,
        l,
    )).len() == 0 by {
        lemma_members_of(labels, l);
        let at = members_of(labels, l);
        lemma_sorted(texts_at(files, at));
        if at.len() > 0 {
            assert(labels[at[0] as int] == l);
            lemma_label_count(labels, at[0] as int);
        }
    }
}

proof fn lemma_label_count(labels: Seq<usize>, p: int)
    requires
        0 <= p < labels.len(),
    ensures
        labels[p] < label_count(labels),
    decreases labels.len(),
{
    if p < labels.len() - 1 {
        lemma_label_count(labels.drop_last(), p);
    }
}

/// The members of each label from 0 to the greatest.
pub open spec fn members_by_label(
    files: Seq<Seq<char>>,
    labels: Seq<usize>,
    n: nat,
) -> Seq<Seq<Seq<char>>> {
    Seq::new(n, |l: int| label_members(files, labels, l as usize))
}

/// The number of labels: one more than the greatest.
pub open spec fn label_count(labels: Seq<usize>) -> nat
    decreases labels.len(),
{
    if labels.len() == 0 {
        0
    } else {
        let d = label_count(labels.drop_last());
        if labels.last() >= d {
            labels.last() as nat + 1
        } else {
            d
        }
    }
}

/// The views of lists of strings.
pub open spec fn text_lists(v: Seq<Vec<String>>) -> Seq<Seq<Seq<char>>> {
    Seq::new(v.len(), |i: int| texts(v[i]@))
}

pub(crate) fn count_labels(labels: &[usize]) -> (r: usize)
    requires
        forall|i: int| 0 <= i < labels@.len() ==> (#[trigger] labels@[i]) < labels@.len(),
    ensures
        r == label_count(labels@),
        r <= labels@.len(),
        forall|i: int| 0 <= i < labels@.len() ==> (#[trigger] labels@[i]) < r,
{
    let mut n: usize = 0;
    let mut i: usize = 0;
    while i < labels.len()
        invariant
            i <= labels@.len(),
            n <= labels@.len(),
            forall|i: int| 0 <= i < labels@.len() ==> (#[trigger] labels@[i]) < labels@.len(),
            n == label_count(labels@.take(i as int)),
            forall|k: int| 0 <= k < i ==> (#[trigger] labels@[k]) < n,
        decreases labels@.len() - i,
    {
        proof {
            assert(labels@.take(i + 1).drop_last() =~= labels@.take(i as int));
            assert(labels@.take(i + 1).last() == labels@[i as int]);
            assert(labels@[i as int] < labels@.len());
        }
        if labels[i] >= n {
            n = labels[i] + 1;
        }
        i += 1;
    }
    assert(labels@.take(i as int) =~= labels@);
    n
}

/// The members of each label of a partition, for labels from 0 to the greatest.
pub fn partition_members(files: &[String], labels: &[usize]) -> (r: Vec<Vec<String>>)
    requires
        labels@.len() == files@.len(),
        forall|i: int| 0 <= i < labels@.len() ==> (#[trigger] labels@[i]) < labels@.len(),
    ensures
        text_lists(r@) == members_by_label(texts(files@), labels@, label_count(labels@)),
{
    let n: usize = count_labels(labels);
    let ghost want = members_by_label(texts(files@), labels@, n as nat);
    let mut r: Vec<Vec<String>> = Vec::new();
    let mut l: usize = 0;
    while l < n
        invariant
            l <= n,
            labels@.len() == files@.len(),
            want == members_by_label(texts(files@), labels@, n as nat),
            r@.len() == l,
            forall|k: int| 0 <= k < l ==> #[trigger] text_lists(r@)[k] == want[k],
        decreases n - l,
    {
        let ghost before = r@;
        let members = members_with(files, labels, l);
        r.push(members);
        proof {
            assert forall|k: int| 0 <= k < l + 1 implies #[trigger] text_lists(r@)[k]
                == want[k] by {
                if k < l {
                    assert(text_lists(before)[k] == want[k]);
                }
            }
        }
        l += 1;
    }
    assert(text_lists(r@) =~= want);
    r
}

/// The label of a file.
pub open spec fn label_of(files: Seq<Seq<char>>, labels: Seq<usize>, f: Seq<char>) -> Option<
    usize,
> {
    if place_of(files, f) >= 0 {
        Some(labels[place_of(files, f)])
    } else {
        None
    }
}

/// How many edges stay within the label.
pub open spec fn inner_edges(
    files: Seq<Seq<char>>,
    labels: Seq<usize>,
    edges: Seq<FileEdge>,
    l: usize,
) -> nat
    decreases edges.len(),
{
    if edges.len() == 0 {
        0
    } else {
        let e = edges.last();
        inner_edges(files, labels, edges.drop_last(), l) + if label_of(files, labels, e.from_file@)
            == Some(l) && label_of(files, labels, e.to_file@) == Some(l) {
            1nat
        } else {
            0
        }
    }
}

/// How many edges join the label with another.
pub open spec fn outer_edges(
    files: Seq<Seq<char>>,
    labels: Seq<usize>,
    edges: Seq<FileEdge>,
    l: usize,
) -> nat
    decreases edges.len(),
{
    if edges.len() == 0 {
        0
    } else {
        let a = label_of(files, labels, edges.last().from_file@);
        let b = label_of(files, labels, edges.last().to_file@);
        outer_edges(files, labels, edges.drop_last(), l) + if a is Some && b is Some && a != b && (a
            == Some(l) || b == Some(l)) {
            1nat
        } else {
            0
        }
    }
}

/// For each of `n` labels, how many edges stay within it and how many join it
/// with another.
pub fn batch_cohesion(
    index: &TextMap<usize>,
    files: &[String],
    labels: &[usize],
    edges: &[FileEdge],
    n: usize,
) -> (r: Vec<(usize, usize)>)
    requires
        places_texts(index@, texts(files@)),
        labels@.len() == files@.len(),
        forall|i: int| 0 <= i < labels@.len() ==> (#[trigger] labels@[i]) < n,
    ensures
        r@.len() == n,
        forall|l: int|
            0 <= l < n ==> (#[trigger] r@[l]).0 == inner_edges(
                texts(files@),
                labels@,
                edges@,
                l as usize,
            ) && r@[l].1 == outer_edges(texts(files@), labels@, edges@, l as usize),
{
    let ghost all = texts(files@);
    let mut r: Vec<(usize, usize)> = Vec::new();
    let mut k: usize = 0;
    while k < n
        invariant
            k <= n,
            r@.len() == k,
            forall|l: int| 0 <= l < k ==> #[trigger] r@[l] == (0usize, 0usize),
        decreases n - k,
    {
        r.push((0, 0));
        k += 1;
    }
    let mut i: usize = 0;
    while i < edges.len()
        invariant
            i <= edges@.len(),
            all == texts(files@),
            places_texts(index@, all),
            labels@.len() == files@.len(),
            forall|i: int| 0 <= i < labels@.len() ==> (#[trigger] labels@[i]) < n,
            r@.len() == n,
            forall|l: int|
                0 <= l < n ==> (#[trigger] r@[l]).0 == inner_edges(
                    all,
                    labels@,
                    edges@.take(i as int),
                    l as usize,
                ) && r@[l].1 == outer_edges(all, labels@, edges@.take(i as int), l as usize)
                    && r@[l].0 <= i && r@[l].1 <= i,
        decreases edges@.len() - i,
    {
        let e = &edges[i];
        let ghost before = r@;
        proof {
            assert(edges@.take(i + 1).drop_last() =~= edges@.take(i as int));
            assert(edges@.take(i + 1).last() == *e);
            lemma_place_of(all, e.from_file@);
            lemma_place_of(all, e.to_file@);
        }
        if let Some(u) = index.get(e.from_file.as_str()) {
            if let Some(v) = index.get(e.to_file.as_str()) {
                let a: usize = labels[*u];
                let b: usize = labels[*v];
                assert(labels@[*u as int] < n && labels@[*v as int] < n);
                if a == b {
                    let (x, y): (usize, usize) = r[a];
                    assert(before[a as int].0 <= i);
                    r[a] = (x + 1, y);
                } else {
                    let (x, y): (usize, usize) = r[a];
                    let (z, w): (usize, usize) = r[b];
                    assert(before[a as int].1 <= i);
                    assert(before[b as int].1 <= i);
                    r[a] = (x, y + 1);
                    r[b] = (z, w + 1);
                }
            }
        }
        proof {
            let next = edges@.take(i + 1);
            assert forall|l: int| 0 <= l < n implies (#[trigger] r@[l]).0 == inner_edges(
                all,
                labels@,
                next,
                l as usize,
            ) && r@[l].1 == outer_edges(all, labels@, next, l as usize) && r@[l].0 <= i + 1
                && r@[l].1 <= i + 1 by {
                assert(before[l].0 == inner_edges(all, labels@, edges@.take(i as int), l as usize));
            }
        }
        i += 1;
    }
    assert(edges@.take(i as int) =~= edges@);
    r
}

/// The share of edges that stay inside, in parts of [`COHESION_ONE`]; nothing
/// where there are none.
pub open spec fn cohesion_of(inner: int, outer: int) -> int {
    if inner + outer == 0 {
        0
    } else {
        inner * COHESION_ONE / (inner + outer)
    }
}

/// The share of edges that stay inside.
pub fn cohesion(inner: usize, outer: usize) -> (r: u64)
    ensures
        r == cohesion_of(inner as int, outer as int),
        r <= COHESION_ONE,
{
    let sum: u128 = inner as u128 + outer as u128;
    if sum == 0 {
        return 0;
    }
    proof {
        assert(0 <= inner * COHESION_ONE / (inner + outer) <= COHESION_ONE) by (nonlinear_arith)
            requires
                inner + outer > 0,
                inner >= 0,
                outer >= 0,
                COHESION_ONE == 1_000_000_000_000_000_000u64,
        ;
    }
    (inner as u128 * COHESION_ONE as u128 / sum) as u64
}

/// The text that stands most often in `all`, among those of `part`; of several
/// the least.
pub open spec fn most_frequent(all: Seq<Seq<char>>, part: Seq<Seq<char>>) -> Option<Seq<char>>
    decreases part.len(),
{
    if part.len() == 0 {
        None
    } else {
        let x = part.last();
        match most_frequent(all, part.drop_last()) {
            Some(d) => if occurrences(all, x) > occurrences(all, d) || (occurrences(all, x)
                == occurrences(all, d) && text_lt(x, d)) {
                Some(x)
            } else {
                Some(d)
            },
            None => Some(x),
        }
    }
}

/// The language that stands most often; `unknown` where there is none.
pub open spec fn dominant(languages: Seq<Seq<char>>) -> Seq<char> {
    match most_frequent(languages, languages) {
        Some(l) => l,
        None => "unknown"@,
    }
}

/// The language that stands most often.
pub fn dominant_language(languages: &[String]) -> (r: String)
    ensures
        r@ == dominant(texts(languages@)),
{
    let ghost all = texts(languages@);
    let mut best: Option<usize> = None;
    let mut i: usize = 0;
    while i < languages.len()
        invariant
            i <= languages@.len(),
            all == texts(languages@),
            best is Some == (i > 0),
            best matches Some(b) ==> b < i && most_frequent(all, all.take(i as int)) == Some(
                all[b as int],
            ),
        decreases languages@.len() - i,
    {
        proof {
            assert(all.take(i + 1).drop_last() =~= all.take(i as int));
            assert(all.take(i + 1).last() == languages@[i as int]@);
        }
        match best {
            Some(b) => {
                let x = languages[i].as_str();
                let d = languages[b].as_str();
                let nx: usize = count_of(languages, x);
                let nd: usize = count_of(languages, d);
                if nx > nd || (nx == nd && text_less(x, d)) {
                    best = Some(i);
                }
            },
            None => {
                best = Some(i);
            },
        }
        i += 1;
    }
    assert(all.take(i as int) =~= all);
    match best {
        Some(b) => languages[b].clone(),
        None => "unknown".to_string(),
    }
}

/// The language of a file; `unknown` where it is not given.
pub open spec fn language_of(languages: Map<Seq<char>, String>, file: Seq<char>) -> Seq<char> {
    if languages.contains_key(file) {
        languages[file]@
    } else {
        "unknown"@
    }
}

/// The languages of files.
pub open spec fn languages_of(languages: Map<Seq<char>, String>, files: Seq<Seq<char>>) -> Seq<
    Seq<char>,
> {
    Seq::new(files.len(), |i: int| language_of(languages, files[i]))
}

/// The language of a file.
pub fn file_language(languages: &TextMap<String>, file: &str) -> (r: String)
    ensures
        r@ == language_of(languages@, file@),
{
    match languages.get(file) {
        Some(l) => l.clone(),
        None => "unknown".to_string(),
    }
}

fn member_languages(languages: &TextMap<String>, files: &[String]) -> (r: Vec<String>)
    ensures
        texts(r@) == languages_of(languages@, texts(files@)),
{
    let mut r: Vec<String> = Vec::new();
    let mut i: usize = 0;
    while i < files.len()
        invariant
            i <= files@.len(),
            r@.len() == i,
            forall|k: int|
                0 <= k < i ==> #[trigger] r@[k]@ == language_of(languages@, files@[k]@),
        decreases files@.len() - i,
    {
        r.push(file_language(languages, files[i].as_str()));
        i += 1;
    }
    assert(texts(r@) =~= languages_of(languages@, texts(files@)));
    r
}

/// The cluster of one label.
pub open spec fn cluster_of(
    repository_id: Seq<char>,
    files: Seq<Seq<char>>,
    labels: Seq<usize>,
    edges: Seq<FileEdge>,
    languages: Map<Seq<char>, String>,
    ids: Seq<Seq<char>>,
    l: int,
) -> ClusterView {
    let members = label_members(files, labels, l as usize);
    ClusterView {
        id: ids[l],
        display_name: None,
        repository_id,
        dominant_language: dominant(languages_of(languages, members)),
        size: members.len(),
        cohesion: cohesion_of(
            inner_edges(files, labels, edges, l as usize) as int,
            outer_edges(files, labels, edges, l as usize) as int,
        ) as u64,
        members,
    }
}

/// The clusters of the first `n` labels that have members.
pub open spec fn clusters_of(
    repository_id: Seq<char>,
    files: Seq<Seq<char>>,
    labels: Seq<usize>,
    edges: Seq<FileEdge>,
    languages: Map<Seq<char>, String>,
    ids: Seq<Seq<char>>,
    n: nat,
) -> Seq<ClusterView>
    decreases n,
{
    if n == 0 {
        Seq::empty()
    } else {
        let d = clusters_of(
            repository_id,
            files,
            labels,
            edges,
            languages,
            ids,
            (n - 1) as nat,
        );
        if label_members(files, labels, (n - 1) as usize).len() == 0 {
            d
        } else {
            d.push(cluster_of(repository_id, files, labels, edges, languages, ids, n - 1))
        }
    }
}

/// Makes clusters of a partition of the sorted files, largest first. `ids` has
/// the id of each label.
pub fn compute_clusters(
    repository_id: &str,
    graph: &FileGraph,
    files: &[String],
    labels: &[usize],
    ids: &[String],
    languages: &TextMap<String>,
) -> (r: ClusterGraph)
    requires
        labels@.len() == files@.len(),
        forall|i: int| 0 <= i < labels@.len() ==> (#[trigger] labels@[i]) < labels@.len(),
        ids@.len() == label_count(labels@),
    ensures
        exists|unsorted: Seq<Cluster>| #[trigger]
            file_cluster_views(unsorted) == clusters_of(
                repository_id@,
                texts(files@),
                labels@,
                graph.edges@,
                languages@,
                texts(ids@),
                label_count(labels@),
            ) && r.clusters@ == arranged(unsorted),
        r.repository_id@ == repository_id@,
        r.total_files == files@.len(),
        r.total_edges == graph.edges@.len(),
{
    let n: usize = count_labels(labels);
    let index = place_files(files);
    let edges = &graph.edges;
    let stats = batch_cohesion(&index, files, labels, edges, n);
    let ghost fs = texts(files@);
    let ghost is = texts(ids@);
    let mut clusters: Vec<Cluster> = Vec::new();
    let mut l: usize = 0;
    assert(file_cluster_views(clusters@) =~= Seq::<ClusterView>::empty());
    while l < n
        invariant
            l <= n,
            n == ids@.len(),
            labels@.len() == files@.len(),
            fs == texts(files@),
            is == texts(ids@),
            stats@.len() == n,
            forall|l: int|
                0 <= l < n ==> (#[trigger] stats@[l]).0 == inner_edges(
                    fs,
                    labels@,
                    edges@,
                    l as usize,
                ) && stats@[l].1 == outer_edges(fs, labels@, edges@, l as usize),
            file_cluster_views(clusters@) == clusters_of(
                repository_id@,
                fs,
                labels@,
                edges@,
                languages@,
                is,
                l as nat,
            ),
        decreases n - l,
    {
        let ghost before = clusters@;
        let members = members_with(files, labels, l);
        assert(texts(members@).len() == members@.len());
        if members.len() > 0 {
            let member_langs = member_languages(languages, &members);
            let (inner, outer): (usize, usize) = stats[l];
            let cluster = Cluster {
                id: ids[l].clone(),
                display_name: None,
                repository_id: repository_id.to_string(),
                dominant_language: dominant_language(&member_langs),
                size: members.len(),
                cohesion: cohesion(inner, outer),
                members,
            };
            let ghost v = cluster@;
            clusters.push(cluster);
            proof {
                assert(is[l as int] == ids@[l as int]@);
                assert(v == cluster_of(
                    repository_id@,
                    fs,
                    labels@,
                    edges@,
                    languages@,
                    is,
                    l as int,
                ));
                assert(file_cluster_views(clusters@) =~= file_cluster_views(before).push(v));
            }
        }
        l += 1;
    }
    let ghost unsorted = clusters@;
    let clusters = arrange(clusters);
    let r = ClusterGraph {
        clusters,
        repository_id: repository_id.to_string(),
        total_files: files.len(),
        total_edges: edges.len(),
    };
    assert(file_cluster_views(unsorted) == clusters_of(
        repository_id@,
        fs,
        labels@,
        graph.edges@,
        languages@,
        is,
        label_count(labels@),
    ));
    r
}

/// How many edges lead from a file to itself.
pub open spec fn self_edges(edges: Seq<FileEdge>, f: Seq<char>) -> nat
    decreases edges.len(),
{
    if edges.len() == 0 {
        0
    } else {
        self_edges(edges.drop_last(), f) + if edges.last().from_file@ == f && edges.last().to_file@
            == f {
            1nat
        } else {
            0
        }
    }
}

/// How many edges join a file with another.
pub open spec fn other_edges(edges: Seq<FileEdge>, f: Seq<char>) -> nat
    decreases edges.len(),
{
    if edges.len() == 0 {
        0
    } else {
        let e = edges.last();
        other_edges(edges.drop_last(), f) + if e.from_file@ != e.to_file@ && (e.from_file@ == f
            || e.to_file@ == f) {
            1nat
        } else {
            0
        }
    }
}

/// The cluster of one file alone.
pub open spec fn singleton(
    repository_id: Seq<char>,
    edges: Seq<FileEdge>,
    languages: Map<Seq<char>, String>,
    file: Seq<char>,
    id: Seq<char>,
) -> ClusterView {
    ClusterView {
        id,
        display_name: None,
        repository_id,
        dominant_language: language_of(languages, file),
        size: 1,
        cohesion: cohesion_of(
            self_edges(edges, file) as int,
            other_edges(edges, file) as int,
        ) as u64,
        members: seq![file],
    }
}

/// The clusters of files alone, in order.
pub open spec fn singletons(
    repository_id: Seq<char>,
    edges: Seq<FileEdge>,
    languages: Map<Seq<char>, String>,
    files: Seq<Seq<char>>,
    ids: Seq<Seq<char>>,
) -> Seq<ClusterView> {
    Seq::new(files.len(), |i: int| singleton(repository_id, edges, languages, files[i], ids[i]))
}

fn count_edges(edges: &[FileEdge], file: &str) -> (r: (usize, usize))
    ensures
        r.0 == self_edges(edges@, file@),
        r.1 == other_edges(edges@, file@),
{
    let mut own: usize = 0;
    let mut other: usize = 0;
    let mut i: usize = 0;
    while i < edges.len()
        invariant
            i <= edges@.len(),
            own <= i,
            other <= i,
            own == self_edges(edges@.take(i as int), file@),
            other == other_edges(edges@.take(i as int), file@),
        decreases edges@.len() - i,
    {
        proof {
            assert(edges@.take(i + 1).drop_last() =~= edges@.take(i as int));
            assert(edges@.take(i + 1).last() == edges@[i as int]);
        }
        let from = same_text(edges[i].from_file.as_str(), file);
        let to = same_text(edges[i].to_file.as_str(), file);
        if from && to {
            own += 1;
        } else if from || to {
            other += 1;
        }
        i += 1;
    }
    assert(edges@.take(i as int) =~= edges@);
    (own, other)
}

/// Makes a cluster of each file, for graphs too small to partition.
pub fn singleton_clusters(
    repository_id: &str,
    graph: &FileGraph,
    files: &[String],
    ids: &[String],
    languages: &TextMap<String>,
) -> (r: ClusterGraph)
    requires
        ids@.len() == files@.len(),
    ensures
        file_cluster_views(r.clusters@) == singletons(
            repository_id@,
            graph.edges@,
            languages@,
            texts(files@),
            texts(ids@),
        ),
        r.repository_id@ == repository_id@,
        r.total_files == files@.len(),
        r.total_edges == graph.edges@.len(),
{
    let ghost want = singletons(
        repository_id@,
        graph.edges@,
        languages@,
        texts(files@),
        texts(ids@),
    );
    let mut clusters: Vec<Cluster> = Vec::new();
    let mut i: usize = 0;
    while i < files.len()
        invariant
            i <= files@.len(),
            ids@.len() == files@.len(),
            want == singletons(
                repository_id@,
                graph.edges@,
                languages@,
                texts(files@),
                texts(ids@),
            ),
            clusters@.len() == i,
            forall|k: int| 0 <= k < i ==> #[trigger] file_cluster_views(clusters@)[k] == want[k],
        decreases files@.len() - i,
    {
        let ghost before = clusters@;
        let (own, other): (usize, usize) = count_edges(&graph.edges, files[i].as_str());
        let mut members: Vec<String> = Vec::new();
        members.push(files[i].clone());
        let cluster = Cluster {
            id: ids[i].clone(),
            display_name: None,
            repository_id: repository_id.to_string(),
            dominant_language: file_language(languages, files[i].as_str()),
            size: 1,
            cohesion: cohesion(own, other),
            members,
        };
        proof {
            assert(texts(members@) =~= seq![files@[i as int]@]);
            assert(cluster@ == want[i as int]);
        }
        clusters.push(cluster);
        proof {
            assert forall|k: int| 0 <= k < i + 1 implies #[trigger] file_cluster_views(
                clusters@,
            )[k] == want[k] by {
                if k < i {
                    assert(file_cluster_views(before)[k] == want[k]);
                }
            }
        }
        i += 1;
    }
    assert(file_cluster_views(clusters@) =~= want);
    ClusterGraph {
        clusters,
        repository_id: repository_id.to_string(),
        total_files: files.len(),
        total_edges: graph.edges.len(),
    }
}

/// Whether the setting of that value turns splitting on: any value does but an
/// empty one.
pub fn facade_split_enabled(value: Option<&str>) -> (r: bool)
    ensures
        r == (value is Some && value->Some_0@.len() > 0),
{
    match value {
        Some(v) => !v.is_empty(),
        None => false,
    }
}

/// Whether a graph of `n` files is partitioned at all.
pub fn worth_partition(n: usize) -> (r: bool)
    ensures
        r == (n >= MIN_NODES_FOR_CLUSTERING),
{
    n >= MIN_NODES_FOR_CLUSTERING
}

} // verus!
