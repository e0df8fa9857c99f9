//! What clusters, and the weights between files and symbols, owe to the edges
//! and references they come from.

use vstd::prelude::*;
use crate::cluster_detection::{
    Cluster, ClusterView, WEIGHT_ONE, WEIGHT_TENTH, cluster_of, clusters_of, cohesion_of, dominant,
    edge_weight, file_cluster_views, inner_edges, kind_tenths, label_count, label_members, label_of,
    languages_of, lemma_edge_weight, lemma_labels_partition, lemma_mean_weight_is_exact,
    lemma_place_of, lemma_total_weight_positive, mean_weight, most_frequent, other_edges,
    outer_edges, pair_of, pair_sum, pairs_of_edges, place_of, self_edges, singleton, tenths_sum,
    texts_at, total_weight,
};
use crate::domain::{FileEdge, Repository, SymbolReference};
use crate::module_overview::{
    ModuleDependency, ModuleOverview, external_weight, importance, importances, ranked_clusters,
};
use crate::order::{
    Ranked, arranged, lemma_arranged, lemma_arranged_contains, lemma_sorted, lemma_text_order,
    text_lt, texts_in_order,
};
use crate::pair_weights::{PairEntry, lemma_pair_value, pair_value};
use crate::picks::{count_where, gives, lemma_picks, picks, sum_of};
use crate::symbol_cluster_detection::{
    NameMatch, SymbolCommunity, answers, bare_name, best_answering, first_answering, in_namespace,
    joined_symbol, pairs_of_references, reference_pair, reference_sum, some_answers, touches_symbol,
};
use crate::text::{contains_text, occurrences, texts};
use crate::unicode::lowercase;

verus! {

/// What the kinds of references weigh, in tenths: calls most, then inheritance,
/// implementation, types and imports, and whatever else there is least.
pub proof fn lemma_kind_weights(k: Seq<char>)
    ensures
        kind_tenths("call"@) == 10,
        kind_tenths("methodcall"@) == 10,
        kind_tenths("method_call"@) == 10,
        kind_tenths("inheritance"@) == 8,
        kind_tenths("implementation"@) == 7,
        kind_tenths("typereference"@) == 6,
        kind_tenths("type_reference"@) == 6,
        kind_tenths("import"@) == 5,
        k != "call"@ && k != "methodcall"@ && k != "method_call"@ && k != "inheritance"@ && k
            != "implementation"@ && k != "typereference"@ && k != "type_reference"@ && k
            != "import"@ ==> kind_tenths(k) == 3,
{
    reveal_strlit("call");
    reveal_strlit("methodcall");
    reveal_strlit("method_call");
    reveal_strlit("inheritance");
    reveal_strlit("implementation");
    reveal_strlit("typereference");
    reveal_strlit("type_reference");
    reveal_strlit("import");
    assert("call"@.len() == 4 && "methodcall"@.len() == 10 && "method_call"@.len() == 11);
    assert("inheritance"@.len() == 11 && "implementation"@.len() == 14);
    assert("typereference"@.len() == 13 && "type_reference"@.len() == 14 && "import"@.len() == 6);
    assert("method_call"@[0] != "inheritance"@[0]);
    assert("implementation"@[0] != "type_reference"@[0]);
}

/// An edge whose references are all of one kind weighs its number of references
/// times what the kind weighs; one without kinds counts three tenths for each.
pub proof fn lemma_edge_of_one_kind(e: FileEdge)
    ensures
        e.reference_kinds@.len() == 1 ==> edge_weight(e) * 10 == e.weight * kind_tenths(
            lowercase(e.reference_kinds@[0]@),
        ) * WEIGHT_ONE,
        e.reference_kinds@.len() == 0 ==> edge_weight(e) * 10 == e.weight * 3 * WEIGHT_ONE,
{
    let kinds = texts(e.reference_kinds@);
    if e.reference_kinds@.len() == 1 {
        lemma_mean_weight_is_exact(kinds);
        assert(kinds.drop_last() =~= Seq::<Seq<char>>::empty());
        assert(tenths_sum(kinds.drop_last()) == 0);
        assert(kinds.last() == e.reference_kinds@[0]@);
        let t = kind_tenths(lowercase(e.reference_kinds@[0]@)) as int;
        assert(tenths_sum(kinds) == t);
        let m = mean_weight(kinds);
        assert(m == t * WEIGHT_TENTH);
        assert(e.weight * m * 10 == e.weight * t * WEIGHT_ONE) by (nonlinear_arith)
            requires
                m == t * WEIGHT_TENTH,
                WEIGHT_ONE == 10 * WEIGHT_TENTH,
        ;
    } else if e.reference_kinds@.len() == 0 {
        let m = mean_weight(kinds);
        assert(e.weight * m * 10 == e.weight * 3 * WEIGHT_ONE) by (nonlinear_arith)
            requires
                m == 3 * WEIGHT_TENTH,
                WEIGHT_ONE == 10 * WEIGHT_TENTH,
        ;
    }
}

/// The mean counts every kind of an edge alike.
pub proof fn lemma_tenths_sum_is_sum(kinds: Seq<Seq<char>>)
    ensures
        tenths_sum(kinds) == sum_of(kinds, |k: Seq<char>| kind_tenths(lowercase(k)) as int),
    decreases kinds.len(),
{
    if kinds.len() > 0 {
        lemma_tenths_sum_is_sum(kinds.drop_last());
    }
}

/// Where files are listed once, a file has the place it stands at.
proof fn lemma_place_is(files: Seq<Seq<char>>, p: int)
    requires
        files.no_duplicates(),
        0 <= p < files.len(),
    ensures
        place_of(files, files[p]) == p,
{
    lemma_place_of(files, files[p]);
    lemma_place_found(files, files[p]);
}

proof fn lemma_place_found(files: Seq<Seq<char>>, f: Seq<char>)
    ensures
        place_of(files, f) >= 0 <==> files.contains(f),
    decreases files.len(),
{
    if files.len() > 0 {
        let d = files.drop_last();
        lemma_place_found(d, f);
        if files.last() == f {
            assert(files[files.len() - 1] == f);
        } else {
            if d.contains(f) {
                let k = choose|k: int| 0 <= k < d.len() && d[k] == f;
                assert(files[k] == f);
            }
            if files.contains(f) {
                let k = choose|k: int| 0 <= k < files.len() && files[k] == f;
                assert(d[k] == f);
            }
        }
    }
}

/// The edge joins the two files, whichever way it goes.
pub open spec fn between(a: Seq<char>, b: Seq<char>) -> spec_fn(FileEdge) -> bool {
    |e: FileEdge|
        e.from_file@ == a && e.to_file@ == b || e.from_file@ == b && e.to_file@ == a
}

/// What an edge adds to the weight between the two files.
pub open spec fn weight_between(a: Seq<char>, b: Seq<char>) -> spec_fn(FileEdge) -> int {
    |e: FileEdge|
        if between(a, b)(e) {
            edge_weight(e)
        } else {
            0
        }
}

proof fn lemma_pair_sum(files: Seq<Seq<char>>, edges: Seq<FileEdge>, lo: usize, hi: usize)
    requires
        files.no_duplicates(),
        lo < hi < files.len() <= usize::MAX,
        total_weight(edges) <= u128::MAX,
    ensures
        pair_sum(files, edges, lo, hi) is Some <==> exists|i: int|
            0 <= i < edges.len() && between(files[lo as int], files[hi as int])(
                #[trigger] edges[i],
            ),
        pair_sum(files, edges, lo, hi) matches Some((w, _)) ==> w == sum_of(
            edges,
            weight_between(files[lo as int], files[hi as int]),
        ),
        0 <= sum_of(edges, weight_between(files[lo as int], files[hi as int])) <= total_weight(
            edges,
        ),
        pair_sum(files, edges, lo, hi) is None ==> sum_of(
            edges,
            weight_between(files[lo as int], files[hi as int]),
        ) == 0,
    decreases edges.len(),
{
    let a = files[lo as int];
    let b = files[hi as int];
    let f = weight_between(a, b);
    if edges.len() > 0 {
        let d = edges.drop_last();
        let e = edges.last();
        lemma_edge_weight(e);
        lemma_total_weight_positive(d);
        lemma_pair_sum(files, d, lo, hi);
        lemma_place_is(files, lo as int);
        lemma_place_is(files, hi as int);
        lemma_place_of(files, e.from_file@);
        lemma_place_of(files, e.to_file@);
        assert(pair_of(files, e) == Some((lo, hi)) <==> between(a, b)(e));
        if between(a, b)(e) {
            assert(between(a, b)(edges[edges.len() - 1]));
        }
        if exists|i: int| 0 <= i < d.len() && between(a, b)(#[trigger] d[i]) {
            let i = choose|i: int| 0 <= i < d.len() && between(a, b)(#[trigger] d[i]);
            assert(between(a, b)(edges[i]));
        }
        if exists|i: int| 0 <= i < edges.len() && between(a, b)(#[trigger] edges[i]) {
            let i = choose|i: int| 0 <= i < edges.len() && between(a, b)(#[trigger] edges[i]);
            if i < d.len() {
                assert(between(a, b)(d[i]));
            }
        }
    }
}

/// Two files are joined in the graph that is partitioned if and only if an edge
/// leads from one to the other, and the weight between them is the sum of what
/// all such edges weigh, in both directions.
pub proof fn lemma_pair_weights(
    pairs: Seq<PairEntry>,
    files: Seq<Seq<char>>,
    edges: Seq<FileEdge>,
    lo: usize,
    hi: usize,
)
    requires
        pairs_of_edges(pairs, files, edges),
        files.no_duplicates(),
        lo < hi < files.len() <= usize::MAX,
        total_weight(edges) <= u128::MAX,
    ensures
        (exists|i: int|
            0 <= i < edges.len() && between(files[lo as int], files[hi as int])(
                #[trigger] edges[i],
            )) <==> exists|k: int|
            0 <= k < pairs.len() && (#[trigger] pairs[k]).lo == lo && pairs[k].hi == hi,
        forall|k: int|
            0 <= k < pairs.len() && (#[trigger] pairs[k]).lo == lo && pairs[k].hi == hi
                ==> pairs[k].weight == sum_of(
                edges,
                weight_between(files[lo as int], files[hi as int]),
            ),
{
    lemma_pair_sum(files, edges, lo, hi);
    lemma_pair_value(pairs, lo, hi);
    assert(pair_value(pairs, lo, hi) == pair_sum(files, edges, lo, hi));
}

/// The edge lies within the files of the label.
pub open spec fn within(files: Seq<Seq<char>>, labels: Seq<usize>, l: usize) -> spec_fn(
    FileEdge,
) -> bool {
    |e: FileEdge|
        has_label(files, labels, e.from_file@, l) && has_label(files, labels, e.to_file@, l)
}

/// The edge leads across the border of the label, to another file of the graph.
pub open spec fn across(files: Seq<Seq<char>>, labels: Seq<usize>, l: usize) -> spec_fn(
    FileEdge,
) -> bool {
    |e: FileEdge|
        files.contains(e.from_file@) && files.contains(e.to_file@) && has_label(
            files,
            labels,
            e.from_file@,
            l,
        ) != has_label(files, labels, e.to_file@, l)
}

/// The file carries the label.
pub open spec fn has_label(
    files: Seq<Seq<char>>,
    labels: Seq<usize>,
    f: Seq<char>,
    l: usize,
) -> bool {
    exists|p: int| 0 <= p < files.len() && #[trigger] files[p] == f && labels[p] == l
}

proof fn lemma_label_of(files: Seq<Seq<char>>, labels: Seq<usize>, f: Seq<char>, l: usize)
    requires
        files.no_duplicates(),
        labels.len() == files.len(),
    ensures
        label_of(files, labels, f) == Some(l) <==> has_label(files, labels, f, l),
        label_of(files, labels, f) is Some <==> files.contains(f),
{
    lemma_place_of(files, f);
    lemma_place_found(files, f);
    if has_label(files, labels, f, l) {
        let p = choose|p: int| 0 <= p < files.len() && #[trigger] files[p] == f && labels[p] == l;
        lemma_place_is(files, p);
    }
    if label_of(files, labels, f) == Some(l) {
        assert(files[place_of(files, f)] == f);
    }
}

proof fn lemma_edge_counts(
    files: Seq<Seq<char>>,
    labels: Seq<usize>,
    edges: Seq<FileEdge>,
    l: usize,
)
    requires
        files.no_duplicates(),
        labels.len() == files.len(),
    ensures
        inner_edges(files, labels, edges, l) == count_where(edges, within(files, labels, l)),
        outer_edges(files, labels, edges, l) == count_where(edges, across(files, labels, l)),
    decreases edges.len(),
{
    if edges.len() > 0 {
        lemma_edge_counts(files, labels, edges.drop_last(), l);
        let e = edges.last();
        lemma_label_of(files, labels, e.from_file@, l);
        lemma_label_of(files, labels, e.to_file@, l);
    }
}

proof fn lemma_cohesion_rounds(inner: int, outer: int)
    requires
        0 <= inner,
        0 <= outer,
        inner + outer > 0,
    ensures
        0 <= cohesion_of(inner, outer) <= 1_000_000_000_000_000_000,
        cohesion_of(inner, outer) * (inner + outer) <= inner * 1_000_000_000_000_000_000 < (
        cohesion_of(inner, outer) + 1) * (inner + outer),
{
    let c = cohesion_of(inner, outer);
    let s = inner + outer;
    let n = inner * 1_000_000_000_000_000_000;
    assert(c * s <= n < (c + 1) * s) by (nonlinear_arith)
        requires
            c == n / s,
            s > 0,
    ;
    assert(0 <= c <= 1_000_000_000_000_000_000) by (nonlinear_arith)
        requires
            c * s <= n < (c + 1) * s,
            n == inner * 1_000_000_000_000_000_000,
            0 <= inner <= s,
            s > 0,
    ;
}

proof fn lemma_clusters_of(
    repository_id: Seq<char>,
    files: Seq<Seq<char>>,
    labels: Seq<usize>,
    edges: Seq<FileEdge>,
    languages: Map<Seq<char>, String>,
    ids: Seq<Seq<char>>,
    n: nat,
    v: ClusterView,
)
    ensures
        clusters_of(repository_id, files, labels, edges, languages, ids, n).contains(v)
            <==> exists|l: int|
            0 <= l < n && label_members(files, labels, l as usize).len() > 0 && v
                == #[trigger] cluster_of(
                repository_id,
                files,
                labels,
                edges,
                languages,
                ids,
                l,
            ),
    decreases n,
{
    if n > 0 {
        let m = (n - 1) as nat;
        lemma_clusters_of(repository_id, files, labels, edges, languages, ids, m, v);
        let before = clusters_of(repository_id, files, labels, edges, languages, ids, m);
        let all = clusters_of(repository_id, files, labels, edges, languages, ids, n);
        let last = cluster_of(repository_id, files, labels, edges, languages, ids, n - 1);
        if before.contains(v) {
            let k = choose|k: int| 0 <= k < before.len() && before[k] == v;
            assert(all[k] == v);
        } else if all.contains(v) {
            let k = choose|k: int| 0 <= k < all.len() && all[k] == v;
            if k < before.len() {
                assert(before[k] == v);
            }
            assert(v == last);
        }
        if label_members(files, labels, (n - 1) as usize).len() > 0 && v == last {
            assert(all[before.len() as int] == v);
        }
    }
}

/// The clusters come from the partition.
pub open spec fn are_clusters_of(
    clusters: Seq<Cluster>,
    repository_id: Seq<char>,
    files: Seq<Seq<char>>,
    labels: Seq<usize>,
    edges: Seq<FileEdge>,
    languages: Map<Seq<char>, String>,
    ids: Seq<Seq<char>>,
) -> bool {
    exists|unsorted: Seq<Cluster>| #[trigger]
        file_cluster_views(unsorted) == clusters_of(
            repository_id,
            files,
            labels,
            edges,
            languages,
            ids,
            label_count(labels),
        ) && clusters == arranged(unsorted)
}

/// Every cluster holds the files of one label and no other, in order. It has the
/// id of the label; its size is their number; its cohesion is the share of edges
/// within it among those that touch it, to the unit; and no language is more
/// frequent among its files than the one it names. The larger cluster comes
/// first.
pub proof fn lemma_clusters(
    clusters: Seq<Cluster>,
    repository_id: Seq<char>,
    files: Seq<Seq<char>>,
    labels: Seq<usize>,
    edges: Seq<FileEdge>,
    languages: Map<Seq<char>, String>,
    ids: Seq<Seq<char>>,
    c: int,
)
    requires
        are_clusters_of(clusters, repository_id, files, labels, edges, languages, ids),
        files.no_duplicates(),
        labels.len() == files.len() <= usize::MAX,
        forall|i: int| 0 <= i < labels.len() ==> (#[trigger] labels[i]) < labels.len(),
        0 <= c < clusters.len(),
    ensures
        clusters[c].size == clusters[c].members@.len(),
        clusters[c].size > 0,
        forall|d: int| c < d < clusters.len() ==> clusters[c].size >= (#[trigger] clusters[d]).size,
        exists|l: usize|
            (l as int) < label_count(labels) && #[trigger] is_cluster_of_label(
                clusters[c],
                repository_id,
                files,
                labels,
                edges,
                languages,
                ids,
                l,
            ),
{
    let unsorted = choose|unsorted: Seq<Cluster>| #[trigger]
        file_cluster_views(unsorted) == clusters_of(
            repository_id,
            files,
            labels,
            edges,
            languages,
            ids,
            label_count(labels),
        ) && clusters == arranged(unsorted);
    let n = label_count(labels);
    lemma_arranged(unsorted);
    lemma_arranged_contains(unsorted);
    lemma_label_count(labels, labels.len());
    assert(arranged(unsorted).contains(clusters[c]));
    let k = choose|k: int| 0 <= k < unsorted.len() && unsorted[k] == clusters[c];
    let v = clusters[c]@;
    let vs = clusters_of(repository_id, files, labels, edges, languages, ids, n);
    assert(file_cluster_views(unsorted)[k] == v);
    assert(vs.contains(v));
    lemma_clusters_of(repository_id, files, labels, edges, languages, ids, n, v);
    let l = choose|l: int|
        0 <= l < n && label_members(files, labels, l as usize).len() > 0 && v
            == #[trigger] cluster_of(repository_id, files, labels, edges, languages, ids, l);
    let u = l as usize;
    assert(v.members == label_members(files, labels, u));
    assert(v.members == texts(clusters[c].members@));
    lemma_labels_partition(files, labels);
    lemma_edge_counts(files, labels, edges, u);
    let i = inner_edges(files, labels, edges, u) as int;
    let o = outer_edges(files, labels, edges, u) as int;
    if i + o > 0 {
        lemma_cohesion_rounds(i, o);
    }
    lemma_dominant(languages_of(languages, v.members));
    lemma_sorted(texts_at(files, crate::clustering::members_of(labels, u)));
    assert forall|f: Seq<char>| #[trigger] texts(clusters[c].members@).contains(f) <==> has_label(
        files,
        labels,
        f,
        u,
    ) by {
        if label_members(files, labels, u).contains(f) {
            assert(files.contains(f));
            let p = choose|p: int| 0 <= p < files.len() && files[p] == f;
            assert(label_members(files, labels, u).contains(files[p]) <==> labels[p] == u);
            assert(has_label(files, labels, f, u));
        }
        if has_label(files, labels, f, u) {
            let p = choose|p: int|
                0 <= p < files.len() && #[trigger] files[p] == f && labels[p] == u;
            assert(label_members(files, labels, u).contains(files[p]) <==> labels[p] == u);
        }
    }
    assert(is_cluster_of_label(
        clusters[c],
        repository_id,
        files,
        labels,
        edges,
        languages,
        ids,
        u,
    ));
}

/// The cluster is the one of the label.
pub open spec fn is_cluster_of_label(
    c: Cluster,
    repository_id: Seq<char>,
    files: Seq<Seq<char>>,
    labels: Seq<usize>,
    edges: Seq<FileEdge>,
    languages: Map<Seq<char>, String>,
    ids: Seq<Seq<char>>,
    l: usize,
) -> bool {
    let inner = count_where(edges, within(files, labels, l)) as int;
    let outer = count_where(edges, across(files, labels, l)) as int;
    &&& c.id@ == ids[l as int]
    &&& c.repository_id@ == repository_id
    &&& c.display_name is None
    &&& texts_in_order(texts(c.members@))
    &&& forall|f: Seq<char>| #[trigger]
        texts(c.members@).contains(f) <==> has_label(files, labels, f, l)
    &&& inner + outer == 0 ==> c.cohesion == 0
    &&& inner + outer > 0 ==> c.cohesion * (inner + outer) <= inner * 1_000_000_000_000_000_000 < (
    c.cohesion + 1) * (inner + outer)
    &&& prevails(languages_of(languages, texts(c.members@)), c.dominant_language@)
}

/// The text is `x`.
pub open spec fn same_as(x: Seq<char>) -> spec_fn(Seq<char>) -> bool {
    |t: Seq<char>| t == x
}

/// No text stands more often in the list; where the list is empty, none is
/// known.
pub open spec fn prevails(all: Seq<Seq<char>>, x: Seq<char>) -> bool {
    if all.len() == 0 {
        x == "unknown"@
    } else {
        all.contains(x) && forall|y: Seq<char>| #[trigger]
            all.contains(y) ==> count_where(all, same_as(y)) <= count_where(all, same_as(x))
    }
}

proof fn lemma_occurrences_count(s: Seq<Seq<char>>, x: Seq<char>)
    ensures
        occurrences(s, x) == count_where(s, same_as(x)),
    decreases s.len(),
{
    if s.len() > 0 {
        lemma_occurrences_count(s.drop_last(), x);
    }
}

proof fn lemma_most_frequent(all: Seq<Seq<char>>, part: Seq<Seq<char>>)
    ensures
        part.len() == 0 <==> most_frequent(all, part) is None,
        most_frequent(all, part) matches Some(x) ==> part.contains(x) && forall|y: Seq<char>|
            #[trigger]
            part.contains(y) ==> occurrences(all, y) <= occurrences(all, x) && (occurrences(all, y)
                == occurrences(all, x) ==> !text_lt(y, x)),
    decreases part.len(),
{
    if part.len() > 0 {
        let d = part.drop_last();
        lemma_most_frequent(all, d);
        let x = most_frequent(all, part)->Some_0;
        assert(part[part.len() - 1] == part.last());
        if d.len() > 0 {
            let b = most_frequent(all, d)->Some_0;
            let k = choose|k: int| 0 <= k < d.len() && d[k] == b;
            assert(part[k] == b);
        }
        assert forall|y: Seq<char>| #[trigger] part.contains(y) implies occurrences(all, y)
            <= occurrences(all, x) && (occurrences(all, y) == occurrences(all, x) ==> !text_lt(
            y,
            x,
        )) by {
            lemma_text_order(y, x, x);
            let k = choose|k: int| 0 <= k < part.len() && part[k] == y;
            if k < d.len() {
                assert(d[k] == y);
                assert(d.contains(y));
                let b = most_frequent(all, d)->Some_0;
                lemma_text_order(x, b, y);
                lemma_text_order(y, x, b);
                lemma_text_order(y, b, x);
            } else {
                if d.len() > 0 {
                    let b = most_frequent(all, d)->Some_0;
                    lemma_text_order(y, b, x);
                }
            }
        }
    }
}

/// The dominant language is one that stands in the list most often, and the
/// first of these by name.
pub proof fn lemma_dominant(all: Seq<Seq<char>>)
    ensures
        prevails(all, dominant(all)),
        forall|y: Seq<char>| #[trigger]
            all.contains(y) && count_where(all, same_as(y)) == count_where(
                all,
                same_as(dominant(all)),
            ) ==> !text_lt(y, dominant(all)),
{
    lemma_most_frequent(all, all);
    assert forall|y: Seq<char>| #[trigger] all.contains(y) implies count_where(all, same_as(y))
        <= count_where(all, same_as(dominant(all))) && (count_where(all, same_as(y))
        == count_where(all, same_as(dominant(all))) ==> !text_lt(y, dominant(all))) by {
        lemma_occurrences_count(all, y);
        lemma_occurrences_count(all, dominant(all));
    }
}

proof fn lemma_label_count(labels: Seq<usize>, n: nat)
    requires
        forall|i: int| 0 <= i < labels.len() ==> (#[trigger] labels[i]) < n,
    ensures
        forall|i: int| 0 <= i < labels.len() ==> (#[trigger] labels[i]) < label_count(labels),
        label_count(labels) <= n,
    decreases labels.len(),
{
    if labels.len() > 0 {
        let d = labels.drop_last();
        assert forall|i: int| 0 <= i < d.len() implies (#[trigger] d[i]) < n by {
            assert(labels[i] < n);
        }
        lemma_label_count(d, n);
        assert(labels[labels.len() - 1] < n);
        assert forall|i: int| 0 <= i < labels.len() implies (#[trigger] labels[i]) < label_count(
            labels,
        ) by {
            if i < d.len() {
                assert(d[i] == labels[i]);
            }
        }
    }
}

/// Every file stands in a cluster.
pub proof fn lemma_every_file_is_clustered(
    clusters: Seq<Cluster>,
    repository_id: Seq<char>,
    files: Seq<Seq<char>>,
    labels: Seq<usize>,
    edges: Seq<FileEdge>,
    languages: Map<Seq<char>, String>,
    ids: Seq<Seq<char>>,
    p: int,
)
    requires
        are_clusters_of(clusters, repository_id, files, labels, edges, languages, ids),
        files.no_duplicates(),
        labels.len() == files.len() <= usize::MAX,
        forall|i: int| 0 <= i < labels.len() ==> (#[trigger] labels[i]) < labels.len(),
        0 <= p < files.len(),
    ensures
        exists|c: int|
            0 <= c < clusters.len() && texts((#[trigger] clusters[c]).members@).contains(files[p]),
{
    let unsorted = choose|unsorted: Seq<Cluster>| #[trigger]
        file_cluster_views(unsorted) == clusters_of(
            repository_id,
            files,
            labels,
            edges,
            languages,
            ids,
            label_count(labels),
        ) && clusters == arranged(unsorted);
    let n = label_count(labels);
    let l = labels[p] as int;
    lemma_arranged_contains(unsorted);
    lemma_label_count(labels, labels.len());
    lemma_labels_partition(files, labels);
    let members = label_members(files, labels, labels[p]);
    assert(members.contains(files[p]) <==> labels[p] == labels[p]);
    let v = cluster_of(repository_id, files, labels, edges, languages, ids, l);
    lemma_clusters_of(repository_id, files, labels, edges, languages, ids, n, v);
    let vs = clusters_of(repository_id, files, labels, edges, languages, ids, n);
    assert(members.len() > 0);
    assert(vs.contains(v));
    let k = choose|k: int| 0 <= k < vs.len() && vs[k] == v;
    assert(file_cluster_views(unsorted)[k] == v);
    assert(unsorted.contains(unsorted[k]));
    assert(arranged(unsorted).contains(unsorted[k]));
    let c = choose|c: int| 0 <= c < clusters.len() && clusters[c] == unsorted[k];
    assert(texts(clusters[c].members@) == v.members);
}

/// What a dependency adds to the weight that ties a cluster to others.
pub open spec fn ties(id: Seq<char>) -> spec_fn(ModuleDependency) -> int {
    |d: ModuleDependency|
        (if d.from_cluster_id@ == id {
            d.weight as int
        } else {
            0
        }) + (if d.to_cluster_id@ == id {
            d.weight as int
        } else {
            0
        })
}

proof fn lemma_external_weight(deps: Seq<ModuleDependency>, id: Seq<char>)
    ensures
        external_weight(deps, id) == sum_of(deps, ties(id)),
        external_weight(deps, id) >= 0,
    decreases deps.len(),
{
    if deps.len() > 0 {
        lemma_external_weight(deps.drop_last(), id);
    }
}

/// Clusters are listed once each, by falling importance: their size times one
/// more than the weight that ties them to others, in either direction.
pub proof fn lemma_importance<'a>(o: ModuleOverview, i: int, j: int)
    requires
        o.countable(),
        0 <= i < j < ranked_clusters(
            arranged(importances(o.graph.clusters@, o.dependencies@)),
        ).len(),
    ensures
        ({
            let r = ranked_clusters(
                arranged(importances(o.graph.clusters@, o.dependencies@)),
            );
            &&& r.len() == o.graph.clusters@.len()
            &&& r[i].size * (WEIGHT_ONE + sum_of(o.dependencies@, ties(r[i].id@))) >= r[j].size * (
            WEIGHT_ONE + sum_of(o.dependencies@, ties(r[j].id@)))
        }),
{
    let all = importances(o.graph.clusters@, o.dependencies@);
    let s = arranged(all);
    lemma_arranged(all);
    lemma_arranged_contains(all);
    assert forall|k: int| 0 <= k < s.len() implies (#[trigger] s[k]).score == s[k].cluster.size * (
    WEIGHT_ONE + sum_of(o.dependencies@, ties(s[k].cluster.id@))) by {
        assert(s.contains(s[k]));
        let m = choose|m: int| 0 <= m < all.len() && all[m] == s[k];
        let c = o.graph.clusters@[m];
        lemma_external_weight(o.dependencies@, c.id@);
        assert(importance(c, o.dependencies@) >= 0) by (nonlinear_arith)
            requires
                importance(c, o.dependencies@) == c.size * (WEIGHT_ONE + external_weight(
                    o.dependencies@,
                    c.id@,
                )),
                external_weight(o.dependencies@, c.id@) >= 0,
                c.size >= 0,
        ;
    }
    assert(!s[j].ranks_before(s[i]));
}

/// A symbol is a node of the graph if and only if a reference joins it to
/// another: as its named caller, or as its callee.
pub proof fn lemma_symbol_nodes(refs: Seq<SymbolReference>, x: Seq<char>)
    ensures
        joined_symbol(refs, x) <==> exists|i: int|
            0 <= i < refs.len() && (#[trigger] refs[i]).caller_symbol is Some
                && refs[i].caller_symbol->Some_0@ != refs[i].callee_symbol@ && (
            refs[i].caller_symbol->Some_0@ == x || refs[i].callee_symbol@ == x),
{
    if joined_symbol(refs, x) {
        let i = choose|i: int| 0 <= i < refs.len() && touches_symbol(#[trigger] refs[i], x);
        assert(refs[i].caller_symbol is Some);
    }
    if exists|i: int|
        0 <= i < refs.len() && (#[trigger] refs[i]).caller_symbol is Some
            && refs[i].caller_symbol->Some_0@ != refs[i].callee_symbol@ && (
        refs[i].caller_symbol->Some_0@ == x || refs[i].callee_symbol@ == x) {
        let i = choose|i: int|
            0 <= i < refs.len() && (#[trigger] refs[i]).caller_symbol is Some
                && refs[i].caller_symbol->Some_0@ != refs[i].callee_symbol@ && (
            refs[i].caller_symbol->Some_0@ == x || refs[i].callee_symbol@ == x);
        assert(touches_symbol(refs[i], x));
    }
}

/// The reference joins the two symbols, whichever calls the other.
pub open spec fn couples(a: Seq<char>, b: Seq<char>) -> spec_fn(SymbolReference) -> bool {
    |r: SymbolReference|
        r.caller_symbol is Some && (r.caller_symbol->Some_0@ == a && r.callee_symbol@ == b
            || r.caller_symbol->Some_0@ == b && r.callee_symbol@ == a)
}

/// What a reference adds to the weight between the two symbols: what its kind
/// weighs.
pub open spec fn weight_coupling(a: Seq<char>, b: Seq<char>) -> spec_fn(SymbolReference) -> int {
    |r: SymbolReference|
        if couples(a, b)(r) {
            kind_tenths(lowercase(r.reference_kind.name())) * WEIGHT_TENTH
        } else {
            0
        }
}

proof fn lemma_reference_sum_is(
    symbols: Seq<Seq<char>>,
    refs: Seq<SymbolReference>,
    lo: usize,
    hi: usize,
)
    requires
        symbols.no_duplicates(),
        lo < hi < symbols.len() <= usize::MAX,
        refs.len() <= usize::MAX,
    ensures
        reference_sum(symbols, refs, lo, hi) is Some <==> exists|i: int|
            0 <= i < refs.len() && couples(symbols[lo as int], symbols[hi as int])(
                #[trigger] refs[i],
            ),
        reference_sum(symbols, refs, lo, hi) matches Some((w, _)) ==> w == sum_of(
            refs,
            weight_coupling(symbols[lo as int], symbols[hi as int]),
        ),
        0 <= sum_of(refs, weight_coupling(symbols[lo as int], symbols[hi as int])) <= refs.len()
            * WEIGHT_ONE,
        reference_sum(symbols, refs, lo, hi) is None ==> sum_of(
            refs,
            weight_coupling(symbols[lo as int], symbols[hi as int]),
        ) == 0,
    decreases refs.len(),
{
    let a = symbols[lo as int];
    let b = symbols[hi as int];
    let p = couples(a, b);
    if refs.len() > 0 {
        let d = refs.drop_last();
        let r = refs.last();
        lemma_reference_sum_is(symbols, d, lo, hi);
        lemma_place_is(symbols, lo as int);
        lemma_place_is(symbols, hi as int);
        lemma_place_of(symbols, r.callee_symbol@);
        if r.caller_symbol is Some {
            lemma_place_of(symbols, r.caller_symbol->Some_0@);
        }
        assert(a != b);
        assert(reference_pair(symbols, r) == Some((lo, hi)) <==> p(r));
        if p(r) {
            assert(p(refs[refs.len() - 1]));
        }
        if exists|i: int| 0 <= i < d.len() && p(#[trigger] d[i]) {
            let i = choose|i: int| 0 <= i < d.len() && p(#[trigger] d[i]);
            assert(p(refs[i]));
        }
        if exists|i: int| 0 <= i < refs.len() && p(#[trigger] refs[i]) {
            let i = choose|i: int| 0 <= i < refs.len() && p(#[trigger] refs[i]);
            if i < d.len() {
                assert(p(d[i]));
            }
        }
    }
}

/// Two symbols are joined if and only if one refers to the other, and the weight
/// between them is the sum of what the kinds of those references weigh.
pub proof fn lemma_symbol_weights(
    pairs: Seq<PairEntry>,
    symbols: Seq<Seq<char>>,
    refs: Seq<SymbolReference>,
    lo: usize,
    hi: usize,
)
    requires
        pairs_of_references(pairs, symbols, refs),
        symbols.no_duplicates(),
        lo < hi < symbols.len() <= usize::MAX,
        refs.len() <= usize::MAX,
    ensures
        (exists|i: int|
            0 <= i < refs.len() && couples(symbols[lo as int], symbols[hi as int])(
                #[trigger] refs[i],
            )) <==> exists|k: int|
            0 <= k < pairs.len() && (#[trigger] pairs[k]).lo == lo && pairs[k].hi == hi,
        forall|k: int|
            0 <= k < pairs.len() && (#[trigger] pairs[k]).lo == lo && pairs[k].hi == hi
                ==> pairs[k].weight == sum_of(
                refs,
                weight_coupling(symbols[lo as int], symbols[hi as int]),
            ),
{
    lemma_reference_sum_is(symbols, refs, lo, hi);
    lemma_pair_value(pairs, lo, hi);
    assert(pair_value(pairs, lo, hi) == reference_sum(symbols, refs, lo, hi));
}

/// The community has a member that answers to the name in the way asked for.
pub open spec fn community_answers(c: SymbolCommunity, how: NameMatch, name: Seq<char>) -> bool {
    exists|k: int|
        0 <= k < c.members@.len() && match how {
            NameMatch::Exact => (#[trigger] c.members@[k])@ == name,
            NameMatch::Short => bare_name(c.members@[k]@) == name,
            NameMatch::Part => contains_text(c.members@[k]@, name),
        }
}

/// No community answers to the name in the way asked for.
pub open spec fn none_answers(cs: Seq<SymbolCommunity>, how: NameMatch, name: Seq<char>) -> bool {
    forall|i: int| 0 <= i < cs.len() ==> !community_answers(#[trigger] cs[i], how, name)
}

/// The community answers to the name in the way asked for, and none before it does.
pub open spec fn is_first_to_answer(
    cs: Seq<SymbolCommunity>,
    b: int,
    how: NameMatch,
    name: Seq<char>,
) -> bool {
    &&& community_answers(cs[b], how, name)
    &&& forall|i: int| 0 <= i < b ==> !community_answers(#[trigger] cs[i], how, name)
}

proof fn lemma_first_answering(how: NameMatch, cs: Seq<SymbolCommunity>, name: Seq<char>)
    ensures
        ({
            let f = first_answering(how, cs, name);
            &&& -1 <= f < cs.len()
            &&& f >= 0 ==> community_answers(cs[f], how, name)
            &&& forall|i: int|
                0 <= i < cs.len() && (f < 0 || i < f) ==> !community_answers(
                    #[trigger] cs[i],
                    how,
                    name,
                )
        }),
    decreases cs.len(),
{
    if cs.len() > 0 {
        let d = cs.drop_last();
        lemma_first_answering(how, d, name);
        let last = cs.last();
        let ms = texts(last.members@);
        if some_answers(how, ms, name) {
            let k = choose|k: int| 0 <= k < ms.len() && answers(how, #[trigger] ms[k], name);
            assert(ms[k] == last.members@[k]@);
            assert(community_answers(last, how, name));
        }
        if community_answers(last, how, name) {
            let k = choose|k: int|
                0 <= k < last.members@.len() && match how {
                    NameMatch::Exact => (#[trigger] last.members@[k])@ == name,
                    NameMatch::Short => bare_name(last.members@[k]@) == name,
                    NameMatch::Part => contains_text(last.members@[k]@, name),
                };
            assert(answers(how, ms[k], name));
        }
        let f = first_answering(how, cs, name);
        assert forall|i: int|
            0 <= i < cs.len() && (f < 0 || i < f) implies !community_answers(
            #[trigger] cs[i],
            how,
            name,
        ) by {
            if i < d.len() {
                assert(d[i] == cs[i]);
            }
        }
    }
}

/// The community of a name is the first with a member of exactly that name where
/// there is one, else the first with a member whose short name it is, else the
/// first with a member that contains it; there is none only where no member contains it.
pub proof fn lemma_community_of_symbol(cs: Seq<SymbolCommunity>, name: Seq<char>)
    ensures
        ({
            let b = best_answering(cs, name);
            &&& b >= 0 ==> b < cs.len()
            &&& (exists|i: int|
                0 <= i < cs.len() && texts((#[trigger] cs[i]).members@).contains(name)) ==> b >= 0
                && texts(cs[b].members@).contains(name)
            &&& b < 0 ==> forall|i: int|
                0 <= i < cs.len() ==> !community_answers(#[trigger] cs[i], NameMatch::Part, name)
                    && !community_answers(cs[i], NameMatch::Short, name)
            &&& b >= 0 ==> is_first_to_answer(cs, b, NameMatch::Exact, name) || (none_answers(
                cs,
                NameMatch::Exact,
                name,
            ) && is_first_to_answer(cs, b, NameMatch::Short, name)) || (none_answers(
                cs,
                NameMatch::Exact,
                name,
            ) && none_answers(cs, NameMatch::Short, name) && is_first_to_answer(
                cs,
                b,
                NameMatch::Part,
                name,
            ))
        }),
{
    lemma_first_answering(NameMatch::Exact, cs, name);
    lemma_first_answering(NameMatch::Short, cs, name);
    lemma_first_answering(NameMatch::Part, cs, name);
    let b = best_answering(cs, name);
    if exists|i: int| 0 <= i < cs.len() && texts((#[trigger] cs[i]).members@).contains(name) {
        let i = choose|i: int| 0 <= i < cs.len() && texts((#[trigger] cs[i]).members@).contains(name);
        let ms = texts(cs[i].members@);
        let k = choose|k: int| 0 <= k < ms.len() && ms[k] == name;
        assert(cs[i].members@[k]@ == name);
        assert(community_answers(cs[i], NameMatch::Exact, name));
        let m = choose|m: int|
            0 <= m < cs[b].members@.len() && (#[trigger] cs[b].members@[m])@ == name;
        assert(texts(cs[b].members@)[m] == name);
    }
}

/// The repositories of a namespace are those, and only those, that name it.
pub proof fn lemma_namespace_repositories(
    repos: Seq<Repository>,
    namespace: Seq<char>,
    r: Repository,
)
    ensures
        in_namespace(repos, namespace).contains(r) <==> repos.contains(r) && r.namespace is Some
            && r.namespace->Some_0@ == namespace,
{
    let f = |x: Repository|
        if x.namespace is Some && x.namespace->Some_0@ == namespace {
            Some(x)
        } else {
            None
        };
    lemma_in_namespace(repos, namespace, f);
    lemma_picks(repos, f);
    assert(picks(repos, f).contains(r) <==> gives(repos, f, r));
    if gives(repos, f, r) {
        let i = choose|i: int| 0 <= i < repos.len() && f(#[trigger] repos[i]) == Some(r);
        assert(repos[i] == r);
    }
    if repos.contains(r) && r.namespace is Some && r.namespace->Some_0@ == namespace {
        let i = choose|i: int| 0 <= i < repos.len() && repos[i] == r;
        assert(f(repos[i]) == Some(r));
    }
}

proof fn lemma_in_namespace(
    repos: Seq<Repository>,
    namespace: Seq<char>,
    f: spec_fn(Repository) -> Option<Repository>,
)
    requires
        forall|x: Repository| #[trigger]
            f(x) == if x.namespace is Some && x.namespace->Some_0@ == namespace {
                Some(x)
            } else {
                None
            },
    ensures
        in_namespace(repos, namespace) == picks(repos, f),
    decreases repos.len(),
{
    if repos.len() > 0 {
        lemma_in_namespace(repos.drop_last(), namespace, f);
        let _ = f(repos.last());
    }
}

/// The edge stays in the file.
pub open spec fn loops_at(f: Seq<char>) -> spec_fn(FileEdge) -> bool {
    |e: FileEdge| e.from_file@ == f && e.to_file@ == f
}

/// The edge joins the file to another.
pub open spec fn leaves_from(f: Seq<char>) -> spec_fn(FileEdge) -> bool {
    |e: FileEdge| (e.from_file@ == f) != (e.to_file@ == f)
}

/// A file that stays alone is a cluster of one; its edges count as those of any
/// cluster do.
pub proof fn lemma_lone_file(
    repository_id: Seq<char>,
    edges: Seq<FileEdge>,
    languages: Map<Seq<char>, String>,
    file: Seq<char>,
    id: Seq<char>,
)
    ensures
        self_edges(edges, file) == count_where(edges, loops_at(file)),
        other_edges(edges, file) == count_where(edges, leaves_from(file)),
        ({
            let c = singleton(repository_id, edges, languages, file, id);
            &&& c.id == id && c.repository_id == repository_id && c.display_name is None
            &&& c.members == seq![file] && c.size == 1
            &&& languages.contains_key(file) ==> c.dominant_language == languages[file]@
        }),
    decreases edges.len(),
{
    if edges.len() > 0 {
        lemma_lone_file(repository_id, edges.drop_last(), languages, file, id);
    }
}

/// The kind shown for two joined files is the first kind of the first edge
/// between them.
pub proof fn lemma_pair_kind(
    files: Seq<Seq<char>>,
    edges: Seq<FileEdge>,
    lo: usize,
    hi: usize,
    p: int,
)
    requires
        files.no_duplicates(),
        lo < hi < files.len() <= usize::MAX,
        0 <= p < edges.len(),
        between(files[lo as int], files[hi as int])(edges[p]),
        edges[p].reference_kinds@.len() > 0,
        forall|i: int|
            0 <= i < p ==> !between(files[lo as int], files[hi as int])(#[trigger] edges[i]),
    ensures
        pair_sum(files, edges, lo, hi) is Some,
        pair_sum(files, edges, lo, hi)->Some_0.1 == Some(
            lowercase(edges[p].reference_kinds@[0]@),
        ),
    decreases edges.len(),
{
    let d = edges.drop_last();
    let e = edges.last();
    let f = between(files[lo as int], files[hi as int]);
    lemma_place_is(files, lo as int);
    lemma_place_is(files, hi as int);
    lemma_place_of(files, e.from_file@);
    lemma_place_of(files, e.to_file@);
    assert(pair_of(files, e) == Some((lo, hi)) <==> f(e));
    if p < d.len() {
        assert(d[p] == edges[p]);
        assert forall|i: int| 0 <= i < p implies !f(#[trigger] d[i]) by {
            assert(d[i] == edges[i]);
        }
        lemma_pair_kind(files, d, lo, hi, p);
    } else {
        assert forall|i: int| 0 <= i < d.len() implies !f(#[trigger] d[i]) by {
            assert(d[i] == edges[i]);
        }
        lemma_no_pair(files, d, lo, hi);
    }
}

proof fn lemma_no_pair(files: Seq<Seq<char>>, edges: Seq<FileEdge>, lo: usize, hi: usize)
    requires
        files.no_duplicates(),
        lo < hi < files.len() <= usize::MAX,
        forall|i: int|
            0 <= i < edges.len() ==> !between(files[lo as int], files[hi as int])(
                #[trigger] edges[i],
            ),
    ensures
        pair_sum(files, edges, lo, hi) is None,
    decreases edges.len(),
{
    if edges.len() > 0 {
        let d = edges.drop_last();
        let e = edges.last();
        let f = between(files[lo as int], files[hi as int]);
        assert forall|i: int| 0 <= i < d.len() implies !f(#[trigger] d[i]) by {
            assert(d[i] == edges[i]);
        }
        lemma_no_pair(files, d, lo, hi);
        lemma_place_of(files, e.from_file@);
        lemma_place_of(files, e.to_file@);
        assert(!f(edges[edges.len() - 1]));
    }
}

} // verus!
