//! What a file graph owes to the references it was built from.

use vstd::prelude::*;
use crate::domain::{FileEdge, FileGraph, Repository, SymbolReference};
use crate::file_relationship::{
    EdgeView, Ends, HitView, all_ends, edge_views, end_files, gathered, hit_of, hits_of,
    is_file_graph, kinds_of, places_where, scope_test, symbols_of, target_test, weight_of, weighty,
};
use crate::order::{
    arranged, lemma_arranged, lemma_arranged_contains, lemma_distinct, lemma_sorted, sorted_texts,
};
use crate::symbol_index::SymbolIndex;
use crate::text::{opt_text, texts};

verus! {

/// The importer recorded that a reference out of `from` leads to `to`, both in
/// the repository.
pub open spec fn recorded(from: Seq<char>, to: Seq<char>, repo: Seq<char>) -> spec_fn(
    SymbolReference,
) -> bool {
    |r: SymbolReference|
        r.caller_file_path@ == from && r.reference_file_path@ == to && r.repository_id@ == repo
}

/// The reference stands in the file of the repository.
pub open spec fn stands_in(from: Seq<char>, repo: Seq<char>) -> spec_fn(SymbolReference) -> bool {
    |r: SymbolReference| r.caller_file_path@ == from && r.repository_id@ == repo
}

proof fn lemma_hits_cover(
    refs: Seq<SymbolReference>,
    sites: Map<Seq<char>, (Seq<char>, Seq<char>)>,
    ambiguous: Set<Seq<char>>,
    cross: bool,
    i: int,
)
    requires
        0 <= i < refs.len(),
        hit_of(refs[i], sites, ambiguous, cross) is Some,
    ensures
        hits_of(refs, sites, ambiguous, cross).contains(
            hit_of(refs[i], sites, ambiguous, cross)->Some_0,
        ),
    decreases refs.len(),
{
    let d = hits_of(refs.drop_last(), sites, ambiguous, cross);
    let all = hits_of(refs, sites, ambiguous, cross);
    let h = hit_of(refs[i], sites, ambiguous, cross)->Some_0;
    if i == refs.len() - 1 {
        assert(all[d.len() as int] == h);
    } else {
        lemma_hits_cover(refs.drop_last(), sites, ambiguous, cross, i);
        let k = choose|k: int| 0 <= k < d.len() && d[k] == h;
        assert(all[k] == h);
    }
}

proof fn lemma_hits_sound(
    refs: Seq<SymbolReference>,
    sites: Map<Seq<char>, (Seq<char>, Seq<char>)>,
    ambiguous: Set<Seq<char>>,
    cross: bool,
    h: HitView,
)
    requires
        hits_of(refs, sites, ambiguous, cross).contains(h),
    ensures
        exists|i: int|
            0 <= i < refs.len() && #[trigger] hit_of(refs[i], sites, ambiguous, cross) == Some(h),
    decreases refs.len(),
{
    if refs.len() > 0 {
        let d = hits_of(refs.drop_last(), sites, ambiguous, cross);
        let all = hits_of(refs, sites, ambiguous, cross);
        let k = choose|k: int| 0 <= k < all.len() && all[k] == h;
        if k < d.len() {
            assert(d[k] == h);
            lemma_hits_sound(refs.drop_last(), sites, ambiguous, cross, h);
            let i = choose|i: int|
                0 <= i < refs.drop_last().len() && #[trigger] hit_of(
                    refs.drop_last()[i],
                    sites,
                    ambiguous,
                    cross,
                ) == Some(h);
            assert(hit_of(refs[i], sites, ambiguous, cross) == Some(h));
        } else {
            assert(hit_of(refs[refs.len() - 1], sites, ambiguous, cross) == Some(h));
        }
    }
}

proof fn lemma_hit_gathered(hits: Seq<HitView>, k: int)
    requires
        0 <= k < hits.len(),
    ensures
        all_ends(hits).contains(hits[k].ends),
        weight_of(hits, hits[k].ends) >= 1,
        kinds_of(hits, hits[k].ends).contains(hits[k].kind),
        symbols_of(hits, hits[k].ends).contains(hits[k].symbol),
    decreases hits.len(),
{
    let d = hits.drop_last();
    let ends = hits[k].ends;
    if k < d.len() {
        assert(d[k] == hits[k]);
        lemma_hit_gathered(d, k);
        let a = choose|a: int| 0 <= a < all_ends(d).len() && all_ends(d)[a] == ends;
        assert(all_ends(hits)[a] == ends);
        let b = choose|b: int|
            0 <= b < kinds_of(d, ends).len() && kinds_of(d, ends)[b] == hits[k].kind;
        assert(kinds_of(hits, ends)[b] == hits[k].kind);
        let c = choose|c: int|
            0 <= c < symbols_of(d, ends).len() && symbols_of(d, ends)[c] == hits[k].symbol;
        assert(symbols_of(hits, ends)[c] == hits[k].symbol);
    } else {
        if !all_ends(d).contains(ends) {
            assert(all_ends(hits)[all_ends(d).len() as int] == ends);
        }
        if !kinds_of(d, ends).contains(hits[k].kind) {
            assert(kinds_of(hits, ends)[kinds_of(d, ends).len() as int] == hits[k].kind);
        }
        if !symbols_of(d, ends).contains(hits[k].symbol) {
            assert(symbols_of(hits, ends)[symbols_of(d, ends).len() as int] == hits[k].symbol);
        }
    }
}

proof fn lemma_ends_hit(hits: Seq<HitView>, ends: Ends)
    requires
        all_ends(hits).contains(ends),
    ensures
        exists|k: int| 0 <= k < hits.len() && (#[trigger] hits[k]).ends == ends,
    decreases hits.len(),
{
    if hits.len() > 0 {
        let d = hits.drop_last();
        if all_ends(d).contains(ends) {
            lemma_ends_hit(d, ends);
            let k = choose|k: int| 0 <= k < d.len() && (#[trigger] d[k]).ends == ends;
            assert(hits[k].ends == ends);
        } else {
            let a = choose|a: int| 0 <= a < all_ends(hits).len() && all_ends(hits)[a] == ends;
            if a < all_ends(d).len() {
                assert(all_ends(d)[a] == ends);
            }
            assert(hits[hits.len() - 1].ends == ends);
        }
    }
}

/// The names that an edge carries are those of hits between its ends.
proof fn lemma_names_hit(hits: Seq<HitView>, ends: Ends, name: Seq<char>)
    ensures
        kinds_of(hits, ends).contains(name) ==> exists|k: int|
            0 <= k < hits.len() && (#[trigger] hits[k]).ends == ends && hits[k].kind == name,
        symbols_of(hits, ends).contains(name) ==> exists|k: int|
            0 <= k < hits.len() && (#[trigger] hits[k]).ends == ends && hits[k].symbol == name,
    decreases hits.len(),
{
    if hits.len() > 0 {
        let d = hits.drop_last();
        lemma_names_hit(d, ends, name);
        if kinds_of(hits, ends).contains(name) {
            if kinds_of(d, ends).contains(name) {
                let k = choose|k: int|
                    0 <= k < d.len() && (#[trigger] d[k]).ends == ends && d[k].kind == name;
                assert(hits[k].kind == name);
            } else {
                let a = choose|a: int|
                    0 <= a < kinds_of(hits, ends).len() && kinds_of(hits, ends)[a] == name;
                if a < kinds_of(d, ends).len() {
                    assert(kinds_of(d, ends)[a] == name);
                }
                assert(hits[hits.len() - 1].kind == name);
            }
        }
        if symbols_of(hits, ends).contains(name) {
            if symbols_of(d, ends).contains(name) {
                let k = choose|k: int|
                    0 <= k < d.len() && (#[trigger] d[k]).ends == ends && d[k].symbol == name;
                assert(hits[k].symbol == name);
            } else {
                let a = choose|a: int|
                    0 <= a < symbols_of(hits, ends).len() && symbols_of(hits, ends)[a] == name;
                if a < symbols_of(d, ends).len() {
                    assert(symbols_of(d, ends)[a] == name);
                }
                assert(hits[hits.len() - 1].symbol == name);
            }
        }
    }
}

proof fn lemma_weight_counts(
    refs: Seq<SymbolReference>,
    sites: Map<Seq<char>, (Seq<char>, Seq<char>)>,
    ambiguous: Set<Seq<char>>,
    cross: bool,
    ends: Ends,
)
    ensures
        weight_of(hits_of(refs, sites, ambiguous, cross), ends) <= refs.filter(
            stands_in(ends.from_file, ends.from_repo_id),
        ).len(),
        ends.from_file != ends.to_file && ends.from_repo_id == ends.to_repo_id ==> weight_of(
            hits_of(refs, sites, ambiguous, cross),
            ends,
        ) >= refs.filter(recorded(ends.from_file, ends.to_file, ends.from_repo_id)).len(),
    decreases refs.len(),
{
    let p = stands_in(ends.from_file, ends.from_repo_id);
    let q = recorded(ends.from_file, ends.to_file, ends.from_repo_id);
    if refs.len() > 0 {
        let d = refs.drop_last();
        let r = refs.last();
        lemma_weight_counts(d, sites, ambiguous, cross, ends);
        assert(d.push(r) =~= refs);
        d.lemma_filter_push(r, p);
        d.lemma_filter_push(r, q);
        let before = hits_of(d, sites, ambiguous, cross);
        if hit_of(r, sites, ambiguous, cross) is Some {
            let h = hit_of(r, sites, ambiguous, cross)->Some_0;
            assert(before.push(h).drop_last() =~= before);
        }
    } else {
        reveal(Seq::filter);
    }
}

proof fn lemma_weighty_keeps(edges: Seq<EdgeView>, min: int, i: int)
    requires
        0 <= i < edges.len(),
        edges[i].weight >= min,
    ensures
        weighty(edges, min).contains(
            (EdgeView {
                kinds: sorted_texts(edges[i].kinds),
                symbols: sorted_texts(edges[i].symbols),
                ..edges[i]
            }),
        ),
    decreases edges.len(),
{
    let d = weighty(edges.drop_last(), min);
    let all = weighty(edges, min);
    let e = EdgeView {
        kinds: sorted_texts(edges[i].kinds),
        symbols: sorted_texts(edges[i].symbols),
        ..edges[i]
    };
    if i == edges.len() - 1 {
        assert(all[d.len() as int] == e);
    } else {
        lemma_weighty_keeps(edges.drop_last(), min, i);
        let k = choose|k: int| 0 <= k < d.len() && d[k] == e;
        assert(all[k] == e);
    }
}

proof fn lemma_weighty_sound(edges: Seq<EdgeView>, min: int, x: EdgeView)
    requires
        weighty(edges, min).contains(x),
    ensures
        x.weight >= min,
        exists|i: int|
            0 <= i < edges.len() && (#[trigger] edges[i]).ends == x.ends && edges[i].weight
                == x.weight && x.kinds == sorted_texts(edges[i].kinds) && x.symbols == sorted_texts(
                edges[i].symbols,
            ),
    decreases edges.len(),
{
    if edges.len() > 0 {
        let d = weighty(edges.drop_last(), min);
        let all = weighty(edges, min);
        let k = choose|k: int| 0 <= k < all.len() && all[k] == x;
        if k < d.len() {
            assert(d[k] == x);
            let e = edges.drop_last();
            lemma_weighty_sound(e, min, x);
            let i = choose|i: int|
                0 <= i < e.len() && (#[trigger] e[i]).ends == x.ends && e[i].weight == x.weight
                    && x.kinds == sorted_texts(e[i].kinds) && x.symbols == sorted_texts(
                    e[i].symbols,
                );
            assert(edges[i].ends == x.ends);
        } else {
            assert(edges[edges.len() - 1].ends == x.ends);
        }
    }
}

/// The graph has an edge that says `x`.
proof fn lemma_edge_present(
    graph: FileGraph,
    repos: Seq<Repository>,
    targets: Seq<usize>,
    refs: Seq<SymbolReference>,
    index: SymbolIndex,
    min: int,
    cross: bool,
    x: EdgeView,
)
    requires
        is_file_graph(graph, repos, targets, refs, index, min, cross),
    ensures
        weighty(gathered(hits_of(refs, index.sites(), index.ambiguous(), cross)), min).contains(x)
            <==> exists|e: int| 0 <= e < graph.edges@.len() && (#[trigger] graph.edges@[e])@ == x,
{
    let edges = weighty(
        gathered(hits_of(refs, index.sites(), index.ambiguous(), cross)),
        min,
    );
    let unsorted = choose|unsorted: Seq<FileEdge>| #[trigger]
        edge_views(unsorted) == edges && graph.edges@ == arranged(unsorted);
    lemma_arranged_contains(unsorted);
    if edges.contains(x) {
        let k = choose|k: int| 0 <= k < edges.len() && edges[k] == x;
        assert(edge_views(unsorted)[k] == x);
        assert(unsorted.contains(unsorted[k]));
        assert(arranged(unsorted).contains(unsorted[k]));
        let e = choose|e: int| 0 <= e < graph.edges@.len() && graph.edges@[e] == unsorted[k];
        assert(graph.edges@[e]@ == x);
    }
    if exists|e: int| 0 <= e < graph.edges@.len() && (#[trigger] graph.edges@[e])@ == x {
        let e = choose|e: int| 0 <= e < graph.edges@.len() && (#[trigger] graph.edges@[e])@ == x;
        assert(arranged(unsorted).contains(graph.edges@[e]));
        let k = choose|k: int| 0 <= k < unsorted.len() && unsorted[k] == graph.edges@[e];
        assert(edge_views(unsorted)[k] == x);
    }
}

/// The edge joins the files, in either case with its repository.
pub open spec fn joins(
    e: FileEdge,
    from: Seq<char>,
    from_repo: Seq<char>,
    to: Seq<char>,
    to_repo: Seq<char>,
) -> bool {
    &&& e.from_file@ == from
    &&& e.from_repo_id@ == from_repo
    &&& e.to_file@ == to
    &&& e.to_repo_id@ == to_repo
}

/// A reference for which the importer recorded another file than its own makes
/// an edge between the two within its repository, whatever the symbol index
/// holds. The edge names the kind and the callee of the reference, and counts
/// every reference like it.
pub proof fn lemma_recorded_file_is_linked(
    graph: FileGraph,
    repos: Seq<Repository>,
    targets: Seq<usize>,
    refs: Seq<SymbolReference>,
    index: SymbolIndex,
    min: int,
    cross: bool,
    i: int,
)
    requires
        is_file_graph(graph, repos, targets, refs, index, min, cross),
        0 <= i < refs.len(),
        refs[i].reference_file_path@ != refs[i].caller_file_path@,
        min <= 1,
    ensures
        exists|e: int|
            0 <= e < graph.edges@.len() && joins(
                #[trigger] graph.edges@[e],
                refs[i].caller_file_path@,
                refs[i].repository_id@,
                refs[i].reference_file_path@,
                refs[i].repository_id@,
            ) && graph.edges@[e].weight >= 1 && graph.edges@[e].weight >= refs.filter(
                recorded(
                    refs[i].caller_file_path@,
                    refs[i].reference_file_path@,
                    refs[i].repository_id@,
                ),
            ).len() && texts(graph.edges@[e].symbols@).contains(refs[i].callee_symbol@) && texts(
                graph.edges@[e].reference_kinds@,
            ).contains(refs[i].reference_kind.name()),
{
    let sites = index.sites();
    let ambiguous = index.ambiguous();
    let hits = hits_of(refs, sites, ambiguous, cross);
    let r = refs[i];
    assert(hit_of(r, sites, ambiguous, cross) is Some);
    lemma_hits_cover(refs, sites, ambiguous, cross, i);
    let h = hit_of(r, sites, ambiguous, cross)->Some_0;
    let k = choose|k: int| 0 <= k < hits.len() && hits[k] == h;
    lemma_hit_gathered(hits, k);
    lemma_weight_counts(refs, sites, ambiguous, cross, h.ends);
    let a = choose|a: int| 0 <= a < all_ends(hits).len() && all_ends(hits)[a] == h.ends;
    let g = gathered(hits);
    assert(g[a].ends == h.ends);
    lemma_weighty_keeps(g, min, a);
    let x = EdgeView {
        kinds: sorted_texts(g[a].kinds),
        symbols: sorted_texts(g[a].symbols),
        ..g[a]
    };
    lemma_sorted(g[a].kinds);
    lemma_sorted(g[a].symbols);
    lemma_edge_present(graph, repos, targets, refs, index, min, cross, x);
    let e = choose|e: int| 0 <= e < graph.edges@.len() && (#[trigger] graph.edges@[e])@ == x;
    assert(graph.edges@[e]@.ends == h.ends);
}

/// Every edge of the graph stands for references out of its first file: it
/// weighs at least the least weight asked for and no more than there are such
/// references, and where the importer recorded the target of one, that is the
/// second file. Its ends differ, and lie in two repositories only where that
/// was asked for.
pub proof fn lemma_edges_have_references(
    graph: FileGraph,
    repos: Seq<Repository>,
    targets: Seq<usize>,
    refs: Seq<SymbolReference>,
    index: SymbolIndex,
    min: int,
    cross: bool,
    e: int,
)
    requires
        is_file_graph(graph, repos, targets, refs, index, min, cross),
        0 <= e < graph.edges@.len(),
    ensures
        graph.edges@[e].from_file@ != graph.edges@[e].to_file@,
        !cross ==> graph.edges@[e].from_repo_id@ == graph.edges@[e].to_repo_id@,
        graph.edges@[e].weight >= min,
        1 <= graph.edges@[e].weight <= refs.filter(
            stands_in(graph.edges@[e].from_file@, graph.edges@[e].from_repo_id@),
        ).len(),
        exists|i: int|
            0 <= i < refs.len() && is_behind(#[trigger] refs[i], graph.edges@[e]),
        forall|s: Seq<char>| #[trigger]
            texts(graph.edges@[e].symbols@).contains(s) ==> exists|i: int|
                0 <= i < refs.len() && is_behind(#[trigger] refs[i], graph.edges@[e])
                    && refs[i].callee_symbol@ == s,
        forall|s: Seq<char>| #[trigger]
            texts(graph.edges@[e].reference_kinds@).contains(s) ==> exists|i: int|
                0 <= i < refs.len() && is_behind(#[trigger] refs[i], graph.edges@[e])
                    && refs[i].reference_kind.name() == s,
{
    let sites = index.sites();
    let ambiguous = index.ambiguous();
    let hits = hits_of(refs, sites, ambiguous, cross);
    let g = gathered(hits);
    let edge = graph.edges@[e];
    let x = edge@;
    lemma_edge_present(graph, repos, targets, refs, index, min, cross, x);
    assert(weighty(g, min).contains(x));
    lemma_weighty_sound(g, min, x);
    let a = choose|a: int|
        0 <= a < g.len() && (#[trigger] g[a]).ends == x.ends && g[a].weight == x.weight && x.kinds
            == sorted_texts(g[a].kinds) && x.symbols == sorted_texts(g[a].symbols);
    assert(all_ends(hits)[a] == x.ends);
    assert(all_ends(hits).contains(x.ends));
    lemma_ends_hit(hits, x.ends);
    let k = choose|k: int| 0 <= k < hits.len() && (#[trigger] hits[k]).ends == x.ends;
    lemma_hit_gathered(hits, k);
    lemma_weight_counts(refs, sites, ambiguous, cross, x.ends);
    lemma_sorted(g[a].kinds);
    lemma_sorted(g[a].symbols);
    assert forall|k: int| 0 <= k < hits.len() && (#[trigger] hits[k]).ends == x.ends implies exists|
        i: int,
    |
        0 <= i < refs.len() && is_behind(#[trigger] refs[i], edge) && refs[i].callee_symbol@
            == hits[k].symbol && refs[i].reference_kind.name() == hits[k].kind by {
        assert(hits.contains(hits[k]));
        lemma_hits_sound(refs, sites, ambiguous, cross, hits[k]);
        let i = choose|i: int|
            0 <= i < refs.len() && #[trigger] hit_of(refs[i], sites, ambiguous, cross) == Some(
                hits[k],
            );
        assert(is_behind(refs[i], edge));
    }
    let i = choose|i: int|
        0 <= i < refs.len() && is_behind(#[trigger] refs[i], edge) && refs[i].callee_symbol@
            == hits[k].symbol && refs[i].reference_kind.name() == hits[k].kind;
    assert(is_behind(refs[i], edge));
    assert(hits.contains(hits[k]));
    lemma_hits_sound(refs, sites, ambiguous, cross, hits[k]);
    assert forall|s: Seq<char>| #[trigger] texts(edge.symbols@).contains(s) implies exists|i: int|
        0 <= i < refs.len() && is_behind(#[trigger] refs[i], edge) && refs[i].callee_symbol@
            == s by {
        lemma_names_hit(hits, x.ends, s);
        assert(symbols_of(hits, x.ends).contains(s));
        let k = choose|k: int|
            0 <= k < hits.len() && (#[trigger] hits[k]).ends == x.ends && hits[k].symbol == s;
        assert(hits[k].ends == x.ends);
    }
    assert forall|s: Seq<char>| #[trigger]
        texts(edge.reference_kinds@).contains(s) implies exists|i: int|
        0 <= i < refs.len() && is_behind(#[trigger] refs[i], edge)
            && refs[i].reference_kind.name() == s by {
        lemma_names_hit(hits, x.ends, s);
        assert(kinds_of(hits, x.ends).contains(s));
        let k = choose|k: int|
            0 <= k < hits.len() && (#[trigger] hits[k]).ends == x.ends && hits[k].kind == s;
        assert(hits[k].ends == x.ends);
    }
}

/// The reference can stand behind the edge: it comes from its first file, and
/// where another file was recorded for it, that is the second.
pub open spec fn is_behind(r: SymbolReference, e: FileEdge) -> bool {
    &&& r.caller_file_path@ == e.from_file@
    &&& r.repository_id@ == e.from_repo_id@
    &&& r.reference_file_path@ != r.caller_file_path@ ==> r.reference_file_path@ == e.to_file@
        && r.repository_id@ == e.to_repo_id@
}

/// A reference for which no other file was recorded is linked to the one site
/// that defines its callee.
pub proof fn lemma_defined_callee_is_linked(
    graph: FileGraph,
    repos: Seq<Repository>,
    targets: Seq<usize>,
    refs: Seq<SymbolReference>,
    index: SymbolIndex,
    min: int,
    i: int,
)
    requires
        is_file_graph(graph, repos, targets, refs, index, min, true),
        0 <= i < refs.len(),
        refs[i].reference_file_path@ == refs[i].caller_file_path@,
        index.sites().contains_key(refs[i].callee_symbol@),
        index.sites()[refs[i].callee_symbol@].0 != refs[i].caller_file_path@,
        min <= 1,
    ensures
        exists|e: int|
            0 <= e < graph.edges@.len() && joins(
                #[trigger] graph.edges@[e],
                refs[i].caller_file_path@,
                refs[i].repository_id@,
                index.sites()[refs[i].callee_symbol@].0,
                index.sites()[refs[i].callee_symbol@].1,
            ),
{
    let sites = index.sites();
    let ambiguous = index.ambiguous();
    let hits = hits_of(refs, sites, ambiguous, true);
    assert(hit_of(refs[i], sites, ambiguous, true) is Some);
    lemma_hits_cover(refs, sites, ambiguous, true, i);
    let h = hit_of(refs[i], sites, ambiguous, true)->Some_0;
    let k = choose|k: int| 0 <= k < hits.len() && hits[k] == h;
    lemma_hit_gathered(hits, k);
    let a = choose|a: int| 0 <= a < all_ends(hits).len() && all_ends(hits)[a] == h.ends;
    let g = gathered(hits);
    assert(g[a].ends == h.ends);
    lemma_weighty_keeps(g, min, a);
    let x = EdgeView {
        kinds: sorted_texts(g[a].kinds),
        symbols: sorted_texts(g[a].symbols),
        ..g[a]
    };
    lemma_edge_present(graph, repos, targets, refs, index, min, true, x);
    let e = choose|e: int| 0 <= e < graph.edges@.len() && (#[trigger] graph.edges@[e])@ == x;
    assert(graph.edges@[e]@.ends == h.ends);
}

/// The files of the graph are those at the ends of its edges, and the heavier
/// edge comes first.
pub proof fn lemma_graph_lists_its_files(
    graph: FileGraph,
    repos: Seq<Repository>,
    targets: Seq<usize>,
    refs: Seq<SymbolReference>,
    index: SymbolIndex,
    min: int,
    cross: bool,
)
    requires
        is_file_graph(graph, repos, targets, refs, index, min, cross),
    ensures
        texts(graph.files@).no_duplicates(),
        forall|f: Seq<char>| #[trigger]
            texts(graph.files@).contains(f) <==> exists|e: int|
                0 <= e < graph.edges@.len() && ((#[trigger] graph.edges@[e]).from_file@ == f
                    || graph.edges@[e].to_file@ == f),
        forall|a: int, b: int|
            0 <= a < b < graph.edges@.len() ==> (#[trigger] graph.edges@[a]).weight >= (
            #[trigger] graph.edges@[b]).weight,
{
    let vs = edge_views(graph.edges@);
    lemma_distinct(end_files(vs));
    assert forall|f: Seq<char>| #[trigger]
        texts(graph.files@).contains(f) <==> exists|e: int|
            0 <= e < graph.edges@.len() && ((#[trigger] graph.edges@[e]).from_file@ == f
                || graph.edges@[e].to_file@ == f) by {
        lemma_end_files(vs, f);
        if end_files(vs).contains(f) {
            let e = choose|e: int|
                0 <= e < vs.len() && ((#[trigger] vs[e]).ends.from_file == f || vs[e].ends.to_file
                    == f);
            assert(graph.edges@[e]@ == vs[e]);
        }
        if exists|e: int|
            0 <= e < graph.edges@.len() && ((#[trigger] graph.edges@[e]).from_file@ == f
                || graph.edges@[e].to_file@ == f) {
            let e = choose|e: int|
                0 <= e < graph.edges@.len() && ((#[trigger] graph.edges@[e]).from_file@ == f
                    || graph.edges@[e].to_file@ == f);
            assert(vs[e] == graph.edges@[e]@);
        }
    }
    let edges = weighty(
        gathered(hits_of(refs, index.sites(), index.ambiguous(), cross)),
        min,
    );
    let unsorted = choose|unsorted: Seq<FileEdge>| #[trigger]
        edge_views(unsorted) == edges && graph.edges@ == arranged(unsorted);
    lemma_arranged(unsorted);
}

proof fn lemma_end_files(vs: Seq<EdgeView>, f: Seq<char>)
    ensures
        end_files(vs).contains(f) <==> exists|e: int|
            0 <= e < vs.len() && ((#[trigger] vs[e]).ends.from_file == f || vs[e].ends.to_file
                == f),
    decreases vs.len(),
{
    if vs.len() > 0 {
        let d = vs.drop_last();
        lemma_end_files(d, f);
        let before = end_files(d);
        let all = end_files(vs);
        let n = before.len() as int;
        assert(all[n] == vs.last().ends.from_file);
        assert(all[n + 1] == vs.last().ends.to_file);
        if before.contains(f) {
            let k = choose|k: int| 0 <= k < before.len() && before[k] == f;
            assert(all[k] == f);
            let e = choose|e: int|
                0 <= e < d.len() && ((#[trigger] d[e]).ends.from_file == f || d[e].ends.to_file
                    == f);
            assert(vs[e] == d[e]);
        }
        if all.contains(f) && !before.contains(f) {
            let k = choose|k: int| 0 <= k < all.len() && all[k] == f;
            if k < n {
                assert(before[k] == f);
            }
            assert(vs[vs.len() - 1].ends.from_file == f || vs[vs.len() - 1].ends.to_file == f);
        }
        if exists|e: int|
            0 <= e < vs.len() && ((#[trigger] vs[e]).ends.from_file == f || vs[e].ends.to_file
                == f) {
            let e = choose|e: int|
                0 <= e < vs.len() && ((#[trigger] vs[e]).ends.from_file == f
                    || vs[e].ends.to_file == f);
            if e < d.len() {
                assert(d[e] == vs[e]);
            }
        }
    }
}

/// The repositories of a graph: with ids given those that have one of them,
/// else those of the namespace.
pub proof fn lemma_targets(
    repos: Seq<Repository>,
    ids: Option<Seq<Seq<char>>>,
    namespace: Seq<char>,
    i: int,
)
    requires
        0 <= i < repos.len(),
    ensures
        places_where(repos, target_test(ids, namespace)).contains(i) <==> match ids {
            Some(named) => exists|k: int| 0 <= k < named.len() && #[trigger] named[k] == repos[i].id@,
            None => repos[i].namespace is Some && repos[i].namespace->Some_0@ == namespace,
        },
{
    lemma_places_where(repos, target_test(ids, namespace), i);
}

/// The repositories whose names count: those that share a namespace with a
/// target.
pub proof fn lemma_scope(repos: Seq<Repository>, targets: Seq<usize>, i: int)
    requires
        0 <= i < repos.len(),
        forall|k: int| 0 <= k < targets.len() ==> (#[trigger] targets[k]) < repos.len(),
    ensures
        places_where(repos, scope_test(repos, targets)).contains(i) <==> exists|k: int|
            0 <= k < targets.len() && opt_text(repos[(#[trigger] targets[k]) as int].namespace)
                == opt_text(repos[i].namespace),
{
    lemma_places_where(repos, scope_test(repos, targets), i);
}

proof fn lemma_places_where(repos: Seq<Repository>, keep: spec_fn(Repository) -> bool, i: int)
    ensures
        places_where(repos, keep).contains(i) <==> 0 <= i < repos.len() && keep(repos[i]),
    decreases repos.len(),
{
    if repos.len() > 0 {
        let d = repos.drop_last();
        lemma_places_where(d, keep, i);
        let before = places_where(d, keep);
        let all = places_where(repos, keep);
        if before.contains(i) {
            let k = choose|k: int| 0 <= k < before.len() && before[k] == i;
            assert(all[k] == i);
        }
        if i == repos.len() - 1 && keep(repos.last()) {
            assert(all[before.len() as int] == i);
        }
        if all.contains(i) && !before.contains(i) {
            let k = choose|k: int| 0 <= k < all.len() && all[k] == i;
            if k < before.len() {
                assert(before[k] == i);
            }
        }
    }
}

} // verus!
