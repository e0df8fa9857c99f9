//! What a search owes to its query and to the lists it fuses.

use vstd::prelude::*;
use crate::domain::{CodeChunk, SearchQuery, SearchResult, SymbolReference};
use crate::fusion::{
    Keyed, SCORE_ONE, concat, contribution, first_of_each, fused, has_key, lemma_first_of_each,
    lemma_fused_bound, lemma_total_score_bound, list_score, total_score,
};
use crate::graph_expansion::{
    FetchedChunk, NeighborEdge, NeighborScore, SeedEdges, SeedSymbol, best_candidate, callee_edges,
    caller_edges, connected, counted_edges, edge_counts, edges_to, holds_chunk, is_candidate,
    lemma_best_candidate, lemma_selected, names_symbol, seed_texts, seeds_of, seeds_to, selected,
};
use crate::order::{
    Ranked, arranged, lemma_arranged, lemma_arranged_contains, lemma_filter_in_rank_order, text_lt,
};
use crate::patterns::fqn_parts;
use crate::rrf::{
    is_test_dir, is_test_mark, penalized, rescored, rrf_results, strong, test_file, test_path,
};
use crate::search::{SearchRun, SearchStep, above_floor, base_of};
use crate::snippet_lookup::{holds_line, lemma_tightest, tightest};
use crate::text::{
    all_lack, contains_text, ends_with, join, lacks, lemma_join_lacks, lemma_rfind_char,
    lemma_split_join, opt_text, rfind_char, split, starts_with, texts,
};

verus! {

/// A query lets a chunk pass if and only if the chunk is in one of the languages
/// and in one of the repositories that the query names, where it names any.
pub proof fn lemma_query_filters(q: SearchQuery, c: CodeChunk)
    ensures
        q.admits(c) <==> (q.languages is None || exists|k: int|
            0 <= k < q.languages->Some_0@.len() && #[trigger] q.languages->Some_0@[k]
                == c.language) && (q.repository_ids is None || exists|k: int|
            0 <= k < q.repository_ids->Some_0@.len() && (
            #[trigger] q.repository_ids->Some_0@[k])@ == c.repository_id@),
{
    if let Some(rs) = q.repository_ids {
        if texts(rs@).contains(c.repository_id@) {
            let k = choose|k: int| 0 <= k < texts(rs@).len() && texts(rs@)[k] == c.repository_id@;
            assert(rs@[k]@ == c.repository_id@);
        }
        if exists|k: int| 0 <= k < rs@.len() && (#[trigger] rs@[k])@ == c.repository_id@ {
            let k = choose|k: int| 0 <= k < rs@.len() && (#[trigger] rs@[k])@ == c.repository_id@;
            assert(texts(rs@)[k] == c.repository_id@);
        }
    }
}

/// The chunk is a definition that was fetched for the neighbour: found in its
/// repository under its short name.
pub open spec fn defines(f: FetchedChunk, n: NeighborScore) -> bool {
    &&& f.repository_id@ == n.repository_id@
    &&& f.chunk.symbol_name is Some
    &&& f.chunk.symbol_name->Some_0@ == fqn_parts(n.symbol@).0
}

/// Some neighbour has the chunk as a definition.
pub open spec fn is_fetched_for(
    c: CodeChunk,
    ranked: Seq<NeighborScore>,
    fetched: Seq<FetchedChunk>,
) -> bool {
    exists|n: int, f: int|
        0 <= n < ranked.len() && 0 <= f < fetched.len() && #[trigger] defines(
            fetched[f],
            ranked[n],
        ) && fetched[f].chunk == c
}

proof fn lemma_selected_origin(
    ranked: Seq<NeighborScore>,
    fetched: Seq<FetchedChunk>,
    query: SearchQuery,
)
    ensures
        forall|i: int|
            0 <= i < selected(ranked, fetched, query).len() ==> is_fetched_for(
                (#[trigger] selected(ranked, fetched, query)[i]).chunk,
                ranked,
                fetched,
            ),
    decreases ranked.len(),
{
    if ranked.len() > 0 {
        let d = ranked.drop_last();
        lemma_selected_origin(d, fetched, query);
        let acc = selected(d, fetched, query);
        let all = selected(ranked, fetched, query);
        assert forall|i: int| 0 <= i < all.len() implies is_fetched_for(
            (#[trigger] all[i]).chunk,
            ranked,
            fetched,
        ) by {
            if i < acc.len() {
                assert(all[i] == acc[i]);
                let (n, f) = choose|n: int, f: int|
                    0 <= n < d.len() && 0 <= f < fetched.len() && #[trigger] defines(
                        fetched[f],
                        d[n],
                    ) && fetched[f].chunk == acc[i].chunk;
                assert(defines(fetched[f], ranked[n]));
            } else {
                let n = ranked.last();
                let parts = fqn_parts(n.symbol@);
                let b = best_candidate(fetched, n.repository_id@, parts.0, parts.1);
                lemma_best_candidate(fetched, n.repository_id@, parts.0, parts.1);
                assert(defines(fetched[b], ranked[ranked.len() - 1]));
            }
        }
    }
}

/// Every chunk that expansion selects was fetched for a neighbour, and passes
/// the filters of the query: where it names languages the chunk is in one of
/// them, and where it names repositories the chunk is in one of them. None is
/// selected twice, and no more than twenty are.
pub proof fn lemma_graph_leg(
    ranked: Seq<NeighborScore>,
    fetched: Seq<FetchedChunk>,
    query: SearchQuery,
    i: int,
)
    requires
        0 <= i < selected(ranked, fetched, query).len(),
    ensures
        selected(ranked, fetched, query).len() <= 20,
        ({
            let c = selected(ranked, fetched, query)[i].chunk;
            &&& query.languages matches Some(ls) ==> ls@.contains(c.language)
            &&& query.repository_ids matches Some(rs) ==> exists|k: int|
                0 <= k < rs@.len() && (#[trigger] rs@[k])@ == c.repository_id@
            &&& is_fetched_for(c, ranked, fetched)
            &&& forall|j: int|
                0 <= j < selected(ranked, fetched, query).len() && j != i ==> (
                #[trigger] selected(ranked, fetched, query)[j]).chunk.id@ != c.id@
        }),
{
    lemma_selected(ranked, fetched, query);
    lemma_selected_origin(ranked, fetched, query);
    let c = selected(ranked, fetched, query)[i].chunk;
    assert(query.admits(c));
    lemma_query_filters(query, c);
}

/// A neighbour that has a definition of its own is found where the query has no
/// filter, unless twenty others were.
pub proof fn lemma_graph_leg_finds(
    ranked: Seq<NeighborScore>,
    fetched: Seq<FetchedChunk>,
    query: SearchQuery,
    n: int,
    f: int,
)
    requires
        0 <= n < ranked.len(),
        0 <= f < fetched.len(),
        defines(fetched[f], ranked[n]),
        query.languages is None,
        query.repository_ids is None,
    ensures
        selected(ranked, fetched, query).len() == 20 || exists|i: int, g: int|
            0 <= i < selected(ranked, fetched, query).len() && 0 <= g < fetched.len() && defines(
                #[trigger] fetched[g],
                ranked[n],
            ) && (#[trigger] selected(ranked, fetched, query)[i]).chunk.id@
                == fetched[g].chunk.id@,
    decreases ranked.len(),
{
    let d = ranked.drop_last();
    let acc = selected(d, fetched, query);
    let all = selected(ranked, fetched, query);
    lemma_selected(ranked, fetched, query);
    lemma_selected(d, fetched, query);
    if n < d.len() {
        lemma_graph_leg_finds(d, fetched, query, n, f);
        if acc.len() < 20 {
            let (i, g) = choose|i: int, g: int|
                0 <= i < acc.len() && 0 <= g < fetched.len() && defines(
                    #[trigger] fetched[g],
                    d[n],
                ) && (#[trigger] acc[i]).chunk.id@ == fetched[g].chunk.id@;
            assert(all[i] == acc[i]);
            assert(defines(fetched[g], ranked[n]));
        }
    } else {
        let x = ranked.last();
        let parts = fqn_parts(x.symbol@);
        let b = best_candidate(fetched, x.repository_id@, parts.0, parts.1);
        lemma_best_candidate(fetched, x.repository_id@, parts.0, parts.1);
        assert(is_candidate(fetched[f], x.repository_id@, parts.0));
        assert(b >= 0);
        assert(defines(fetched[b], ranked[n]));
        lemma_query_filters(query, fetched[b].chunk);
        if acc.len() < 20 {
            if holds_chunk(acc, fetched[b].chunk.id@) {
                let i = choose|i: int|
                    0 <= i < acc.len() && (#[trigger] acc[i]).key() == fetched[b].chunk.id@;
                assert(all[i].chunk.id@ == fetched[b].chunk.id@);
            } else {
                assert(all[acc.len() as int].chunk.id@ == fetched[b].chunk.id@);
            }
        }
    }
}

/// The definition that is picked lies in the repository and has the name. Where a
/// candidate lies in a file that matches the hint, so does the one picked; and
/// among those alike in this it spans the fewest lines.
pub proof fn lemma_definition_is_best(
    fetched: Seq<FetchedChunk>,
    repository_id: Seq<char>,
    short: Seq<char>,
    hint: Option<Seq<char>>,
    i: int,
)
    requires
        0 <= i < fetched.len(),
        fetched[i].repository_id@ == repository_id,
        opt_text(fetched[i].chunk.symbol_name) == Some(short),
        fetched[i].chunk.start_line <= fetched[i].chunk.end_line,
    ensures
        ({
            let b = best_candidate(fetched, repository_id, short, hint);
            let x = fetched[b].chunk;
            let y = fetched[i].chunk;
            &&& 0 <= b < fetched.len()
            &&& fetched[b].repository_id@ == repository_id
            &&& opt_text(x.symbol_name) == Some(short)
            &&& hint matches Some(h) ==> contains_text(y.file_path@, h) ==> contains_text(
                x.file_path@,
                h,
            )
            &&& (hint is None || contains_text(x.file_path@, hint->Some_0) == contains_text(
                y.file_path@,
                hint->Some_0,
            )) && x.start_line <= x.end_line ==> x.end_line - x.start_line <= y.end_line
                - y.start_line
        }),
{
    lemma_best_candidate(fetched, repository_id, short, hint);
    assert(is_candidate(fetched[i], repository_id, short));
}

/// Seeds are the symbols of results with their repositories, each symbol once,
/// at most five, and no named result is passed over before there are five.
pub proof fn lemma_seeds(results: Seq<SearchResult>)
    ensures
        ({
            let s = seeds_of(results);
            &&& s.len() <= 5
            &&& forall|i: int, j: int|
                0 <= i < j < s.len() ==> (#[trigger] s[i]).0 != (#[trigger] s[j]).0
            &&& forall|i: int|
                0 <= i < s.len() ==> exists|k: int|
                    0 <= k < results.len() && opt_text(
                        (#[trigger] results[k]).chunk.symbol_name,
                    ) == Some((#[trigger] s[i]).0) && results[k].chunk.repository_id@ == s[i].1
            &&& forall|k: int|
                0 <= k < results.len() && (#[trigger] results[k]).chunk.symbol_name is Some
                    ==> s.len() == 5 || names_symbol(s, results[k].chunk.symbol_name->Some_0@)
        }),
    decreases results.len(),
{
    if results.len() > 0 {
        let d = results.drop_last();
        lemma_seeds(d);
        let before = seeds_of(d);
        let s = seeds_of(results);
        let c = results.last().chunk;
        assert forall|i: int| 0 <= i < s.len() implies exists|k: int|
            0 <= k < results.len() && opt_text((#[trigger] results[k]).chunk.symbol_name) == Some(
                (#[trigger] s[i]).0,
            ) && results[k].chunk.repository_id@ == s[i].1 by {
            if i < before.len() {
                assert(s[i] == before[i]);
                let k = choose|k: int|
                    0 <= k < d.len() && opt_text((#[trigger] d[k]).chunk.symbol_name) == Some(
                        before[i].0,
                    ) && d[k].chunk.repository_id@ == before[i].1;
                assert(results[k] == d[k]);
            } else {
                assert(results[results.len() - 1].chunk == c);
            }
        }
        assert forall|i: int, j: int| 0 <= i < j < s.len() implies (#[trigger] s[i]).0 != (
        #[trigger] s[j]).0 by {
            if j == before.len() {
                assert(before[i] == s[i]);
            }
        }
        assert forall|k: int|
            0 <= k < results.len() && (#[trigger] results[k]).chunk.symbol_name is Some implies
        s.len() == 5 || names_symbol(s, results[k].chunk.symbol_name->Some_0@) by {
            let x = results[k].chunk.symbol_name->Some_0@;
            if k < d.len() {
                assert(d[k] == results[k]);
                if before.len() < 5 {
                    assert(names_symbol(before, x));
                    let m = choose|m: int| 0 <= m < before.len() && (#[trigger] before[m]).0 == x;
                    assert(s[m].0 == x);
                }
            } else if s.len() > before.len() {
                assert(s[before.len() as int].0 == x);
            } else if before.len() < 5 {
                assert(names_symbol(before, x));
            }
        }
    }
}

/// An edge of a seed counts if and only if it leads to a named symbol that is
/// no seed of its repository: to a caller of one reference, or to a callee.
pub proof fn lemma_edges_counted(
    seeds: Seq<SeedSymbol>,
    edges: SeedEdges,
    symbol: Seq<char>,
    repo: Seq<char>,
)
    ensures
        counted_edges(seeds, edges).contains((symbol, repo)) <==> symbol.len() > 0 && !(exists|
            k: int,
        |
            0 <= k < seeds.len() && (#[trigger] seeds[k]).symbol@ == symbol
                && seeds[k].repository_id@ == repo) && ((exists|i: int|
            0 <= i < edges.callers@.len() && opt_text((#[trigger] edges.callers@[i]).caller_symbol)
                == Some(symbol) && edges.callers@[i].repository_id@ == repo) || (exists|i: int|
            0 <= i < edges.callees@.len() && (#[trigger] edges.callees@[i]).callee_symbol@ == symbol
                && edges.callees@[i].repository_id@ == repo)),
{
    let x = (symbol, repo);
    let a = caller_edges(seeds, edges.callers@);
    let b = callee_edges(seeds, edges.callees@);
    lemma_caller_edges(seeds, edges.callers@, symbol, repo);
    lemma_callee_edges(seeds, edges.callees@, symbol, repo);
    if counted_edges(seeds, edges).contains(x) {
        let k = choose|k: int| 0 <= k < (a + b).len() && (a + b)[k] == x;
        if k < a.len() {
            assert(a[k] == x);
        } else {
            assert(b[k - a.len()] == x);
        }
    }
    if a.contains(x) {
        let k = choose|k: int| 0 <= k < a.len() && a[k] == x;
        assert((a + b)[k] == x);
    }
    if b.contains(x) {
        let k = choose|k: int| 0 <= k < b.len() && b[k] == x;
        assert((a + b)[a.len() + k] == x);
    }
    let st = seed_texts(seeds);
    if st.contains(x) {
        let k = choose|k: int| 0 <= k < st.len() && st[k] == x;
        assert(seeds[k].symbol@ == symbol);
    }
    if exists|k: int|
        0 <= k < seeds.len() && (#[trigger] seeds[k]).symbol@ == symbol && seeds[k].repository_id@
            == repo {
        let k = choose|k: int|
            0 <= k < seeds.len() && (#[trigger] seeds[k]).symbol@ == symbol
                && seeds[k].repository_id@ == repo;
        assert(st[k] == x);
    }
}

proof fn lemma_caller_edges(
    seeds: Seq<SeedSymbol>,
    refs: Seq<SymbolReference>,
    symbol: Seq<char>,
    repo: Seq<char>,
)
    ensures
        caller_edges(seeds, refs).contains((symbol, repo)) <==> edge_counts(seeds, symbol, repo)
            && exists|i: int|
            0 <= i < refs.len() && opt_text((#[trigger] refs[i]).caller_symbol) == Some(symbol)
                && refs[i].repository_id@ == repo,
    decreases refs.len(),
{
    if refs.len() > 0 {
        let d = refs.drop_last();
        lemma_caller_edges(seeds, d, symbol, repo);
        let x = (symbol, repo);
        let before = caller_edges(seeds, d);
        let all = caller_edges(seeds, refs);
        if before.contains(x) {
            let k = choose|k: int| 0 <= k < before.len() && before[k] == x;
            assert(all[k] == x);
            let i = choose|i: int|
                0 <= i < d.len() && opt_text((#[trigger] d[i]).caller_symbol) == Some(symbol)
                    && d[i].repository_id@ == repo;
            assert(refs[i] == d[i]);
        } else if all.contains(x) {
            let k = choose|k: int| 0 <= k < all.len() && all[k] == x;
            if k < before.len() {
                assert(before[k] == x);
            }
            assert(refs[refs.len() - 1] == refs.last());
        }
        if edge_counts(seeds, symbol, repo) && exists|i: int|
            0 <= i < refs.len() && opt_text((#[trigger] refs[i]).caller_symbol) == Some(symbol)
                && refs[i].repository_id@ == repo {
            let i = choose|i: int|
                0 <= i < refs.len() && opt_text((#[trigger] refs[i]).caller_symbol) == Some(symbol)
                    && refs[i].repository_id@ == repo;
            if i < d.len() {
                assert(d[i] == refs[i]);
            } else {
                assert(all[before.len() as int] == x);
            }
        }
    }
}

proof fn lemma_callee_edges(
    seeds: Seq<SeedSymbol>,
    refs: Seq<SymbolReference>,
    symbol: Seq<char>,
    repo: Seq<char>,
)
    ensures
        callee_edges(seeds, refs).contains((symbol, repo)) <==> edge_counts(seeds, symbol, repo)
            && exists|i: int|
            0 <= i < refs.len() && (#[trigger] refs[i]).callee_symbol@ == symbol
                && refs[i].repository_id@ == repo,
    decreases refs.len(),
{
    if refs.len() > 0 {
        let d = refs.drop_last();
        lemma_callee_edges(seeds, d, symbol, repo);
        let x = (symbol, repo);
        let before = callee_edges(seeds, d);
        let all = callee_edges(seeds, refs);
        if before.contains(x) {
            let k = choose|k: int| 0 <= k < before.len() && before[k] == x;
            assert(all[k] == x);
            let i = choose|i: int|
                0 <= i < d.len() && (#[trigger] d[i]).callee_symbol@ == symbol
                    && d[i].repository_id@ == repo;
            assert(refs[i] == d[i]);
        } else if all.contains(x) {
            let k = choose|k: int| 0 <= k < all.len() && all[k] == x;
            if k < before.len() {
                assert(before[k] == x);
            }
            assert(refs[refs.len() - 1] == refs.last());
        }
        if edge_counts(seeds, symbol, repo) && exists|i: int|
            0 <= i < refs.len() && (#[trigger] refs[i]).callee_symbol@ == symbol
                && refs[i].repository_id@ == repo {
            let i = choose|i: int|
                0 <= i < refs.len() && (#[trigger] refs[i]).callee_symbol@ == symbol
                    && refs[i].repository_id@ == repo;
            if i < d.len() {
                assert(d[i] == refs[i]);
            } else {
                assert(all[before.len() as int] == x);
            }
        }
    }
}

/// The edge leads to the symbol.
pub open spec fn leads_to(symbol: Seq<char>) -> spec_fn(NeighborEdge) -> bool {
    |e: NeighborEdge| e.symbol@ == symbol
}

/// One of the edges leads to the symbol.
pub open spec fn some_leads_to(symbol: Seq<char>) -> spec_fn(Seq<NeighborEdge>) -> bool {
    |s: Seq<NeighborEdge>| exists|i: int| 0 <= i < s.len() && (#[trigger] s[i]).symbol@ == symbol
}

proof fn lemma_edge_numbers(lists: Seq<Seq<NeighborEdge>>, symbol: Seq<char>)
    ensures
        seeds_to(lists, symbol) == lists.filter(some_leads_to(symbol)).len(),
    decreases lists.len(),
{
    let p = some_leads_to(symbol);
    if lists.len() > 0 {
        let d = lists.drop_last();
        lemma_edge_numbers(d, symbol);
        assert(d.push(lists.last()) =~= lists);
        d.lemma_filter_push(lists.last(), p);
        if has_key(lists.last(), symbol) {
            let l = lists.last();
            let i = choose|i: int| 0 <= i < l.len() && (#[trigger] l[i]).key() == symbol;
            assert(l[i].symbol@ == symbol);
        }
        if p(lists.last()) {
            let l = lists.last();
            let i = choose|i: int| 0 <= i < l.len() && (#[trigger] l[i]).symbol@ == symbol;
            assert(l[i].key() == symbol);
        }
    } else {
        reveal(Seq::filter);
    }
}

proof fn lemma_edges_number(s: Seq<NeighborEdge>, symbol: Seq<char>)
    ensures
        edges_to(s, symbol) == s.filter(leads_to(symbol)).len(),
    decreases s.len(),
{
    if s.len() > 0 {
        let d = s.drop_last();
        lemma_edges_number(d, symbol);
        assert(d.push(s.last()) =~= s);
        d.lemma_filter_push(s.last(), leads_to(symbol));
    } else {
        reveal(Seq::filter);
    }
}

/// The symbol stands among the neighbours.
pub open spec fn is_neighbor(s: Seq<NeighborScore>, symbol: Seq<char>) -> bool {
    exists|i: int| 0 <= i < s.len() && (#[trigger] s[i]).symbol@ == symbol
}

/// A ranked neighbour carries the number of seeds and of edges that lead to it.
/// The one with more seeds comes first, then the one with more edges, then by
/// name; no symbol stands twice, and none that an edge leads to is missing.
pub proof fn lemma_neighbors_ranked(lists: Seq<Seq<NeighborEdge>>)
    requires
        concat(lists).len() <= usize::MAX,
    ensures
        ({
            let r = arranged(connected(lists));
            &&& forall|i: int|
                0 <= i < r.len() ==> (#[trigger] r[i]).seed_count == lists.filter(
                    some_leads_to(r[i].symbol@),
                ).len() && r[i].edge_count == concat(lists).filter(leads_to(r[i].symbol@)).len()
            &&& forall|i: int, j: int|
                0 <= i < j < r.len() ==> {
                    let a = #[trigger] r[i];
                    let b = #[trigger] r[j];
                    &&& a.seed_count >= b.seed_count
                    &&& a.seed_count == b.seed_count ==> a.edge_count >= b.edge_count
                    &&& a.seed_count == b.seed_count && a.edge_count == b.edge_count ==> !text_lt(
                        b.symbol@,
                        a.symbol@,
                    )
                }
            &&& forall|s: Seq<char>| #[trigger]
                some_leads_to(s)(concat(lists)) <==> is_neighbor(r, s)
        }),
{
    let c = connected(lists);
    let r = arranged(c);
    let e = concat(lists);
    let firsts = first_of_each(e);
    lemma_arranged(c);
    lemma_arranged_contains(c);
    lemma_first_of_each(e);
    assert forall|i: int| 0 <= i < r.len() implies (#[trigger] r[i]).seed_count == lists.filter(
        some_leads_to(r[i].symbol@),
    ).len() && r[i].edge_count == e.filter(leads_to(r[i].symbol@)).len() by {
        assert(r.contains(r[i]));
        let k = choose|k: int| 0 <= k < c.len() && c[k] == r[i];
        lemma_edge_numbers(lists, r[i].symbol@);
        lemma_edges_number(e, r[i].symbol@);
        lemma_seeds_bound(lists, r[i].symbol@);
        lemma_edges_bound(e, r[i].symbol@);
    }
    assert forall|s: Seq<char>| #[trigger] some_leads_to(s)(e) <==> is_neighbor(r, s) by {
        if is_neighbor(r, s) {
            let i = choose|i: int| 0 <= i < r.len() && (#[trigger] r[i]).symbol@ == s;
            assert(r.contains(r[i]));
            let k = choose|k: int| 0 <= k < c.len() && c[k] == r[i];
            assert(e.contains(firsts[k]));
            let m = choose|m: int| 0 <= m < e.len() && e[m] == firsts[k];
            assert(e[m].symbol@ == s);
        }
        if exists|k: int| 0 <= k < e.len() && (#[trigger] e[k]).symbol@ == s {
            let k = choose|k: int| 0 <= k < e.len() && (#[trigger] e[k]).symbol@ == s;
            assert(e[k].key() == s);
            assert(has_key(e, s));
            assert(has_key(firsts, s));
            let m = choose|m: int| 0 <= m < firsts.len() && (#[trigger] firsts[m]).key() == s;
            assert(c[m].symbol@ == s);
            assert(c.contains(c[m]));
            assert(r.contains(c[m]));
            let i = choose|i: int| 0 <= i < r.len() && r[i] == c[m];
            assert(r[i].symbol@ == s);
        }
    }
}

proof fn lemma_edges_bound(s: Seq<NeighborEdge>, symbol: Seq<char>)
    ensures
        edges_to(s, symbol) <= s.len(),
    decreases s.len(),
{
    if s.len() > 0 {
        lemma_edges_bound(s.drop_last(), symbol);
    }
}

proof fn lemma_seeds_bound(lists: Seq<Seq<NeighborEdge>>, symbol: Seq<char>)
    ensures
        seeds_to(lists, symbol) <= concat(lists).len(),
    decreases lists.len(),
{
    if lists.len() > 0 {
        lemma_seeds_bound(lists.drop_last(), symbol);
    }
}

/// What a place in a list is worth: one part in 61 for the first, in 62 for the
/// second and so on, to the unit.
pub proof fn lemma_place_is_worth(rank: int)
    requires
        0 <= rank,
    ensures
        contribution(rank) * (61 + rank) <= 1_000_000_000_000_000_000 < (contribution(rank) + 1) * (
        61 + rank),
{
    let c = contribution(rank);
    let d = 61 + rank;
    assert(c * d <= 1_000_000_000_000_000_000 < (c + 1) * d) by (nonlinear_arith)
        requires
            c == 1_000_000_000_000_000_000int / d,
            d > 0,
    ;
}

/// An item that stands once in a list gains what its place is worth; one that
/// does not stand in it gains nothing.
pub proof fn lemma_list_gain<T: Keyed>(list: Seq<T>, p: int)
    requires
        0 <= p < list.len(),
        forall|i: int| 0 <= i < list.len() && i != p ==> (#[trigger] list[i]).key() != list[p].key(),
    ensures
        list_score(list, list[p].key()) == contribution(p),
    decreases list.len(),
{
    let d = list.drop_last();
    let key = list[p].key();
    if p < d.len() {
        assert(d[p] == list[p]);
        assert forall|i: int| 0 <= i < d.len() && i != p implies (#[trigger] d[i]).key()
            != d[p].key() by {
            assert(list[i].key() != key);
        }
        lemma_list_gain(d, p);
        assert(list[list.len() - 1].key() != key);
    } else {
        assert forall|i: int| 0 <= i < d.len() implies (#[trigger] d[i]).key() != key by {
            assert(list[i].key() != key);
        }
        lemma_no_gain(d, key);
    }
}

/// An item that does not stand in a list gains nothing from it.
pub proof fn lemma_no_gain<T: Keyed>(list: Seq<T>, key: Seq<char>)
    requires
        forall|i: int| 0 <= i < list.len() ==> (#[trigger] list[i]).key() != key,
    ensures
        list_score(list, key) == 0,
    decreases list.len(),
{
    if list.len() > 0 {
        let d = list.drop_last();
        assert forall|i: int| 0 <= i < d.len() implies (#[trigger] d[i]).key() != key by {
            assert(list[i].key() != key);
        }
        assert(list[list.len() - 1].key() != key);
        lemma_no_gain(d, key);
    }
}

/// Of two lists an item gains what it gains from each.
pub proof fn lemma_two_lists<T: Keyed>(a: Seq<T>, b: Seq<T>, key: Seq<char>)
    ensures
        total_score(seq![a, b], key) == list_score(a, key) + list_score(b, key),
        concat(seq![a, b]) == a + b,
{
    let s = seq![a, b];
    assert(s.drop_last() =~= seq![a]);
    assert(seq![a].drop_last() =~= Seq::<Seq<T>>::empty());
    reveal_with_fuel(total_score, 3);
    reveal_with_fuel(concat, 3);
    assert(seq![a].last() == a);
    assert(s.last() == b);
    assert(concat(seq![a].drop_last()).len() == 0);
    assert(concat(seq![a]) =~= a);
    assert(concat(s) =~= a + b);
}

/// A result of fusion is scored by the sum of its gains, halved where its file
/// looks like a test; none that scores below 0.013 is kept. A chunk of the lists
/// that scores as much is kept, unless the limit is reached by others that score
/// no less.
pub proof fn lemma_fused_scores(lists: Seq<Seq<SearchResult>>, limit: int, k: int)
    requires
        concat(lists).len() <= usize::MAX,
        0 <= limit,
        0 <= k < concat(lists).len(),
    ensures
        ({
            let r = rrf_results(lists, limit);
            &&& forall|i: int|
                0 <= i < r.len() ==> (#[trigger] r[i]).score >= 13_000_000_000_000_000 && (
                test_file(r[i].chunk.file_path@) ==> r[i].score == total_score(
                    lists,
                    r[i].chunk.id@,
                ) / 2) && (!test_file(r[i].chunk.file_path@) ==> r[i].score == total_score(
                    lists,
                    r[i].chunk.id@,
                ))
            &&& exists|m: int|
                0 <= m < concat(lists).len() && (#[trigger] concat(lists)[m]).chunk.id@ == concat(
                    lists,
                )[k].chunk.id@ && ({
                    let c = concat(lists)[m].chunk;
                    let total = total_score(lists, c.id@);
                    let score = if test_file(c.file_path@) { total / 2 } else { total };
                    score >= 13_000_000_000_000_000 ==> (exists|i: int|
                        0 <= i < r.len() && (#[trigger] r[i]).chunk == c) || (r.len() == limit
                        && forall|i: int| 0 <= i < r.len() ==> (#[trigger] r[i]).score >= score)
                })
        }),
{
    let e = concat(lists);
    let f = fused(lists);
    let p = penalized(f);
    let a = arranged(p);
    let kept = a.filter(strong());
    let whole = rescored(kept);
    let r = rrf_results(lists, limit);
    lemma_arranged(p);
    lemma_arranged_contains(p);
    lemma_filter_in_rank_order(a, strong());
    lemma_first_of_each(e);
    lemma_fused_bound(lists);
    assert forall|i: int| 0 <= i < f.len() implies (#[trigger] f[i]).score == total_score(
        lists,
        f[i].item.chunk.id@,
    ) && f[i].score <= i128::MAX by {
        lemma_total_score_bound(lists, f[i].item.key());
        assert(f[i].score <= usize::MAX * SCORE_ONE);
        let n = e.len();
        assert(n * SCORE_ONE <= usize::MAX * SCORE_ONE) by (nonlinear_arith)
            requires
                n <= usize::MAX,
        ;
    }
    assert forall|i: int| 0 <= i < kept.len() implies (#[trigger] kept[i]).score
        >= 13_000_000_000_000_000 && kept[i].score <= i128::MAX && (test_file(
        kept[i].item.chunk.file_path@,
    ) ==> kept[i].score == total_score(lists, kept[i].item.chunk.id@) / 2) && (!test_file(
        kept[i].item.chunk.file_path@,
    ) ==> kept[i].score == total_score(lists, kept[i].item.chunk.id@)) by {
        a.lemma_filter_pred(strong(), i);
        assert(kept.contains(kept[i]));
        a.lemma_filter_contains_rev(strong(), kept[i]);
        assert(a.contains(kept[i]));
        let m = choose|m: int| 0 <= m < p.len() && p[m] == kept[i];
        assert(f[m].score == total_score(lists, f[m].item.chunk.id@));
        lemma_total_score_bound(lists, f[m].item.key());
    }
    assert forall|i: int| 0 <= i < r.len() implies (#[trigger] r[i]).score
        >= 13_000_000_000_000_000 && (test_file(r[i].chunk.file_path@) ==> r[i].score
        == total_score(lists, r[i].chunk.id@) / 2) && (!test_file(r[i].chunk.file_path@)
        ==> r[i].score == total_score(lists, r[i].chunk.id@)) by {
        assert(r[i] == whole[i]);
        assert(kept[i].score <= i128::MAX);
    }
    let firsts = first_of_each(e);
    let key = e[k].chunk.id@;
    assert(e[k].key() == key);
    assert(has_key(e, key));
    assert(has_key(firsts, key));
    let q = choose|q: int| 0 <= q < firsts.len() && (#[trigger] firsts[q]).key() == key;
    assert(e.contains(firsts[q]));
    let m = choose|m: int| 0 <= m < e.len() && e[m] == firsts[q];
    let c = e[m].chunk;
    assert(f[q].item.chunk == c);
    let total = total_score(lists, c.id@);
    let score = if test_file(c.file_path@) { total / 2 } else { total };
    lemma_total_score_bound(lists, c.id@);
    assert(p[q].score == score);
    if score >= 13_000_000_000_000_000 {
        assert(p.contains(p[q]));
        assert(a.contains(p[q]));
        let z = choose|z: int| 0 <= z < a.len() && a[z] == p[q];
        a.lemma_filter_contains(strong(), z);
        let i = choose|i: int| 0 <= i < kept.len() && kept[i] == p[q];
        if i < r.len() {
            assert(r[i] == whole[i]);
            assert(r[i].chunk == c);
        } else {
            assert forall|j: int| 0 <= j < r.len() implies (#[trigger] r[j]).score >= score by {
                assert(r[j] == whole[j]);
                assert(!kept[i].ranks_before(kept[j]));
                assert(kept[j].score <= i128::MAX);
            }
        }
    }
}

/// A path, in small letters, is that of a test if and only if one of its
/// directories is named for tests, a middle part of its file name is `test` or
/// `spec`, or the first part begins with `test_` or ends with `_test`.
pub proof fn lemma_test_paths(dirs: Seq<Seq<char>>, dots: Seq<Seq<char>>)
    requires
        all_lack(dirs, '/'),
        dots.len() > 0,
        all_lack(dots, '/'),
        all_lack(dots, '.'),
    ensures
        test_path(join(dirs.push(join(dots, "."@)), "/"@)) <==> (exists|i: int|
            0 <= i < dirs.len() && (#[trigger] dirs[i] == "test"@ || dirs[i] == "tests"@ || dirs[i]
                == "spec"@ || dirs[i] == "specs"@ || dirs[i] == "__tests__"@ || dirs[i]
                == "__test__"@ || dirs[i] == "testdata"@)) || (exists|i: int|
            1 <= i < dots.len() - 1 && (#[trigger] dots[i] == "test"@ || dots[i] == "spec"@))
            || (exists|rest: Seq<char>| dots[0] == #[trigger] ("test_"@ + rest)) || (exists|
            front: Seq<char>,
        | dots[0] == #[trigger] (front + "_test"@)),
{
    reveal_strlit(".");
    reveal_strlit("/");
    assert("."@ =~= seq!['.']);
    assert("/"@ =~= seq!['/']);
    let name = join(dots, "."@);
    let parts = dirs.push(name);
    let path = join(parts, "/"@);
    lemma_join_lacks(dots, "."@, '/');
    assert(all_lack(parts, '/')) by {
        assert forall|k: int| 0 <= k < parts.len() implies lacks(#[trigger] parts[k], '/') by {
            if k < dirs.len() {
                assert(lacks(dirs[k], '/'));
            }
        }
    }
    lemma_split_join(parts, '/');
    lemma_split_join(dots, '.');
    assert(split(path, '/') == parts);
    assert(split(parts.last(), '.') == dots);
    if exists|i: int| 0 <= i < parts.len() - 1 && is_test_dir(#[trigger] parts[i]) {
        let i = choose|i: int| 0 <= i < parts.len() - 1 && is_test_dir(#[trigger] parts[i]);
        assert(dirs[i] == parts[i]);
    }
    if exists|i: int|
        0 <= i < dirs.len() && (#[trigger] dirs[i] == "test"@ || dirs[i] == "tests"@ || dirs[i]
            == "spec"@ || dirs[i] == "specs"@ || dirs[i] == "__tests__"@ || dirs[i]
            == "__test__"@ || dirs[i] == "testdata"@) {
        let i = choose|i: int|
            0 <= i < dirs.len() && (#[trigger] dirs[i] == "test"@ || dirs[i] == "tests"@ || dirs[i]
                == "spec"@ || dirs[i] == "specs"@ || dirs[i] == "__tests__"@ || dirs[i]
                == "__test__"@ || dirs[i] == "testdata"@);
        assert(is_test_dir(parts[i]));
    }
    if exists|i: int| 1 <= i < dots.len() - 1 && is_test_mark(#[trigger] dots[i]) {
        let i = choose|i: int| 1 <= i < dots.len() - 1 && is_test_mark(#[trigger] dots[i]);
        assert(dots[i] == "test"@ || dots[i] == "spec"@);
    }
    if exists|i: int| 1 <= i < dots.len() - 1 && (#[trigger] dots[i] == "test"@ || dots[i] == "spec"@) {
        let i = choose|i: int|
            1 <= i < dots.len() - 1 && (#[trigger] dots[i] == "test"@ || dots[i] == "spec"@);
        assert(is_test_mark(dots[i]));
    }
    let first = dots[0];
    let a = "test_"@;
    let b = "_test"@;
    if starts_with(first, a) {
        assert(first =~= a + first.skip(a.len() as int)) by {
            assert(first.subrange(0, a.len() as int) == a);
            assert forall|i: int| 0 <= i < a.len() implies first[i] == a[i] by {
                assert(first.subrange(0, a.len() as int)[i] == first[i]);
            }
        }
    }
    if exists|rest: Seq<char>| first == #[trigger] (a + rest) {
        let rest = choose|rest: Seq<char>| first == #[trigger] (a + rest);
        assert(first.subrange(0, a.len() as int) =~= a);
    }
    if ends_with(first, b) {
        let n = first.len() - b.len();
        assert(first =~= first.take(n) + b) by {
            assert forall|i: int| 0 <= i < b.len() implies first[n + i] == b[i] by {
                assert(first.subrange(n, n + b.len())[i] == first[n + i]);
            }
        }
    }
    if exists|front: Seq<char>| first == #[trigger] (front + b) {
        let front = choose|front: Seq<char>| first == #[trigger] (front + b);
        let n = first.len() - b.len();
        assert(first.subrange(n, n + b.len()) =~= b);
    }
}

/// Weak results are dropped before reranking where their scores are
/// similarities, and only there.
pub proof fn lemma_search_prunes(run: SearchRun, results: Seq<SearchResult>)
    ensures
        !run.setup.reranking || run.text_search || run.setup.expansion || run.graph_fused
            ==> run.settled_results(results) == results,
        run.setup.reranking && !run.text_search && !run.setup.expansion && !run.graph_fused
            ==> forall|x: SearchResult| #[trigger]
            run.settled_results(results).contains(x) <==> results.contains(x) && x.score
                >= 100_000_000_000_000_000,
        run.settled().step == if run.setup.reranking {
            SearchStep::Rerank
        } else {
            SearchStep::Done
        },
{
    if run.setup.reranking && run.prunes() {
        lemma_floor(results);
    }
}

/// What is shown after reranking scores at least a tenth, and nothing that does
/// is dropped.
pub proof fn lemma_floor(results: Seq<SearchResult>)
    ensures
        forall|x: SearchResult| #[trigger]
            results.filter(above_floor()).contains(x) <==> results.contains(x) && x.score
                >= 100_000_000_000_000_000,
{
    let p = above_floor();
    assert forall|x: SearchResult| #[trigger] results.filter(p).contains(x) <==> results.contains(x)
        && x.score >= 100_000_000_000_000_000 by {
        let f = results.filter(p);
        if f.contains(x) {
            let i = choose|i: int| 0 <= i < f.len() && f[i] == x;
            results.lemma_filter_pred(p, i);
            results.lemma_filter_contains_rev(p, x);
        }
        if results.contains(x) && x.score >= 100_000_000_000_000_000 {
            let i = choose|i: int| 0 <= i < results.len() && results[i] == x;
            results.lemma_filter_contains(p, i);
        }
    }
}

/// The snippet of a line is the smallest chunk whose lines hold it; there is one
/// if and only if any chunk holds it.
pub proof fn lemma_snippet(chunks: Seq<CodeChunk>, line: u32)
    ensures
        ({
            let b = tightest(chunks, line);
            &&& b >= 0 <==> exists|i: int|
                0 <= i < chunks.len() && (#[trigger] chunks[i]).start_line <= line <= chunks[i].end_line
            &&& b >= 0 ==> b < chunks.len() && chunks[b].start_line <= line <= chunks[b].end_line
                && forall|i: int|
                0 <= i < chunks.len() && (#[trigger] chunks[i]).start_line <= line
                    <= chunks[i].end_line ==> chunks[b].end_line - chunks[b].start_line
                    <= chunks[i].end_line - chunks[i].start_line
        }),
{
    lemma_tightest(chunks, line);
    let b = tightest(chunks, line);
    assert forall|i: int|
        0 <= i < chunks.len() && (#[trigger] chunks[i]).start_line <= line
            <= chunks[i].end_line implies b >= 0 && chunks[b].end_line - chunks[b].start_line
        <= chunks[i].end_line - chunks[i].start_line by {
        assert(holds_line(chunks[i], line));
    }
}

proof fn lemma_rfind_at(s: Seq<char>, c: char, i: int)
    requires
        0 <= i < s.len(),
        s[i] == c,
        forall|k: int| i < k < s.len() ==> s[k] != c,
    ensures
        rfind_char(s, c) == i,
{
    lemma_rfind_char(s, c);
}

/// The short name of a member is what stands behind its class, with or without
/// the sign of a call.
pub proof fn lemma_member_name(class: Seq<char>, member: Seq<char>)
    requires
        lacks(member, '#'),
        !ends_with(member, "()"@) && !ends_with(member, "()."@),
        !ends_with(class + seq!['#'] + member, "()"@),
        !ends_with(class + seq!['#'] + member, "()."@),
    ensures
        fqn_parts(class + seq!['#'] + member).0 == member,
        fqn_parts(class + seq!['#'] + member + "()"@).0 == member,
        fqn_parts(class + seq!['#'] + member + "()."@).0 == member,
{
    let s = class + seq!['#'] + member;
    reveal_strlit("()");
    reveal_strlit("().");
    let n = class.len() as int;
    assert(s[n] == '#');
    assert forall|k: int| n < k < s.len() implies s[k] != '#' by {
        assert(s[k] == member[k - n - 1]);
    }
    lemma_rfind_at(s, '#', n);
    assert(s.skip(n + 1) =~= member);
    let a = s + "()"@;
    let b = s + "()."@;
    assert(a.subrange(a.len() - 2, a.len() as int) =~= "()"@);
    assert(ends_with(a, "()"@));
    assert(!ends_with(a, "()."@)) by {
        if ends_with(a, "()."@) {
            assert(a.subrange(a.len() - 3, a.len() as int)[2] == a[a.len() - 1]);
        }
    }
    assert(a.take(a.len() - 2) =~= s);
    assert(b.subrange(b.len() - 3, b.len() as int) =~= "()."@);
    assert(ends_with(b, "()."@));
    assert(b.take(b.len() - 3) =~= s);
}

/// The short name of a class is what stands behind its namespace, and gives no
/// hint.
pub proof fn lemma_class_name(namespace: Seq<char>, class: Seq<char>)
    requires
        lacks(namespace, '#'),
        lacks(class, '#'),
        lacks(class, '\\'),
        !ends_with(namespace + seq!['\\'] + class, "()"@),
        !ends_with(namespace + seq!['\\'] + class, "()."@),
    ensures
        fqn_parts(namespace + seq!['\\'] + class).0 == class,
        fqn_parts(namespace + seq!['\\'] + class).1 is None,
{
    let s = namespace + seq!['\\'] + class;
    let n = namespace.len() as int;
    assert(lacks(s, '#')) by {
        assert forall|k: int| 0 <= k < s.len() implies s[k] != '#' by {
            if k < n {
                assert(s[k] == namespace[k]);
            } else if k > n {
                assert(s[k] == class[k - n - 1]);
            }
        }
    }
    lemma_rfind_char(s, '#');
    assert(s[n] == '\\');
    assert forall|k: int| n < k < s.len() implies s[k] != '\\' by {
        assert(s[k] == class[k - n - 1]);
    }
    lemma_rfind_at(s, '\\', n);
    assert(s.skip(n + 1) =~= class);
}

/// A search fetches no fewer results than are asked for, and at least twenty where
/// few are asked for.
pub proof fn lemma_fetch_base(limit: int)
    ensures
        base_of(limit) >= limit,
        limit <= 10 ==> base_of(limit) == 20,
        limit > 10 ==> base_of(limit) == limit,
{
}

/// Without embeddings a search is one by keywords, whatever else is set up; with
/// them it is one by meaning, over variants of the query where these are asked
/// for. Once its results are there they are reranked if and only if that is set up.
pub proof fn lemma_search_legs(run: SearchRun)
    ensures
        run.leg_after_probe(false) is Keyword,
        run.leg_after_probe(true) is Variants <==> run.setup.expansion,
        run.leg_after_probe(true) is Semantic <==> !run.setup.expansion,
        run.settled().step is Rerank <==> run.setup.reranking,
        run.settled().step is Done <==> !run.setup.reranking,
        run.settled().query == run.query && run.settled().results == run.results,
{
}

} // verus!
