//! Structural expansion of search results: the callers and callees of what was
//! found, ranked by how well they are connected to it.

use vstd::prelude::*;
use crate::domain::{CodeChunk, SearchQuery, SearchResult, SymbolReference};
use crate::fusion::{
    Keyed, SCORE_ONE, concat, first_of_each, has_key, lemma_concat_prefix, lemma_first_of_each,
    views,
};
use crate::order::{Ranked, arrange, arranged, lemma_text_order, text_less, text_lt};
use crate::patterns::{fqn_parts, parse_fqn, short_name, short_symbol_name};
use crate::text::{chars_of, contains_text, has_part, has_text, opt_str, opt_text, same_text, texts};

verus! {

/// Number of top results whose symbols seed the expansion.
pub const GRAPH_SEED_COUNT: usize = 5;

/// Most direct references fetched per seed and direction.
pub const GRAPH_NEIGHBOR_FETCH_LIMIT: u32 = 25;

/// Most chunks that the expansion returns.
pub const GRAPH_LEG_LIMIT: usize = 20;

/// A symbol that seeds the expansion, with its repository.
pub struct SeedSymbol {
    pub symbol: String,
    pub repository_id: String,
}

/// The references fetched for one seed.
pub struct SeedEdges {
    pub callers: Vec<SymbolReference>,
    pub callees: Vec<SymbolReference>,
}

/// One edge between a seed and a neighbour, seen from the seed.
pub struct NeighborEdge {
    pub symbol: String,
    pub repository_id: String,
}

/// How well one neighbour is connected.
pub struct NeighborScore {
    pub symbol: String,
    /// Number of seeds that the neighbour is connected to.
    pub seed_count: usize,
    /// Number of edges to the neighbour.
    pub edge_count: usize,
    /// Repository of the first edge to the neighbour.
    pub repository_id: String,
}

/// A chunk found for a symbol of a repository.
pub struct FetchedChunk {
    pub repository_id: String,
    pub chunk: CodeChunk,
}

/// The symbols to look up in one repository.
pub struct RepositoryLookup {
    pub repository_id: String,
    pub symbols: Vec<String>,
}

impl Keyed for NeighborEdge {
    open spec fn key(self) -> Seq<char> {
        self.symbol@
    }

    fn key_text(&self) -> (r: &str) {
        self.symbol.as_str()
    }
}

impl Keyed for SeedSymbol {
    open spec fn key(self) -> Seq<char> {
        self.symbol@
    }

    fn key_text(&self) -> (r: &str) {
        self.symbol.as_str()
    }
}

impl Ranked for NeighborScore {
    /// Most seeds first, then most edges, then by name.
    open spec fn ranks_before(self, other: Self) -> bool {
        ||| self.seed_count > other.seed_count
        ||| self.seed_count == other.seed_count && self.edge_count > other.edge_count
        ||| self.seed_count == other.seed_count && self.edge_count == other.edge_count && text_lt(
            self.symbol@,
            other.symbol@,
        )
    }

    fn goes_before(&self, other: &Self) -> (r: bool) {
        if self.seed_count != other.seed_count {
            self.seed_count > other.seed_count
        } else if self.edge_count != other.edge_count {
            self.edge_count > other.edge_count
        } else {
            text_less(self.symbol.as_str(), other.symbol.as_str())
        }
    }

    proof fn rank_laws(a: Self, b: Self, c: Self) {
        lemma_text_order(a.symbol@, b.symbol@, c.symbol@);
    }
}

/// The texts of the seeds: symbol and repository.
pub open spec fn seed_texts(s: Seq<SeedSymbol>) -> Seq<(Seq<char>, Seq<char>)> {
    Seq::new(s.len(), |i: int| (s[i].symbol@, s[i].repository_id@))
}

/// Whether one of the pairs has the symbol `symbol`.
pub open spec fn names_symbol(s: Seq<(Seq<char>, Seq<char>)>, symbol: Seq<char>) -> bool {
    exists|i: int| 0 <= i < s.len() && (#[trigger] s[i]).0 == symbol
}

/// The first distinct symbols of a ranked list with the repository of each,
/// at most [`GRAPH_SEED_COUNT`].
pub open spec fn seeds_of(results: Seq<SearchResult>) -> Seq<(Seq<char>, Seq<char>)>
    decreases results.len(),
{
    if results.len() == 0 {
        Seq::empty()
    } else {
        let d = seeds_of(results.drop_last());
        let chunk = results.last().chunk;
        match chunk.symbol_name {
            Some(symbol) if d.len() < GRAPH_SEED_COUNT && !names_symbol(d, symbol@) => d.push(
                (symbol@, chunk.repository_id@),
            ),
            _ => d,
        }
    }
}

/// The first distinct symbols among the ranked results, with their
/// repositories.
pub fn seed_symbols(results: &[SearchResult]) -> (r: Vec<SeedSymbol>)
    ensures
        seed_texts(r@) == seeds_of(results@),
{
    let mut r: Vec<SeedSymbol> = Vec::new();
    let mut i: usize = 0;
    assert(seed_texts(r@) =~= seeds_of(results@.take(0)));
    while i < results.len()
        invariant
            i <= results@.len(),
            seed_texts(r@) == seeds_of(results@.take(i as int)),
        decreases results@.len() - i,
    {
        let chunk = &results[i].chunk;
        let ghost d = seeds_of(results@.take(i as int));
        proof {
            assert(results@.take(i + 1).drop_last() =~= results@.take(i as int));
            assert(results@.take(i + 1).last() == results@[i as int]);
        }
        if let Some(symbol) = &chunk.symbol_name {
            if r.len() < GRAPH_SEED_COUNT {
                let mut seen = false;
                let mut k: usize = 0;
                while k < r.len()
                    invariant
                        k <= r@.len(),
                        seed_texts(r@) == d,
                        seen == exists|m: int| 0 <= m < k && (#[trigger] d[m]).0 == symbol@,
                    decreases r@.len() - k,
                {
                    assert(d[k as int].0 == r@[k as int].symbol@);
                    if same_text(r[k].symbol.as_str(), symbol.as_str()) {
                        seen = true;
                    }
                    k += 1;
                }
                if !seen {
                    let ghost before = r@;
                    r.push(
                        SeedSymbol {
                            symbol: symbol.clone(),
                            repository_id: chunk.repository_id.clone(),
                        },
                    );
                    assert(seed_texts(r@) =~= seed_texts(before).push(
                        (symbol@, chunk.repository_id@),
                    ));
                }
            }
        }
        i += 1;
    }
    assert(results@.take(i as int) =~= results@);
    r
}

/// An edge counts unless it has no name or leads back to a seed.
pub open spec fn edge_counts(
    seeds: Seq<SeedSymbol>,
    symbol: Seq<char>,
    repository_id: Seq<char>,
) -> bool {
    symbol.len() > 0 && !seed_texts(seeds).contains((symbol, repository_id))
}

/// The texts of edges: symbol and repository.
pub open spec fn edge_texts(s: Seq<NeighborEdge>) -> Seq<(Seq<char>, Seq<char>)> {
    Seq::new(s.len(), |i: int| (s[i].symbol@, s[i].repository_id@))
}

/// The edges to named callers that count, in order.
pub open spec fn caller_edges(
    seeds: Seq<SeedSymbol>,
    refs: Seq<SymbolReference>,
) -> Seq<(Seq<char>, Seq<char>)>
    decreases refs.len(),
{
    if refs.len() == 0 {
        Seq::empty()
    } else {
        let d = caller_edges(seeds, refs.drop_last());
        match refs.last().caller_symbol {
            Some(s) if edge_counts(seeds, s@, refs.last().repository_id@) => d.push(
                (s@, refs.last().repository_id@),
            ),
            _ => d,
        }
    }
}

/// The edges to callees that count, in order.
pub open spec fn callee_edges(
    seeds: Seq<SeedSymbol>,
    refs: Seq<SymbolReference>,
) -> Seq<(Seq<char>, Seq<char>)>
    decreases refs.len(),
{
    if refs.len() == 0 {
        Seq::empty()
    } else {
        let d = callee_edges(seeds, refs.drop_last());
        let symbol = refs.last().callee_symbol@;
        if edge_counts(seeds, symbol, refs.last().repository_id@) {
            d.push((symbol, refs.last().repository_id@))
        } else {
            d
        }
    }
}

/// The edges of one seed that count: those to its callers, then those to its
/// callees.
pub open spec fn counted_edges(seeds: Seq<SeedSymbol>, edges: SeedEdges) -> Seq<
    (Seq<char>, Seq<char>),
> {
    caller_edges(seeds, edges.callers@) + callee_edges(seeds, edges.callees@)
}

fn counts(seeds: &[SeedSymbol], symbol: &str, repository_id: &str) -> (r: bool)
    ensures
        r == edge_counts(seeds@, symbol@, repository_id@),
{
    if symbol.is_empty() {
        return false;
    }
    let mut i: usize = 0;
    while i < seeds.len()
        invariant
            i <= seeds@.len(),
            forall|k: int|
                0 <= k < i ==> #[trigger] seed_texts(seeds@)[k] != (symbol@, repository_id@),
        decreases seeds@.len() - i,
    {
        let ghost st = seed_texts(seeds@);
        assert(st[i as int] == (seeds@[i as int].symbol@, seeds@[i as int].repository_id@));
        if same_text(seeds[i].symbol.as_str(), symbol) && same_text(
            seeds[i].repository_id.as_str(),
            repository_id,
        ) {
            assert(st.contains((symbol@, repository_id@)));
            return false;
        }
        i += 1;
    }
    true
}

/// The edges of one seed that count.
pub fn neighbor_edges(seeds: &[SeedSymbol], edges: &SeedEdges) -> (r: Vec<NeighborEdge>)
    ensures
        edge_texts(r@) == counted_edges(seeds@, *edges),
{
    let mut r: Vec<NeighborEdge> = Vec::new();
    let callers = &edges.callers;
    let callees = &edges.callees;
    let mut i: usize = 0;
    assert(edge_texts(r@) =~= caller_edges(seeds@, callers@.take(0)));
    while i < callers.len()
        invariant
            i <= callers@.len(),
            edge_texts(r@) == caller_edges(seeds@, callers@.take(i as int)),
        decreases callers@.len() - i,
    {
        let reference = &callers[i];
        let ghost before = r@;
        proof {
            assert(callers@.take(i + 1).drop_last() =~= callers@.take(i as int));
            assert(callers@.take(i + 1).last() == callers@[i as int]);
        }
        if let Some(caller) = &reference.caller_symbol {
            if counts(seeds, caller.as_str(), reference.repository_id.as_str()) {
                r.push(
                    NeighborEdge {
                        symbol: caller.clone(),
                        repository_id: reference.repository_id.clone(),
                    },
                );
                assert(edge_texts(r@) =~= edge_texts(before).push(
                    (caller@, reference.repository_id@),
                ));
            }
        }
        i += 1;
    }
    assert(callers@.take(i as int) =~= callers@);
    let ghost first = caller_edges(seeds@, callers@);
    let mut j: usize = 0;
    assert(first + callee_edges(seeds@, callees@.take(0)) =~= first);
    while j < callees.len()
        invariant
            j <= callees@.len(),
            edge_texts(r@) == first + callee_edges(seeds@, callees@.take(j as int)),
        decreases callees@.len() - j,
    {
        let reference = &callees[j];
        let ghost before = r@;
        proof {
            assert(callees@.take(j + 1).drop_last() =~= callees@.take(j as int));
            assert(callees@.take(j + 1).last() == callees@[j as int]);
        }
        if counts(seeds, reference.callee_symbol.as_str(), reference.repository_id.as_str()) {
            r.push(
                NeighborEdge {
                    symbol: reference.callee_symbol.clone(),
                    repository_id: reference.repository_id.clone(),
                },
            );
            proof {
                let p = (reference.callee_symbol@, reference.repository_id@);
                assert(edge_texts(r@) =~= edge_texts(before).push(p));
                assert(first + callee_edges(seeds@, callees@.take(j as int)).push(p) =~= (first
                    + callee_edges(seeds@, callees@.take(j as int))).push(p));
            }
        }
        j += 1;
    }
    assert(callees@.take(j as int) =~= callees@);
    r
}

/// Number of edges to `symbol`.
pub open spec fn edges_to(s: Seq<NeighborEdge>, symbol: Seq<char>) -> nat
    decreases s.len(),
{
    if s.len() == 0 {
        0
    } else {
        edges_to(s.drop_last(), symbol) + if s.last().symbol@ == symbol {
            1nat
        } else {
            0
        }
    }
}

/// Number of seeds with an edge to `symbol`.
pub open spec fn seeds_to(lists: Seq<Seq<NeighborEdge>>, symbol: Seq<char>) -> nat
    decreases lists.len(),
{
    if lists.len() == 0 {
        0
    } else {
        seeds_to(lists.drop_last(), symbol) + if has_key(lists.last(), symbol) {
            1nat
        } else {
            0
        }
    }
}

/// Each neighbour once, in the order in which they are first met, with its
/// number of seeds and of edges and the repository of its first edge.
pub open spec fn connected(lists: Seq<Seq<NeighborEdge>>) -> Seq<NeighborScore> {
    let firsts = first_of_each(concat(lists));
    Seq::new(
        firsts.len(),
        |i: int|
            NeighborScore {
                symbol: firsts[i].symbol,
                seed_count: seeds_to(lists, firsts[i].symbol@) as usize,
                edge_count: edges_to(concat(lists), firsts[i].symbol@) as usize,
                repository_id: firsts[i].repository_id,
            },
    )
}

proof fn lemma_edges_to(s: Seq<NeighborEdge>, symbol: Seq<char>)
    ensures
        edges_to(s, symbol) <= s.len(),
        !has_key(s, symbol) ==> edges_to(s, symbol) == 0,
    decreases s.len(),
{
    if s.len() > 0 {
        let d = s.drop_last();
        lemma_edges_to(d, symbol);
        if !has_key(s, symbol) {
            assert forall|i: int| 0 <= i < d.len() implies (#[trigger] d[i]).key() != symbol by {
                assert(s[i] == d[i]);
            }
            assert(s[s.len() - 1] == s.last());
            assert(s.last().key() == s.last().symbol@);
        }
    }
}

proof fn lemma_seeds_to(lists: Seq<Seq<NeighborEdge>>, symbol: Seq<char>)
    ensures
        seeds_to(lists, symbol) <= edges_to(concat(lists), symbol),
        !has_key(concat(lists), symbol) ==> seeds_to(lists, symbol) == 0,
    decreases lists.len(),
{
    if lists.len() > 0 {
        let a = concat(lists.drop_last());
        let b = lists.last();
        lemma_seeds_to(lists.drop_last(), symbol);
        lemma_edges_concat(a, b, symbol);
        if has_key(b, symbol) {
            lemma_some_edge(b, symbol);
        }
        if !has_key(concat(lists), symbol) {
            assert forall|i: int| 0 <= i < a.len() implies (#[trigger] a[i]).key() != symbol by {
                assert(concat(lists)[i] == a[i]);
            }
            assert forall|i: int| 0 <= i < b.len() implies (#[trigger] b[i]).key() != symbol by {
                assert(concat(lists)[a.len() + i] == b[i]);
            }
        }
    }
}

proof fn lemma_edges_concat(a: Seq<NeighborEdge>, b: Seq<NeighborEdge>, symbol: Seq<char>)
    ensures
        edges_to(a + b, symbol) == edges_to(a, symbol) + edges_to(b, symbol),
    decreases b.len(),
{
    if b.len() == 0 {
        assert(a + b =~= a);
    } else {
        lemma_edges_concat(a, b.drop_last(), symbol);
        assert((a + b).drop_last() =~= a + b.drop_last());
    }
}

proof fn lemma_some_edge(s: Seq<NeighborEdge>, symbol: Seq<char>)
    requires
        has_key(s, symbol),
    ensures
        edges_to(s, symbol) >= 1,
    decreases s.len(),
{
    let i = choose|i: int| 0 <= i < s.len() && (#[trigger] s[i]).key() == symbol;
    if i < s.len() - 1 {
        assert(s.drop_last()[i].key() == symbol);
        lemma_some_edge(s.drop_last(), symbol);
    }
}

proof fn lemma_has_key_push(s: Seq<NeighborEdge>, x: NeighborEdge, key: Seq<char>)
    ensures
        has_key(s.push(x), key) == (has_key(s, key) || x.symbol@ == key),
{
    if has_key(s, key) {
        let i = choose|i: int| 0 <= i < s.len() && (#[trigger] s[i]).key() == key;
        assert(s.push(x)[i].key() == key);
    }
    if x.symbol@ == key {
        assert(s.push(x)[s.len() as int].key() == key);
    }
    if has_key(s.push(x), key) {
        let i = choose|i: int| 0 <= i < s.push(x).len() && (#[trigger] s.push(x)[i]).key() == key;
        if i < s.len() {
            assert(s[i].key() == key);
        }
    }
}

/// Where the neighbour `symbol` stands in `s`.
fn find_neighbor(s: &[NeighborScore], symbol: &str) -> (r: Option<usize>)
    ensures
        r matches Some(i) ==> i < s@.len() && s@[i as int].symbol@ == symbol@,
        r is None ==> forall|i: int| 0 <= i < s@.len() ==> (#[trigger] s@[i]).symbol@ != symbol@,
{
    let mut i: usize = 0;
    while i < s.len()
        invariant
            i <= s@.len(),
            forall|j: int| 0 <= j < i ==> (#[trigger] s@[j]).symbol@ != symbol@,
        decreases s@.len() - i,
    {
        if same_text(s[i].symbol.as_str(), symbol) {
            return Some(i);
        }
        i += 1;
    }
    None
}

/// Records one edge for the current seed.
fn tally(neighbors: &mut Vec<NeighborScore>, repeated: bool, edge: NeighborEdge)
    requires
        forall|i: int|
            0 <= i < old(neighbors)@.len() ==> (#[trigger] old(neighbors)@[i]).edge_count
                < usize::MAX,
        forall|i: int|
            0 <= i < old(neighbors)@.len() ==> (#[trigger] old(neighbors)@[i]).seed_count
                < usize::MAX,
    ensures
        ({
            let s = old(neighbors)@;
            let gain: usize = if repeated {
                0
            } else {
                1
            };
            ||| exists|i: int|
                0 <= i < s.len() && (#[trigger] s[i]).symbol@ == edge.symbol@ && final(neighbors)@
                    == s.update(
                    i,
                    NeighborScore {
                        edge_count: (s[i].edge_count + 1) as usize,
                        seed_count: (s[i].seed_count + gain) as usize,
                        ..s[i]
                    },
                )
            ||| (forall|i: int| 0 <= i < s.len() ==> (#[trigger] s[i]).symbol@ != edge.symbol@)
                && final(neighbors)@ == s.push(
                NeighborScore {
                    symbol: edge.symbol,
                    seed_count: gain,
                    edge_count: 1,
                    repository_id: edge.repository_id,
                },
            )
        }),
{
    let gain: usize = if repeated {
        0
    } else {
        1
    };
    let ghost s = neighbors@;
    match find_neighbor(neighbors, edge.symbol.as_str()) {
        Some(i) => {
            let edge_count: usize = neighbors[i].edge_count + 1;
            let seed_count: usize = neighbors[i].seed_count + gain;
            neighbors[i].edge_count = edge_count;
            neighbors[i].seed_count = seed_count;
            proof {
                let u = NeighborScore { edge_count, seed_count, ..s[i as int] };
                assert(neighbors@ =~= s.update(i as int, u));
                assert(s[i as int].symbol@ == edge.symbol@);
            }
        },
        None => {
            neighbors.push(
                NeighborScore {
                    symbol: edge.symbol,
                    seed_count: gain,
                    edge_count: 1,
                    repository_id: edge.repository_id,
                },
            );
        },
    }
}

/// Counts, for each neighbour, the seeds and the edges that lead to it.
pub fn connect(lists: Vec<Vec<NeighborEdge>>) -> (r: Vec<NeighborScore>)
    requires
        concat(views(lists@)).len() <= usize::MAX,
    ensures
        r@ == connected(views(lists@)),
{
    let ghost all = views(lists@);
    let mut acc: Vec<NeighborScore> = Vec::new();
    proof {
        assert(concat(all.take(0)) =~= Seq::<NeighborEdge>::empty());
        assert(connected(all.take(0)) =~= Seq::<NeighborScore>::empty());
    }
    for list in it: lists
        invariant
            it.seq() == lists@,
            all == views(lists@),
            concat(all).len() <= usize::MAX,
            acc@ == connected(all.take(it.index() as int)),
    {
        let ghost l = it.index() as int;
        let ghost done = all.take(l);
        let ghost cur = list@;
        let mut met: Vec<String> = Vec::new();
        proof {
            assert(all[l] == cur);
            assert(all.take(l + 1) =~= done.push(cur));
            lemma_concat_prefix(all, l + 1);
            assert(done.push(cur).drop_last() =~= done);
            let e = done.push(cur.take(0));
            assert(e.drop_last() =~= done);
            assert(concat(e) =~= concat(done));
            assert forall|k: Seq<char>| seeds_to(e, k) == seeds_to(done, k) by {
                assert(e.last() == cur.take(0));
                assert(!has_key(cur.take(0), k));
            }
            assert(connected(e) =~= connected(done));
        }
        for x in it2: list
            invariant
                it2.seq() == cur,
                acc@ == connected(done.push(cur.take(it2.index() as int))),
                forall|k: Seq<char>| #[trigger]
                    texts(met@).contains(k) <==> has_key(cur.take(it2.index() as int), k),
                concat(done).len() + cur.len() <= usize::MAX,
        {
            let ghost r = it2.index() as int;
            let ghost old_lists = done.push(cur.take(r));
            let ghost new_lists = done.push(cur.take(r + 1));
            let ghost before = acc@;
            let ghost met_before = met@;
            proof {
                assert(old_lists.drop_last() =~= done);
                assert(new_lists.drop_last() =~= done);
                assert(cur.take(r + 1) =~= cur.take(r).push(x));
                assert(concat(new_lists) =~= concat(old_lists).push(x));
                assert(concat(new_lists).drop_last() =~= concat(old_lists));
                lemma_first_of_each(concat(old_lists));
                assert forall|k: Seq<char>| #[trigger] has_key(cur.take(r + 1), k) == (has_key(
                    cur.take(r),
                    k,
                ) || x.symbol@ == k) by {
                    lemma_has_key_push(cur.take(r), x, k);
                }
                assert forall|k: Seq<char>| #[trigger] edges_to(concat(old_lists), k) <= concat(
                    old_lists,
                ).len() && seeds_to(old_lists, k) <= edges_to(concat(old_lists), k) by {
                    lemma_edges_to(concat(old_lists), k);
                    lemma_seeds_to(old_lists, k);
                }
                let f = first_of_each(concat(old_lists));
                assert forall|i: int| 0 <= i < acc@.len() implies (#[trigger] acc@[i]).edge_count
                    == edges_to(concat(old_lists), f[i].symbol@) by {}
            }
            let repeated = has_text(&met, x.symbol.as_str());
            if !repeated {
                met.push(x.symbol.clone());
            }
            proof {
                assert forall|k: Seq<char>| #[trigger]
                    texts(met@).contains(k) <==> has_key(cur.take(r + 1), k) by {
                    if repeated {
                        assert(texts(met@) =~= texts(met_before));
                        assert(has_key(cur.take(r), x.symbol@));
                    } else {
                        assert(texts(met@) =~= texts(met_before).push(x.symbol@));
                        if k == x.symbol@ {
                            assert(texts(met@)[met_before.len() as int] == k);
                        }
                        if texts(met_before).contains(k) {
                            let j = choose|j: int|
                                0 <= j < texts(met_before).len() && texts(met_before)[j] == k;
                            assert(texts(met@)[j] == k);
                        }
                        if texts(met@).contains(k) && k != x.symbol@ {
                            let j = choose|j: int|
                                0 <= j < texts(met@).len() && texts(met@)[j] == k;
                            assert(texts(met_before)[j] == k);
                        }
                    }
                }
            }
            let ghost edge = x;
            tally(&mut acc, repeated, x);
            proof {
                let f = first_of_each(concat(old_lists));
                if exists|i: int| 0 <= i < before.len() && (#[trigger] before[i]).symbol@
                    == edge.symbol@ {
                    let i = choose|i: int|
                        0 <= i < before.len() && (#[trigger] before[i]).symbol@ == edge.symbol@;
                    assert(f[i].key() == edge.key());
                    assert(has_key(f, edge.key()));
                    assert(first_of_each(concat(new_lists)) == f);
                    assert(acc@ =~= connected(new_lists));
                } else {
                    assert forall|i: int| 0 <= i < f.len() implies (#[trigger] f[i]).key()
                        != edge.key() by {
                        assert(before[i].symbol@ == f[i].symbol@);
                    }
                    assert(!has_key(f, edge.key()));
                    assert(!has_key(concat(old_lists), edge.key()));
                    lemma_edges_to(concat(old_lists), edge.symbol@);
                    lemma_seeds_to(old_lists, edge.symbol@);
                    assert(first_of_each(concat(new_lists)) == f.push(edge));
                    assert(acc@ =~= connected(new_lists));
                }
            }
        }
        proof {
            assert(cur.take(cur.len() as int) =~= cur);
        }
    }
    proof {
        assert(all.take(all.len() as int) =~= all);
    }
    acc
}

/// The lists of edges of each seed that count, in the order of the seeds.
pub open spec fn edge_lists(seeds: Seq<SeedSymbol>, edges: Seq<SeedEdges>) -> Seq<
    Seq<(Seq<char>, Seq<char>)>,
> {
    Seq::new(edges.len(), |i: int| counted_edges(seeds, edges[i]))
}

/// The texts of lists of edges.
pub open spec fn list_texts(lists: Seq<Seq<NeighborEdge>>) -> Seq<Seq<(Seq<char>, Seq<char>)>> {
    Seq::new(lists.len(), |i: int| edge_texts(lists[i]))
}

/// The number of references fetched for all seeds.
pub open spec fn total_references(edges: Seq<SeedEdges>) -> nat
    decreases edges.len(),
{
    if edges.len() == 0 {
        0
    } else {
        total_references(edges.drop_last()) + edges.last().callers@.len()
            + edges.last().callees@.len()
    }
}

proof fn lemma_counted_len(seeds: Seq<SeedSymbol>, refs: Seq<SymbolReference>)
    ensures
        caller_edges(seeds, refs).len() <= refs.len(),
        callee_edges(seeds, refs).len() <= refs.len(),
    decreases refs.len(),
{
    if refs.len() > 0 {
        lemma_counted_len(seeds, refs.drop_last());
    }
}

proof fn lemma_total_references(seeds: Seq<SeedSymbol>, edges: Seq<SeedEdges>)
    ensures
        concat(edge_lists(seeds, edges)).len() <= total_references(edges),
    decreases edges.len(),
{
    if edges.len() > 0 {
        lemma_total_references(seeds, edges.drop_last());
        lemma_counted_len(seeds, edges.last().callers@);
        lemma_counted_len(seeds, edges.last().callees@);
        assert(edge_lists(seeds, edges).drop_last() =~= edge_lists(seeds, edges.drop_last()));
        assert(edge_lists(seeds, edges).last() == counted_edges(seeds, edges.last()));
    }
}

/// The neighbours of the seeds, best connected first.
pub fn rank_neighbors(seeds: &[SeedSymbol], edges: &[SeedEdges]) -> (r: Vec<NeighborScore>)
    requires
        total_references(edges@) <= usize::MAX,
    ensures
        exists|lists: Seq<Seq<NeighborEdge>>| #[trigger]
            list_texts(lists) == edge_lists(seeds@, edges@) && r@ == arranged(connected(lists)),
{
    let mut lists: Vec<Vec<NeighborEdge>> = Vec::new();
    let mut i: usize = 0;
    let ghost want = edge_lists(seeds@, edges@);
    assert(want.take(0) =~= Seq::empty());
    while i < edges.len()
        invariant
            i <= edges@.len(),
            want == edge_lists(seeds@, edges@),
            list_texts(views(lists@)) == want.take(i as int),
            concat(want.take(i as int)).len() == concat(views(lists@)).len(),
        decreases edges@.len() - i,
    {
        let list = neighbor_edges(seeds, &edges[i]);
        let ghost before = lists@;
        lists.push(list);
        proof {
            assert(want.take(i + 1).drop_last() =~= want.take(i as int));
            assert(want.take(i + 1).last() == want[i as int]);
            assert(edge_texts(list@).len() == list@.len());
            assert(views(lists@).drop_last() =~= views(before));
            assert(views(lists@).last() == list@);
            assert(list_texts(views(lists@)) =~= want.take(i + 1));
        }
        i += 1;
    }
    proof {
        assert(want.take(i as int) =~= want);
        lemma_total_references(seeds@, edges@);
    }
    arrange(connect(lists))
}

/// The short names, where not empty, of the neighbours of one repository.
pub open spec fn short_names_in(ranked: Seq<NeighborScore>, repository_id: Seq<char>) -> Seq<
    Seq<char>,
>
    decreases ranked.len(),
{
    if ranked.len() == 0 {
        Seq::empty()
    } else {
        let d = short_names_in(ranked.drop_last(), repository_id);
        let short = short_name(ranked.last().symbol@);
        if ranked.last().repository_id@ == repository_id && short.len() > 0 {
            d.push(short)
        } else {
            d
        }
    }
}

/// The repositories of the neighbours with a short name, each once.
pub open spec fn lookup_repositories(ranked: Seq<NeighborScore>) -> Seq<Seq<char>>
    decreases ranked.len(),
{
    if ranked.len() == 0 {
        Seq::empty()
    } else {
        let d = lookup_repositories(ranked.drop_last());
        let repository_id = ranked.last().repository_id@;
        if short_name(ranked.last().symbol@).len() == 0 || d.contains(repository_id) {
            d
        } else {
            d.push(repository_id)
        }
    }
}

/// The lookups that find the definitions of the neighbours: one for each
/// repository, with the short names of its neighbours.
pub open spec fn lookups_of(ranked: Seq<NeighborScore>) -> Seq<(Seq<char>, Seq<Seq<char>>)> {
    let repositories = lookup_repositories(ranked);
    Seq::new(
        repositories.len(),
        |i: int| (repositories[i], short_names_in(ranked, repositories[i])),
    )
}

/// The texts of lookups.
pub open spec fn lookup_texts(s: Seq<RepositoryLookup>) -> Seq<(Seq<char>, Seq<Seq<char>>)> {
    Seq::new(s.len(), |i: int| (s[i].repository_id@, texts(s[i].symbols@)))
}

/// Plans one lookup of definition chunks for each repository.
pub fn plan_lookups(ranked: &[NeighborScore]) -> (r: Vec<RepositoryLookup>)
    ensures
        lookup_texts(r@) == lookups_of(ranked@),
{
    let mut repositories: Vec<String> = Vec::new();
    let mut i: usize = 0;
    assert(texts(repositories@) =~= lookup_repositories(ranked@.take(0)));
    while i < ranked.len()
        invariant
            i <= ranked@.len(),
            texts(repositories@) == lookup_repositories(ranked@.take(i as int)),
        decreases ranked@.len() - i,
    {
        let entry = &ranked[i];
        let ghost before = repositories@;
        proof {
            assert(ranked@.take(i + 1).drop_last() =~= ranked@.take(i as int));
            assert(ranked@.take(i + 1).last() == ranked@[i as int]);
        }
        if !short_symbol_name(entry.symbol.as_str()).is_empty() && !has_text(
            &repositories,
            entry.repository_id.as_str(),
        ) {
            repositories.push(entry.repository_id.clone());
            assert(texts(repositories@) =~= texts(before).push(entry.repository_id@));
        }
        i += 1;
    }
    assert(ranked@.take(i as int) =~= ranked@);
    let mut r: Vec<RepositoryLookup> = Vec::new();
    let mut k: usize = 0;
    while k < repositories.len()
        invariant
            k <= repositories@.len(),
            texts(repositories@) == lookup_repositories(ranked@),
            r@.len() == k,
            forall|m: int| 0 <= m < k ==> #[trigger] lookup_texts(r@)[m] == lookups_of(ranked@)[m],
        decreases repositories@.len() - k,
    {
        let repository_id = &repositories[k];
        let mut symbols: Vec<String> = Vec::new();
        let mut j: usize = 0;
        assert(texts(symbols@) =~= short_names_in(ranked@.take(0), repository_id@));
        while j < ranked.len()
            invariant
                j <= ranked@.len(),
                texts(symbols@) == short_names_in(ranked@.take(j as int), repository_id@),
            decreases ranked@.len() - j,
        {
            let ghost before = symbols@;
            proof {
                assert(ranked@.take(j + 1).drop_last() =~= ranked@.take(j as int));
                assert(ranked@.take(j + 1).last() == ranked@[j as int]);
            }
            let short = short_symbol_name(ranked[j].symbol.as_str());
            if !short.is_empty() && same_text(
                ranked[j].repository_id.as_str(),
                repository_id.as_str(),
            ) {
                symbols.push(short.to_string());
                assert(texts(symbols@) =~= texts(before).push(short@));
            }
            j += 1;
        }
        assert(ranked@.take(j as int) =~= ranked@);
        let ghost r_before = r@;
        assert(texts(repositories@)[k as int] == repository_id@);
        r.push(RepositoryLookup { repository_id: repository_id.clone(), symbols });
        proof {
            assert forall|m: int| 0 <= m < k + 1 implies #[trigger] lookup_texts(r@)[m]
                == lookups_of(ranked@)[m] by {
                if m < k {
                    assert(lookup_texts(r_before)[m] == lookups_of(ranked@)[m]);
                }
            }
        }
        k += 1;
    }
    assert(lookup_texts(r@) =~= lookups_of(ranked@));
    r
}

/// The chunk was found in the repository under the short name.
pub open spec fn is_candidate(
    f: FetchedChunk,
    repository_id: Seq<char>,
    short: Seq<char>,
) -> bool {
    f.repository_id@ == repository_id && opt_text(f.chunk.symbol_name) == Some(short)
}

/// The number of lines that the chunk spans beyond its first.
pub open spec fn span(c: CodeChunk) -> int {
    if c.end_line >= c.start_line {
        c.end_line - c.start_line
    } else {
        0
    }
}

/// How a definition chunk is preferred: files that match the class hint
/// first, then the tightest scope.
pub open spec fn preference(c: CodeChunk, hint: Option<Seq<char>>) -> (int, int) {
    (
        match hint {
            Some(h) => if contains_text(c.file_path@, h) {
                0
            } else {
                1
            },
            None => 0,
        },
        span(c),
    )
}

/// Pairs in lexicographic order.
pub open spec fn pair_lt(a: (int, int), b: (int, int)) -> bool {
    a.0 < b.0 || (a.0 == b.0 && a.1 < b.1)
}

/// The first of the most preferred candidates, or -1.
pub open spec fn best_candidate(
    fetched: Seq<FetchedChunk>,
    repository_id: Seq<char>,
    short: Seq<char>,
    hint: Option<Seq<char>>,
) -> int
    decreases fetched.len(),
{
    if fetched.len() == 0 {
        -1
    } else {
        let d = fetched.drop_last();
        let b = best_candidate(d, repository_id, short, hint);
        if is_candidate(fetched.last(), repository_id, short) && (b < 0 || pair_lt(
            preference(fetched.last().chunk, hint),
            preference(d[b].chunk, hint),
        )) {
            fetched.len() - 1
        } else {
            b
        }
    }
}

/// The best candidate is a candidate, no candidate is preferred to it, and
/// none that stands before it is as good.
pub proof fn lemma_best_candidate(
    fetched: Seq<FetchedChunk>,
    repository_id: Seq<char>,
    short: Seq<char>,
    hint: Option<Seq<char>>,
)
    ensures
        ({
            let b = best_candidate(fetched, repository_id, short, hint);
            &&& -1 <= b < fetched.len()
            &&& b == -1 ==> forall|i: int|
                0 <= i < fetched.len() ==> !is_candidate(
                    #[trigger] fetched[i],
                    repository_id,
                    short,
                )
            &&& b >= 0 ==> is_candidate(fetched[b], repository_id, short)
            &&& b >= 0 ==> forall|i: int|
                0 <= i < fetched.len() && is_candidate(#[trigger] fetched[i], repository_id, short)
                    ==> !pair_lt(
                    preference(fetched[i].chunk, hint),
                    preference(fetched[b].chunk, hint),
                )
            &&& b >= 0 ==> forall|i: int|
                0 <= i < b && is_candidate(#[trigger] fetched[i], repository_id, short)
                    ==> pair_lt(
                    preference(fetched[b].chunk, hint),
                    preference(fetched[i].chunk, hint),
                )
        }),
    decreases fetched.len(),
{
    if fetched.len() > 0 {
        let d = fetched.drop_last();
        lemma_best_candidate(d, repository_id, short, hint);
        let b = best_candidate(fetched, repository_id, short, hint);
        assert forall|i: int| 0 <= i < d.len() implies fetched[i] == #[trigger] d[i] by {}
        assert forall|i: int| 0 <= i < d.len() implies d[i] == #[trigger] fetched[i] by {}
        assert(fetched[fetched.len() - 1] == fetched.last());
    }
}

/// How a definition chunk is preferred.
fn preference_of(c: &CodeChunk, hint: Option<&str>) -> (r: (u32, u32))
    ensures
        (r.0 as int, r.1 as int) == preference(*c, opt_str(hint)),
{
    let rank: u32 = match hint {
        Some(h) => {
            let path = chars_of(c.file_path.as_str());
            let part = chars_of(h);
            if has_part(&path, &part) {
                0
            } else {
                1
            }
        },
        None => 0,
    };
    let lines: u32 = if c.end_line >= c.start_line {
        c.end_line - c.start_line
    } else {
        0
    };
    (rank, lines)
}

/// The definition chunk of a symbol among those that were found.
pub fn pick_definition(
    fetched: &[FetchedChunk],
    repository_id: &str,
    short: &str,
    hint: Option<&str>,
) -> (r: Option<usize>)
    ensures
        r matches Some(i) ==> i == best_candidate(
            fetched@,
            repository_id@,
            short@,
            opt_str(hint),
        ) && i < fetched@.len(),
        r is None ==> best_candidate(fetched@, repository_id@, short@, opt_str(hint)) == -1,
{
    let mut best: Option<usize> = None;
    let mut i: usize = 0;
    let ghost h = opt_str(hint);
    while i < fetched.len()
        invariant
            i <= fetched@.len(),
            h == opt_str(hint),
            best matches Some(b) ==> b < i && b == best_candidate(
                fetched@.take(i as int),
                repository_id@,
                short@,
                h,
            ),
            best is None ==> best_candidate(fetched@.take(i as int), repository_id@, short@, h)
                == -1,
        decreases fetched@.len() - i,
    {
        let f = &fetched[i];
        proof {
            assert(fetched@.take(i + 1).drop_last() =~= fetched@.take(i as int));
            assert(fetched@.take(i + 1).last() == fetched@[i as int]);
        }
        let named = match &f.chunk.symbol_name {
            Some(s) => same_text(s.as_str(), short),
            None => false,
        };
        if named && same_text(f.repository_id.as_str(), repository_id) {
            let p = preference_of(&f.chunk, hint);
            match best {
                Some(b) => {
                    let q = preference_of(&fetched[b].chunk, hint);
                    assert(fetched@.take(i as int)[b as int] == fetched@[b as int]);
                    if p.0 < q.0 || (p.0 == q.0 && p.1 < q.1) {
                        best = Some(i);
                    }
                },
                None => {
                    best = Some(i);
                },
            }
        }
        i += 1;
    }
    assert(fetched@.take(i as int) =~= fetched@);
    best
}

/// One of the results holds the chunk known as `id`.
pub open spec fn holds_chunk(s: Seq<SearchResult>, id: Seq<char>) -> bool {
    has_key(s, id)
}

/// The definition chunks of the neighbours, in their order: those that the
/// query admits, none twice, at most [`GRAPH_LEG_LIMIT`].
pub open spec fn selected(
    ranked: Seq<NeighborScore>,
    fetched: Seq<FetchedChunk>,
    query: SearchQuery,
) -> Seq<SearchResult>
    decreases ranked.len(),
{
    if ranked.len() == 0 {
        Seq::empty()
    } else {
        let acc = selected(ranked.drop_last(), fetched, query);
        let n = ranked.last();
        let parts = fqn_parts(n.symbol@);
        let b = best_candidate(fetched, n.repository_id@, parts.0, parts.1);
        if acc.len() >= GRAPH_LEG_LIMIT || b < 0 || !query.admits(fetched[b].chunk) || holds_chunk(
            acc,
            fetched[b].chunk.id@,
        ) {
            acc
        } else {
            acc.push(
                SearchResult {
                    chunk: fetched[b].chunk,
                    score: (SCORE_ONE as int / (acc.len() as int + 1)) as i128,
                },
            )
        }
    }
}

/// The chunks that expansion adds: the definitions of the ranked neighbours.
pub fn select_chunks(
    ranked: &[NeighborScore],
    fetched: &[FetchedChunk],
    query: &SearchQuery,
) -> (r: Vec<SearchResult>)
    ensures
        r@ == selected(ranked@, fetched@, *query),
{
    let mut r: Vec<SearchResult> = Vec::new();
    let mut i: usize = 0;
    assert(r@ =~= selected(ranked@.take(0), fetched@, *query));
    while i < ranked.len()
        invariant
            i <= ranked@.len(),
            r@ == selected(ranked@.take(i as int), fetched@, *query),
        decreases ranked@.len() - i,
    {
        proof {
            assert(ranked@.take(i + 1).drop_last() =~= ranked@.take(i as int));
            assert(ranked@.take(i + 1).last() == ranked@[i as int]);
        }
        if r.len() < GRAPH_LEG_LIMIT {
            let n = &ranked[i];
            let parts = parse_fqn(n.symbol.as_str());
            if let Some(b) = pick_definition(fetched, n.repository_id.as_str(), parts.0, parts.1) {
                let chunk = &fetched[b].chunk;
                if query.matches(chunk) {
                    let mut seen = false;
                    let mut k: usize = 0;
                    while k < r.len()
                        invariant
                            k <= r@.len(),
                            seen == exists|m: int|
                                0 <= m < k && (#[trigger] r@[m]).key() == chunk.id@,
                        decreases r@.len() - k,
                    {
                        assert(r@[k as int].key() == r@[k as int].chunk.id@);
                        if same_text(r[k].chunk.id.as_str(), chunk.id.as_str()) {
                            seen = true;
                        }
                        k += 1;
                    }
                    if !seen {
                        let score: i128 = (SCORE_ONE / (r.len() as u128 + 1)) as i128;
                        r.push(SearchResult { chunk: chunk.copied(), score });
                    }
                }
            }
        }
        i += 1;
    }
    assert(ranked@.take(i as int) =~= ranked@);
    r
}

/// What expansion adds holds no chunk twice, only chunks that the query
/// admits, and no more than the limit.
pub proof fn lemma_selected(
    ranked: Seq<NeighborScore>,
    fetched: Seq<FetchedChunk>,
    query: SearchQuery,
)
    ensures
        selected(ranked, fetched, query).len() <= GRAPH_LEG_LIMIT,
        forall|i: int|
            0 <= i < selected(ranked, fetched, query).len() ==> query.admits(
                (#[trigger] selected(ranked, fetched, query)[i]).chunk,
            ),
        forall|i: int, j: int|
            0 <= i < j < selected(ranked, fetched, query).len() ==> (#[trigger] selected(
                ranked,
                fetched,
                query,
            )[i]).chunk.id@ != (#[trigger] selected(ranked, fetched, query)[j]).chunk.id@,
    decreases ranked.len(),
{
    if ranked.len() > 0 {
        lemma_selected(ranked.drop_last(), fetched, query);
        let acc = selected(ranked.drop_last(), fetched, query);
        let all = selected(ranked, fetched, query);
        if all.len() > acc.len() {
            let id = all.last().chunk.id@;
            assert(!has_key(acc, id));
            assert forall|i: int| 0 <= i < acc.len() implies (#[trigger] all[i]).chunk.id@
                != id by {
                assert(acc[i].key() == acc[i].chunk.id@);
            }
        }
    }
}

} // verus!
