//! Communities of symbols: the weighted graph of who refers to whom, the scored
//! communities that a partition of it makes, and how they are found and drawn.

use vstd::prelude::*;
use vstd::string::*;
use crate::cluster_detection::{
    ClusterView, WEIGHT_ONE, WEIGHT_TENTH, cohesion, cohesion_of, count_labels, dominant,
    dominant_language, file_language, kind_tenths, kind_weight, label_count, label_members,
    language_of, lemma_place_of, members_with, place_files, place_of, places_texts,
};
use crate::collections::{TextMap, has_entry};
use crate::domain::{DomainError, Repository, SymbolReference};
use crate::module_overview::{
    CommunityMeta, GraphEdge, GraphLevel, GraphNode, GraphNodeView, GraphView, community_label,
    degree_of, graph_node_views,
};
use crate::order::{Ranked, arrange, arranged, lemma_text_order, text_less, text_lt, texts_rise};
use crate::pair_weights::{PairEntry, add_weight, heavier, lemma_pair_value, pair_value, pairs_rise};
use crate::patterns::is_separator;
use crate::text::{chars_of, contains_text, has_part, has_text, opt_text, same_text, texts};
use crate::unicode::lowercase;

verus! {

/// A community of symbols.
#[derive(Debug)]
pub struct SymbolCommunity {
    pub id: String,
    pub display_name: Option<String>,
    pub repository_id: String,
    pub dominant_language: String,
    pub size: usize,
    /// Parts of [`COHESION_ONE`]: the share of edges that stay inside.
    pub cohesion: u64,
    pub members: Vec<String>,
}

/// The communities of a repository.
#[derive(Debug)]
pub struct SymbolCommunityGraph {
    pub communities: Vec<SymbolCommunity>,
    pub repository_id: String,
    pub total_symbols: usize,
    pub total_edges: usize,
}

impl View for SymbolCommunity {
    type V = ClusterView;

    open spec fn view(&self) -> ClusterView {
        ClusterView {
            id: self.id@,
            display_name: opt_text(self.display_name),
            repository_id: self.repository_id@,
            dominant_language: self.dominant_language@,
            size: self.size as nat,
            cohesion: self.cohesion,
            members: texts(self.members@),
        }
    }
}

/// What communities say.
pub open spec fn community_views(s: Seq<SymbolCommunity>) -> Seq<ClusterView> {
    Seq::new(s.len(), |i: int| s[i]@)
}

impl Ranked for SymbolCommunity {
    /// Largest first, then by id.
    open spec fn ranks_before(self, other: Self) -> bool {
        self.size > other.size || (self.size == other.size && text_lt(self.id@, other.id@))
    }

    fn goes_before(&self, other: &Self) -> (r: bool) {
        if self.size != other.size {
            self.size > other.size
        } else {
            text_less(self.id.as_str(), other.id.as_str())
        }
    }

    proof fn rank_laws(a: Self, b: Self, c: Self) {
        lemma_text_order(a.id@, b.id@, c.id@);
    }
}

/// The undirected weighted graph of symbols.
pub struct SymbolGraph {
    /// The symbols, rising.
    pub symbols: Vec<String>,
    /// The language of each symbol: that of the first reference to or from it.
    pub language_of: TextMap<String>,
    /// The repository of each symbol: that of the last reference from it, or of
    /// the first to it where none comes from it.
    pub repo_of: TextMap<String>,
    /// The pairs of places that refer to each other, rising, with the weights of
    /// their references summed up.
    pub edges: Vec<PairEntry>,
}

/// The reference joins two symbols: it has a caller, which is not the callee.
pub open spec fn joins_symbols(r: SymbolReference) -> bool {
    r.caller_symbol is Some && r.caller_symbol->Some_0@ != r.callee_symbol@
}

/// The reference joins the symbol with another.
pub open spec fn touches_symbol(r: SymbolReference, x: Seq<char>) -> bool {
    joins_symbols(r) && (r.caller_symbol->Some_0@ == x || r.callee_symbol@ == x)
}

/// One of the references joins the symbol with another.
pub open spec fn joined_symbol(refs: Seq<SymbolReference>, x: Seq<char>) -> bool {
    exists|i: int| 0 <= i < refs.len() && touches_symbol(#[trigger] refs[i], x)
}

/// The language of the first reference that joins the symbol.
pub open spec fn first_language(refs: Seq<SymbolReference>, x: Seq<char>) -> Option<Seq<char>>
    decreases refs.len(),
{
    if refs.len() == 0 {
        None
    } else {
        let d = first_language(refs.drop_last(), x);
        if d is None && touches_symbol(refs.last(), x) {
            Some(refs.last().language.name())
        } else {
            d
        }
    }
}

/// The repository of the symbol.
pub open spec fn owner_of(refs: Seq<SymbolReference>, x: Seq<char>) -> Option<Seq<char>>
    decreases refs.len(),
{
    if refs.len() == 0 {
        None
    } else {
        let d = owner_of(refs.drop_last(), x);
        let r = refs.last();
        if touches_symbol(r, x) && (r.caller_symbol->Some_0@ == x || d is None) {
            Some(r.repository_id@)
        } else {
            d
        }
    }
}

/// The places of the two symbols that a reference joins, the lesser first.
pub open spec fn reference_pair(symbols: Seq<Seq<char>>, r: SymbolReference) -> Option<
    (usize, usize),
> {
    if !joins_symbols(r) {
        None
    } else {
        let u = place_of(symbols, r.caller_symbol->Some_0@);
        let v = place_of(symbols, r.callee_symbol@);
        if u < 0 || v < 0 || u == v {
            None
        } else if u < v {
            Some((u as usize, v as usize))
        } else {
            Some((v as usize, u as usize))
        }
    }
}

/// The weight of a reference, in parts of [`WEIGHT_ONE`].
pub open spec fn reference_weight(r: SymbolReference) -> int {
    kind_tenths(lowercase(r.reference_kind.name())) * WEIGHT_TENTH
}

/// What the references between two symbols weigh together.
pub open spec fn reference_sum(
    symbols: Seq<Seq<char>>,
    refs: Seq<SymbolReference>,
    lo: usize,
    hi: usize,
) -> Option<(u128, Option<Seq<char>>)>
    decreases refs.len(),
{
    if refs.len() == 0 {
        None
    } else {
        let d = reference_sum(symbols, refs.drop_last(), lo, hi);
        if reference_pair(symbols, refs.last()) == Some((lo, hi)) {
            heavier(d, reference_weight(refs.last()) as u128, None)
        } else {
            d
        }
    }
}

/// The map gives the language of each symbol that is joined.
pub open spec fn maps_languages(m: Map<Seq<char>, String>, refs: Seq<SymbolReference>) -> bool {
    forall|x: Seq<char>|
        (#[trigger] m.contains_key(x) <==> first_language(refs, x) is Some) && (m.contains_key(x)
            ==> Some(m[x]@) == first_language(refs, x))
}

/// The map gives the repository of each symbol that is joined.
pub open spec fn maps_owners(m: Map<Seq<char>, String>, refs: Seq<SymbolReference>) -> bool {
    forall|x: Seq<char>|
        (#[trigger] m.contains_key(x) <==> owner_of(refs, x) is Some) && (m.contains_key(x)
            ==> Some(m[x]@) == owner_of(refs, x))
}

/// The pairs list what the references give.
pub open spec fn pairs_of_references(
    pairs: Seq<PairEntry>,
    symbols: Seq<Seq<char>>,
    refs: Seq<SymbolReference>,
) -> bool {
    &&& pairs_rise(pairs)
    &&& forall|lo: usize, hi: usize| #[trigger]
        pair_value(pairs, lo, hi) == reference_sum(symbols, refs, lo, hi)
    &&& pairs_within(pairs, symbols.len())
}

/// The pairs are of different places below `n`, the lesser first.
pub open spec fn pairs_within(pairs: Seq<PairEntry>, n: nat) -> bool {
    forall|i: int|
        0 <= i < pairs.len() ==> (#[trigger] pairs[i]).lo < pairs[i].hi && pairs[i].hi < n
}

impl SymbolGraph {
    /// The edges are of symbols of the graph.
    pub open spec fn well_formed(self) -> bool {
        pairs_within(self.edges@, self.symbols@.len())
    }
}

proof fn lemma_first_language(refs: Seq<SymbolReference>, x: Seq<char>)
    ensures
        first_language(refs, x) is Some <==> joined_symbol(refs, x),
    decreases refs.len(),
{
    if refs.len() > 0 {
        let d = refs.drop_last();
        lemma_first_language(d, x);
        if joined_symbol(d, x) {
            let i = choose|i: int| 0 <= i < d.len() && touches_symbol(#[trigger] d[i], x);
            assert(touches_symbol(refs[i], x));
        }
        if touches_symbol(refs.last(), x) {
            assert(touches_symbol(refs[refs.len() - 1], x));
        }
        if joined_symbol(refs, x) {
            let i = choose|i: int| 0 <= i < refs.len() && touches_symbol(#[trigger] refs[i], x);
            if i < d.len() {
                assert(touches_symbol(d[i], x));
            }
        }
    }
}

proof fn lemma_reference_weight(r: SymbolReference)
    ensures
        0 <= reference_weight(r) <= WEIGHT_ONE,
{
}

proof fn lemma_reference_sum(
    symbols: Seq<Seq<char>>,
    refs: Seq<SymbolReference>,
    lo: usize,
    hi: usize,
)
    requires
        refs.len() <= usize::MAX,
    ensures
        reference_sum(symbols, refs, lo, hi) matches Some((w, _)) ==> w <= refs.len() * WEIGHT_ONE,
    decreases refs.len(),
{
    if refs.len() > 0 {
        lemma_reference_sum(symbols, refs.drop_last(), lo, hi);
        lemma_reference_weight(refs.last());
    }
}

/// The languages and the repositories of the symbols that references join.
fn attribute_symbols(references: &[SymbolReference]) -> (r: (TextMap<String>, TextMap<String>))
    ensures
        maps_languages(r.0@, references@),
        maps_owners(r.1@, references@),
{
    let mut languages: TextMap<String> = TextMap::new();
    let mut owners: TextMap<String> = TextMap::new();
    let mut i: usize = 0;
    while i < references.len()
        invariant
            i <= references@.len(),
            maps_languages(languages@, references@.take(i as int)),
            maps_owners(owners@, references@.take(i as int)),
        decreases references@.len() - i,
    {
        let r = &references[i];
        let ghost done = references@.take(i as int);
        let ghost next = references@.take(i + 1);
        let ghost ls = languages@;
        let ghost os = owners@;
        proof {
            assert(next.drop_last() =~= done);
            assert(next.last() == *r);
        }
        if let Some(caller) = &r.caller_symbol {
            let callee = &r.callee_symbol;
            if !same_text(caller.as_str(), callee.as_str()) {
                if !languages.contains(caller.as_str()) {
                    languages.insert(caller.clone(), r.language.as_str().to_string());
                }
                if !languages.contains(callee.as_str()) {
                    languages.insert(callee.clone(), r.language.as_str().to_string());
                }
                owners.insert(caller.clone(), r.repository_id.clone());
                if !owners.contains(callee.as_str()) {
                    owners.insert(callee.clone(), r.repository_id.clone());
                }
            }
        }
        proof {
            assert forall|x: Seq<char>|
                (#[trigger] languages@.contains_key(x) <==> first_language(next, x) is Some) && (
                languages@.contains_key(x) ==> Some(languages@[x]@) == first_language(next, x)) by {
                assert(ls.contains_key(x) <==> first_language(done, x) is Some);
            }
            assert forall|x: Seq<char>|
                (#[trigger] owners@.contains_key(x) <==> owner_of(next, x) is Some) && (
                owners@.contains_key(x) ==> Some(owners@[x]@) == owner_of(next, x)) by {
                assert(os.contains_key(x) <==> owner_of(done, x) is Some);
            }
        }
        i += 1;
    }
    assert(references@.take(i as int) =~= references@);
    (languages, owners)
}

/// The pairs of symbols that references join.
fn weigh_references(symbols: &[String], references: &[SymbolReference]) -> (r: Vec<PairEntry>)
    ensures
        pairs_of_references(r@, texts(symbols@), references@),
{
    let index = place_files(symbols);
    let ghost all = texts(symbols@);
    let mut r: Vec<PairEntry> = Vec::new();
    let n: usize = references.len();
    let mut i: usize = 0;
    while i < n
        invariant
            i <= n,
            n == references@.len(),
            all == texts(symbols@),
            places_texts(index@, all),
            pairs_of_references(r@, all, references@.take(i as int)),
        decreases n - i,
    {
        let e = &references[i];
        let ghost done = references@.take(i as int);
        let ghost next = references@.take(i + 1);
        let ghost before = r@;
        proof {
            assert(next.drop_last() =~= done);
            assert(next.last() == *e);
            lemma_place_of(all, e.callee_symbol@);
            if e.caller_symbol is Some {
                lemma_place_of(all, e.caller_symbol->Some_0@);
            }
        }
        if let Some(caller) = &e.caller_symbol {
            if !same_text(caller.as_str(), e.callee_symbol.as_str()) {
                if let Some(u) = index.get(caller.as_str()) {
                    if let Some(v) = index.get(e.callee_symbol.as_str()) {
                        let (u, v): (usize, usize) = (*u, *v);
                        let lo: usize = if u < v {
                            u
                        } else {
                            v
                        };
                        let hi: usize = if u < v {
                            v
                        } else {
                            u
                        };
                        proof {
                            lemma_reference_sum(all, done, lo, hi);
                            lemma_reference_weight(*e);
                            assert(pair_value(before, lo, hi) == reference_sum(all, done, lo, hi));
                        }
                        let weight: u128 = kind_weight(e.reference_kind.as_str()) as u128
                            * WEIGHT_TENTH;
                        add_weight(&mut r, lo, hi, weight, None);
                        proof {
                            assert(reference_pair(all, *e) == Some((lo, hi)));
                            assert forall|a: usize, b: usize| #[trigger]
                                pair_value(r@, a, b) == reference_sum(all, next, a, b) by {
                                assert(pair_value(before, a, b) == reference_sum(all, done, a, b));
                            }
                            assert forall|k: int| 0 <= k < r@.len() implies (#[trigger] r@[k]).lo
                                < r@[k].hi && r@[k].hi < all.len() by {
                                if (r@[k].lo, r@[k].hi) != (lo, hi) {
                                    let (a, b) = (r@[k].lo, r@[k].hi);
                                    assert(pair_value(before, a, b) is Some);
                                    lemma_pair_value(before, a, b);
                                    let m = choose|m: int|
                                        0 <= m < before.len() && (#[trigger] before[m]).lo == a
                                            && before[m].hi == b;
                                    assert(before[m].lo < before[m].hi);
                                }
                            }
                        }
                    }
                }
            }
        }
        proof {
            if reference_pair(all, *e) is None {
                assert forall|a: usize, b: usize| #[trigger]
                    pair_value(r@, a, b) == reference_sum(all, next, a, b) by {
                    assert(pair_value(before, a, b) == reference_sum(all, done, a, b));
                }
            }
        }
        i += 1;
    }
    assert(references@.take(i as int) =~= references@);
    r
}

/// Folds references into the graph of the symbols that they join. References
/// without a caller, and those of a symbol to itself, join nothing.
pub fn symbol_graph_from_references(references: &[SymbolReference]) -> (r: SymbolGraph)
    ensures
        texts_rise(texts(r.symbols@)),
        forall|x: Seq<char>|
            texts(r.symbols@).contains(x) <==> #[trigger] joined_symbol(references@, x),
        maps_languages(r.language_of@, references@),
        maps_owners(r.repo_of@, references@),
        pairs_of_references(r.edges@, texts(r.symbols@), references@),
        r.well_formed(),
{
    let (language_of, repo_of) = attribute_symbols(references);
    let n: usize = language_of.len();
    let ghost listing = language_of.listing();
    let mut symbols: Vec<String> = Vec::new();
    let mut i: usize = 0;
    while i < n
        invariant
            i <= n,
            n == language_of.listing().len(),
            listing == language_of.listing(),
            symbols@.len() == i,
            forall|k: int| 0 <= k < i ==> #[trigger] symbols@[k]@ == listing[k].key@,
        decreases n - i,
    {
        symbols.push(language_of.at(i).key.clone());
        i += 1;
    }
    let edges = weigh_references(&symbols, references);
    proof {
        let all = texts(symbols@);
        assert(texts_rise(all)) by {
            assert forall|i: int, j: int| 0 <= i < j < all.len() implies text_lt(
                #[trigger] all[i],
                #[trigger] all[j],
            ) by {
                assert(text_lt(listing[i].key@, listing[j].key@));
                assert(symbols@[i]@ == listing[i].key@ && symbols@[j]@ == listing[j].key@);
            }
        }
        assert forall|x: Seq<char>| all.contains(x) <==> #[trigger] joined_symbol(
            references@,
            x,
        ) by {
            lemma_first_language(references@, x);
            if all.contains(x) {
                let k = choose|k: int| 0 <= k < all.len() && all[k] == x;
                assert(symbols@[k]@ == listing[k].key@);
                assert(language_of@.contains_key(listing[k].key@));
            }
            if joined_symbol(references@, x) {
                assert(language_of@.contains_key(x));
                assert(has_entry(listing, x));
                let k = choose|k: int| 0 <= k < listing.len() && (#[trigger] listing[k]).key@ == x;
                assert(symbols@[k]@ == listing[k].key@);
                assert(all[k] == x);
            }
        }
        assert(all.len() == symbols@.len());
    }
    SymbolGraph { symbols, language_of, repo_of, edges }
}

/// The known languages of symbols, in order.
pub open spec fn known_languages(languages: Map<Seq<char>, String>, members: Seq<Seq<char>>) -> Seq<
    Seq<char>,
>
    decreases members.len(),
{
    if members.len() == 0 {
        members
    } else {
        let d = known_languages(languages, members.drop_last());
        if languages.contains_key(members.last()) {
            d.push(languages[members.last()]@)
        } else {
            d
        }
    }
}

/// The language that most of the members have, of several the least;
/// `unknown` where none is known.
pub fn dominant_symbol_language(members: &[String], language_of: &TextMap<String>) -> (r: String)
    ensures
        r@ == dominant(known_languages(language_of@, texts(members@))),
{
    let ghost all = texts(members@);
    let mut known: Vec<String> = Vec::new();
    let mut i: usize = 0;
    assert(texts(known@) =~= known_languages(language_of@, all.take(0)));
    while i < members.len()
        invariant
            i <= members@.len(),
            all == texts(members@),
            texts(known@) == known_languages(language_of@, all.take(i as int)),
        decreases members@.len() - i,
    {
        let ghost before = known@;
        proof {
            assert(all.take(i + 1).drop_last() =~= all.take(i as int));
            assert(all.take(i + 1).last() == members@[i as int]@);
        }
        if let Some(l) = language_of.get(members[i].as_str()) {
            known.push(l.clone());
            assert(texts(known@) =~= texts(before).push(l@));
        }
        i += 1;
    }
    assert(all.take(i as int) =~= all);
    dominant_language(&known)
}

/// How many pairs stay within the label.
pub open spec fn inner_pairs(pairs: Seq<PairEntry>, labels: Seq<usize>, l: usize) -> nat
    decreases pairs.len(),
{
    if pairs.len() == 0 {
        0
    } else {
        inner_pairs(pairs.drop_last(), labels, l) + if labels[pairs.last().lo as int] == l
            && labels[pairs.last().hi as int] == l {
            1nat
        } else {
            0
        }
    }
}

/// How many pairs join the label with another.
pub open spec fn outer_pairs(pairs: Seq<PairEntry>, labels: Seq<usize>, l: usize) -> nat
    decreases pairs.len(),
{
    if pairs.len() == 0 {
        0
    } else {
        outer_pairs(pairs.drop_last(), labels, l) + if (labels[pairs.last().lo as int] == l) != (
        labels[pairs.last().hi as int] == l) {
            1nat
        } else {
            0
        }
    }
}

fn count_pairs(pairs: &[PairEntry], labels: &[usize], l: usize) -> (r: (usize, usize))
    requires
        pairs_within(pairs@, labels@.len()),
    ensures
        r.0 == inner_pairs(pairs@, labels@, l),
        r.1 == outer_pairs(pairs@, labels@, l),
{
    let mut inner: usize = 0;
    let mut outer: usize = 0;
    let mut i: usize = 0;
    while i < pairs.len()
        invariant
            i <= pairs@.len(),
            pairs_within(pairs@, labels@.len()),
            inner <= i,
            outer <= i,
            inner == inner_pairs(pairs@.take(i as int), labels@, l),
            outer == outer_pairs(pairs@.take(i as int), labels@, l),
        decreases pairs@.len() - i,
    {
        proof {
            assert(pairs@.take(i + 1).drop_last() =~= pairs@.take(i as int));
            assert(pairs@.take(i + 1).last() == pairs@[i as int]);
            assert(pairs@[i as int].lo < pairs@[i as int].hi);
        }
        let a = labels[pairs[i].lo] == l;
        let b = labels[pairs[i].hi] == l;
        if a && b {
            inner += 1;
        } else if a || b {
            outer += 1;
        }
        i += 1;
    }
    assert(pairs@.take(i as int) =~= pairs@);
    (inner, outer)
}

/// The community of one label.
pub open spec fn community_of(
    repository_id: Seq<char>,
    symbols: Seq<Seq<char>>,
    pairs: Seq<PairEntry>,
    languages: Map<Seq<char>, String>,
    labels: Seq<usize>,
    ids: Seq<Seq<char>>,
    l: int,
) -> ClusterView {
    let members = label_members(symbols, labels, l as usize);
    ClusterView {
        id: ids[l],
        display_name: None,
        repository_id,
        dominant_language: dominant(known_languages(languages, members)),
        size: members.len(),
        cohesion: cohesion_of(
            inner_pairs(pairs, labels, l as usize) as int,
            outer_pairs(pairs, labels, l as usize) as int,
        ) as u64,
        members,
    }
}

/// The communities of the first `n` labels that have members.
pub open spec fn communities_of(
    repository_id: Seq<char>,
    symbols: Seq<Seq<char>>,
    pairs: Seq<PairEntry>,
    languages: Map<Seq<char>, String>,
    labels: Seq<usize>,
    ids: Seq<Seq<char>>,
    n: nat,
) -> Seq<ClusterView>
    decreases n,
{
    if n == 0 {
        Seq::empty()
    } else {
        let d = communities_of(
            repository_id,
            symbols,
            pairs,
            languages,
            labels,
            ids,
            (n - 1) as nat,
        );
        if label_members(symbols, labels, (n - 1) as usize).len() == 0 {
            d
        } else {
            d.push(community_of(repository_id, symbols, pairs, languages, labels, ids, n - 1))
        }
    }
}

/// Makes communities of a partition of the symbols, largest first. `ids` has
/// the id of each label. A graph without edges has no communities.
pub fn compute_communities(
    repository_id: &str,
    sg: &SymbolGraph,
    labels: &[usize],
    ids: &[String],
) -> (r: SymbolCommunityGraph)
    requires
        sg.well_formed(),
        labels@.len() == sg.symbols@.len(),
        forall|i: int| 0 <= i < labels@.len() ==> (#[trigger] labels@[i]) < labels@.len(),
        ids@.len() == label_count(labels@),
    ensures
        r.repository_id@ == repository_id@,
        r.total_symbols == sg.symbols@.len(),
        r.total_edges == sg.edges@.len(),
        sg.symbols@.len() == 0 || sg.edges@.len() == 0 ==> r.communities@.len() == 0,
        sg.symbols@.len() > 0 && sg.edges@.len() > 0 ==> exists|unsorted: Seq<SymbolCommunity>|
            #[trigger]
            community_views(unsorted) == communities_of(
                repository_id@,
                texts(sg.symbols@),
                sg.edges@,
                sg.language_of@,
                labels@,
                texts(ids@),
                label_count(labels@),
            ) && r.communities@ == arranged(unsorted),
{
    let total_symbols: usize = sg.symbols.len();
    let total_edges: usize = sg.edges.len();
    if total_symbols == 0 || total_edges == 0 {
        return SymbolCommunityGraph {
            communities: Vec::new(),
            repository_id: repository_id.to_string(),
            total_symbols,
            total_edges,
        };
    }
    let n: usize = count_labels(labels);
    let ghost all = texts(sg.symbols@);
    let ghost is = texts(ids@);
    let mut communities: Vec<SymbolCommunity> = Vec::new();
    let mut l: usize = 0;
    assert(community_views(communities@) =~= Seq::<ClusterView>::empty());
    while l < n
        invariant
            l <= n,
            n == ids@.len(),
            labels@.len() == sg.symbols@.len(),
            sg.well_formed(),
            all == texts(sg.symbols@),
            is == texts(ids@),
            community_views(communities@) == communities_of(
                repository_id@,
                all,
                sg.edges@,
                sg.language_of@,
                labels@,
                is,
                l as nat,
            ),
        decreases n - l,
    {
        let ghost before = communities@;
        let members = members_with(&sg.symbols, labels, l);
        assert(texts(members@).len() == members@.len());
        if members.len() > 0 {
            let (inner, outer): (usize, usize) = count_pairs(&sg.edges, labels, l);
            let community = SymbolCommunity {
                id: ids[l].clone(),
                display_name: None,
                repository_id: repository_id.to_string(),
                dominant_language: dominant_symbol_language(&members, &sg.language_of),
                size: members.len(),
                cohesion: cohesion(inner, outer),
                members,
            };
            let ghost v = community@;
            communities.push(community);
            proof {
                assert(is[l as int] == ids@[l as int]@);
                assert(v == community_of(
                    repository_id@,
                    all,
                    sg.edges@,
                    sg.language_of@,
                    labels@,
                    is,
                    l as int,
                ));
                assert(community_views(communities@) =~= community_views(before).push(v));
            }
        }
        l += 1;
    }
    let ghost unsorted = communities@;
    let communities = arrange(communities);
    assert(community_views(unsorted) == communities_of(
        repository_id@,
        all,
        sg.edges@,
        sg.language_of@,
        labels@,
        is,
        label_count(labels@),
    ));
    SymbolCommunityGraph {
        communities,
        repository_id: repository_id.to_string(),
        total_symbols,
        total_edges,
    }
}

/// The text without the dots and brackets at its end.
pub open spec fn without_brackets(s: Seq<char>) -> Seq<char>
    decreases s.len(),
{
    if s.len() > 0 && (s.last() == '.' || s.last() == '(' || s.last() == ')') {
        without_brackets(s.drop_last())
    } else {
        s
    }
}

/// The text without the separators at its end.
pub open spec fn without_separators(s: Seq<char>) -> Seq<char>
    decreases s.len(),
{
    if s.len() > 0 && is_separator(s.last()) {
        without_separators(s.drop_last())
    } else {
        s
    }
}

/// The end of the text, behind its last separator.
pub open spec fn last_segment(s: Seq<char>) -> Seq<char>
    decreases s.len(),
{
    if s.len() == 0 || is_separator(s.last()) {
        Seq::empty()
    } else {
        last_segment(s.drop_last()).push(s.last())
    }
}

/// The last segment of a symbol that is not empty, without the marks of a call;
/// the symbol itself where it has none.
pub open spec fn bare_name(symbol: Seq<char>) -> Seq<char> {
    let s = without_separators(without_brackets(symbol));
    if s.len() == 0 {
        symbol
    } else {
        last_segment(s)
    }
}

fn separates(c: char) -> (r: bool)
    ensures
        r == is_separator(c),
{
    c == '\\' || c == '/' || c == '#' || c == '.' || c == ':'
}

proof fn lemma_last_segment(s: Seq<char>, from: int)
    requires
        0 <= from <= s.len(),
        forall|k: int| from <= k < s.len() ==> !is_separator(#[trigger] s[k]),
        from == 0 || is_separator(s[from - 1]),
    ensures
        last_segment(s) == s.skip(from),
    decreases s.len(),
{
    if from < s.len() {
        let d = s.drop_last();
        assert(!is_separator(s[s.len() - 1]));
        assert forall|k: int| from <= k < d.len() implies !is_separator(#[trigger] d[k]) by {
            assert(d[k] == s[k]);
        }
        lemma_last_segment(d, from);
        assert(d.skip(from).push(s.last()) =~= s.skip(from));
    } else {
        assert(s.skip(from) =~= Seq::<char>::empty());
    }
}

/// The short name of a symbol, such as `authenticate` of
/// `pkg/Auth#authenticate().`.
pub fn short_symbol_name(symbol: &str) -> (r: &str)
    ensures
        r@ == bare_name(symbol@),
{
    let cs = chars_of(symbol);
    let ghost s = symbol@;
    let mut n: usize = cs.len();
    assert(s.take(n as int) =~= s);
    while n > 0 && (cs[n - 1] == '.' || cs[n - 1] == '(' || cs[n - 1] == ')')
        invariant
            n <= cs@.len(),
            cs@ == s,
            without_brackets(s.take(n as int)) == without_brackets(s),
        decreases n,
    {
        proof {
            assert(s.take(n as int).last() == s[n - 1]);
            assert(s.take(n as int).drop_last() =~= s.take(n - 1));
        }
        n -= 1;
    }
    proof {
        if n > 0 {
            assert(s.take(n as int).last() == s[n - 1]);
        }
    }
    let ghost t = without_brackets(s);
    assert(s.take(n as int) == t);
    while n > 0 && separates(cs[n - 1])
        invariant
            n <= cs@.len(),
            cs@ == s,
            without_separators(s.take(n as int)) == without_separators(t),
        decreases n,
    {
        proof {
            assert(s.take(n as int).last() == s[n - 1]);
            assert(s.take(n as int).drop_last() =~= s.take(n - 1));
        }
        n -= 1;
    }
    proof {
        if n > 0 {
            assert(s.take(n as int).last() == s[n - 1]);
        }
    }
    let ghost u = s.take(n as int);
    assert(without_separators(t) == u);
    if n == 0 {
        return symbol;
    }
    let mut from: usize = n;
    while from > 0 && !separates(cs[from - 1])
        invariant
            from <= n,
            n <= cs@.len(),
            cs@ == s,
            u == s.take(n as int),
            forall|k: int| from <= k < n ==> !is_separator(#[trigger] u[k]),
        decreases from,
    {
        assert(u[from - 1] == s[from - 1]);
        from -= 1;
    }
    proof {
        if from > 0 {
            assert(u[from - 1] == s[from - 1]);
        }
        lemma_last_segment(u, from as int);
        assert(s.subrange(from as int, n as int) =~= u.skip(from as int));
    }
    symbol.substring_char(from, n)
}

/// How well a member answers to a name: wholly, by its short name, or by having
/// the name somewhere within it.
#[derive(Debug, Clone, Copy, PartialEq, Eq, Structural)]
pub enum NameMatch {
    Exact,
    Short,
    Part,
}

/// The member answers to the name.
pub open spec fn answers(how: NameMatch, member: Seq<char>, name: Seq<char>) -> bool {
    match how {
        NameMatch::Exact => member == name,
        NameMatch::Short => bare_name(member) == name,
        NameMatch::Part => contains_text(member, name),
    }
}

/// One of the members answers to the name.
pub open spec fn some_answers(how: NameMatch, members: Seq<Seq<char>>, name: Seq<char>) -> bool {
    exists|i: int| 0 <= i < members.len() && answers(how, #[trigger] members[i], name)
}

/// The first community with a member that answers, or -1.
pub open spec fn first_answering(
    how: NameMatch,
    communities: Seq<SymbolCommunity>,
    name: Seq<char>,
) -> int
    decreases communities.len(),
{
    if communities.len() == 0 {
        -1
    } else {
        let d = first_answering(how, communities.drop_last(), name);
        if d < 0 && some_answers(how, texts(communities.last().members@), name) {
            communities.len() - 1
        } else {
            d
        }
    }
}

/// The community that a name belongs to, or -1: an exact match goes before one
/// by the short name, and that before a part.
pub open spec fn best_answering(communities: Seq<SymbolCommunity>, name: Seq<char>) -> int {
    let exact = first_answering(NameMatch::Exact, communities, name);
    let short = first_answering(NameMatch::Short, communities, name);
    if exact >= 0 {
        exact
    } else if short >= 0 {
        short
    } else {
        first_answering(NameMatch::Part, communities, name)
    }
}

fn member_answers(how: NameMatch, member: &str, name: &str) -> (r: bool)
    ensures
        r == answers(how, member@, name@),
{
    match how {
        NameMatch::Exact => same_text(member, name),
        NameMatch::Short => same_text(short_symbol_name(member), name),
        NameMatch::Part => {
            let m = chars_of(member);
            let n = chars_of(name);
            has_part(&m, &n)
        },
    }
}

fn any_answers(how: NameMatch, members: &[String], name: &str) -> (r: bool)
    ensures
        r == some_answers(how, texts(members@), name@),
{
    let ghost all = texts(members@);
    let mut i: usize = 0;
    while i < members.len()
        invariant
            i <= members@.len(),
            all == texts(members@),
            forall|k: int| 0 <= k < i ==> !answers(how, #[trigger] all[k], name@),
        decreases members@.len() - i,
    {
        assert(all[i as int] == members@[i as int]@);
        if member_answers(how, members[i].as_str(), name) {
            return true;
        }
        i += 1;
    }
    false
}

fn find_answering(how: NameMatch, communities: &[SymbolCommunity], name: &str) -> (r: Option<usize>)
    ensures
        r is Some == (first_answering(how, communities@, name@) >= 0),
        r matches Some(i) ==> i == first_answering(how, communities@, name@) && i
            < communities@.len(),
{
    let mut found: Option<usize> = None;
    let mut i: usize = 0;
    while i < communities.len()
        invariant
            i <= communities@.len(),
            found is Some == (first_answering(how, communities@.take(i as int), name@) >= 0),
            found matches Some(k) ==> k == first_answering(
                how,
                communities@.take(i as int),
                name@,
            ) && k < i,
        decreases communities@.len() - i,
    {
        proof {
            assert(communities@.take(i + 1).drop_last() =~= communities@.take(i as int));
            assert(communities@.take(i + 1).last() == communities@[i as int]);
        }
        if found.is_none() && any_answers(how, &communities[i].members, name) {
            found = Some(i);
        }
        i += 1;
    }
    assert(communities@.take(i as int) =~= communities@);
    found
}

/// The community that a symbol belongs to: by its full name, else by its short
/// name, else by a part of a name.
pub fn find_symbol_community(communities: Vec<SymbolCommunity>, symbol: &str) -> (r: Option<
    SymbolCommunity,
>)
    ensures
        r is Some == (best_answering(communities@, symbol@) >= 0),
        r matches Some(c) ==> c == communities@[best_answering(communities@, symbol@)],
{
    let mut at = find_answering(NameMatch::Exact, &communities, symbol);
    if at.is_none() {
        at = find_answering(NameMatch::Short, &communities, symbol);
    }
    if at.is_none() {
        at = find_answering(NameMatch::Part, &communities, symbol);
    }
    match at {
        Some(i) => {
            let mut all = communities;
            Some(all.remove(i))
        },
        None => None,
    }
}

/// Gives communities the names that are known for their ids.
pub fn apply_cached_names(communities: &mut Vec<SymbolCommunity>, names: &TextMap<String>)
    ensures
        final(communities)@.len() == old(communities)@.len(),
        forall|i: int|
            0 <= i < old(communities)@.len() ==> (#[trigger] final(communities)@[i])@ == (
            ClusterView {
                display_name: if names@.contains_key(old(communities)@[i].id@) {
                    Some(names@[old(communities)@[i].id@]@)
                } else {
                    opt_text(old(communities)@[i].display_name)
                },
                ..old(communities)@[i]@
            }),
{
    let ghost before = communities@;
    let mut i: usize = 0;
    while i < communities.len()
        invariant
            i <= communities@.len(),
            communities@.len() == before.len(),
            forall|k: int|
                0 <= k < i ==> (#[trigger] communities@[k])@ == (ClusterView {
                    display_name: if names@.contains_key(before[k].id@) {
                        Some(names@[before[k].id@]@)
                    } else {
                        opt_text(before[k].display_name)
                    },
                    ..before[k]@
                }),
            forall|k: int| i <= k < before.len() ==> (#[trigger] communities@[k]) == before[k],
        decreases communities@.len() - i,
    {
        let name = match names.get(communities[i].id.as_str()) {
            Some(n) => Some(n.clone()),
            None => None,
        };
        if name.is_some() {
            communities[i].display_name = name;
        }
        i += 1;
    }
}

/// The last community that holds the symbol; the first of all where none does.
pub open spec fn community_place(communities: Seq<SymbolCommunity>, x: Seq<char>) -> nat
    decreases communities.len(),
{
    if communities.len() == 0 {
        0
    } else if texts(communities.last().members@).contains(x) {
        (communities.len() - 1) as nat
    } else {
        community_place(communities.drop_last(), x)
    }
}

fn find_place(communities: &[SymbolCommunity], x: &str) -> (r: usize)
    ensures
        r == community_place(communities@, x@),
{
    let mut n: usize = communities.len();
    assert(communities@.take(n as int) =~= communities@);
    while n > 0
        invariant
            n <= communities@.len(),
            community_place(communities@, x@) == community_place(communities@.take(n as int), x@),
        decreases n,
    {
        proof {
            assert(communities@.take(n as int).last() == communities@[n - 1]);
            assert(communities@.take(n as int).drop_last() =~= communities@.take(n - 1));
        }
        if has_text(&communities[n - 1].members, x) {
            return n - 1;
        }
        n -= 1;
    }
    0
}

/// The name of the repository of a symbol, where it is known.
pub open spec fn repository_name(
    owners: Map<Seq<char>, String>,
    names: Map<Seq<char>, String>,
    x: Seq<char>,
) -> Option<Seq<char>> {
    if owners.contains_key(x) && names.contains_key(owners[x]@) {
        Some(names[owners[x]@]@)
    } else {
        None
    }
}

/// What the node of a symbol says, besides its degree.
pub open spec fn symbol_node(
    sg: SymbolGraph,
    communities: Seq<SymbolCommunity>,
    names: Map<Seq<char>, String>,
    x: Seq<char>,
) -> GraphNodeView {
    GraphNodeView {
        id: x,
        label: bare_name(x),
        community: community_place(communities, x),
        language: language_of(sg.language_of@, x),
        repository: repository_name(sg.repo_of@, names, x),
    }
}

/// The metadata is that of the communities.
pub open spec fn are_symbol_communities(
    s: Seq<CommunityMeta>,
    communities: Seq<SymbolCommunity>,
) -> bool {
    &&& s.len() == communities.len()
    &&& forall|i: int|
        0 <= i < s.len() ==> (#[trigger] s[i]).index == i && s[i].name@ == (
        match communities[i].display_name {
            Some(n) => n@,
            None => communities[i].id@,
        }) && s[i].size == communities[i].size && s[i].cohesion == communities[i].cohesion
}

fn list_communities(communities: &[SymbolCommunity]) -> (r: Vec<CommunityMeta>)
    ensures
        are_symbol_communities(r@, communities@),
{
    let mut r: Vec<CommunityMeta> = Vec::new();
    let mut i: usize = 0;
    while i < communities.len()
        invariant
            i <= communities@.len(),
            r@.len() == i,
            forall|k: int|
                0 <= k < i ==> (#[trigger] r@[k]).index == k && r@[k].name@ == (
                match communities@[k].display_name {
                    Some(n) => n@,
                    None => communities@[k].id@,
                }) && r@[k].size == communities@[k].size && r@[k].cohesion
                    == communities@[k].cohesion,
        decreases communities@.len() - i,
    {
        let c = &communities[i];
        r.push(
            CommunityMeta {
                index: i,
                name: community_label(&c.display_name, &c.id).to_string(),
                size: c.size,
                cohesion: c.cohesion,
            },
        );
        i += 1;
    }
    r
}

fn list_symbols(
    sg: &SymbolGraph,
    communities: &[SymbolCommunity],
    repo_names: &TextMap<String>,
) -> (r: Vec<GraphNode>)
    ensures
        r@.len() == sg.symbols@.len(),
        forall|i: int|
            0 <= i < r@.len() ==> #[trigger] graph_node_views(r@)[i] == symbol_node(
                *sg,
                communities@,
                repo_names@,
                sg.symbols@[i]@,
            ),
        forall|i: int| 0 <= i < r@.len() ==> (#[trigger] r@[i]).degree == 0,
{
    let mut r: Vec<GraphNode> = Vec::new();
    let mut i: usize = 0;
    while i < sg.symbols.len()
        invariant
            i <= sg.symbols@.len(),
            r@.len() == i,
            forall|k: int|
                0 <= k < i ==> #[trigger] graph_node_views(r@)[k] == symbol_node(
                    *sg,
                    communities@,
                    repo_names@,
                    sg.symbols@[k]@,
                ),
            forall|k: int| 0 <= k < i ==> (#[trigger] r@[k]).degree == 0,
        decreases sg.symbols@.len() - i,
    {
        let ghost before = r@;
        let fqn = &sg.symbols[i];
        let repository = match sg.repo_of.get(fqn.as_str()) {
            Some(id) => match repo_names.get(id.as_str()) {
                Some(n) => Some(n.clone()),
                None => None,
            },
            None => None,
        };
        r.push(
            GraphNode {
                id: fqn.clone(),
                label: short_symbol_name(fqn.as_str()).to_string(),
                community: find_place(communities, fqn.as_str()),
                degree: 0,
                language: file_language(&sg.language_of, fqn.as_str()),
                repository,
            },
        );
        proof {
            assert forall|k: int| 0 <= k < i + 1 implies #[trigger] graph_node_views(r@)[k]
                == symbol_node(*sg, communities@, repo_names@, sg.symbols@[k]@) by {
                if k < i {
                    assert(graph_node_views(before)[k] == graph_node_views(r@)[k]);
                }
            }
        }
        i += 1;
    }
    r
}

/// The graph of the symbols, each under its community, with the edges between
/// them. `repo_names` has the names of the repositories that are shown.
pub fn render_symbol_view(
    scope: &str,
    sg: &SymbolGraph,
    scg: &SymbolCommunityGraph,
    repo_names: &TextMap<String>,
) -> (r: GraphView)
    requires
        sg.well_formed(),
    ensures
        r.repository_id@ == scope@,
        r.level == GraphLevel::Symbol,
        are_symbol_communities(r.communities@, scg.communities@),
        r.nodes@.len() == sg.symbols@.len(),
        forall|i: int|
            0 <= i < r.nodes@.len() ==> #[trigger] graph_node_views(r.nodes@)[i] == symbol_node(
                *sg,
                scg.communities@,
                repo_names@,
                sg.symbols@[i]@,
            ),
        forall|i: int|
            0 <= i < r.nodes@.len() ==> (#[trigger] r.nodes@[i]).degree == degree_of(sg.edges@, i),
        r.edges@.len() == sg.edges@.len(),
        forall|i: int|
            0 <= i < r.edges@.len() ==> (#[trigger] r.edges@[i]).source == sg.edges@[i].lo
                && r.edges@[i].target == sg.edges@[i].hi && r.edges@[i].weight
                == sg.edges@[i].weight && r.edges@[i].kind is None,
{
    let communities = list_communities(&scg.communities);
    let mut nodes = list_symbols(sg, &scg.communities, repo_names);
    let ghost views = graph_node_views(nodes@);
    let ghost ps = sg.edges@;
    let count: usize = sg.edges.len();
    let mut out: Vec<GraphEdge> = Vec::new();
    let mut m: usize = 0;
    while m < count
        invariant
            m <= count,
            count == sg.edges@.len(),
            sg.edges@ == ps,
            pairs_within(ps, nodes@.len()),
            views.len() == nodes@.len(),
            graph_node_views(nodes@) == views,
            out@.len() == m,
            forall|k: int|
                0 <= k < m ==> (#[trigger] out@[k]).source == ps[k].lo && out@[k].target == ps[k].hi
                    && out@[k].weight == ps[k].weight && out@[k].kind is None,
            forall|k: int|
                0 <= k < nodes@.len() ==> (#[trigger] nodes@[k]).degree == degree_of(
                    ps.take(m as int),
                    k,
                ) && nodes@[k].degree <= m,
        decreases count - m,
    {
        let p = &sg.edges[m];
        let ghost before = nodes@;
        proof {
            assert(ps[m as int].lo < ps[m as int].hi);
            assert(ps.take(m + 1).drop_last() =~= ps.take(m as int));
            assert(ps.take(m + 1).last() == ps[m as int]);
            assert(before[p.lo as int].degree <= m);
            assert(before[p.hi as int].degree <= m);
        }
        let lo: usize = p.lo;
        let hi: usize = p.hi;
        let a: usize = nodes[lo].degree + 1;
        let b: usize = nodes[hi].degree + 1;
        nodes[lo].degree = a;
        nodes[hi].degree = b;
        out.push(GraphEdge { source: lo, target: hi, weight: p.weight, kind: None });
        proof {
            assert forall|k: int| 0 <= k < nodes@.len() implies (#[trigger] nodes@[k]).degree
                == degree_of(ps.take(m + 1), k) && nodes@[k].degree <= m + 1 by {
                assert(before[k].degree == degree_of(ps.take(m as int), k));
            }
            assert(graph_node_views(nodes@) =~= views);
        }
        m += 1;
    }
    assert(ps.take(m as int) =~= ps);
    GraphView {
        repository_id: scope.to_string(),
        level: GraphLevel::Symbol,
        nodes,
        edges: out,
        communities,
    }
}

/// The repositories of a namespace, in order.
pub open spec fn in_namespace(repos: Seq<Repository>, namespace: Seq<char>) -> Seq<Repository>
    decreases repos.len(),
{
    if repos.len() == 0 {
        repos
    } else if opt_text(repos.last().namespace) == Some(namespace) {
        in_namespace(repos.drop_last(), namespace).push(repos.last())
    } else {
        in_namespace(repos.drop_last(), namespace)
    }
}

/// The ids of repositories.
pub open spec fn repository_ids(repos: Seq<Repository>) -> Seq<Seq<char>> {
    Seq::new(repos.len(), |i: int| repos[i].id@)
}

/// The message for a graph over a namespace where none is set.
pub const NO_NAMESPACE_SCOPE: &'static str =
    "namespace-wide symbol detection requires a namespace scope";

/// The namespace that a graph is over, and the ids of its repositories. A
/// namespace that is asked for goes before the one that is set; without one
/// that is set there is no such graph.
pub fn namespace_repository_ids(
    scope: Option<&str>,
    namespace: Option<&str>,
    repos: &[Repository],
) -> (r: Result<(String, Vec<String>), DomainError>)
    ensures
        scope is None ==> r is Err && r->Err_0 is StorageError && r->Err_0->StorageError_0@
            == NO_NAMESPACE_SCOPE@,
        scope is Some ==> r is Ok,
        r matches Ok((n, ids)) ==> n@ == (match namespace {
            Some(x) => x@,
            None => scope->Some_0@,
        }) && texts(ids@) == repository_ids(in_namespace(repos@, n@)),
{
    let default = match scope {
        Some(s) => s,
        None => {
            return Err(DomainError::StorageError(NO_NAMESPACE_SCOPE.to_string()));
        },
    };
    let chosen = match namespace {
        Some(n) => n,
        None => default,
    };
    let mut ids: Vec<String> = Vec::new();
    let mut i: usize = 0;
    assert(texts(ids@) =~= repository_ids(in_namespace(repos@.take(0), chosen@)));
    while i < repos.len()
        invariant
            i <= repos@.len(),
            texts(ids@) == repository_ids(in_namespace(repos@.take(i as int), chosen@)),
        decreases repos@.len() - i,
    {
        let ghost before = ids@;
        let ghost d = in_namespace(repos@.take(i as int), chosen@);
        proof {
            assert(repos@.take(i + 1).drop_last() =~= repos@.take(i as int));
            assert(repos@.take(i + 1).last() == repos@[i as int]);
        }
        if let Some(n) = &repos[i].namespace {
            if same_text(n.as_str(), chosen) {
                ids.push(repos[i].id.clone());
                proof {
                    assert(texts(ids@) =~= texts(before).push(repos@[i as int].id@));
                    assert(repository_ids(d.push(repos@[i as int])) =~= repository_ids(d).push(
                        repos@[i as int].id@,
                    ));
                }
            }
        }
        i += 1;
    }
    assert(repos@.take(i as int) =~= repos@);
    Ok((chosen.to_string(), ids))
}

/// The name of the last repository of a namespace with the id.
pub open spec fn name_in_namespace(
    repos: Seq<Repository>,
    namespace: Seq<char>,
    id: Seq<char>,
) -> Option<Seq<char>>
    decreases repos.len(),
{
    if repos.len() == 0 {
        None
    } else if opt_text(repos.last().namespace) == Some(namespace) && repos.last().id@ == id {
        Some(repos.last().name@)
    } else {
        name_in_namespace(repos.drop_last(), namespace, id)
    }
}

/// The names of the repositories of a namespace, by id.
pub fn namespace_repo_names(namespace: &str, repos: &[Repository]) -> (r: TextMap<String>)
    ensures
        forall|id: Seq<char>|
            (#[trigger] r@.contains_key(id) <==> name_in_namespace(repos@, namespace@, id) is Some)
                && (r@.contains_key(id) ==> Some(r@[id]@) == name_in_namespace(
                repos@,
                namespace@,
                id,
            )),
{
    let mut r: TextMap<String> = TextMap::new();
    let mut i: usize = 0;
    while i < repos.len()
        invariant
            i <= repos@.len(),
            forall|id: Seq<char>|
                (#[trigger] r@.contains_key(id) <==> name_in_namespace(
                    repos@.take(i as int),
                    namespace@,
                    id,
                ) is Some) && (r@.contains_key(id) ==> Some(r@[id]@) == name_in_namespace(
                    repos@.take(i as int),
                    namespace@,
                    id,
                )),
        decreases repos@.len() - i,
    {
        let ghost before = r@;
        proof {
            assert(repos@.take(i + 1).drop_last() =~= repos@.take(i as int));
            assert(repos@.take(i + 1).last() == repos@[i as int]);
        }
        if let Some(n) = &repos[i].namespace {
            if same_text(n.as_str(), namespace) {
                r.insert(repos[i].id.clone(), repos[i].name.clone());
            }
        }
        proof {
            assert forall|id: Seq<char>|
                (#[trigger] r@.contains_key(id) <==> name_in_namespace(
                    repos@.take(i + 1),
                    namespace@,
                    id,
                ) is Some) && (r@.contains_key(id) ==> Some(r@[id]@) == name_in_namespace(
                    repos@.take(i + 1),
                    namespace@,
                    id,
                )) by {
                assert(before.contains_key(id) <==> name_in_namespace(
                    repos@.take(i as int),
                    namespace@,
                    id,
                ) is Some);
            }
        }
        i += 1;
    }
    assert(repos@.take(i as int) =~= repos@);
    r
}

} // verus!
