//! The file-level dependency graph: references between symbols gathered into
//! weighted edges between files.

use vstd::prelude::*;
use crate::domain::{FileEdge, FileGraph, FileGraphRepo, ReferenceKind, Repository, SymbolReference};
use crate::order::{
    Ranked, arrange, arranged, distinct, lemma_text_lt_irreflexive, lemma_text_order, sort_texts,
    sorted_texts, text_less, text_lt,
};
use crate::symbol_index::{Site, SymbolIndex, resolve_callee, resolved};
use crate::text::{has_text, opt_text, same_opt, same_text, texts};

verus! {

/// The repositories that a graph is built for: those named by `ids`, or those
/// of the namespace where none are named.
pub open spec fn is_target(
    r: Repository,
    ids: Option<Seq<Seq<char>>>,
    namespace: Seq<char>,
) -> bool {
    match ids {
        Some(ids) => ids.contains(r.id@),
        None => opt_text(r.namespace) == Some(namespace),
    }
}

/// The places in `repos` of the repositories for which `keep` holds.
pub open spec fn places_where(repos: Seq<Repository>, keep: spec_fn(Repository) -> bool) -> Seq<int>
    decreases repos.len(),
{
    if repos.len() == 0 {
        Seq::empty()
    } else {
        let d = places_where(repos.drop_last(), keep);
        if keep(repos.last()) {
            d.push(repos.len() - 1)
        } else {
            d
        }
    }
}

/// The places as whole numbers.
pub open spec fn places(v: Seq<usize>) -> Seq<int> {
    Seq::new(v.len(), |i: int| v[i] as int)
}

/// Whether a repository is a target of the graph.
pub open spec fn target_test(
    ids: Option<Seq<Seq<char>>>,
    namespace: Seq<char>,
) -> spec_fn(Repository) -> bool {
    |r: Repository| is_target(r, ids, namespace)
}

/// The texts of an optional list of ids.
pub open spec fn id_texts(ids: Option<&[String]>) -> Option<Seq<Seq<char>>> {
    match ids {
        Some(v) => Some(texts(v@)),
        None => None,
    }
}

/// The places in `repos` of the targets of the graph.
pub fn target_repositories(
    repos: &[Repository],
    ids: Option<&[String]>,
    namespace: &str,
) -> (r: Vec<usize>)
    ensures
        places(r@) == places_where(repos@, target_test(id_texts(ids), namespace@)),
{
    let mut r: Vec<usize> = Vec::new();
    let mut i: usize = 0;
    let ghost keep = target_test(id_texts(ids), namespace@);
    assert(places(r@) =~= places_where(repos@.take(0), keep));
    while i < repos.len()
        invariant
            i <= repos@.len(),
            keep == target_test(id_texts(ids), namespace@),
            places(r@) == places_where(repos@.take(i as int), keep),
        decreases repos@.len() - i,
    {
        let ghost before = r@;
        proof {
            assert(repos@.take(i + 1).drop_last() =~= repos@.take(i as int));
            assert(repos@.take(i + 1).last() == repos@[i as int]);
        }
        let target = match ids {
            Some(list) => has_text(list, repos[i].id.as_str()),
            None => match &repos[i].namespace {
                Some(n) => same_text(n.as_str(), namespace),
                None => false,
            },
        };
        if target {
            r.push(i);
            assert(places(r@) =~= places(before).push(i as int));
        }
        i += 1;
    }
    assert(repos@.take(i as int) =~= repos@);
    r
}

/// One of the targets lives in the namespace of `r`.
pub open spec fn shares_namespace(
    repos: Seq<Repository>,
    targets: Seq<usize>,
    r: Repository,
) -> bool {
    exists|i: int|
        0 <= i < targets.len() && opt_text(repos[(#[trigger] targets[i]) as int].namespace)
            == opt_text(r.namespace)
}

/// Whether a repository shares a namespace with a target.
pub open spec fn scope_test(
    repos: Seq<Repository>,
    targets: Seq<usize>,
) -> spec_fn(Repository) -> bool {
    |r: Repository| shares_namespace(repos, targets, r)
}

/// The places in `repos` of the repositories whose symbols take part in
/// resolving names: those of the namespaces that the targets live in.
pub fn scope_repositories(repos: &[Repository], targets: &[usize]) -> (r: Vec<usize>)
    requires
        forall|i: int| 0 <= i < targets@.len() ==> (#[trigger] targets@[i]) < repos@.len(),
    ensures
        places(r@) == places_where(repos@, scope_test(repos@, targets@)),
{
    let mut r: Vec<usize> = Vec::new();
    let mut i: usize = 0;
    let ghost keep = scope_test(repos@, targets@);
    assert(places(r@) =~= places_where(repos@.take(0), keep));
    while i < repos.len()
        invariant
            i <= repos@.len(),
            keep == scope_test(repos@, targets@),
            forall|i: int| 0 <= i < targets@.len() ==> (#[trigger] targets@[i]) < repos@.len(),
            places(r@) == places_where(repos@.take(i as int), keep),
        decreases repos@.len() - i,
    {
        let ghost before = r@;
        proof {
            assert(repos@.take(i + 1).drop_last() =~= repos@.take(i as int));
            assert(repos@.take(i + 1).last() == repos@[i as int]);
        }
        let mut shared = false;
        let mut k: usize = 0;
        while k < targets.len()
            invariant
                k <= targets@.len(),
                i < repos@.len(),
                forall|i: int| 0 <= i < targets@.len() ==> (#[trigger] targets@[i]) < repos@.len(),
                shared == exists|m: int|
                    0 <= m < k && opt_text(repos@[(#[trigger] targets@[m]) as int].namespace)
                        == opt_text(repos@[i as int].namespace),
            decreases targets@.len() - k,
        {
            let t: usize = targets[k];
            if same_opt(&repos[t].namespace, &repos[i].namespace) {
                shared = true;
            }
            k += 1;
        }
        if shared {
            r.push(i);
            assert(places(r@) =~= places(before).push(i as int));
        }
        i += 1;
    }
    assert(repos@.take(i as int) =~= repos@);
    r
}

/// One reference that crosses from a file to another.
pub struct Hit {
    pub from_file: String,
    pub from_repo_id: String,
    pub to_file: String,
    pub to_repo_id: String,
    pub kind: ReferenceKind,
    pub symbol: String,
}

/// The ends of an edge: file and repository of either.
pub struct Ends {
    pub from_file: Seq<char>,
    pub from_repo_id: Seq<char>,
    pub to_file: Seq<char>,
    pub to_repo_id: Seq<char>,
}

/// What a hit says.
pub struct HitView {
    pub ends: Ends,
    pub kind: Seq<char>,
    pub symbol: Seq<char>,
}

impl View for Hit {
    type V = HitView;

    open spec fn view(&self) -> HitView {
        HitView {
            ends: Ends {
                from_file: self.from_file@,
                from_repo_id: self.from_repo_id@,
                to_file: self.to_file@,
                to_repo_id: self.to_repo_id@,
            },
            kind: self.kind.name(),
            symbol: self.symbol@,
        }
    }
}

/// What hits say.
pub open spec fn hit_views(s: Seq<Hit>) -> Seq<HitView> {
    Seq::new(s.len(), |i: int| s[i]@)
}

/// The file and repository that a reference points at: the recorded file where
/// it differs from the caller's, else what its callee resolves to.
pub open spec fn points_at(
    sr: SymbolReference,
    sites: Map<Seq<char>, (Seq<char>, Seq<char>)>,
    ambiguous: Set<Seq<char>>,
) -> Option<(Seq<char>, Seq<char>)> {
    if sr.reference_file_path@ != sr.caller_file_path@ {
        Some((sr.reference_file_path@, sr.repository_id@))
    } else {
        resolved(sites, ambiguous, sr.callee_symbol@)
    }
}

/// The hit that a reference makes, if it crosses to another file, and to
/// another repository only where this is asked for.
pub open spec fn hit_of(
    sr: SymbolReference,
    sites: Map<Seq<char>, (Seq<char>, Seq<char>)>,
    ambiguous: Set<Seq<char>>,
    cross: bool,
) -> Option<HitView> {
    match points_at(sr, sites, ambiguous) {
        Some((file, repo)) if file != sr.caller_file_path@ && (cross || repo
            == sr.repository_id@) => Some(
            HitView {
                ends: Ends {
                    from_file: sr.caller_file_path@,
                    from_repo_id: sr.repository_id@,
                    to_file: file,
                    to_repo_id: repo,
                },
                kind: sr.reference_kind.name(),
                symbol: sr.callee_symbol@,
            },
        ),
        _ => None,
    }
}

/// The hits that references make, in order.
pub open spec fn hits_of(
    refs: Seq<SymbolReference>,
    sites: Map<Seq<char>, (Seq<char>, Seq<char>)>,
    ambiguous: Set<Seq<char>>,
    cross: bool,
) -> Seq<HitView>
    decreases refs.len(),
{
    if refs.len() == 0 {
        Seq::empty()
    } else {
        let d = hits_of(refs.drop_last(), sites, ambiguous, cross);
        match hit_of(refs.last(), sites, ambiguous, cross) {
            Some(h) => d.push(h),
            None => d,
        }
    }
}

/// The hits that references make.
pub fn find_hits(refs: &[SymbolReference], index: &SymbolIndex, cross: bool) -> (r: Vec<Hit>)
    ensures
        hit_views(r@) == hits_of(refs@, index.sites(), index.ambiguous(), cross),
        r@.len() <= refs@.len(),
{
    let mut r: Vec<Hit> = Vec::new();
    let mut i: usize = 0;
    assert(hit_views(r@) =~= hits_of(refs@.take(0), index.sites(), index.ambiguous(), cross));
    while i < refs.len()
        invariant
            i <= refs@.len(),
            r@.len() <= i,
            hit_views(r@) == hits_of(
                refs@.take(i as int),
                index.sites(),
                index.ambiguous(),
                cross,
            ),
        decreases refs@.len() - i,
    {
        let sr = &refs[i];
        let ghost before = r@;
        proof {
            assert(refs@.take(i + 1).drop_last() =~= refs@.take(i as int));
            assert(refs@.take(i + 1).last() == refs@[i as int]);
        }
        let target = if !same_text(sr.reference_file_path.as_str(), sr.caller_file_path.as_str()) {
            Some(Site { file: sr.reference_file_path.clone(), repo: sr.repository_id.clone() })
        } else {
            resolve_callee(sr.callee_symbol.as_str(), index)
        };
        if let Some(site) = target {
            if !same_text(site.file.as_str(), sr.caller_file_path.as_str()) && (cross || same_text(
                site.repo.as_str(),
                sr.repository_id.as_str(),
            )) {
                let hit = Hit {
                    from_file: sr.caller_file_path.clone(),
                    from_repo_id: sr.repository_id.clone(),
                    to_file: site.file,
                    to_repo_id: site.repo,
                    kind: sr.reference_kind,
                    symbol: sr.callee_symbol.clone(),
                };
                let ghost h = hit@;
                r.push(hit);
                assert(hit_views(r@) =~= hit_views(before).push(h));
            }
        }
        i += 1;
    }
    assert(refs@.take(i as int) =~= refs@);
    r
}

/// The different ends of the hits, in the order in which they are first met.
pub open spec fn all_ends(hits: Seq<HitView>) -> Seq<Ends>
    decreases hits.len(),
{
    if hits.len() == 0 {
        Seq::empty()
    } else {
        let d = all_ends(hits.drop_last());
        if d.contains(hits.last().ends) {
            d
        } else {
            d.push(hits.last().ends)
        }
    }
}

/// The number of hits with these ends.
pub open spec fn weight_of(hits: Seq<HitView>, ends: Ends) -> nat
    decreases hits.len(),
{
    if hits.len() == 0 {
        0
    } else {
        weight_of(hits.drop_last(), ends) + if hits.last().ends == ends {
            1nat
        } else {
            0
        }
    }
}

/// The different kinds of the hits with these ends.
pub open spec fn kinds_of(hits: Seq<HitView>, ends: Ends) -> Seq<Seq<char>>
    decreases hits.len(),
{
    if hits.len() == 0 {
        Seq::empty()
    } else {
        let d = kinds_of(hits.drop_last(), ends);
        if hits.last().ends != ends || d.contains(hits.last().kind) {
            d
        } else {
            d.push(hits.last().kind)
        }
    }
}

/// The different symbols of the hits with these ends.
pub open spec fn symbols_of(hits: Seq<HitView>, ends: Ends) -> Seq<Seq<char>>
    decreases hits.len(),
{
    if hits.len() == 0 {
        Seq::empty()
    } else {
        let d = symbols_of(hits.drop_last(), ends);
        if hits.last().ends != ends || d.contains(hits.last().symbol) {
            d
        } else {
            d.push(hits.last().symbol)
        }
    }
}

/// What an edge says.
pub struct EdgeView {
    pub ends: Ends,
    pub weight: nat,
    pub kinds: Seq<Seq<char>>,
    pub symbols: Seq<Seq<char>>,
}

impl View for FileEdge {
    type V = EdgeView;

    open spec fn view(&self) -> EdgeView {
        EdgeView {
            ends: Ends {
                from_file: self.from_file@,
                from_repo_id: self.from_repo_id@,
                to_file: self.to_file@,
                to_repo_id: self.to_repo_id@,
            },
            weight: self.weight as nat,
            kinds: texts(self.reference_kinds@),
            symbols: texts(self.symbols@),
        }
    }
}

/// What edges say.
pub open spec fn edge_views(s: Seq<FileEdge>) -> Seq<EdgeView> {
    Seq::new(s.len(), |i: int| s[i]@)
}

/// The hits gathered by their ends.
pub open spec fn gathered(hits: Seq<HitView>) -> Seq<EdgeView> {
    let ends = all_ends(hits);
    Seq::new(
        ends.len(),
        |i: int|
            EdgeView {
                ends: ends[i],
                weight: weight_of(hits, ends[i]),
                kinds: kinds_of(hits, ends[i]),
                symbols: symbols_of(hits, ends[i]),
            },
    )
}

/// The edges of at least `min` hits, with kinds and symbols sorted.
pub open spec fn weighty(edges: Seq<EdgeView>, min: int) -> Seq<EdgeView>
    decreases edges.len(),
{
    if edges.len() == 0 {
        edges
    } else {
        let d = weighty(edges.drop_last(), min);
        let e = edges.last();
        if e.weight >= min {
            d.push(
                EdgeView {
                    kinds: sorted_texts(e.kinds),
                    symbols: sorted_texts(e.symbols),
                    ..e
                },
            )
        } else {
            d
        }
    }
}

proof fn lemma_all_ends(hits: Seq<HitView>)
    ensures
        all_ends(hits).no_duplicates(),
        forall|e: Ends| #[trigger] weight_of(hits, e) <= hits.len(),
        forall|e: Ends|
            !all_ends(hits).contains(e) ==> #[trigger] weight_of(hits, e) == 0 && kinds_of(hits, e)
                == Seq::<Seq<char>>::empty() && symbols_of(hits, e) == Seq::<Seq<char>>::empty(),
    decreases hits.len(),
{
    if hits.len() > 0 {
        let p = hits.drop_last();
        lemma_all_ends(p);
        let d = all_ends(p);
        let a = all_ends(hits);
        assert forall|e: Ends| #[trigger] weight_of(hits, e) <= hits.len() by {
            assert(weight_of(p, e) <= p.len());
        }
        assert forall|e: Ends| !a.contains(e) implies #[trigger] weight_of(hits, e) == 0
            && kinds_of(hits, e) == Seq::<Seq<char>>::empty() && symbols_of(hits, e) == Seq::<
            Seq<char>,
        >::empty() by {
            if d.contains(e) {
                let k = choose|k: int| 0 <= k < d.len() && d[k] == e;
                assert(a[k] == e);
            }
            if !d.contains(hits.last().ends) {
                assert(a[d.len() as int] == hits.last().ends);
            } else {
                let k = choose|k: int| 0 <= k < d.len() && d[k] == hits.last().ends;
                assert(a[k] == hits.last().ends);
            }
            assert(weight_of(p, e) == 0);
        }
    }
}

impl Ranked for FileEdge {
    /// Heaviest first, then by the files at the ends.
    open spec fn ranks_before(self, other: Self) -> bool {
        ||| self.weight > other.weight
        ||| self.weight == other.weight && text_lt(self.from_file@, other.from_file@)
        ||| self.weight == other.weight && self.from_file@ == other.from_file@ && text_lt(
            self.to_file@,
            other.to_file@,
        )
    }

    fn goes_before(&self, other: &Self) -> (r: bool) {
        if self.weight != other.weight {
            return self.weight > other.weight;
        }
        if !same_text(self.from_file.as_str(), other.from_file.as_str()) {
            return text_less(self.from_file.as_str(), other.from_file.as_str());
        }
        proof {
            lemma_text_lt_irreflexive(self.from_file@);
        }
        text_less(self.to_file.as_str(), other.to_file.as_str())
    }

    proof fn rank_laws(a: Self, b: Self, c: Self) {
        lemma_text_order(a.from_file@, b.from_file@, c.from_file@);
        lemma_text_order(a.to_file@, b.to_file@, c.to_file@);
    }
}

/// Whether the edge has the ends of the hit.
fn same_ends(e: &FileEdge, h: &Hit) -> (r: bool)
    ensures
        r == (e@.ends == h@.ends),
{
    same_text(e.from_file.as_str(), h.from_file.as_str()) && same_text(
        e.from_repo_id.as_str(),
        h.from_repo_id.as_str(),
    ) && same_text(e.to_file.as_str(), h.to_file.as_str()) && same_text(
        e.to_repo_id.as_str(),
        h.to_repo_id.as_str(),
    )
}

/// Gathers hits into edges, one for each pair of ends.
pub fn gather(hits: Vec<Hit>) -> (r: Vec<FileEdge>)
    ensures
        edge_views(r@) == gathered(hit_views(hits@)),
{
    let ghost all = hit_views(hits@);
    let count: usize = hits.len();
    let mut r: Vec<FileEdge> = Vec::new();
    assert(edge_views(r@) =~= gathered(all.take(0)));
    for h in it: hits
        invariant
            it.seq() == hits@,
            all == hit_views(hits@),
            hits@.len() == count,
            edge_views(r@) == gathered(all.take(it.index() as int)),
    {
        let ghost done = all.take(it.index() as int);
        let ghost next = all.take(it.index() as int + 1);
        let ghost ends = all_ends(done);
        proof {
            assert(next.drop_last() =~= done);
            assert(next.last() == h@);
            lemma_all_ends(done);
            assert(edge_views(r@).len() == ends.len());
        }
        let mut at: usize = 0;
        while at < r.len() && !same_ends(&r[at], &h)
            invariant
                at <= r@.len(),
                r@.len() == ends.len(),
                edge_views(r@) == gathered(done),
                ends == all_ends(done),
                forall|k: int| 0 <= k < at ==> ends[k] != h@.ends,
            decreases r@.len() - at,
        {
            assert(edge_views(r@)[at as int].ends == ends[at as int]);
            at += 1;
        }
        if at < r.len() {
            proof {
                assert(edge_views(r@)[at as int] == gathered(done)[at as int]);
                assert(ends[at as int] == h@.ends);
                assert(ends.contains(h@.ends));
                assert(weight_of(done, h@.ends) <= done.len());
            }
            let ghost before = r@;
            let e = &r[at];
            let weight: usize = e.weight + 1;
            let kind = h.kind.as_str();
            let new_kind = !has_text(&e.reference_kinds, kind);
            let new_symbol = !has_text(&e.symbols, h.symbol.as_str());
            r[at].weight = weight;
            if new_kind {
                r[at].reference_kinds.push(kind.to_string());
            }
            if new_symbol {
                r[at].symbols.push(h.symbol);
            }
            proof {
                let o = before[at as int];
                let n = r@[at as int];
                assert(texts(n.reference_kinds@) =~= if new_kind {
                    texts(o.reference_kinds@).push(h@.kind)
                } else {
                    texts(o.reference_kinds@)
                });
                assert(texts(n.symbols@) =~= if new_symbol {
                    texts(o.symbols@).push(h@.symbol)
                } else {
                    texts(o.symbols@)
                });
                assert(all_ends(next) == ends);
                assert forall|k: int| 0 <= k < ends.len() implies edge_views(r@)[k] == gathered(
                    next,
                )[k] by {
                    assert(edge_views(before)[k] == gathered(done)[k]);
                    if k != at {
                        assert(ends[k] != ends[at as int]);
                        assert(r@[k] == before[k]);
                    }
                }
                assert(edge_views(r@) =~= gathered(next));
            }
        } else {
            let ghost before = r@;
            proof {
                assert(!ends.contains(h@.ends));
                assert(weight_of(done, h@.ends) == 0);
            }
            let ghost hv = h@;
            let mut reference_kinds: Vec<String> = Vec::new();
            reference_kinds.push(h.kind.as_str().to_string());
            let mut symbols: Vec<String> = Vec::new();
            symbols.push(h.symbol);
            let edge = FileEdge {
                from_file: h.from_file,
                from_repo_id: h.from_repo_id,
                to_file: h.to_file,
                to_repo_id: h.to_repo_id,
                weight: 1,
                reference_kinds,
                symbols,
            };
            let ghost e = edge;
            r.push(edge);
            proof {
                assert(all_ends(next) == ends.push(hv.ends));
                assert(texts(e.reference_kinds@) =~= Seq::<Seq<char>>::empty().push(hv.kind));
                assert(texts(e.symbols@) =~= Seq::<Seq<char>>::empty().push(hv.symbol));
                assert forall|k: int| 0 <= k < ends.len() implies edge_views(r@)[k] == gathered(
                    next,
                )[k] by {
                    assert(edge_views(before)[k] == gathered(done)[k]);
                    assert(ends[k] != hv.ends);
                    assert(r@[k] == before[k]);
                }
                assert(edge_views(r@)[ends.len() as int] == gathered(next)[ends.len() as int]);
                assert(edge_views(r@) =~= gathered(next));
            }
        }
    }
    assert(all.take(all.len() as int) =~= all);
    r
}

/// Keeps the edges of at least `min` hits, and sorts their kinds and symbols.
fn keep_weighty(edges: Vec<FileEdge>, min: usize) -> (r: Vec<FileEdge>)
    ensures
        edge_views(r@) == weighty(edge_views(edges@), min as int),
{
    let ghost all = edge_views(edges@);
    let mut r: Vec<FileEdge> = Vec::new();
    assert(edge_views(r@) =~= weighty(all.take(0), min as int));
    for e in it: edges
        invariant
            it.seq() == edges@,
            all == edge_views(edges@),
            edge_views(r@) == weighty(all.take(it.index() as int), min as int),
    {
        let ghost before = r@;
        proof {
            let i = it.index() as int;
            assert(all.take(i + 1).drop_last() =~= all.take(i));
            assert(all.take(i + 1).last() == e@);
        }
        if e.weight >= min {
            let edge = FileEdge {
                from_file: e.from_file,
                from_repo_id: e.from_repo_id,
                to_file: e.to_file,
                to_repo_id: e.to_repo_id,
                weight: e.weight,
                reference_kinds: sort_texts(e.reference_kinds),
                symbols: sort_texts(e.symbols),
            };
            let ghost v = edge@;
            r.push(edge);
            assert(edge_views(r@) =~= edge_views(before).push(v));
        }
    }
    assert(all.take(all.len() as int) =~= all);
    r
}

/// The files at the ends of edges, one after the other.
pub open spec fn end_files(edges: Seq<EdgeView>) -> Seq<Seq<char>>
    decreases edges.len(),
{
    if edges.len() == 0 {
        Seq::empty()
    } else {
        end_files(edges.drop_last()).push(edges.last().ends.from_file).push(
            edges.last().ends.to_file,
        )
    }
}

fn add_file(files: &mut Vec<String>, file: &String, Ghost(s): Ghost<Seq<Seq<char>>>)
    requires
        texts(old(files)@) == distinct(s),
    ensures
        texts(final(files)@) == distinct(s.push(file@)),
{
    assert(s.push(file@).drop_last() =~= s);
    let ghost before = files@;
    if !has_text(files, file.as_str()) {
        files.push(file.clone());
        assert(texts(files@) =~= texts(before).push(file@));
    }
}

/// The files at the ends of edges, each once.
pub(crate) fn files_of(edges: &[FileEdge]) -> (r: Vec<String>)
    ensures
        texts(r@) == distinct(end_files(edge_views(edges@))),
{
    let ghost all = edge_views(edges@);
    let mut r: Vec<String> = Vec::new();
    let mut i: usize = 0;
    assert(texts(r@) =~= distinct(end_files(all.take(0))));
    while i < edges.len()
        invariant
            i <= edges@.len(),
            all == edge_views(edges@),
            texts(r@) == distinct(end_files(all.take(i as int))),
        decreases edges@.len() - i,
    {
        let ghost s = end_files(all.take(i as int));
        proof {
            assert(all.take(i + 1).drop_last() =~= all.take(i as int));
            assert(all.take(i + 1).last() == edges@[i as int]@);
        }
        add_file(&mut r, &edges[i].from_file, Ghost(s));
        add_file(&mut r, &edges[i].to_file, Ghost(s.push(edges@[i as int].from_file@)));
        i += 1;
    }
    assert(all.take(i as int) =~= all);
    r
}

/// What a repository of a graph says: id, name and path.
pub open spec fn repo_texts(s: Seq<FileGraphRepo>) -> Seq<(Seq<char>, Seq<char>, Seq<char>)> {
    Seq::new(s.len(), |i: int| (s[i].id@, s[i].name@, s[i].path@))
}

/// What the targets say: id, name and path.
pub open spec fn target_texts(repos: Seq<Repository>, targets: Seq<usize>) -> Seq<
    (Seq<char>, Seq<char>, Seq<char>),
> {
    Seq::new(
        targets.len(),
        |i: int|
            (
                repos[targets[i] as int].id@,
                repos[targets[i] as int].name@,
                repos[targets[i] as int].path@,
            ),
    )
}

/// The graph is the one that the references make: their hits gathered, light
/// edges left out, in order, with the files and repositories that belong to
/// it.
pub open spec fn is_file_graph(
    graph: FileGraph,
    repos: Seq<Repository>,
    targets: Seq<usize>,
    refs: Seq<SymbolReference>,
    index: SymbolIndex,
    min_weight: int,
    cross: bool,
) -> bool {
    let edges = weighty(
        gathered(hits_of(refs, index.sites(), index.ambiguous(), cross)),
        min_weight,
    );
    &&& exists|unsorted: Seq<FileEdge>| #[trigger]
        edge_views(unsorted) == edges && graph.edges@ == arranged(unsorted)
    &&& texts(graph.files@) == distinct(end_files(edge_views(graph.edges@)))
    &&& repo_texts(graph.repositories@) == target_texts(repos, targets)
}

/// Builds the graph of the references `refs`, which are those of the targets
/// in order, over the names of `index`.
pub fn build_graph(
    repos: &[Repository],
    targets: &[usize],
    refs: &[SymbolReference],
    index: &SymbolIndex,
    min_weight: usize,
    include_cross_repo: bool,
) -> (r: FileGraph)
    requires
        forall|i: int| 0 <= i < targets@.len() ==> (#[trigger] targets@[i]) < repos@.len(),
    ensures
        is_file_graph(r, repos@, targets@, refs@, *index, min_weight as int, include_cross_repo),
{
    let hits = find_hits(refs, index, include_cross_repo);
    let unsorted = keep_weighty(gather(hits), min_weight);
    let ghost u = unsorted@;
    let edges = arrange(unsorted);
    let files = files_of(&edges);
    let mut repositories: Vec<FileGraphRepo> = Vec::new();
    let mut i: usize = 0;
    while i < targets.len()
        invariant
            i <= targets@.len(),
            forall|i: int| 0 <= i < targets@.len() ==> (#[trigger] targets@[i]) < repos@.len(),
            repositories@.len() == i,
            forall|k: int|
                0 <= k < i ==> repo_texts(repositories@)[k] == target_texts(repos@, targets@)[k],
        decreases targets@.len() - i,
    {
        let t: usize = targets[i];
        let ghost before = repositories@;
        repositories.push(
            FileGraphRepo {
                id: repos[t].id.clone(),
                name: repos[t].name.clone(),
                path: repos[t].path.clone(),
            },
        );
        proof {
            assert forall|k: int| 0 <= k < i + 1 implies repo_texts(repositories@)[k]
                == target_texts(repos@, targets@)[k] by {
                if k < i {
                    assert(repo_texts(before)[k] == target_texts(repos@, targets@)[k]);
                }
            }
        }
        i += 1;
    }
    assert(repo_texts(repositories@) =~= target_texts(repos@, targets@));
    let graph = FileGraph { repositories, files, edges };
    assert(edge_views(u) == weighty(
        gathered(hits_of(refs@, index.sites(), index.ambiguous(), include_cross_repo)),
        min_weight as int,
    ));
    graph
}

} // verus!
