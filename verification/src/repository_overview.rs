//! The overview of a repository: one report put together from every analysis,
//! in which a section that fails leaves a note and nothing else.

use vstd::prelude::*;
use vstd::string::*;
use crate::call_graph::CallGraphStats;
use crate::channel_link::{ChannelEdge, ChannelLinkReport};
use crate::channels::ChannelEndpoint;
use crate::collections::{Entry, TextMap};
use crate::domain::{DomainError, Repository};
use crate::execution_features::ExecutionFeature;
use crate::index_batch::LanguageStats;
use crate::module_overview::ModuleOverview;
use crate::order::{Ranked, arrange, arranged};
use crate::symbol_cluster_detection::SymbolCommunityGraph;
use crate::text::{copy_all, has_text, same_text, texts};

verus! {

/// How many rows a ranked section shows where nothing else is set.
pub const DEFAULT_OVERVIEW_TOP: usize = 10;

/// Which sections to compute, and how much of each to keep.
#[derive(Debug)]
pub struct OverviewOptions {
    pub top: usize,
    pub include_modules: bool,
    pub include_symbol_communities: bool,
    pub include_couplings: bool,
    pub include_features: bool,
    pub include_channels: bool,
    /// The repositories that channels are joined with, besides the repository
    /// itself.
    pub channel_scope: Vec<String>,
}

impl Default for OverviewOptions {
    fn default() -> (r: OverviewOptions)
        ensures
            r.top == DEFAULT_OVERVIEW_TOP,
            r.include_modules,
            r.include_symbol_communities,
            r.include_couplings,
            r.include_features,
            r.include_channels,
            r.channel_scope@.len() == 0,
    {
        OverviewOptions {
            top: DEFAULT_OVERVIEW_TOP,
            include_modules: true,
            include_symbol_communities: true,
            include_couplings: true,
            include_features: true,
            include_channels: true,
            channel_scope: Vec::new(),
        }
    }
}

/// The part of the index in one language.
#[derive(Debug)]
pub struct LanguageShare {
    pub language: String,
    pub file_count: u64,
    pub chunk_count: u64,
}

impl Ranked for LanguageShare {
    /// The language with most chunks first.
    open spec fn ranks_before(self, other: Self) -> bool {
        self.chunk_count > other.chunk_count
    }

    fn goes_before(&self, other: &Self) -> (r: bool) {
        self.chunk_count > other.chunk_count
    }

    proof fn rank_laws(a: Self, b: Self, c: Self) {
    }
}

/// The size of the index and of the call graph.
#[derive(Debug)]
pub struct OverviewStats {
    pub name: String,
    pub path: String,
    pub file_count: u64,
    pub chunk_count: u64,
    pub updated_at: i64,
    pub languages: Vec<LanguageShare>,
    pub call_graph_references: u64,
    pub call_graph_callers: u64,
    pub call_graph_callees: u64,
}

/// The channel links of a repository, with the names of repositories by id.
pub struct ChannelOverview {
    pub report: ChannelLinkReport,
    pub repository_names: TextMap<String>,
}

/// A section that failed, and why.
#[derive(Debug)]
pub struct SkippedSection {
    pub section: String,
    pub reason: String,
}

/// The overview of a repository. A section that was not asked for, or failed,
/// is missing. `C` is what is known of couplings.
pub struct OverviewReport<C> {
    pub repository_id: String,
    pub stats: Option<OverviewStats>,
    pub modules: Option<ModuleOverview>,
    pub symbol_communities: Option<SymbolCommunityGraph>,
    pub couplings: Option<C>,
    pub features: Option<Vec<ExecutionFeature>>,
    pub channels: Option<ChannelOverview>,
    pub summary: Option<String>,
    pub skipped: Vec<SkippedSection>,
}

/// What notes say: the section and the reason.
pub open spec fn note_rows(s: Seq<SkippedSection>) -> Seq<(Seq<char>, Seq<char>)> {
    Seq::new(s.len(), |i: int| (s[i].section@, s[i].reason@))
}

/// The note that a section leaves: none, unless it failed.
pub open spec fn note_of<T>(section: Seq<char>, result: Result<Option<T>, String>) -> Seq<
    (Seq<char>, Seq<char>),
> {
    match result {
        Ok(_) => Seq::empty(),
        Err(e) => seq![(section, e@)],
    }
}

/// What a section gives: nothing where it failed.
pub open spec fn value_of<T>(result: Result<Option<T>, String>) -> Option<T> {
    match result {
        Ok(v) => v,
        Err(_) => None,
    }
}

/// What a section gives; a note is left where it failed.
pub fn unwrap_section<T>(
    skipped: &mut Vec<SkippedSection>,
    section: &str,
    result: Result<Option<T>, String>,
) -> (r: Option<T>)
    ensures
        r == value_of(result),
        note_rows(final(skipped)@) == note_rows(old(skipped)@) + note_of(section@, result),
{
    let ghost before = skipped@;
    match result {
        Ok(v) => {
            assert(note_rows(before) + Seq::empty() =~= note_rows(before));
            v
        },
        Err(e) => {
            let ghost reason = e@;
            skipped.push(SkippedSection { section: section.to_string(), reason: e });
            assert(note_rows(skipped@) =~= note_rows(before) + seq![(section@, reason)]);
            None
        },
    }
}

/// Puts the report together: every section stands on its own, and the notes are
/// in the order of the sections.
pub fn assemble<C>(
    repository_id: &str,
    stats: Result<Option<OverviewStats>, String>,
    modules: Result<Option<ModuleOverview>, String>,
    symbol_communities: Result<Option<SymbolCommunityGraph>, String>,
    couplings: Result<Option<C>, String>,
    features: Result<Option<Vec<ExecutionFeature>>, String>,
    channels: Result<Option<ChannelOverview>, String>,
) -> (r: OverviewReport<C>)
    ensures
        r.repository_id@ == repository_id@,
        r.stats == value_of(stats),
        r.modules == value_of(modules),
        r.symbol_communities == value_of(symbol_communities),
        r.couplings == value_of(couplings),
        r.features == value_of(features),
        r.channels == value_of(channels),
        r.summary is None,
        note_rows(r.skipped@) == note_of("stats"@, stats) + note_of("modules"@, modules) + note_of(
            "symbol-communities"@,
            symbol_communities,
        ) + note_of("couplings"@, couplings) + note_of("features"@, features) + note_of(
            "channels"@,
            channels,
        ),
{
    let mut skipped: Vec<SkippedSection> = Vec::new();
    assert(note_rows(skipped@) + note_of("stats"@, stats) =~= note_of("stats"@, stats));
    let stats = unwrap_section(&mut skipped, "stats", stats);
    let modules = unwrap_section(&mut skipped, "modules", modules);
    let symbol_communities = unwrap_section(
        &mut skipped,
        "symbol-communities",
        symbol_communities,
    );
    let couplings = unwrap_section(&mut skipped, "couplings", couplings);
    let features = unwrap_section(&mut skipped, "features", features);
    let channels = unwrap_section(&mut skipped, "channels", channels);
    OverviewReport {
        repository_id: repository_id.to_string(),
        stats,
        modules,
        symbol_communities,
        couplings,
        features,
        channels,
        summary: None,
        skipped,
    }
}

/// What shares say: the language, its files and its chunks.
pub open spec fn share_rows(s: Seq<LanguageShare>) -> Seq<(Seq<char>, u64, u64)> {
    Seq::new(s.len(), |i: int| (s[i].language@, s[i].file_count, s[i].chunk_count))
}

/// What a listing says of languages.
pub open spec fn stats_rows(s: Seq<Entry<LanguageStats>>) -> Seq<(Seq<char>, u64, u64)> {
    Seq::new(s.len(), |i: int| (s[i].key@, s[i].value.file_count, s[i].value.chunk_count))
}

/// The languages of an index, those with most chunks first.
pub fn language_shares(languages: &TextMap<LanguageStats>) -> (r: Vec<LanguageShare>)
    ensures
        exists|unsorted: Seq<LanguageShare>| #[trigger]
            share_rows(unsorted) == stats_rows(languages.listing()) && r@ == arranged(unsorted),
{
    let n: usize = languages.len();
    let ghost es = languages.listing();
    let mut unsorted: Vec<LanguageShare> = Vec::new();
    let mut i: usize = 0;
    while i < n
        invariant
            i <= n,
            n == es.len(),
            es == languages.listing(),
            unsorted@.len() == i,
            forall|k: int|
                0 <= k < i ==> (#[trigger] unsorted@[k]).language@ == es[k].key@
                    && unsorted@[k].file_count == es[k].value.file_count
                    && unsorted@[k].chunk_count == es[k].value.chunk_count,
        decreases n - i,
    {
        let e = languages.at(i);
        unsorted.push(
            LanguageShare {
                language: e.key.clone(),
                file_count: e.value.file_count,
                chunk_count: e.value.chunk_count,
            },
        );
        i += 1;
    }
    assert(share_rows(unsorted@) =~= stats_rows(es));
    arrange(unsorted)
}

/// The record of an indexed repository.
pub struct IndexedRepository {
    pub name: String,
    pub path: String,
    pub file_count: u64,
    pub chunk_count: u64,
    pub updated_at: i64,
    pub languages: TextMap<LanguageStats>,
}

/// The sizes of a repository. One that has no record has none; a call graph
/// that is missing counts as empty.
pub fn stats_section(
    repository_id: &str,
    repo: Option<IndexedRepository>,
    call_graph: Option<CallGraphStats>,
) -> (r: Result<Option<OverviewStats>, DomainError>)
    ensures
        r is Err == repo is None,
        r matches Err(e) ==> e is NotFound && e->NotFound_0@ == "repository '"@ + repository_id@
            + "' is not indexed"@,
        r matches Ok(s) ==> s is Some,
        r matches Ok(Some(s)) ==> ({
            let p = repo->Some_0;
            &&& s.name == p.name
            &&& s.path == p.path
            &&& s.file_count == p.file_count
            &&& s.chunk_count == p.chunk_count
            &&& s.updated_at == p.updated_at
            &&& exists|unsorted: Seq<LanguageShare>| #[trigger]
                share_rows(unsorted) == stats_rows(p.languages.listing()) && s.languages@
                    == arranged(unsorted)
            &&& call_graph matches Some(g) ==> s.call_graph_references == g.total_references
                && s.call_graph_callers == g.unique_callers && s.call_graph_callees
                == g.unique_callees
            &&& call_graph is None ==> s.call_graph_references == 0 && s.call_graph_callers == 0
                && s.call_graph_callees == 0
        }),
{
    match repo {
        None => {
            let mut m = "repository '".to_string();
            m.append(repository_id);
            m.append("' is not indexed");
            Err(DomainError::NotFound(m))
        },
        Some(p) => {
            let (references, callers, callees): (u64, u64, u64) = match &call_graph {
                Some(g) => (g.total_references, g.unique_callers, g.unique_callees),
                None => (0, 0, 0),
            };
            let languages = language_shares(&p.languages);
            Ok(
                Some(
                    OverviewStats {
                        name: p.name,
                        path: p.path,
                        file_count: p.file_count,
                        chunk_count: p.chunk_count,
                        updated_at: p.updated_at,
                        languages,
                        call_graph_references: references,
                        call_graph_callers: callers,
                        call_graph_callees: callees,
                    },
                ),
            )
        },
    }
}

/// The scope with the repository in it.
pub open spec fn scope_with(scope: Seq<Seq<char>>, id: Seq<char>) -> Seq<Seq<char>> {
    if scope.contains(id) {
        scope
    } else {
        scope.push(id)
    }
}

/// The repositories that channels are joined over: those of the scope and the
/// repository itself.
pub fn join_scope(scope: &[String], repository_id: &str) -> (r: Vec<String>)
    ensures
        texts(r@) == if texts(scope@).contains(repository_id@) {
            texts(scope@)
        } else {
            texts(scope@).push(repository_id@)
        },
        texts(r@) == scope_with(texts(scope@), repository_id@),
{
    let mut r = copy_all(scope);
    if !has_text(scope, repository_id) {
        r.push(repository_id.to_string());
        assert(texts(r@) =~= texts(scope@).push(repository_id@));
    }
    r
}

/// The edges with an end in the repository, in order.
pub open spec fn own_edges(edges: Seq<ChannelEdge>, id: Seq<char>) -> Seq<ChannelEdge>
    decreases edges.len(),
{
    if edges.len() == 0 {
        edges
    } else {
        let d = own_edges(edges.drop_last(), id);
        let e = edges.last();
        if e.producer.repository_id@ == id || e.consumer.repository_id@ == id {
            d.push(e)
        } else {
            d
        }
    }
}

/// The endpoints in the repository, in order.
pub open spec fn own_endpoints(s: Seq<ChannelEndpoint>, id: Seq<char>) -> Seq<ChannelEndpoint>
    decreases s.len(),
{
    if s.len() == 0 {
        s
    } else if s.last().repository_id@ == id {
        own_endpoints(s.drop_last(), id).push(s.last())
    } else {
        own_endpoints(s.drop_last(), id)
    }
}

fn keep_own(s: Vec<ChannelEndpoint>, id: &str) -> (r: Vec<ChannelEndpoint>)
    ensures
        r@ == own_endpoints(s@, id@),
{
    let ghost all = s@;
    let mut r: Vec<ChannelEndpoint> = Vec::new();
    assert(r@ =~= own_endpoints(all.take(0), id@));
    for e in it: s
        invariant
            it.seq() == all,
            r@ == own_endpoints(all.take(it.index() as int), id@),
    {
        proof {
            let i = it.index() as int;
            assert(all.take(i + 1).drop_last() =~= all.take(i));
            assert(all.take(i + 1).last() == e);
        }
        if same_text(e.repository_id.as_str(), id) {
            r.push(e);
        }
    }
    assert(all.take(all.len() as int) =~= all);
    r
}

/// The part of a report that concerns the repository.
pub fn own_channels(report: ChannelLinkReport, repository_id: &str) -> (r: ChannelLinkReport)
    ensures
        r.edges@ == own_edges(report.edges@, repository_id@),
        r.unmatched_producers@ == own_endpoints(report.unmatched_producers@, repository_id@),
        r.unmatched_consumers@ == own_endpoints(report.unmatched_consumers@, repository_id@),
        r.noisy_channels == report.noisy_channels,
{
    let ChannelLinkReport { edges, unmatched_producers, unmatched_consumers, noisy_channels } =
        report;
    let ghost all = edges@;
    let mut own: Vec<ChannelEdge> = Vec::new();
    assert(own@ =~= own_edges(all.take(0), repository_id@));
    for e in it: edges
        invariant
            it.seq() == all,
            own@ == own_edges(all.take(it.index() as int), repository_id@),
    {
        proof {
            let i = it.index() as int;
            assert(all.take(i + 1).drop_last() =~= all.take(i));
            assert(all.take(i + 1).last() == e);
        }
        if same_text(e.producer.repository_id.as_str(), repository_id) || same_text(
            e.consumer.repository_id.as_str(),
            repository_id,
        ) {
            own.push(e);
        }
    }
    assert(all.take(all.len() as int) =~= all);
    ChannelLinkReport {
        edges: own,
        unmatched_producers: keep_own(unmatched_producers, repository_id),
        unmatched_consumers: keep_own(unmatched_consumers, repository_id),
        noisy_channels,
    }
}

/// The name of the last repository with the id.
pub open spec fn name_by_id(repos: Seq<Repository>, id: Seq<char>) -> Option<Seq<char>>
    decreases repos.len(),
{
    if repos.len() == 0 {
        None
    } else if repos.last().id@ == id {
        Some(repos.last().name@)
    } else {
        name_by_id(repos.drop_last(), id)
    }
}

/// The names of repositories by id.
pub fn repository_names(repos: &[Repository]) -> (r: TextMap<String>)
    ensures
        forall|id: Seq<char>|
            (#[trigger] r@.contains_key(id) <==> name_by_id(repos@, id) is Some) && (
            r@.contains_key(id) ==> Some(r@[id]@) == name_by_id(repos@, id)),
{
    let mut r: TextMap<String> = TextMap::new();
    let mut i: usize = 0;
    while i < repos.len()
        invariant
            i <= repos@.len(),
            forall|id: Seq<char>|
                (#[trigger] r@.contains_key(id) <==> name_by_id(repos@.take(i as int), id) is Some)
                    && (r@.contains_key(id) ==> Some(r@[id]@) == name_by_id(
                    repos@.take(i as int),
                    id,
                )),
        decreases repos@.len() - i,
    {
        let ghost before = r@;
        proof {
            assert(repos@.take(i + 1).drop_last() =~= repos@.take(i as int));
            assert(repos@.take(i + 1).last() == repos@[i as int]);
        }
        r.insert(repos[i].id.clone(), repos[i].name.clone());
        proof {
            assert forall|id: Seq<char>|
                (#[trigger] r@.contains_key(id) <==> name_by_id(repos@.take(i + 1), id) is Some)
                    && (r@.contains_key(id) ==> Some(r@[id]@) == name_by_id(
                    repos@.take(i + 1),
                    id,
                )) by {
                assert(before.contains_key(id) <==> name_by_id(repos@.take(i as int), id) is Some);
            }
        }
        i += 1;
    }
    assert(repos@.take(i as int) =~= repos@);
    r
}

} // verus!
