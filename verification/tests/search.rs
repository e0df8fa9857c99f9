use codesearch::domain::{
    CodeChunk, DomainError, Language, NodeType, ReferenceKind, SearchQuery, SearchResult,
    SymbolReference,
};
use codesearch::fusion::SCORE_ONE;
use codesearch::graph_expansion::{
    pick_definition, plan_lookups, rank_neighbors, seed_symbols, select_chunks, FetchedChunk,
    NeighborScore, SeedEdges,
};
use codesearch::search::{fetch_base, SearchRun, SearchSetup, SearchStep};
use codesearch::snippet_lookup::{get_snippet, symbol_lookup};

fn chunk(id: &str, symbol: Option<&str>, lines: (u32, u32)) -> CodeChunk {
    CodeChunk::reconstitute(
        id.to_string(),
        format!("src/{id}.rs"),
        "fn x() {}".to_string(),
        lines.0,
        lines.1,
        Language::Rust,
        NodeType::Function,
        symbol.map(str::to_string),
        None,
        "repo".to_string(),
    )
}

const ONE: i128 = SCORE_ONE as i128;

fn result(id: &str, score: i128) -> SearchResult {
    SearchResult::new(chunk(id, Some(id), (1, 2)), score)
}

fn setup(reranking: bool, expansion: bool, graph: bool) -> SearchSetup {
    SearchSetup { reranking, expansion, graph }
}

fn shown(results: &[SearchResult]) -> Vec<&str> {
    results.iter().map(|r| r.chunk().id()).collect()
}

#[test]
fn plain_search_returns_what_the_store_found() {
    let query = SearchQuery::new("q").with_limit(3);
    let mut run = SearchRun::start(setup(false, false, false), query, 99);
    assert_eq!(run.fetch_limit, 3);
    run.probed(Ok(true));
    assert_eq!(run.step, SearchStep::Semantic);
    assert_eq!(run.store_query().limit, 3);
    run.found(vec![result("a", 1), result("b", ONE)]);
    assert_eq!(run.step, SearchStep::Done);
    assert_eq!(shown(&run.finish()), vec!["a", "b"]);
}

#[test]
fn stores_without_embeddings_are_searched_by_keyword() {
    let mut run = SearchRun::start(setup(false, true, false), SearchQuery::new("q"), 0);
    run.probed(Ok(false));
    assert_eq!(run.step, SearchStep::Keyword);
    assert!(run.store_query().text_search);
    let mut failed = SearchRun::start(setup(false, true, false), SearchQuery::new("q"), 0);
    failed.probed(Err(DomainError::StorageError("down".to_string())));
    assert_eq!(failed.step, SearchStep::Variants);
}

#[test]
fn reranking_fetches_more_and_drops_the_weak() {
    assert_eq!(fetch_base(10), 20);
    assert_eq!(fetch_base(11), 11);
    let query = SearchQuery::new("q").with_limit(5);
    let mut run = SearchRun::start(setup(true, false, false), query, 7);
    assert_eq!(run.fetch_limit, 27);
    run.probed(Ok(true));
    run.found(vec![result("a", ONE / 10), result("b", ONE / 10 - 1)]);
    assert_eq!(run.step, SearchStep::Rerank);
    let candidates = run.candidates();
    assert_eq!(shown(&candidates), vec!["a"]);
    run.reranked(vec![result("x", 0), result("y", ONE)]);
    assert_eq!(shown(&run.finish()), vec!["y"]);
}

#[test]
fn scores_can_be_negative() {
    let mut plain = SearchRun::start(setup(false, false, false), SearchQuery::new("q"), 0);
    plain.probed(Ok(true));
    plain.found(vec![result("a", ONE), result("b", -ONE / 4)]);
    let shown_results = plain.finish();
    assert_eq!(shown(&shown_results), vec!["a", "b"]);
    assert_eq!(shown_results[1].score(), -ONE / 4);

    let mut run = SearchRun::start(setup(true, false, false), SearchQuery::new("q"), 0);
    run.probed(Ok(true));
    run.found(vec![result("a", ONE), result("b", -ONE)]);
    assert_eq!(shown(&run.candidates()), vec!["a"]);
    run.reranked(vec![result("a", -3 * ONE)]);
    assert!(run.finish().is_empty());
}

#[test]
fn keyword_scores_are_not_pruned() {
    let query = SearchQuery::new("q").with_text_search(true);
    let mut run = SearchRun::start(setup(true, false, false), query, 0);
    run.probed(Ok(true));
    run.found(vec![result("a", 1)]);
    assert_eq!(run.candidates().len(), 1);
}

#[test]
fn graph_results_are_fused_in() {
    let mut run = SearchRun::start(setup(false, false, true), SearchQuery::new("q"), 0);
    run.probed(Ok(true));
    run.found(vec![result("a", ONE), result("b", 5)]);
    assert_eq!(run.step, SearchStep::Graph);
    run.expanded(Ok(vec![result("b", 1), result("c", 1)]));
    assert!(run.graph_fused);
    assert_eq!(shown(&run.finish()), vec!["b", "a", "c"]);

    let mut quiet = SearchRun::start(setup(false, false, true), SearchQuery::new("q"), 0);
    quiet.probed(Ok(true));
    quiet.found(vec![result("a", 1)]);
    quiet.expanded(Err(DomainError::Internal("x".to_string())));
    assert!(!quiet.graph_fused);
    assert_eq!(shown(&quiet.finish()), vec!["a"]);
}

#[test]
fn variants_are_fused() {
    let mut run = SearchRun::start(setup(false, true, false), SearchQuery::new("q"), 0);
    run.probed(Ok(true));
    run.variants_found(vec![
        vec![result("a", 1), result("b", 1)],
        vec![result("b", 1)],
    ]);
    assert_eq!(shown(&run.finish()), vec!["b", "a"]);
}

fn reference(caller: Option<&str>, callee: &str) -> SymbolReference {
    SymbolReference::new(
        caller.map(str::to_string),
        callee.to_string(),
        "f.rs".to_string(),
        "f.rs".to_string(),
        1,
        1,
        ReferenceKind::Call,
        Language::Rust,
        "repo".to_string(),
    )
}

#[test]
fn neighbors_rank_by_seeds_then_edges_then_name() {
    let seeds = seed_symbols(&[result("s1", 9), result("s2", 8), result("s1", 7)]);
    assert_eq!(seeds.len(), 2);
    let edges = vec![
        SeedEdges {
            callers: vec![reference(Some("both"), "s1"), reference(Some("zed"), "s1")],
            callees: vec![reference(Some("s1"), "zed"), reference(Some("s1"), "ant")],
        },
        SeedEdges {
            callers: vec![reference(Some("both"), "s2"), reference(None, "s2")],
            callees: vec![reference(Some("s2"), "s1")],
        },
    ];
    let ranked = rank_neighbors(&seeds, &edges);
    let rows: Vec<_> = ranked
        .iter()
        .map(|n| (n.symbol.as_str(), n.seed_count, n.edge_count))
        .collect();
    assert_eq!(rows, vec![("both", 2, 2), ("zed", 1, 2), ("ant", 1, 1)]);
    let lookups = plan_lookups(&ranked);
    assert_eq!(lookups.len(), 1);
    assert_eq!(lookups[0].repository_id, "repo");
    assert_eq!(lookups[0].symbols.len(), 3);
}

fn neighbor(symbol: &str) -> NeighborScore {
    NeighborScore {
        symbol: symbol.to_string(),
        seed_count: 1,
        edge_count: 1,
        repository_id: "repo".to_string(),
    }
}

#[test]
fn definitions_are_chosen_once_each() {
    let fetched: Vec<FetchedChunk> = ["one", "two"]
        .iter()
        .map(|id| FetchedChunk {
            repository_id: "repo".to_string(),
            chunk: chunk(id, Some(id), (1, 1)),
        })
        .collect();
    assert_eq!(pick_definition(&fetched, "repo", "two", None), Some(1));
    assert_eq!(pick_definition(&fetched, "other", "two", None), None);
    let picked = select_chunks(
        &[neighbor("A#two"), neighbor("two"), neighbor("gone"), neighbor("one")],
        &fetched,
        &SearchQuery::new("q"),
    );
    assert_eq!(shown(&picked), vec!["two", "one"]);
    assert_eq!(picked[0].score(), ONE);
    assert_eq!(picked[1].score(), ONE / 2);
}

#[test]
fn snippets_are_found_by_line_and_symbol() {
    let chunks = vec![chunk("outer", None, (1, 20)), chunk("inner", None, (5, 8))];
    assert_eq!(get_snippet(&chunks, 6).unwrap().id(), "inner");
    assert_eq!(get_snippet(&chunks, 2).unwrap().id(), "outer");
    assert!(get_snippet(&chunks, 40).is_none());
    assert_eq!(symbol_lookup("Ns\\Cls#run()"), Some(("run", Some("Cls"))));
    assert_eq!(symbol_lookup("Cls#"), None);
}
