use codesearch::channels::{ChannelEndpoint, ChannelRole, EndpointSource, Protocol};
use codesearch::collections::{TextMap, TextSet};
use codesearch::domain::{CodeChunk, DomainError, Language, NodeType, ReferenceKind, SymbolReference};
use codesearch::index_batch::{
    deal_nothing, deal_out, flatten, Batcher, LanguageStats, ParsedFile, Retry,
};
use codesearch::index_changes::detect_changes;
use codesearch::index_pipeline::{Pipeline, PipelineAction};
use codesearch::index_plan::{
    candidate_names, choose_hash, choose_mode, choose_resolution, files_to_resync,
    indexer_languages, is_indexable, keep_extracted, leading_ident, parse_concurrency,
    parsed_file, remote_changed, repository_name_for, source_candidates, stores_to_drop,
    stream_concurrency, IndexMode, Resolution, Store,
};
use codesearch::index_run::IncrementalRun;
use codesearch::index_write::{incremental_totals, plan_write, FlushStats, Totals};

fn look(entries: &[(&str, &str)]) -> TextMap<String> {
    let mut m = TextMap::new();
    for (path, hash) in entries {
        m.insert(path.to_string(), hash.to_string());
    }
    m
}

#[test]
fn changes_are_sorted_into_four_lists() {
    let stored = look(&[("gone", "1"), ("same", "2"), ("new_content", "3")]);
    let current = look(&[("same", "2"), ("new_content", "9"), ("fresh", "4"), ("alpha", "5")]);
    let c = detect_changes(&stored, &current);
    assert_eq!(c.added, vec!["alpha", "fresh"]);
    assert_eq!(c.modified, vec!["new_content"]);
    assert_eq!(c.deleted, vec!["gone"]);
    assert_eq!(c.unchanged, vec!["same"]);
    assert!(c.any());
    assert_eq!(c.to_process(), vec!["alpha", "fresh", "new_content"]);
    let again = detect_changes(&current, &current);
    assert!(!again.any());
    assert_eq!(again.unchanged.len(), 4);
}

fn chunk(id: &str) -> CodeChunk {
    CodeChunk::reconstitute(
        id.to_string(),
        "f".to_string(),
        "c".to_string(),
        1,
        1,
        Language::Rust,
        NodeType::Function,
        None,
        None,
        "repo".to_string(),
    )
}

fn parsed(path: &str, chunks: usize, language: Language) -> ParsedFile {
    ParsedFile {
        relative_path: path.to_string(),
        content_hash: format!("h-{path}"),
        language,
        chunks: (0..chunks).map(|i| chunk(&format!("{path}{i}"))).collect(),
        endpoints: Vec::new(),
    }
}

#[test]
fn batches_fill_up_by_chunks() {
    let mut b = Batcher::new();
    assert!(b.push(parsed("a", 100, Language::Rust)).is_none());
    assert!(b.push(parsed("b", 27, Language::Rust)).is_none());
    let batch = b.push(parsed("c", 1, Language::Rust)).unwrap();
    let paths: Vec<&str> = batch.iter().map(|f| f.relative_path.as_str()).collect();
    assert_eq!(paths, vec!["a", "b", "c"]);
    assert!(b.push(parsed("d", 0, Language::Rust)).is_none());
    assert_eq!(b.finish().unwrap().len(), 1);
    assert!(Batcher::new().finish().is_none());
    assert!(Batcher::new().push(parsed("big", 500, Language::Rust)).is_some());
}

#[test]
fn embeddings_are_dealt_back_to_their_files() {
    let flat = flatten(vec![
        parsed("a", 2, Language::Rust),
        parsed("b", 0, Language::Go),
        parsed("c", 1, Language::Rust),
    ]);
    assert_eq!(flat.counts, vec![2, 0, 1]);
    let ids: Vec<&str> = flat.chunks.iter().map(|c| c.id()).collect();
    assert_eq!(ids, vec!["a0", "a1", "c0"]);
    assert!(flat.files.iter().all(|f| f.chunks.is_empty()));
    let dealt = deal_out(vec![10, 11, 12], &flat.counts, 3).unwrap();
    assert_eq!(dealt, vec![Some(vec![10, 11]), Some(vec![]), Some(vec![12])]);
    match deal_out(vec![1], &flat.counts, 3) {
        Err(DomainError::Internal(m)) => {
            assert_eq!(m, "Embedding count mismatch: got 1 embeddings for 3 chunks")
        }
        other => panic!("{other:?}"),
    }
    assert_eq!(deal_nothing::<u8>(&flat.counts), vec![Some(vec![]), Some(vec![]), Some(vec![])]);
}

#[test]
fn failed_batches_are_retried_file_by_file() {
    let mut retry: Retry<u8> = Retry::new(vec![0, 2, 0, 1, 0]);
    assert_eq!(retry.next(), Some((0, 2)));
    retry.answer(Some(vec![1, 2]));
    assert_eq!(retry.next(), Some((2, 3)));
    retry.answer(None);
    assert_eq!(retry.next(), None);
    assert_eq!(
        retry.results,
        vec![Some(vec![]), Some(vec![1, 2]), Some(vec![]), None, Some(vec![])]
    );
}

#[test]
fn files_without_embeddings_are_not_written() {
    let flat = flatten(vec![
        parsed("a", 2, Language::Rust),
        parsed("b", 1, Language::Go),
        parsed("c", 1, Language::Rust),
    ]);
    let plan = plan_write(
        &flat.files,
        "repo",
        flat.chunks,
        &flat.counts,
        vec![Some(vec![1, 2]), None, Some(vec![3])],
    );
    assert_eq!(plan.kept, vec![0, 2]);
    let ids: Vec<&str> = plan.chunks.iter().map(|c| c.id()).collect();
    assert_eq!(ids, vec!["a0", "a1", "c0"]);
    assert_eq!(plan.embeddings, vec![1, 2, 3]);
    assert_eq!((plan.file_count, plan.chunk_count), (2, 3));
    assert_eq!(plan.hashes[1].file_path, "c");
    assert_eq!(plan.hashes[1].content_hash, "h-c");
    assert_eq!(
        plan.languages.get("rust"),
        Some(&LanguageStats { file_count: 2, chunk_count: 3 })
    );
    assert!(plan.languages.get("go").is_none());
}

fn stats(files: u64, chunks: u64, references: u64, language: &str) -> FlushStats {
    let mut languages = TextMap::new();
    languages.insert(
        language.to_string(),
        LanguageStats { file_count: files, chunk_count: chunks },
    );
    FlushStats { files, chunks, references, languages }
}

#[test]
fn totals_add_up() {
    let mut t = Totals::new();
    t.merge(&stats(1, 10, 5, "rust"));
    t.merge(&stats(2, 20, 6, "go"));
    t.merge(&stats(3, 30, 7, "rust"));
    t.count_unchanged(Language::Go);
    t.count_unchanged(Language::Unknown);
    assert_eq!((t.files, t.chunks, t.references), (6, 60, 18));
    assert_eq!(
        t.languages.get("rust"),
        Some(&LanguageStats { file_count: 4, chunk_count: 40 })
    );
    assert_eq!(
        t.languages.get("go"),
        Some(&LanguageStats { file_count: 3, chunk_count: 20 })
    );
    assert!(t.languages.get("unknown").is_none());
    assert_eq!(incremental_totals(4, 2, 100, 30, 5), (6, 75));
}

#[test]
fn batches_are_embedded_while_others_are_written() {
    let mut p = Pipeline::new();
    assert_eq!(p.next(false), PipelineAction::Finished);
    assert_eq!(p.next(true), PipelineAction::StartEmbed);
    p.embed_started();
    assert_eq!(p.next(true), PipelineAction::AwaitEmbed);
    p.embed_done();
    assert_eq!(p.next(true), PipelineAction::StartWrite);
    p.write_started();
    assert_eq!(p.next(true), PipelineAction::StartEmbed);
    p.embed_started();
    assert_eq!(p.next(true), PipelineAction::AwaitEmbed);
    p.embed_done();
    assert_eq!(p.next(true), PipelineAction::AwaitWrite);
    p.write_done(&stats(1, 2, 3, "rust"));
    assert_eq!(p.next(false), PipelineAction::StartWrite);
    p.write_started();
    assert_eq!(p.next(false), PipelineAction::AwaitWrite);
    p.write_done(&stats(1, 2, 3, "rust"));
    assert_eq!(p.next(false), PipelineAction::Finished);
    assert_eq!((p.totals.files, p.totals.chunks, p.totals.references), (2, 4, 6));
}

fn reference(package: Option<&str>) -> SymbolReference {
    let r = SymbolReference::new(
        None,
        "f".to_string(),
        "a.ts".to_string(),
        "a.ts".to_string(),
        1,
        1,
        ReferenceKind::Call,
        Language::TypeScript,
        "repo".to_string(),
    );
    match package {
        Some(p) => r.with_callee_package(p),
        None => r,
    }
}

fn refs(entries: &[(&str, Option<&str>)]) -> TextMap<Vec<SymbolReference>> {
    let mut m = TextMap::new();
    for (file, package) in entries {
        m.insert(file.to_string(), vec![reference(*package)]);
    }
    m
}

#[test]
fn incremental_runs_renew_what_changed() {
    let stored = look(&[("gone", "1"), ("mod", "2"), ("same", "3")]);
    let current = look(&[("mod", "x"), ("same", "3"), ("new", "4")]);
    let mut run = IncrementalRun::begin(&stored, &current);
    assert_eq!(run.stale_paths(), vec!["gone", "mod"]);
    run.dropped(3);
    run.dropped(4);
    assert_eq!(run.deleted_chunks, 7);
    let mut file = parsed("mod", 128, Language::Rust);
    file.content_hash = String::new();
    let batch = run.file_parsed(file, Some(&"walk".to_string())).unwrap();
    assert_eq!(batch[0].content_hash, "walk");
    assert!(run.file_parsed(parsed("new", 1, Language::Rust), None).is_none());
    let (resync, changed) = run.finish(&refs(&[("mod", None), ("same", None), ("new", None)]));
    assert_eq!(resync, vec!["same"]);
    assert!(changed);
    let quiet = IncrementalRun::begin(&stored, &stored);
    assert!(!quiet.finish(&refs(&[])).1);
    assert!(quiet.finish(&refs(&[("same", None)])).1);
}

#[test]
fn runs_are_planned() {
    assert_eq!(choose_mode(true, false), IndexMode::Fresh);
    assert_eq!(choose_mode(false, false), IndexMode::Fresh);
    assert_eq!(choose_mode(true, true), IndexMode::Replace);
    assert_eq!(choose_mode(false, true), IndexMode::Incremental);
    assert_eq!(
        stores_to_drop(true),
        vec![
            Store::Vectors,
            Store::FileHashes,
            Store::CallGraph,
            Store::Channels,
            Store::Analyses,
            Store::Metadata
        ]
    );
    assert_eq!(stores_to_drop(false).len(), 5);
    assert_eq!(repository_name_for(Some("n"), Some("d")), "n");
    assert_eq!(repository_name_for(None, Some("d")), "d");
    assert_eq!(repository_name_for(None, None), "unknown");
    assert!(is_indexable(Language::Rust, true));
    assert!(!is_indexable(Language::Rust, false));
    assert!(!is_indexable(Language::Unknown, true));
    assert_eq!(indexer_languages(&[Language::Rust, Language::TypeScript]), (true, false));
    assert_eq!(indexer_languages(&[Language::Php]), (false, true));
    assert_eq!(parse_concurrency(0), 1);
    assert_eq!(parse_concurrency(9), 9);
    assert_eq!(stream_concurrency(1), 8);
    assert_eq!(stream_concurrency(4), 16);
    assert_eq!(choose_hash("p".to_string(), Some(&"w".to_string())), "p");
    assert_eq!(choose_hash(String::new(), Some(&"w".to_string())), "w");
    assert_eq!(choose_hash(String::new(), None), "");
    assert!(remote_changed(&None, &Some("r".to_string())));
    assert!(!remote_changed(&Some("r".to_string()), &Some("r".to_string())));
    assert!(parsed_file("p".to_string(), "h".to_string(), Language::Go, None, None).is_none());
    let f = parsed_file("p".to_string(), "h".to_string(), Language::Go, Some(Vec::new()), None);
    assert!(f.unwrap().endpoints.is_empty());
}

fn endpoint(source: EndpointSource) -> ChannelEndpoint {
    ChannelEndpoint::new(
        "repo".to_string(),
        "a.ts".to_string(),
        1,
        Protocol::Kafka,
        ChannelRole::Producer,
        "t".to_string(),
        "t".to_string(),
        500_000,
        source,
    )
}

#[test]
fn sources_are_read_only_where_something_is_unresolved() {
    let none = refs(&[]);
    assert_eq!(choose_resolution(&[], &none), Resolution::Skip);
    let found = keep_extracted(vec![
        endpoint(EndpointSource::TreeSitter),
        endpoint(EndpointSource::Config),
    ]);
    assert_eq!(found.len(), 1);
    assert_eq!(choose_resolution(&found, &none), Resolution::WithoutSources);
    assert_eq!(
        choose_resolution(&[endpoint(EndpointSource::TreeSitter).unresolved()], &none),
        Resolution::WithSources
    );
    assert_eq!(choose_resolution(&[], &refs(&[("a", Some("pg"))])), Resolution::WithoutSources);
    assert_eq!(choose_resolution(&[], &refs(&[("a", Some("kafkajs"))])), Resolution::WithSources);
    let mut processed = TextSet::new();
    processed.insert("b".to_string());
    assert_eq!(
        files_to_resync(&refs(&[("c", None), ("b", None), ("a", None)]), &processed),
        vec!["a", "c"]
    );
}

#[test]
fn declared_names_are_found() {
    let source = "export const config: Config = {\n  a: 1\n};\nconst n = 3;\n  export  class Änderung extends X {\nclass {\nlet y = {};\n";
    assert_eq!(candidate_names(source), vec!["config", "Änderung"]);
    assert_eq!(leading_ident("config: Config"), "config");
    assert_eq!(leading_ident("$a_1-b"), "$a_1");
    assert_eq!(leading_ident(" x"), "");
    assert_eq!(source_candidates("x = new Foo()"), vec![String::new()]);
    assert!(source_candidates("x = 1").is_empty());
    assert_eq!(source_candidates("class A {}\nnew A()"), vec!["A"]);
}
