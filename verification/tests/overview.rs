use codesearch::call_graph::CallGraphStats;
use codesearch::channel_link::{build_report, ChannelLinkOptions};
use codesearch::channels::{ChannelEndpoint, ChannelRole, EndpointSource, Protocol};
use codesearch::collections::TextMap;
use codesearch::domain::{DomainError, Repository};
use codesearch::index_batch::LanguageStats;
use codesearch::repository_overview::{
    assemble, join_scope, language_shares, own_channels, repository_names, stats_section,
    IndexedRepository, OverviewOptions, OverviewReport,
};
use codesearch::slash_commands::{
    parse_command, render_hits, render_report, tool_arguments, Hit, SlashCommandKind,
};

#[test]
fn every_section_stands_on_its_own() {
    let report: OverviewReport<u8> = assemble(
        "repo",
        Err("no record".to_string()),
        Ok(None),
        Err("no graph".to_string()),
        Ok(Some(7)),
        Ok(Some(Vec::new())),
        Ok(None),
    );
    assert_eq!(report.couplings, Some(7));
    assert!(report.stats.is_none());
    let notes: Vec<_> = report
        .skipped
        .iter()
        .map(|s| (s.section.as_str(), s.reason.as_str()))
        .collect();
    assert_eq!(notes, vec![("stats", "no record"), ("symbol-communities", "no graph")]);
}

#[test]
fn overview_options_default_to_everything() {
    let o = OverviewOptions::default();
    assert_eq!(o.top, 10);
    assert!(o.include_modules && o.include_channels && o.include_features);
    assert!(o.channel_scope.is_empty());
}

fn languages() -> TextMap<LanguageStats> {
    let mut m = TextMap::new();
    m.insert("go".to_string(), LanguageStats { file_count: 1, chunk_count: 5 });
    m.insert("rust".to_string(), LanguageStats { file_count: 2, chunk_count: 9 });
    m
}

#[test]
fn stats_list_languages_by_chunks() {
    let shares = language_shares(&languages());
    assert_eq!(shares[0].language, "rust");
    assert_eq!(shares[1].chunk_count, 5);
    let repo = IndexedRepository {
        name: "n".to_string(),
        path: "/p".to_string(),
        file_count: 3,
        chunk_count: 14,
        updated_at: 99,
        languages: languages(),
    };
    let mut graph = CallGraphStats::empty();
    graph.total_references = 8;
    let s = stats_section("repo", Some(repo), Some(graph)).unwrap().unwrap();
    assert_eq!((s.file_count, s.chunk_count, s.call_graph_references), (3, 14, 8));
    match stats_section("repo", None, None) {
        Err(DomainError::NotFound(m)) => assert_eq!(m, "repository 'repo' is not indexed"),
        other => panic!("{other:?}"),
    }
}

fn endpoint(repo: &str, role: ChannelRole, channel: &str) -> ChannelEndpoint {
    ChannelEndpoint::new(
        repo.to_string(),
        format!("{repo}.ts"),
        1,
        Protocol::Kafka,
        role,
        channel.to_string(),
        channel.to_string(),
        900_000,
        EndpointSource::TreeSitter,
    )
}

#[test]
fn channels_are_cut_down_to_the_repository() {
    assert_eq!(join_scope(&["a".to_string()], "b"), vec!["a", "b"]);
    assert_eq!(join_scope(&["a".to_string()], "a"), vec!["a"]);
    let report = build_report(
        &[
            endpoint("a", ChannelRole::Producer, "x"),
            endpoint("b", ChannelRole::Consumer, "x"),
            endpoint("b", ChannelRole::Producer, "y"),
            endpoint("c", ChannelRole::Consumer, "y"),
            endpoint("a", ChannelRole::Producer, "z"),
            endpoint("c", ChannelRole::Producer, "w"),
        ],
        &ChannelLinkOptions::default(),
    );
    assert_eq!(report.edges.len(), 2);
    let own = own_channels(report, "a");
    assert_eq!(own.edges.len(), 1);
    assert_eq!(own.edges[0].consumer.repository_id, "b");
    assert_eq!(own.unmatched_producers.len(), 1);
    assert_eq!(own.unmatched_producers[0].channel_raw, "z");
    let names = repository_names(&[Repository {
        id: "a".to_string(),
        name: "Alpha".to_string(),
        path: "/a".to_string(),
        namespace: None,
    }]);
    assert_eq!(names.get("a").unwrap(), "Alpha");
}

#[test]
fn commands_are_read_and_called() {
    let args = vec!["  retry".to_string(), "logic ".to_string()];
    let (kind, arg) = parse_command("codesearch", &args).unwrap();
    assert_eq!(kind, SlashCommandKind::Search);
    assert_eq!(arg, "retry logic");
    assert_eq!(
        tool_arguments(kind, &arg),
        vec!["search", "retry logic", "--format", "json", "--num", "10"]
    );
    assert_eq!(
        tool_arguments(SlashCommandKind::Impact, "f"),
        vec!["impact", "f", "--format", "text"]
    );
    assert_eq!(
        tool_arguments(SlashCommandKind::Context, "f"),
        vec!["context", "f", "--format", "text"]
    );
    assert_eq!(
        parse_command("other", &args).unwrap_err(),
        "unknown codesearch slash command: other"
    );
    assert!(parse_command("codesearch-impact", &[])
        .unwrap_err()
        .starts_with("Usage: /codesearch-impact <symbol>"));
    assert!(parse_command("codesearch-context", &[" ".to_string()])
        .unwrap_err()
        .starts_with("Usage: /codesearch-context <symbol>"));
}

fn hit(path: &str, symbol: Option<&str>, content: &str) -> Hit {
    Hit {
        file_path: path.to_string(),
        start_line: 12,
        score: "0.750".to_string(),
        language: "rust".to_string(),
        node_type: "function".to_string(),
        symbol_name: symbol.map(str::to_string),
        content: content.to_string(),
    }
}

#[test]
fn hits_are_laid_out_in_sections() {
    let out = render_hits("q", &[hit("a.rs", Some("run"), "é"), hit("b.rs", None, "x")]);
    assert_eq!(
        out.text,
        "### 1. `run` — a.rs:12 (score: 0.750)\n```rust\né\n```\n\n\
         ### 2. `function` — b.rs:12 (score: 0.750)\n```rust\nx\n```\n\n"
    );
    assert_eq!(out.sections[0].start, 0);
    assert_eq!(out.sections[0].end, out.sections[1].start);
    assert_eq!(out.sections[1].end, out.text.len());
    assert_eq!(out.sections[1].label, "b.rs:12");
    let none = render_hits("q", &[]);
    assert_eq!(none.text, "No results found for `q`.");
    assert!(none.sections.is_empty());
}

#[test]
fn reports_have_one_section() {
    let out = render_report(SlashCommandKind::Impact, "f", "tree — 🌳".to_string());
    assert_eq!(out.sections.len(), 1);
    assert_eq!(out.sections[0].end, out.text.len());
    assert_eq!(out.sections[0].label, "Impact: f");
    let out = render_report(SlashCommandKind::Context, "f", String::new());
    assert_eq!((out.sections[0].end, out.sections[0].label.as_str()), (0, "Context: f"));
}
