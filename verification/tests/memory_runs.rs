use codesearch::claims::{SessionMessage, SessionTranscript};
use codesearch::collections::TextSet;
use codesearch::domain::DomainError;
use codesearch::fusion::SCORE_ONE;
use codesearch::import_session::{already_imported, check_transcript, imported_session, ImportOutcome};
use codesearch::memory::{upsert_preserving_identity, written_item, MemoryItem, MemoryKind, MemoryOperation};
use codesearch::memory_browse::{browse, fuse_nodes, merge_found, MemoryNode, NodeKind, MEMORY_ROOT_URI};
use codesearch::memory_dream::{
    build_clusters, cap_reflection, delete_budget, dream_record, keys_of, worth_reflection,
    DiscoveredSession, DreamRun, DreamStep, HarvestReport, HarvestRun, HarvestStep, Refusal,
};
use codesearch::memory_dream_prompt::{clamp, consolidation_user_prompt, one_line, reflection_user_prompt};
use codesearch::memory_extraction::{normalize_name, ExtractionReport, ExtractionStep};

fn item(name: &str, updated_at: i64) -> MemoryItem {
    MemoryItem::new(
        format!("id-{name}"),
        MemoryKind::Fact,
        name.to_string(),
        format!("content of {name}"),
        Some("s0".to_string()),
        None,
        1,
        updated_at,
        2,
    )
}

fn upsert(name: &str) -> MemoryOperation {
    MemoryOperation::Upsert {
        kind: MemoryKind::Fact,
        name: name.to_string(),
        content: "c".to_string(),
        scope: None,
    }
}

fn delete(name: &str) -> MemoryOperation {
    MemoryOperation::Delete { kind: MemoryKind::Fact, name: name.to_string() }
}

#[test]
fn names_are_brought_to_one_form() {
    assert_eq!(normalize_name("  Rust-Style Guide! ").as_deref(), Some("rust_style_guide"));
    assert_eq!(normalize_name("Über Größe").as_deref(), Some("über_größe"));
    assert_eq!(normalize_name("__"), None);
    assert_eq!(normalize_name("!?"), None);
    assert_eq!(normalize_name(&"a".repeat(80)).unwrap().len(), 64);
}

#[test]
fn updates_keep_the_identity() {
    let new = written_item(
        Some(item("n", 5)),
        "unused".to_string(),
        MemoryKind::Fact,
        "n",
        "new",
        Some("scope".to_string()),
        None,
        9,
    );
    assert_eq!(new.id, "id-n");
    assert_eq!((new.created_at, new.updated_at, new.update_count), (1, 9, 3));
    assert_eq!(new.source_session_id.as_deref(), Some("s0"));
    assert_eq!(new.scope.as_deref(), Some("scope"));
    let fresh = upsert_preserving_identity(None, MemoryKind::Skill, "x_y", "c", None, Some("s1"), 9);
    assert_eq!(fresh.id.len(), 36);
    assert_eq!((fresh.created_at, fresh.update_count), (9, 0));
    assert_eq!(fresh.source_session_id.as_deref(), Some("s1"));
    assert_eq!(fresh.embedding_text(), "x y\n\nc");
}

#[test]
fn extraction_stops_at_its_limit() {
    let mut report = ExtractionReport::new();
    report.settle(delete("gone"), false);
    assert_eq!(report.skipped[0].1, "item not found");
    for i in 0..24 {
        let op = upsert(&format!("n{i}"));
        assert_eq!(report.decide(&op), ExtractionStep::Write);
        report.settle(op, false);
    }
    assert_eq!(report.decide(&upsert("more")), ExtractionStep::Refuse);
    report.settle(upsert("more"), false);
    assert_eq!(report.skipped[1].1, "operation limit reached");
    assert_eq!(report.items_written(), 24);
}

#[test]
fn dreams_delete_within_bounds() {
    assert_eq!(delete_budget(0), 1);
    assert_eq!(delete_budget(12), 2);
    assert!(!worth_reflection(3));
    assert!(worth_reflection(4));
    let harvest = HarvestReport { sessions_eligible: 3, sessions_imported: 1 };
    let mut run = DreamRun::start(harvest, 4);
    let keys = keys_of(&[item("a", 1), item("b", 1)]);
    run.settle(upsert("a"), &keys, false);
    assert_eq!(run.decide(&delete("a"), &keys), DreamStep::Refuse(Refusal::UpsertedThisCycle));
    assert_eq!(run.decide(&delete("z"), &keys), DreamStep::Refuse(Refusal::NotInCluster));
    run.settle(delete("b"), &keys, false);
    assert_eq!(run.report.skipped[0].1, "item not found");
    run.settle(delete("b"), &keys, true);
    assert_eq!(run.decide(&delete("b"), &keys), DreamStep::Refuse(Refusal::BudgetExhausted));
    let record = dream_record(&run.report, 10, 20);
    assert_eq!((record.operations_applied, record.operations_skipped), (2, 1));
    assert_eq!(record.sessions_imported, 1);
    assert_eq!(record.id.len(), 36);
    for i in 0..30 {
        run.settle(upsert(&format!("n{i}")), &keys, false);
    }
    assert_eq!(run.decide(&upsert("x"), &keys), DreamStep::Refuse(Refusal::LimitReached));
}

#[test]
fn reflection_writes_no_more_than_its_share() {
    let ops: Vec<MemoryOperation> = (0..7)
        .map(|i| upsert(&format!("n{i}")))
        .chain([delete("d")])
        .collect();
    let capped = cap_reflection(ops);
    assert_eq!(capped.len(), 6);
    assert_eq!(capped[5], delete("d"));
}

#[test]
fn items_cluster_by_similarity() {
    let items = vec![item("a", 1), item("b", 9), item("c", 5), item("d", 5)];
    let clusters = build_clusters(&items, &[0, 1, 2, 3], &[(0, 1), (1, 3)]);
    assert_eq!(clusters.len(), 1);
    let places: Vec<usize> = clusters[0].members.iter().map(|m| m.at).collect();
    assert_eq!(places, vec![1, 3, 0]);
}

#[test]
fn larger_clusters_come_first_though_both_are_capped() {
    // Seven items from "a" on are alike, and eight from "k" on.
    let names = ["a", "b", "c", "d", "e", "f", "g", "k", "l", "m", "n", "o", "p", "q", "r"];
    let items: Vec<MemoryItem> = names.iter().map(|n| item(n, 1)).collect();
    let embedded: Vec<usize> = (0..15).collect();
    let similar: Vec<(usize, usize)> = (0..6).chain(7..14).map(|i| (i, i + 1)).collect();
    let clusters = build_clusters(&items, &embedded, &similar);
    assert_eq!(clusters.len(), 2);
    let places = |c: usize| clusters[c].members.iter().map(|m| m.at).collect::<Vec<usize>>();
    assert_eq!(places(0), vec![7, 8, 9, 10, 11, 12]);
    assert_eq!(places(1), vec![0, 1, 2, 3, 4, 5]);
}

#[test]
fn only_finished_sessions_are_harvested() {
    let mut imported = TextSet::new();
    imported.insert("old".to_string());
    let mut run = HarvestRun::start();
    let session = |id: &str, updated_at: i64| DiscoveredSession { id: id.to_string(), updated_at };
    assert_eq!(run.consider(&session("busy", 950), &imported, 1000, 100), HarvestStep::Ignore);
    assert_eq!(run.consider(&session("old", 1), &imported, 1000, 100), HarvestStep::Ignore);
    assert_eq!(run.consider(&session("undated", 0), &imported, 1000, 100), HarvestStep::Ignore);
    assert_eq!(run.consider(&session("new", 900), &imported, 1000, 100), HarvestStep::Import);
    for _ in 0..10 {
        run.imported();
    }
    assert_eq!(run.consider(&session("late", 900), &imported, 1000, 100), HarvestStep::Defer);
    assert_eq!(run.report.sessions_eligible, 2);
}

fn transcript(contents: &[&str]) -> SessionTranscript {
    SessionTranscript {
        id: "t".to_string(),
        source: "log".to_string(),
        project: None,
        messages: contents
            .iter()
            .map(|c| SessionMessage { role: "user".to_string(), content: c.to_string() })
            .collect(),
    }
}

#[test]
fn short_sessions_are_not_imported() {
    assert!(check_transcript(&transcript(&["a", "b"])).is_ok());
    match check_transcript(&transcript(&["a", "  "])) {
        Err(DomainError::InvalidInput(m)) => assert_eq!(
            m,
            "transcript 't' has only 1 non-empty messages (minimum 2)"
        ),
        other => panic!("{other:?}"),
    }
    let session = || imported_session(&transcript(&["a", "b"]), &ExtractionReport::new(), 7);
    assert_eq!(session().message_count, 2);
    assert!(already_imported(true, Some(session())).is_none());
    assert!(already_imported(false, None).is_none());
    assert!(matches!(
        already_imported(false, Some(session())),
        Some(ImportOutcome::AlreadyImported { .. })
    ));
}

fn node(uri: &str, kind: NodeKind, updated_at: i64) -> MemoryNode {
    MemoryNode { uri: uri.to_string(), kind, content: String::new(), updated_at }
}

#[test]
fn browsing_puts_the_root_first() {
    let nodes = vec![
        node("memory://r", NodeKind::Resource, 99),
        node("memory://memory/x", NodeKind::Memory, 50),
        node(MEMORY_ROOT_URI, NodeKind::Memory, 1),
        node("memory://s", NodeKind::Session, 3),
    ];
    let shown: Vec<String> = browse(vec![item("i", 1)], nodes, 4).iter().map(|e| e.label()).collect();
    assert_eq!(shown, vec![MEMORY_ROOT_URI, "memory://memory/x", "memory://s", "memory://r"]);
}

#[test]
fn found_memories_are_merged_by_score() {
    let nodes = fuse_nodes(
        vec![node("a", NodeKind::Session, 1), node("b", NodeKind::Session, 1)],
        vec![node("b", NodeKind::Session, 1)],
        5,
    );
    assert_eq!(nodes[0].item.uri, "b");
    assert_eq!(nodes[0].score, SCORE_ONE / 62 + SCORE_ONE / 61);
    let merged = merge_found(vec![(item("i", 1), SCORE_ONE / 50)], nodes, 2);
    let labels: Vec<String> = merged.iter().map(|e| e.label()).collect();
    assert_eq!(labels, vec!["b", "i"]);
}

#[test]
fn dream_prompts_list_their_items() {
    assert_eq!(one_line(" a \n\n b\tc "), "a b c");
    assert_eq!(clamp("abc", 3), "abc");
    assert_eq!(clamp("abcdef", 5), "ab...");
    assert_eq!(clamp("äöüß", 3), "...");
    assert!(consolidation_user_prompt(&[item("alpha", 1)]).contains("content of alpha"));
    assert!(reflection_user_prompt(&[item("beta", 1)]).contains("beta"));
}
