use codesearch::claim_dream::{
    build_clusters, covered_ids, derive_claim, primary_claims, shared_project, ClaimDreamRun,
    ClusterStep, RawDerived, DERIVED_CONFIDENCE_CAP,
};
use codesearch::claim_dream_prompt;
use codesearch::claim_ingestion::{
    begin_ingestion, new_claim, status_change, ClaimStep, IngestionRun, IngestionStart, RawClaim,
    RawRelation, RefPlan,
};
use codesearch::claim_ingestion_prompt;
use codesearch::claim_recall::{checked_query, enrichment_neighbors, RecallRun};
use codesearch::claims::{
    clamp_confidence, Claim, ClaimEdge, ClaimStatus, EdgeOrigin, EdgeType, EntityRef,
    SessionMessage, SessionTranscript, SourceKind, CONFIDENCE_ONE,
};
use codesearch::domain::DomainError;
use codesearch::fusion::SCORE_ONE;
use codesearch::ids::{stored_time, unix_now};
use codesearch::model_reply::{
    after_attempt, claim_context, memory_context, recent_context, second_prompt, ContextSource,
    ReplyStep, Request,
};

fn claim(id: &str, confidence: i64, project: Option<&str>) -> Claim {
    Claim {
        id: id.to_string(),
        subject: EntityRef::Entity(format!("e-{id}")),
        predicate: "p".to_string(),
        object: EntityRef::Literal("o".to_string()),
        statement: format!("statement {id}"),
        project: project.map(str::to_string),
        recorded_at: 1,
        valid_from: 1,
        valid_to: None,
        source_session_id: None,
        source_message_index: None,
        source_kind: SourceKind::UserStated,
        confidence,
        status: ClaimStatus::Active,
        derived: false,
        derived_from: Vec::new(),
    }
}

fn transcript() -> SessionTranscript {
    SessionTranscript {
        id: "session".to_string(),
        source: "log".to_string(),
        project: Some("proj".to_string()),
        messages: vec![
            SessionMessage { role: "user".to_string(), content: "Where is it?".to_string() },
            SessionMessage { role: "assistant".to_string(), content: "There.".to_string() },
        ],
    }
}

fn raw(subject: &str, statement: &str, relation: Option<(&str, &str)>) -> RawClaim {
    RawClaim {
        subject: subject.to_string(),
        subject_is_entity: true,
        predicate: " likes ".to_string(),
        object: "tabs".to_string(),
        object_is_entity: false,
        statement: statement.to_string(),
        source_kind: "user_stated".to_string(),
        confidence: 2 * CONFIDENCE_ONE,
        relation: relation.map(|(kind, target)| RawRelation {
            kind: kind.to_string(),
            target: target.to_string(),
        }),
    }
}

#[test]
fn ingestion_is_not_repeated() {
    assert_eq!(begin_ingestion(false, 0), IngestionStart::Ingest);
    assert_eq!(begin_ingestion(false, 3), IngestionStart::AlreadyIngested);
    assert_eq!(begin_ingestion(true, 3), IngestionStart::Replace);
}

#[test]
fn entities_are_resolved_once() {
    let mut run = IngestionRun::start();
    match run.plan_ref("  plain ", false) {
        RefPlan::Ready(EntityRef::Literal(s)) => assert_eq!(s, "plain"),
        other => panic!("{other:?}"),
    }
    let (name, key) = match run.plan_ref(" ÀLice ", true) {
        RefPlan::Lookup { name, key } => (name, key),
        other => panic!("{other:?}"),
    };
    assert_eq!(name, "ÀLice");
    assert_eq!(key, "àlice");
    let (entity, _) = run.create_entity(name, key, 5);
    assert_eq!(entity.canonical_name, "ÀLice");
    assert_eq!(entity.id.len(), 36);
    assert_eq!(run.report.entities_created, 1);
    match run.plan_ref("àLICE", true) {
        RefPlan::Ready(EntityRef::Entity(id)) => assert_eq!(id, entity.id),
        other => panic!("{other:?}"),
    }
}

#[test]
fn claims_are_written_with_their_relations() {
    let mut run = IngestionRun::start();
    assert_eq!(run.decide(&raw("a", "  ", None)), ClaimStep::Skip);
    let r = raw("a", " A likes tabs ", Some(("supersedes", " old ")));
    assert_eq!(run.decide(&r), ClaimStep::Take);
    let subject = EntityRef::Entity("e".to_string());
    let object = EntityRef::Literal("tabs".to_string());
    let c = new_claim(&r, subject, object, &transcript(), 9);
    assert_eq!(c.statement, "A likes tabs");
    assert_eq!(c.predicate, "likes");
    assert_eq!(c.confidence, CONFIDENCE_ONE);
    let id: Vec<char> = c.id.chars().collect();
    assert_eq!(id.len(), 36);
    for (i, ch) in id.iter().enumerate() {
        match i {
            8 | 13 | 18 | 23 => assert_eq!(*ch, '-'),
            14 => assert_eq!(*ch, '4'),
            19 => assert!("89ab".contains(*ch)),
            _ => assert!(ch.is_ascii_digit() || ('a'..='f').contains(ch)),
        }
    }
    assert_eq!(c.project.as_deref(), Some("proj"));
    let prior = vec![claim("old", 1, None)];
    let edge = run.claim_written(&r, &c, &prior, 9).unwrap();
    assert_eq!(edge.edge_type, EdgeType::Supersedes);
    assert_eq!(edge.to_claim, "old");
    assert_eq!(status_change(&edge), Some((ClaimStatus::Superseded, 9)));
    // A target that was not shown to the model is not believed.
    let odd = raw("a", "x", Some(("refines", "invented")));
    assert!(run.claim_written(&odd, &c, &prior, 9).is_none());
    assert_eq!(run.report.claims_written, 2);
    assert_eq!(run.report.edges_added, 1);
}

#[test]
fn fresh_ids_differ() {
    let make = || {
        new_claim(
            &raw("a", "b", None),
            EntityRef::Literal(String::new()),
            EntityRef::Literal(String::new()),
            &transcript(),
            1,
        )
    };
    assert_ne!(make().id, make().id);
}

#[test]
fn times_are_stored_as_they_are() {
    assert_eq!(stored_time(None), 0);
    assert_eq!(stored_time(Some(7)), 7);
    assert_eq!(stored_time(Some(u64::MAX)), -1);
    assert!(unix_now() > 1_600_000_000);
}

#[test]
fn derived_claims_are_no_surer_than_their_sources() {
    assert_eq!(clamp_confidence(-5), 0);
    assert_eq!(clamp_confidence(2 * CONFIDENCE_ONE), CONFIDENCE_ONE);
    let cluster = vec![claim("a", 700_000, Some("p")), claim("b", 600_000, Some("p"))];
    let d = derive_claim("d".to_string(), "s".to_string(), 900_000, &cluster, 3);
    assert_eq!(d.claim.confidence, 600_000);
    assert_eq!(d.claim.derived_from, vec!["a", "b"]);
    assert_eq!(d.claim.project.as_deref(), Some("p"));
    assert_eq!(d.edges.len(), 2);
    assert_eq!(d.edges[0].from_claim, "a");
    assert_eq!(d.edges[0].edge_type, EdgeType::Refines);
    let sure = derive_claim("d".to_string(), "s".to_string(), CONFIDENCE_ONE, &[claim("a", CONFIDENCE_ONE, None)], 3);
    assert_eq!(sure.claim.confidence, DERIVED_CONFIDENCE_CAP);
    assert_eq!(shared_project(&[claim("a", 1, Some("x")), claim("b", 1, None)]), None);
}

#[test]
fn dreams_stop_at_their_budget() {
    let cluster = vec![claim("a", 500_000, None), claim("b", 500_000, None)];
    let mut run = ClaimDreamRun::start(2);
    let mut active = vec![claim("a", 1, None), claim("b", 1, None)];
    assert_eq!(primary_claims(&active), vec![0, 1]);
    assert_eq!(run.consider(&cluster, &covered_ids(&active)), ClusterStep::Abstract);
    let raws: Vec<RawDerived> = ["x", "  ", "y"]
        .iter()
        .map(|s| RawDerived { statement: s.to_string(), confidence: 400_000 })
        .collect();
    let derived = run.derive(&cluster, &raws, 4);
    assert_eq!(derived.len(), 2);
    assert_eq!(run.report.derived_claims_added, 2);
    assert_eq!(run.report.edges_added, 4);
    active.extend(derived.into_iter().map(|d| d.claim));
    // What is covered by a derived claim is not abstracted again.
    assert_eq!(run.consider(&cluster, &covered_ids(&active)), ClusterStep::Skip);
    assert_eq!(primary_claims(&active).len(), 2);
    let many: Vec<RawDerived> = (0..20)
        .map(|i| RawDerived { statement: format!("s{i}"), confidence: 1 })
        .collect();
    assert_eq!(run.derive(&cluster, &many, 4).len(), 6);
    assert_eq!(run.consider(&[], &covered_ids(&[])), ClusterStep::Stop);
}

#[test]
fn clusters_join_what_is_similar() {
    let claims: Vec<Claim> = ["d", "c", "b", "a"].iter().map(|id| claim(id, 1, None)).collect();
    let clusters = build_clusters(&claims, &[0, 1, 2, 3], &[(0, 3), (3, 2)]);
    assert_eq!(clusters.len(), 1);
    let places: Vec<usize> = clusters[0].members.iter().map(|m| m.at).collect();
    assert_eq!(places, vec![3, 2, 0]);
}

#[test]
fn recall_expands_its_best_claims() {
    match checked_query("  ") {
        Err(DomainError::InvalidInput(m)) => assert_eq!(m, "query must not be empty"),
        other => panic!("{other:?}"),
    }
    assert_eq!(checked_query(" q ").unwrap(), "q");
    let mut run = RecallRun::start(
        vec![claim("a", 1, None), claim("b", 1, None)],
        vec![claim("b", 1, None)],
    );
    let seeds = run.seeds();
    assert_eq!(seeds[0].id, "b");
    let top = SCORE_ONE / 62 + SCORE_ONE / 61;
    assert_eq!(seeds[0].score, top);
    assert!(!run.is_new("a"));
    assert!(run.is_new("n"));
    run.neighbor_found("n".to_string(), Some(claim("n", 1, None)), top);
    let mut gone = claim("g", 1, None);
    gone.status = ClaimStatus::Retracted;
    run.neighbor_found("g".to_string(), Some(gone), top);
    let out = run.finish(10);
    let rows: Vec<_> = out.iter().map(|(c, s)| (c.id.as_str(), *s)).collect();
    assert_eq!(rows, vec![("b", top), ("a", SCORE_ONE / 61), ("n", top * 3 / 10)]);
}

fn edge(from: &str, to: &str, edge_type: EdgeType) -> ClaimEdge {
    ClaimEdge {
        from_claim: from.to_string(),
        to_claim: to.to_string(),
        edge_type,
        created_at: 0,
        created_by: EdgeOrigin::Ingestion,
        confidence: 1,
    }
}

#[test]
fn only_enriching_edges_lead_on() {
    let from = vec![edge("x", "a", EdgeType::Refines), edge("x", "b", EdgeType::Supersedes)];
    let to = vec![edge("c", "x", EdgeType::Corroborates)];
    assert_eq!(enrichment_neighbors(&from, &to), vec!["a", "c"]);
}

#[test]
fn prompts_show_what_they_are_about() {
    let prior = vec![claim("old-1", 1, None)];
    let user = claim_ingestion_prompt::user_prompt(&transcript(), &prior);
    assert!(user.contains("old-1"));
    assert!(user.contains("Where is it?"));
    assert!(claim_ingestion_prompt::prefetch_query(&transcript()).contains("Where is it?"));
    let dream = claim_dream_prompt::user_prompt(&prior);
    assert!(dream.contains("statement old-1"));
}

#[test]
fn unreadable_replies_are_asked_for_once_more() {
    match after_attempt(Request::ClaimIngestion, true, Ok::<u8, String>(3)) {
        ReplyStep::Accept(v) => assert_eq!(v, 3),
        other => panic!("{other:?}"),
    }
    assert!(matches!(
        after_attempt::<u8>(Request::ClaimDream, true, Err("bad".to_string())),
        ReplyStep::Retry
    ));
    let twice = |request| match after_attempt::<u8>(request, false, Err("bad".to_string())) {
        ReplyStep::Fail(DomainError::ParseError(m)) => m,
        other => panic!("{other:?}"),
    };
    assert_eq!(
        twice(Request::ClaimIngestion),
        "claim ingestion model returned unparseable output twice: bad"
    );
    assert_eq!(twice(Request::ClaimDream), "dream output unparseable twice: bad");
    assert_eq!(
        twice(Request::MemoryExtraction),
        "extraction model returned unparseable output twice: bad"
    );
    assert_eq!(
        twice(Request::MemoryDream),
        "dream model returned unparseable output twice: bad"
    );
    assert_eq!(second_prompt("u", "c"), "u\n\nc");
}

#[test]
fn context_comes_from_where_it_can() {
    assert_eq!(claim_context(true, "q"), ContextSource::Semantic);
    assert_eq!(claim_context(true, " "), ContextSource::Nothing);
    assert_eq!(claim_context(false, "q"), ContextSource::Nothing);
    assert_eq!(memory_context(false, ""), ContextSource::Recent);
    assert_eq!(memory_context(true, ""), ContextSource::Nothing);
    assert_eq!(memory_context(true, "q"), ContextSource::Semantic);
    assert!(recent_context(Vec::new()).is_empty());
}
