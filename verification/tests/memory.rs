use codesearch::claim_dream::RawDerived;
use codesearch::claim_ingestion::{RawClaim, RawRelation};
use codesearch::claims::CONFIDENCE_ONE;
use codesearch::domain::DomainError;
use codesearch::memory::{MemoryItem, MemoryKind, MemoryOperation};
use codesearch::memory_browse::MemoryEntry;
use codesearch::memory_dream::{dream_operations, RawDreamItem};
use codesearch::memory_extraction::{
    extract_json_object, extraction_operations, framed_object, ExtractionOutput, RawDelete, RawItem,
};
use codesearch::union_find::{find, union};
use serde_json::Value;

fn text(v: &Value, field: &str) -> String {
    v.get(field).and_then(Value::as_str).unwrap_or_default().to_string()
}

fn truth(v: &Value, field: &str) -> bool {
    v.get(field).and_then(Value::as_bool).unwrap_or_default()
}

fn list<'a>(v: &'a Value, field: &str) -> &'a [Value] {
    v.get(field).and_then(Value::as_array).map(Vec::as_slice).unwrap_or_default()
}

fn confidence(v: &Value) -> i64 {
    let c = v.get("confidence").and_then(Value::as_f64).unwrap_or_default();
    (c * CONFIDENCE_ONE as f64).round() as i64
}

fn framed(response: &str) -> Result<Value, DomainError> {
    let json = framed_object(response, "no JSON object found in output")?;
    serde_json::from_str(&json).map_err(|e| DomainError::ParseError(e.to_string()))
}

fn deletes(v: &Value) -> Vec<RawDelete> {
    list(v, "delete")
        .iter()
        .map(|d| RawDelete { kind: text(d, "kind"), name: text(d, "name") })
        .collect()
}

fn parse_dream_operations(response: &str) -> Result<Vec<MemoryOperation>, DomainError> {
    let v = framed(response)?;
    let items: Vec<RawDreamItem> = list(&v, "items")
        .iter()
        .map(|i| RawDreamItem {
            kind: text(i, "kind"),
            name: text(i, "name"),
            content: text(i, "content"),
            scope: i.get("scope").and_then(Value::as_str).map(str::to_string),
        })
        .collect();
    Ok(dream_operations(&items, &deletes(&v)))
}

fn parse_operations(response: &str) -> Result<Vec<MemoryOperation>, DomainError> {
    let v = framed(response)?;
    let items = |field: &str| -> Vec<RawItem> {
        list(&v, field)
            .iter()
            .map(|i| RawItem { name: text(i, "name"), content: text(i, "content") })
            .collect()
    };
    Ok(extraction_operations(&ExtractionOutput {
        preferences: items("preferences"),
        experiences: items("experiences"),
        skills: items("skills"),
        facts: items("facts"),
        delete: deletes(&v),
    }))
}

fn parse_dream(response: &str) -> Result<Vec<RawDerived>, DomainError> {
    let v = framed(response)?;
    Ok(list(&v, "derived")
        .iter()
        .map(|d| RawDerived { statement: text(d, "statement"), confidence: confidence(d) })
        .collect())
}

fn parse_ingestion(response: &str) -> Result<Vec<RawClaim>, DomainError> {
    let v = framed(response)?;
    Ok(list(&v, "claims")
        .iter()
        .map(|c| RawClaim {
            subject: text(c, "subject"),
            subject_is_entity: truth(c, "subject_is_entity"),
            predicate: text(c, "predicate"),
            object: text(c, "object"),
            object_is_entity: truth(c, "object_is_entity"),
            statement: text(c, "statement"),
            source_kind: text(c, "source_kind"),
            confidence: confidence(c),
            relation: c.get("relation").map(|r| RawRelation {
                kind: text(r, "type"),
                target: text(r, "target"),
            }),
        })
        .collect())
}

#[test]
fn parses_dream_items_and_deletes() {
    let response = r#"{"items": [
        {"kind": "experience", "name": "Duckdb Locking", "content": "conflicts on concurrent writers", "scope": null},
        {"kind": "fact", "name": "sdk_version", "content": "pinned to 2.1", "scope": "svc-a"}
    ], "delete": [{"kind": "fact", "name": "old_take"}]}"#;
    let ops = parse_dream_operations(response).unwrap();
    assert_eq!(ops.len(), 3);
    assert_eq!(
        ops[0],
        MemoryOperation::Upsert {
            kind: MemoryKind::Experience,
            name: "duckdb_locking".to_string(),
            content: "conflicts on concurrent writers".to_string(),
            scope: None,
        }
    );
    let MemoryOperation::Upsert { scope, .. } = &ops[1] else {
        panic!("expected upsert");
    };
    assert_eq!(scope.as_deref(), Some("svc-a"));
    assert_eq!(
        ops[2],
        MemoryOperation::Delete {
            kind: MemoryKind::Fact,
            name: "old_take".to_string(),
        }
    );
}

#[test]
fn dream_parse_skips_unknown_kinds_and_empty_content() {
    let response = r#"{"items": [
        {"kind": "opinion", "name": "x", "content": "y", "scope": null},
        {"kind": "fact", "name": "ok", "content": "  ", "scope": null}
    ], "delete": [{"kind": "nope", "name": "x"}]}"#;
    let ops = parse_dream_operations(response).unwrap();
    assert!(ops.is_empty());
}

#[test]
fn dream_parse_treats_string_null_scope_as_global() {
    let response = r#"{"items": [
        {"kind": "fact", "name": "n", "content": "c", "scope": "null"}
    ], "delete": []}"#;
    let ops = parse_dream_operations(response).unwrap();
    let MemoryOperation::Upsert { scope, .. } = &ops[0] else {
        panic!("expected upsert");
    };
    assert_eq!(*scope, None);
}

#[test]
fn union_find_groups_transitively() {
    let mut parent: Vec<usize> = (0..4).collect();
    union(&mut parent, 0, 1);
    union(&mut parent, 1, 2);
    assert_eq!(find(&mut parent, 2), find(&mut parent, 0));
    assert_ne!(find(&mut parent, 3), find(&mut parent, 0));
}

#[test]
fn parses_fenced_json_with_prose() {
    let response = r#"Here are the memories:
```json
{"preferences": [{"name": "Rust Style", "content": "Prefers ? over unwrap"}],
 "experiences": [], "skills": [], "facts": [],
 "delete": [{"kind": "fact", "name": "old_fact"}]}
```"#;
    let ops = parse_operations(response).unwrap();
    assert_eq!(ops.len(), 2);
    assert_eq!(
        ops[0],
        MemoryOperation::Upsert {
            kind: MemoryKind::Preference,
            name: "rust_style".to_string(),
            content: "Prefers ? over unwrap".to_string(),
            scope: None,
        }
    );
    assert_eq!(
        ops[1],
        MemoryOperation::Delete {
            kind: MemoryKind::Fact,
            name: "old_fact".to_string(),
        }
    );
}

#[test]
fn skips_empty_names_and_content() {
    let response = r#"{"preferences": [{"name": "", "content": "x"},
        {"name": "ok", "content": "  "}], "experiences": [], "skills": [],
        "facts": [], "delete": []}"#;
    let ops = parse_operations(response).unwrap();
    assert!(ops.is_empty());
}

#[test]
fn memory_extraction_rejects_output_without_json() {
    assert!(parse_operations("I cannot help with that").is_err());
}

#[test]
fn extracts_json_with_braces_inside_strings() {
    let response = r#"{"preferences": [{"name": "a", "content": "code: fn x() { y() }"}],
        "experiences": [], "skills": [], "facts": [], "delete": []}"#;
    let ops = parse_operations(response).unwrap();
    assert_eq!(ops.len(), 1);
    assert_eq!(extract_json_object("a {\"b\": \"}\\\"{\"} c").as_deref(), Some("{\"b\": \"}\\\"{\"}"));
    assert_eq!(extract_json_object("{ {}"), None);
    let object = r#"{"items": [{"name": "a \" } {", "n": {}}], "delete": []}"#;
    for (front, back) in [("", ""), ("Sure:\n```json\n", "\n```\nDone {"), ("\"} ", "}}")] {
        let text = format!("{front}{object}{back}");
        assert_eq!(extract_json_object(&text).as_deref(), Some(object));
        assert_eq!(extract_json_object(front), None);
    }
}

#[test]
fn parses_derived_claims() {
    let response = r#"{"derived": [
        {"statement": "tends to work late around releases", "confidence": 0.7}
    ]}"#;
    let parsed = parse_dream(response).unwrap();
    assert_eq!(parsed.len(), 1);
    assert_eq!(parsed[0].statement, "tends to work late around releases");
}

#[test]
fn empty_derived_list_parses() {
    assert!(parse_dream(r#"{"derived": []}"#).unwrap().is_empty());
}

#[test]
fn rejects_non_json() {
    assert!(parse_dream("nothing here").is_err());
}

#[test]
fn parses_claims_and_relation() {
    let response = r#"{"claims": [
        {"subject": "Alice", "subject_is_entity": true, "predicate": "lives_in",
         "object": "Munich", "object_is_entity": true,
         "statement": "Alice lives in Munich", "source_kind": "user_stated",
         "confidence": 0.9,
         "relation": {"type": "supersedes", "target": "old-1"}}
    ]}"#;
    let parsed = parse_ingestion(response).unwrap();
    assert_eq!(parsed.len(), 1);
    let c = &parsed[0];
    assert_eq!(c.subject, "Alice");
    assert!(c.object_is_entity);
    let rel = c.relation.as_ref().unwrap();
    assert_eq!(rel.kind, "supersedes");
    assert_eq!(rel.target, "old-1");
}

#[test]
fn parses_fenced_json_without_relation() {
    let response = "```json\n{\"claims\": [\
        {\"subject\": \"user\", \"subject_is_entity\": true, \"predicate\": \"prefers\", \
         \"object\": \"tabs\", \"object_is_entity\": false, \
         \"statement\": \"prefers tabs\", \"source_kind\": \"user_stated\", \
         \"confidence\": 0.8}]}\n```";
    let parsed = parse_ingestion(response).unwrap();
    assert_eq!(parsed.len(), 1);
    assert!(parsed[0].relation.is_none());
    assert!(!parsed[0].object_is_entity);
}

#[test]
fn claim_ingestion_rejects_output_without_json() {
    match framed_object("I could not extract anything", "no JSON object found in ingestion output") {
        Err(DomainError::ParseError(m)) => {
            assert_eq!(m, "no JSON object found in ingestion output")
        }
        other => panic!("{other:?}"),
    }
    assert!(parse_ingestion("I could not extract anything").is_err());
}

#[test]
fn missing_fields_default_and_empty_claims_parse() {
    let parsed = parse_ingestion(r#"{"claims": []}"#).unwrap();
    assert!(parsed.is_empty());
}

#[test]
fn entry_accessors() {
    let item = MemoryItem::new(
        "id1".into(),
        MemoryKind::Fact,
        "duckdb_locks".into(),
        "content".into(),
        None,
        None,
        0,
        0,
        0,
    );
    let e = MemoryEntry::Item { item, score: 500_000_000 };
    assert_eq!(e.kind_label(), "fact");
    assert_eq!(e.label(), "duckdb_locks");
    assert_eq!(e.score(), 500_000_000);
}
