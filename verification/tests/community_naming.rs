use codesearch::cluster_detection::Cluster;
use codesearch::collections::TextMap;
use codesearch::community_naming::{
    apply_known_names, build_prompt, choose_name, clean_name, keep_claimed, missing_ids,
    name_from_reply, parse_name, take_probe, take_reply, top_directories, NamingRegistry,
    ProbeOutcome, EMPTY_NAME,
};
use codesearch::domain::DomainError;
use codesearch::json::Reply;

fn ids(names: &[&str]) -> Vec<String> {
    names.iter().map(|s| s.to_string()).collect()
}

/// The duplicate-work case: a second request arriving while the first is
/// still generating must not re-name the same communities.
#[test]
fn a_second_claim_on_the_same_ids_is_refused() {
    let mut registry = NamingRegistry::new();
    let held = registry
        .claim(ids(&["a", "b"]))
        .expect("first claim should succeed");

    assert!(
        registry.claim(ids(&["a", "b"])).is_none(),
        "ids already in flight must not be claimed twice"
    );

    registry.release(&held.ids);
}

#[test]
fn dropping_the_claim_releases_the_ids() {
    let mut registry = NamingRegistry::new();
    let held = registry
        .claim(ids(&["a"]))
        .expect("first claim should succeed");
    registry.release(&held.ids);

    assert!(
        registry.claim(ids(&["a"])).is_some(),
        "ids must be reclaimable once the previous run finished"
    );
}

#[test]
fn only_the_unclaimed_subset_is_taken() {
    let mut registry = NamingRegistry::new();
    let held = registry.claim(ids(&["a", "b"])).expect("first claim");

    let second = registry
        .claim(ids(&["a", "c"]))
        .expect("the new id should still be claimable");
    assert_eq!(second.ids, ids(&["c"]));

    registry.release(&held.ids);
}

#[test]
fn registries_are_independent() {
    let mut one = NamingRegistry::new();
    let mut two = NamingRegistry::new();

    let _held = one.claim(ids(&["a"])).expect("claim on one");

    assert!(
        two.claim(ids(&["a"])).is_some(),
        "a claim in one registry must not block another"
    );
}

#[test]
fn releasing_one_claim_keeps_the_other() {
    let mut registry = NamingRegistry::new();
    let first = registry.claim(ids(&["a", "a", "b"])).unwrap();
    assert_eq!(first.ids, ids(&["a", "b"]));
    let second = registry.claim(ids(&["c"])).unwrap();
    registry.release(&first.ids);
    assert!(registry.claim(ids(&["c"])).is_none());
    assert_eq!(registry.claim(ids(&["c", "b"])).unwrap().ids, ids(&["b"]));
    registry.release(&second.ids);
}

#[test]
fn test_parse_name_from_json() {
    assert_eq!(
        parse_name(r#"{"name": "Camera Event Models"}"#),
        Some("Camera Event Models".to_string())
    );
}

#[test]
fn test_parse_name_from_bare_string() {
    assert_eq!(
        parse_name(r#""Heating Control""#),
        Some("Heating Control".to_string())
    );
}

#[test]
fn test_parse_name_from_plain_text() {
    assert_eq!(
        parse_name("Payment Processing\n"),
        Some("Payment Processing".to_string())
    );
}

#[test]
fn names_in_other_documents_fall_back_to_the_first_line() {
    assert_eq!(parse_name("\n  {\"title\": 1}\nx"), Some("{\"title\": 1}".to_string()));
    assert_eq!(parse_name("[1]"), Some("[1]".to_string()));
    assert_eq!(parse_name(r#"{"name": 3}"#), Some(r#"{"name": 3}"#.to_string()));
    assert_eq!(parse_name(" \n "), None);
    assert_eq!(
        choose_name(
            Reply::Object(vec![
                ("x".to_string(), None),
                ("name".to_string(), Some("N".to_string())),
            ]),
            "raw",
        ),
        Some("N".to_string())
    );
    assert_eq!(choose_name(Reply::Invalid, "a\nb"), Some("a".to_string()));
    assert_eq!(choose_name(Reply::Other, "7"), Some("7".to_string()));
}

#[test]
fn replies_are_cleaned() {
    assert_eq!(name_from_reply(r#"{"name": " \"Core Types\" "}"#).unwrap(), "Core Types");
    assert_eq!(name_from_reply(r#"{"name": "café"}"#).unwrap(), "café");
    match name_from_reply(r#"{"name": " \"\" "}"#) {
        Err(DomainError::Internal(m)) => assert_eq!(m, EMPTY_NAME),
        other => panic!("{other:?}"),
    }
    assert!(clean_name(None).is_err());
}

#[test]
fn test_top_directories_ranks_shared() {
    let members = vec![
        "src/models/events/a.php".to_string(),
        "src/models/events/b.php".to_string(),
        "src/models/devices/c.php".to_string(),
    ];
    let dirs = top_directories(&members);
    // src/models covers all 3 and should rank first.
    assert_eq!(dirs[0], ("src/models".to_string(), 3));
    assert_eq!(dirs[1], ("src".to_string(), 3));
    assert_eq!(dirs[2], ("src/models/events".to_string(), 2));
    assert_eq!(dirs.len(), 3);
}

#[test]
fn test_build_prompt_includes_members_and_dirs() {
    let members = vec![
        "src/models/events/Camera.php".to_string(),
        "src/models/events/Doorbell.php".to_string(),
    ];
    let prompt = build_prompt(&members);
    assert!(prompt.contains("Camera.php"));
    assert!(prompt.contains("src/models/events"));
    assert_eq!(
        build_prompt(&ids(&["solo"])),
        "This group has 1 members. A sample of member names:\n  - solo\n\nReply with the module name only."
    );
    let many: Vec<String> = (0..27).map(|i| format!("m{i}")).collect();
    assert!(build_prompt(&many).contains("  - m24\n  … and 2 more\n"));
}

fn cluster(id: &str) -> Cluster {
    Cluster {
        id: id.to_string(),
        display_name: None,
        repository_id: "r".to_string(),
        dominant_language: "rust".to_string(),
        size: 0,
        cohesion: 0,
        members: Vec::new(),
    }
}

#[test]
fn known_names_are_applied_and_the_rest_is_listed() {
    let mut names = TextMap::new();
    names.insert("b".to_string(), "Beta".to_string());
    let mut items = vec![cluster("a"), cluster("b"), cluster("c")];
    let misses = apply_known_names(&mut items, &names);
    assert_eq!(misses, vec![0, 2]);
    assert_eq!(items[1].display_name.as_deref(), Some("Beta"));
    assert_eq!(items[0].display_name, None);
    assert_eq!(missing_ids(&items, &misses), ids(&["a", "c"]));
    assert_eq!(keep_claimed(&items, &misses, &ids(&["c"])), vec![2]);
}

#[test]
fn names_are_stored_in_batches() {
    let mut items: Vec<Cluster> = (0..8).map(|i| cluster(&format!("c{i}"))).collect();
    match take_probe(&mut items, 0, Some("First".to_string())) {
        ProbeOutcome::Proceed(rows) => {
            assert_eq!(rows, vec![("c0".to_string(), "First".to_string())])
        }
        other => panic!("{other:?}"),
    }
    let mut pending = Vec::new();
    let mut stored = Vec::new();
    for i in 1..8 {
        let reply = if i == 3 { None } else { Some(format!("N{i}")) };
        stored.extend(take_reply(&mut items, &mut pending, i, reply));
    }
    assert_eq!(stored.len(), 6);
    assert!(pending.is_empty());
    assert_eq!(stored[0], ("c1".to_string(), "N1".to_string()));
    assert_eq!(items[3].display_name, None);
    assert_eq!(items[7].display_name.as_deref(), Some("N7"));
    assert!(matches!(take_probe(&mut items, 3, None), ProbeOutcome::Unavailable));
}

#[test]
fn naming_changes_nothing_but_the_name() {
    let whole = || Cluster {
        size: 3,
        cohesion: 500_000,
        members: ids(&["x", "y", "z"]),
        ..cluster("a")
    };
    let keeps = |c: &Cluster| {
        assert_eq!((c.size, c.cohesion), (3, 500_000));
        assert_eq!(c.members, ids(&["x", "y", "z"]));
        assert_eq!((c.repository_id.as_str(), c.dominant_language.as_str()), ("r", "rust"));
    };
    let mut names = TextMap::new();
    names.insert("a".to_string(), "Alpha".to_string());
    let mut items = vec![whole()];
    apply_known_names(&mut items, &names);
    keeps(&items[0]);
    take_probe(&mut items, 0, Some("Beta".to_string()));
    keeps(&items[0]);
    take_reply(&mut items, &mut Vec::new(), 0, Some("Gamma".to_string()));
    keeps(&items[0]);
    assert_eq!(items[0].display_name.as_deref(), Some("Gamma"));
}
