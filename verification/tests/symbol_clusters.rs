use codesearch::cluster_detection::{COHESION_ONE, WEIGHT_ONE};
use codesearch::collections::TextMap;
use codesearch::domain::{DomainError, Language, ReferenceKind, Repository, SymbolReference};
use codesearch::module_overview::GraphLevel;
use codesearch::symbol_cluster_detection::{
    apply_cached_names, compute_communities, find_symbol_community, namespace_repo_names,
    namespace_repository_ids, render_symbol_view, short_symbol_name,
    symbol_graph_from_references, SymbolCommunity, NO_NAMESPACE_SCOPE,
};

#[test]
fn symbol_cluster_detection_test_short_symbol_name() {
    assert_eq!(
        short_symbol_name("pkg/Auth#authenticate()."),
        "authenticate"
    );
    assert_eq!(short_symbol_name("crate::module::my_func"), "my_func");
    assert_eq!(short_symbol_name("Foo\\Bar\\baz"), "baz");
    assert_eq!(short_symbol_name("plain"), "plain");
}

#[test]
fn short_names_of_odd_symbols() {
    assert_eq!(short_symbol_name("a//"), "a");
    assert_eq!(short_symbol_name("::"), "::");
    assert_eq!(short_symbol_name(""), "");
    assert_eq!(short_symbol_name("x#y()()"), "y");
}

fn community(id: &str, members: &[&str]) -> SymbolCommunity {
    SymbolCommunity {
        id: id.into(),
        display_name: None,
        repository_id: "r".into(),
        dominant_language: "rust".into(),
        size: members.len(),
        cohesion: COHESION_ONE,
        members: members.iter().map(|m| m.to_string()).collect(),
    }
}

#[test]
fn test_find_symbol_community_prefers_exact() {
    let communities = vec![
        community("1", &["pkg/Auth#authenticate()."]),
        community("2", &["other/authenticate_helper"]),
    ];
    let hit = find_symbol_community(communities, "pkg/Auth#authenticate().").unwrap();
    assert_eq!(hit.id, "1");
}

#[test]
fn test_find_symbol_community_suffix() {
    let communities = vec![community("1", &["pkg/Auth#authenticate()."])];
    let hit = find_symbol_community(communities, "authenticate").unwrap();
    assert_eq!(hit.id, "1");
}

#[test]
fn short_names_go_before_parts() {
    let make = || vec![community("1", &["x/authenticate_helper"]), community("2", &["pkg/authenticate"])];
    assert_eq!(find_symbol_community(make(), "authenticate").unwrap().id, "2");
    assert_eq!(find_symbol_community(make(), "helper").unwrap().id, "1");
    assert!(find_symbol_community(make(), "Authenticate").is_none());
}

fn call(caller: Option<&str>, callee: &str, repo: &str, language: Language) -> SymbolReference {
    SymbolReference::new(
        caller.map(str::to_string),
        callee.to_string(),
        "f".to_string(),
        "f".to_string(),
        1,
        1,
        ReferenceKind::Call,
        language,
        repo.to_string(),
    )
}

fn references() -> Vec<SymbolReference> {
    vec![
        call(None, "z", "r1", Language::Go),
        call(Some("b"), "b", "r1", Language::Go),
        call(Some("b"), "a", "r1", Language::Rust),
        call(Some("a"), "b", "r2", Language::Go),
        call(Some("b"), "c", "r1", Language::Rust),
    ]
}

#[test]
fn references_fold_into_a_graph() {
    let sg = symbol_graph_from_references(&references());
    assert_eq!(sg.symbols, vec!["a", "b", "c"]);
    let edges: Vec<_> = sg.edges.iter().map(|e| (e.lo, e.hi, e.weight)).collect();
    assert_eq!(edges, vec![(0, 1, 2 * WEIGHT_ONE), (1, 2, WEIGHT_ONE)]);
    assert_eq!(sg.language_of.get("a").unwrap(), "rust");
    // The caller's own reference settles its repository.
    assert_eq!(sg.repo_of.get("a").unwrap(), "r2");
    assert_eq!(sg.repo_of.get("b").unwrap(), "r1");
    assert_eq!(sg.repo_of.get("c").unwrap(), "r1");
}

#[test]
fn partitions_become_communities() {
    let sg = symbol_graph_from_references(&references());
    let scg = compute_communities(
        "repo",
        &sg,
        &[0, 0, 1],
        &["s0".to_string(), "s1".to_string()],
    );
    assert_eq!(scg.communities.len(), 2);
    assert_eq!(scg.communities[0].members, vec!["a", "b"]);
    assert_eq!(scg.communities[0].cohesion, COHESION_ONE / 2);
    assert_eq!(scg.communities[1].cohesion, 0);
    assert_eq!((scg.total_symbols, scg.total_edges), (3, 2));
    let none = compute_communities("repo", &symbol_graph_from_references(&[]), &[], &[]);
    assert!(none.communities.is_empty());
}

#[test]
fn views_show_each_symbol_once() {
    let sg = symbol_graph_from_references(&references());
    let mut scg = compute_communities(
        "repo",
        &sg,
        &[0, 0, 1],
        &["s0".to_string(), "s1".to_string()],
    );
    let mut known = TextMap::new();
    known.insert("s0".to_string(), "Pair".to_string());
    apply_cached_names(&mut scg.communities, &known);
    let mut names = TextMap::new();
    names.insert("r2".to_string(), "second".to_string());
    let v = render_symbol_view("scope", &sg, &scg, &names);
    assert_eq!(v.level, GraphLevel::Symbol);
    assert_eq!(v.repository_id, "scope");
    let nodes: Vec<_> = v
        .nodes
        .iter()
        .map(|n| (n.id.as_str(), n.community, n.degree, n.repository.as_deref()))
        .collect();
    assert_eq!(
        nodes,
        vec![("a", 0, 1, Some("second")), ("b", 0, 2, None), ("c", 1, 1, None)]
    );
    assert_eq!(v.communities[0].name, "Pair");
    assert!(v.edges.iter().all(|e| e.kind.is_none()));
}

#[test]
fn namespaces_need_a_scope() {
    let repo = |id: &str, ns: Option<&str>| Repository {
        id: id.to_string(),
        name: format!("name-{id}"),
        path: "p".to_string(),
        namespace: ns.map(str::to_string),
    };
    let repos = vec![repo("1", Some("a")), repo("2", None), repo("3", Some("b")), repo("4", Some("a"))];
    match namespace_repository_ids(None, Some("a"), &repos) {
        Err(DomainError::StorageError(m)) => assert_eq!(m, NO_NAMESPACE_SCOPE),
        other => panic!("{other:?}"),
    }
    let (n, ids) = namespace_repository_ids(Some("b"), Some("a"), &repos).unwrap();
    assert_eq!(n, "a");
    assert_eq!(ids, vec!["1", "4"]);
    let (n, ids) = namespace_repository_ids(Some("b"), None, &repos).unwrap();
    assert_eq!(n, "b");
    assert_eq!(ids, vec!["3"]);
    let names = namespace_repo_names("a", &repos);
    assert_eq!(names.get("4").unwrap(), "name-4");
    assert!(names.get("3").is_none());
}
