use codesearch::channel_link::{link, ChannelLinkOptions};
use codesearch::channel_routes::{http_route_matches, mqtt_topic_matches, normalize_http_route};
use codesearch::channels::{ChannelEndpoint, ChannelRole, EndpointSource, Protocol};
use codesearch::clustering::group;
use codesearch::domain::{
    DomainError, FileEdge, FileGraph, FileGraphRepo, Language, ReferenceKind, Repository,
    SymbolReference,
};
use codesearch::file_relationship::{build_graph, scope_repositories, target_repositories};
use codesearch::namespace_graph::qualify_namespace_graph;
use codesearch::paths::{ancestor_dir_frequencies, basename};
use codesearch::split_analysis::analyse_from_graph;
use codesearch::symbol_index::{build_index, Definition};
use codesearch::union_find::components;

fn repo(id: &str, namespace: Option<&str>) -> Repository {
    Repository {
        id: id.to_string(),
        name: format!("name-{id}"),
        path: format!("/{id}"),
        namespace: namespace.map(str::to_string),
    }
}

fn reference(file: &str, callee: &str, repo: &str) -> SymbolReference {
    SymbolReference::new(
        Some("f".to_string()),
        callee.to_string(),
        file.to_string(),
        file.to_string(),
        1,
        1,
        ReferenceKind::Call,
        Language::Php,
        repo.to_string(),
    )
}

fn definition(symbol: &str, file: &str, repo: &str) -> Definition {
    Definition { symbol: symbol.to_string(), file: file.to_string(), repo: repo.to_string() }
}

#[test]
fn file_graphs_count_references() {
    let repos = vec![repo("a", Some("ns")), repo("b", Some("ns")), repo("c", None)];
    let targets = target_repositories(&repos, None, "ns");
    assert_eq!(targets, vec![0, 1]);
    assert_eq!(target_repositories(&repos, Some(&["c".to_string()]), "ns"), vec![2]);
    assert!(scope_repositories(&repos, &[0]).contains(&0));
    let index = build_index(vec![
        definition("Lib", "lib.php", "b"),
        definition("Own", "own.php", "a"),
    ]);
    let refs = vec![
        reference("x.php", "Lib", "a"),
        reference("x.php", "Lib", "a"),
        reference("x.php", "Own", "a"),
        reference("x.php", "Nowhere", "a"),
    ];
    let all = build_graph(&repos, &targets, &refs, &index, 1, true);
    assert_eq!(all.edges.len(), 2);
    let lib = all.edges.iter().find(|e| e.to_file == "lib.php").unwrap();
    assert_eq!((lib.weight, lib.to_repo_id.as_str()), (2, "b"));
    let own = build_graph(&repos, &targets, &refs, &index, 1, false);
    assert_eq!(own.edges.len(), 1);
    let heavy = build_graph(&repos, &targets, &refs, &index, 2, true);
    assert_eq!(heavy.edges.len(), 1);
    assert_eq!(heavy.files, vec!["x.php", "lib.php"]);
}

fn edge(from: &str, from_repo: &str, to: &str, to_repo: &str) -> FileEdge {
    FileEdge {
        from_file: from.to_string(),
        from_repo_id: from_repo.to_string(),
        to_file: to.to_string(),
        to_repo_id: to_repo.to_string(),
        weight: 1,
        reference_kinds: Vec::new(),
        symbols: Vec::new(),
    }
}

#[test]
fn monoliths_split_by_their_consumers() {
    let graph = FileGraph {
        repositories: ["mono", "web", "api"]
            .iter()
            .map(|id| FileGraphRepo {
                id: id.to_string(),
                name: format!("name-{id}"),
                path: format!("/{id}"),
            })
            .collect(),
        files: ["w.ts", "one.ts", "two.ts", "both.ts", "help.ts", "shared.ts", "p.ts"]
            .iter()
            .map(|f| f.to_string())
            .collect(),
        edges: vec![
            edge("w.ts", "web", "one.ts", "mono"),
            edge("w.ts", "web", "two.ts", "mono"),
            edge("w.ts", "web", "both.ts", "mono"),
            edge("p.ts", "api", "both.ts", "mono"),
            edge("one.ts", "mono", "help.ts", "mono"),
            edge("two.ts", "mono", "shared.ts", "mono"),
            edge("both.ts", "mono", "shared.ts", "mono"),
        ],
    };
    let a = analyse_from_graph("mono", &graph).unwrap();
    assert_eq!(a.groups.len(), 2);
    assert_eq!(a.groups[0].public_files, vec!["one.ts", "two.ts"]);
    assert_eq!(a.groups[0].support_files, vec!["help.ts"]);
    assert_eq!(a.groups[0].label, "name-web");
    assert_eq!(a.groups[1].consumers, vec!["api", "web"]);
    assert_eq!(a.groups[1].id, "api+web");
    assert!(a.groups[1].support_files.is_empty());
    assert_eq!(a.externally_visible_count, 3);
    match analyse_from_graph("nope", &graph) {
        Err(DomainError::NotFound(m)) => assert!(m.starts_with("Repository 'nope' not found")),
        other => panic!("{:?}", other.is_ok()),
    }
}

#[test]
fn routes_are_stable_and_symmetric() {
    for route in ["/users/:id/", "users//{x}?q=1", "/", "", "/a/<int:b>/c#d"] {
        let once = normalize_http_route(route);
        assert_eq!(normalize_http_route(&once), once);
    }
    assert!(http_route_matches("/users/{}", "/users/7"));
    assert!(mqtt_topic_matches("a/b", "a/b"));
    assert!(!mqtt_topic_matches("a/b", "a/B"));
}

fn endpoint(repo: &str, file: &str, role: ChannelRole, channel: &str) -> ChannelEndpoint {
    ChannelEndpoint::new(
        repo.to_string(),
        file.to_string(),
        1,
        Protocol::Http,
        role,
        channel.to_string(),
        channel.to_string(),
        900_000,
        EndpointSource::TreeSitter,
    )
}

#[test]
fn links_leave_out_what_is_excluded() {
    let endpoints = || {
        vec![
            endpoint("a", "p", ChannelRole::Producer, "/health"),
            endpoint("b", "c", ChannelRole::Consumer, "/health"),
            endpoint("a", "p", ChannelRole::Producer, "/users/7"),
            endpoint("b", "c", ChannelRole::Consumer, "/users/{}"),
        ]
    };
    assert_eq!(link(endpoints(), &ChannelLinkOptions::default()).edges.len(), 2);
    let options = ChannelLinkOptions {
        exclude_channels: vec!["/health*".to_string()],
        ..Default::default()
    };
    let report = link(endpoints(), &options);
    assert_eq!(report.edges.len(), 1);
    assert_eq!(report.edges[0].channel(), "/users/{}");
    assert!(report.noisy_channels.is_empty());
    let kafka = ChannelLinkOptions { protocol: Some(Protocol::Kafka), ..Default::default() };
    assert!(link(endpoints(), &kafka).edges.is_empty());
}

#[test]
fn connected_places_share_a_component() {
    let labels = components(5, &[(0, 3), (3, 4)]);
    assert_eq!(labels[0], labels[4]);
    assert_ne!(labels[1], labels[2]);
    assert_eq!(group(&labels), vec![vec![0, 3, 4], vec![1], vec![2]]);
}

#[test]
fn directories_are_counted_above_files() {
    let files = vec!["src/a/x.rs".to_string(), "src/y.rs".to_string(), "z.rs".to_string()];
    let freq = ancestor_dir_frequencies(&files);
    assert_eq!(freq.get("src"), Some(&2));
    assert_eq!(freq.get("src/a"), Some(&1));
    assert!(freq.get("z.rs").is_none());
    assert_eq!(basename("src/a/x.rs"), "x.rs");
    assert_eq!(basename("x"), "x");
}

#[test]
fn equal_paths_of_two_repositories_stay_apart() {
    let edge = |from_repo: &str, to_repo: &str| FileEdge {
        from_file: "src/a.rs".to_string(),
        from_repo_id: from_repo.to_string(),
        to_file: "src/a.rs".to_string(),
        to_repo_id: to_repo.to_string(),
        weight: 2,
        reference_kinds: vec!["call".to_string()],
        symbols: vec!["f".to_string()],
    };
    let graph = FileGraph {
        repositories: vec![FileGraphRepo {
            id: "1".to_string(),
            name: "web".to_string(),
            path: "/web".to_string(),
        }],
        files: vec!["src/a.rs".to_string()],
        edges: vec![edge("1", "2")],
    };
    let graph = qualify_namespace_graph(graph);
    assert_eq!(graph.files, vec!["web:src/a.rs", "2:src/a.rs"]);
    assert_eq!(graph.edges[0].from_file, "web:src/a.rs");
    assert_eq!(graph.edges[0].to_file, "2:src/a.rs");
    assert_eq!(graph.edges[0].from_repo_id, "1");
    assert_eq!(graph.edges[0].weight, 2);
}
