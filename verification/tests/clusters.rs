use codesearch::cluster_detection::{
    cohesion, composite_weight, compute_clusters, dominant_language, facade_split_enabled,
    kind_weight, partition_members, singleton_clusters, sorted_files, weigh_pairs,
    worth_partition, Cluster, ClusterGraph, COHESION_ONE, WEIGHT_ONE,
};
use codesearch::collections::TextMap;
use codesearch::domain::{FileEdge, FileGraph, ReferenceKind};
use codesearch::module_overview::{
    apply_cached_names, architecture_overview, cluster_for_file, graph_view, module_overview,
    GraphLevel, ModuleDependency, ModuleOverview,
};

#[test]
fn test_kind_weight() {
    assert_eq!(kind_weight("call"), 10);
    assert_eq!(kind_weight("import"), 5);
    assert_eq!(kind_weight("unknown_kind"), 3);
}

#[test]
fn kind_weight_ignores_case() {
    assert_eq!(kind_weight("MethodCall"), 10);
    assert_eq!(kind_weight("Inheritance"), 8);
    assert_eq!(kind_weight("IMPLEMENTATION"), 7);
    assert_eq!(kind_weight("TypeReference"), 6);
}

#[test]
fn kinds_weigh_the_same_in_either_spelling() {
    assert_eq!(kind_weight(ReferenceKind::MethodCall.as_str()), 10);
    assert_eq!(kind_weight(ReferenceKind::TypeReference.as_str()), 6);
    assert_eq!(kind_weight(ReferenceKind::Instantiation.as_str()), 3);
}

#[test]
fn test_clusters_by_importance_ranks_coupled_clusters_first() {
    let mk = |id: &str, size: usize| Cluster {
        id: id.to_string(),
        display_name: None,
        repository_id: "repo".to_string(),
        dominant_language: "Rust".to_string(),
        size,
        cohesion: COHESION_ONE,
        members: Vec::new(),
    };
    // "big" is the largest but fully self-contained; "hub" and "leaf" are
    // smaller but coupled to each other.
    let overview = ModuleOverview {
        graph: ClusterGraph {
            clusters: vec![mk("big", 40), mk("hub", 10), mk("leaf", 5)],
            repository_id: "repo".to_string(),
            total_files: 55,
            total_edges: 30,
        },
        dependencies: vec![
            ModuleDependency {
                from_cluster_id: "leaf".to_string(),
                to_cluster_id: "hub".to_string(),
                weight: 20 * WEIGHT_ONE,
            },
            ModuleDependency {
                from_cluster_id: "hub".to_string(),
                to_cluster_id: "leaf".to_string(),
                weight: 10 * WEIGHT_ONE,
            },
        ],
    };
    let ranked: Vec<&str> = overview
        .clusters_by_importance()
        .iter()
        .map(|c| c.id.as_str())
        .collect();
    // hub: 10 × (1 + 30) = 310; leaf: 5 × 31 = 155; big: 40 × 1 = 40.
    assert_eq!(ranked, vec!["hub", "leaf", "big"]);
    assert_eq!(
        architecture_overview("repo", &overview),
        "# Architecture Overview\n\nRepository `repo` — 3 clusters, 55 files, 30 dependency edges\n\n\
         | Cluster | Files | Language | Top Dependencies |\n\
         |---------|-------|----------|------------------|\n\
         | hub | 10 | Rust | leaf (10) |\n\
         | leaf | 5 | Rust | hub (20) |\n\
         | big | 40 | Rust | — |\n"
    );
}

fn edge(from: &str, to: &str, weight: usize, kinds: &[&str]) -> FileEdge {
    FileEdge {
        from_file: from.to_string(),
        from_repo_id: "r".to_string(),
        to_file: to.to_string(),
        to_repo_id: "r".to_string(),
        weight,
        reference_kinds: kinds.iter().map(|k| k.to_string()).collect(),
        symbols: Vec::new(),
    }
}

fn graph() -> FileGraph {
    FileGraph {
        repositories: Vec::new(),
        files: ["b.rs", "a.rs", "d/c.py"].iter().map(|f| f.to_string()).collect(),
        edges: vec![
            edge("a.rs", "b.rs", 2, &["Call", "Import"]),
            edge("b.rs", "a.rs", 1, &[]),
            edge("b.rs", "d/c.py", 4, &["call"]),
        ],
    }
}

#[test]
fn edges_weigh_references_by_kind() {
    // 2 × (1.0 + 0.5) / 2 = 1.5
    assert_eq!(composite_weight(&graph().edges[0]), WEIGHT_ONE / 10 * 15);
    // No kind weighs as an unknown one.
    assert_eq!(composite_weight(&graph().edges[1]), WEIGHT_ONE / 10 * 3);
}

#[test]
fn pairs_add_up_both_directions() {
    let g = graph();
    let files = sorted_files(&g);
    assert_eq!(files, vec!["a.rs", "b.rs", "d/c.py"]);
    let pairs = weigh_pairs(&files, &g.edges);
    assert_eq!(pairs.len(), 2);
    assert_eq!((pairs[0].lo, pairs[0].hi, pairs[0].weight), (0, 1, WEIGHT_ONE / 10 * 18));
    assert_eq!(pairs[0].kind.as_deref(), Some("call"));
    assert_eq!((pairs[1].lo, pairs[1].hi, pairs[1].weight), (1, 2, 4 * WEIGHT_ONE));
}

fn languages() -> TextMap<String> {
    let mut m = TextMap::new();
    m.insert("a.rs".to_string(), "rust".to_string());
    m.insert("b.rs".to_string(), "rust".to_string());
    m.insert("d/c.py".to_string(), "python".to_string());
    m
}

fn clustered() -> ClusterGraph {
    let g = graph();
    let files = sorted_files(&g);
    compute_clusters(
        "repo",
        &g,
        &files,
        &[1, 1, 0],
        &["c0".to_string(), "c1".to_string()],
        &languages(),
    )
}

#[test]
fn partitions_become_clusters_largest_first() {
    let g = graph();
    assert_eq!(
        partition_members(&sorted_files(&g), &[1, 1, 0]),
        vec![vec!["d/c.py".to_string()], vec!["a.rs".to_string(), "b.rs".to_string()]]
    );
    let cg = clustered();
    assert_eq!(cg.total_files, 3);
    assert_eq!(cg.total_edges, 3);
    assert_eq!(cg.clusters.len(), 2);
    assert_eq!(cg.clusters[0].id, "c1");
    assert_eq!(cg.clusters[0].size, 2);
    assert_eq!(cg.clusters[0].dominant_language, "rust");
    // Two of its three edges stay inside.
    assert_eq!(cg.clusters[0].cohesion, 666_666_666_666_666_666);
    assert_eq!(cg.clusters[1].cohesion, 0);
    assert_eq!(cg.clusters[1].dominant_language, "python");
}

#[test]
fn small_graphs_have_one_cluster_for_each_file() {
    assert!(!worth_partition(9));
    assert!(worth_partition(10));
    let g = graph();
    let files = sorted_files(&g);
    let ids: Vec<String> = (0..3).map(|i| format!("s{i}")).collect();
    let cg = singleton_clusters("repo", &g, &files, &ids, &languages());
    assert_eq!(cg.clusters.len(), 3);
    assert_eq!(cg.clusters[0].members, vec!["a.rs".to_string()]);
    assert_eq!(cg.clusters[0].cohesion, 0);
}

#[test]
fn cohesion_is_the_share_inside() {
    assert_eq!(cohesion(0, 0), 0);
    assert_eq!(cohesion(3, 1), COHESION_ONE / 4 * 3);
    assert_eq!(cohesion(2, 0), COHESION_ONE);
}

#[test]
fn the_most_frequent_language_dominates() {
    let l = |v: &[&str]| v.iter().map(|s| s.to_string()).collect::<Vec<_>>();
    assert_eq!(dominant_language(&l(&["go", "rust", "rust"])), "rust");
    assert_eq!(dominant_language(&l(&["rust", "go"])), "go");
    assert_eq!(dominant_language(&[]), "unknown");
}

#[test]
fn dependencies_join_clusters() {
    let o = module_overview(clustered(), &graph().edges);
    assert_eq!(o.dependencies.len(), 1);
    assert_eq!(o.dependencies[0].from_cluster_id, "c1");
    assert_eq!(o.dependencies[0].to_cluster_id, "c0");
    assert_eq!(o.dependencies[0].weight, 4 * WEIGHT_ONE);
    let empty = ModuleOverview {
        graph: ClusterGraph {
            clusters: Vec::new(),
            repository_id: "x".to_string(),
            total_files: 0,
            total_edges: 0,
        },
        dependencies: Vec::new(),
    };
    assert_eq!(
        architecture_overview("x", &empty),
        "No clusters detected for repository `x`."
    );
}

#[test]
fn graphs_show_members_under_their_clusters() {
    let cg = clustered();
    let v = graph_view("repo", &cg, &graph().edges, &languages());
    assert_eq!(v.level, GraphLevel::File);
    let nodes: Vec<_> = v
        .nodes
        .iter()
        .map(|n| (n.id.as_str(), n.label.as_str(), n.community, n.degree, n.language.as_str()))
        .collect();
    assert_eq!(
        nodes,
        vec![
            ("a.rs", "a.rs", 0, 1, "rust"),
            ("b.rs", "b.rs", 0, 2, "rust"),
            ("d/c.py", "c.py", 1, 1, "python"),
        ]
    );
    assert_eq!(v.edges.len(), 2);
    assert_eq!((v.edges[1].source, v.edges[1].target), (1, 2));
    assert_eq!(v.communities[0].name, "c1");
}

#[test]
fn clusters_are_found_and_named() {
    let mut cg = clustered();
    let mut names = TextMap::new();
    names.insert("c0".to_string(), "Tools".to_string());
    apply_cached_names(&mut cg.clusters, &names);
    assert_eq!(cg.clusters[1].display_name.as_deref(), Some("Tools"));
    assert_eq!(cg.clusters[0].display_name, None);
    assert_eq!(cluster_for_file(cg.clusters, "d/c.py").unwrap().id, "c0");
    assert!(cluster_for_file(clustered().clusters, "zzz").is_none());
}

#[test]
fn splitting_is_switched_on_by_a_value() {
    assert!(!facade_split_enabled(None));
    assert!(!facade_split_enabled(Some("")));
    assert!(facade_split_enabled(Some("0")));
    assert!(facade_split_enabled(Some("1")));
}
