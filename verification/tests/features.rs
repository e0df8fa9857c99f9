use codesearch::collections::TextMap;
use codesearch::domain::{Language, ReferenceKind, Repository, SymbolReference};
use codesearch::execution_features::{
    call_repository, find_entry_points, find_stored, impacted_features, is_entry_point,
    is_execution_edge, rank_features, traversal_scope, ExecutionFeature, FeatureWalk,
    CRITICALITY_ONE,
};

fn reference(caller: Option<&str>, callee: &str, file: &str, kind: ReferenceKind) -> SymbolReference {
    SymbolReference::new(
        caller.map(str::to_string),
        callee.to_string(),
        file.to_string(),
        file.to_string(),
        7,
        1,
        kind,
        Language::Rust,
        "repo".to_string(),
    )
}

fn call(caller: &str, callee: &str, file: &str) -> SymbolReference {
    reference(Some(caller), callee, file, ReferenceKind::Call)
}

fn scope() -> TextMap<String> {
    let repo = Repository {
        id: "repo".to_string(),
        name: "Repo".to_string(),
        path: "/r".to_string(),
        namespace: None,
    };
    traversal_scope(Some(&[repo]), "repo")
}

#[test]
fn entry_points_are_called_by_nobody() {
    assert!(is_execution_edge(&call("a", "b", "f")));
    assert!(!is_execution_edge(&reference(Some("a"), "b", "f", ReferenceKind::Import)));
    let refs = vec![call("main", "run", "m.rs"), call("run", "step", "r.rs"), call("aux", "step", "x.rs")];
    assert_eq!(find_entry_points(&refs, "repo"), vec!["aux", "main"]);
    assert!(is_entry_point(&[], &scope()));
    assert!(!is_entry_point(&refs, &scope()));
    assert!(is_entry_point(&[reference(None, "x", "f", ReferenceKind::Call)], &scope()));
    assert_eq!(call_repository(&refs).as_deref(), Some("repo"));
    assert_eq!(call_repository(&[]), None);
}

fn walk() -> ExecutionFeature {
    let all = vec![
        call("main", "run", "m.rs"),
        call("main", "stop", "m.rs"),
        call("run", "step", "r.rs"),
        call("step", "run", "s.rs"),
    ];
    let of = |symbol: &str| -> Vec<SymbolReference> {
        all.iter()
            .filter(|r| r.caller_symbol.as_deref() == Some(symbol))
            .map(|r| r.copied())
            .collect()
    };
    let mut walk = FeatureWalk::start("main", "repo", scope(), of("main"));
    while let Some(symbol) = walk.next() {
        let refs = of(symbol);
        walk.found(refs);
    }
    walk.finish()
}

#[test]
fn features_follow_calls_breadth_first() {
    let f = walk();
    assert_eq!(f.id, "repo:main");
    let path: Vec<_> = f.path.iter().map(|n| (n.symbol.as_str(), n.depth)).collect();
    assert_eq!(path, vec![("main", 0), ("run", 1), ("stop", 1), ("step", 2)]);
    assert_eq!((f.reach, f.depth), (4, 2));
    // 4 × 0.01375 + 2 × 0.025 + 0.15 × files / reach
    assert_eq!(
        f.criticality,
        4 * (CRITICALITY_ONE / 100_000 * 1_375)
            + 2 * (CRITICALITY_ONE / 1_000 * 25)
            + CRITICALITY_ONE / 100 * 15 * f.file_count as u64 / 4
    );
    assert!(f.criticality <= CRITICALITY_ONE);
}

/// A feature whose entry point calls `reach - 1` symbols, of which all but
/// `files - 1` stand in its own file.
fn flat_feature(entry: &str, reach: usize, files: usize) -> ExecutionFeature {
    let refs = (1..reach)
        .map(|i| {
            let file = if i < files { format!("f{i}.rs") } else { "main.rs".to_string() };
            call(entry, &format!("s{i}"), &file)
        })
        .collect();
    let mut walk = FeatureWalk::start(entry, "repo", scope(), refs);
    while walk.next().is_some() {
        walk.found(Vec::new());
    }
    walk.finish()
}

#[test]
fn close_features_are_told_apart() {
    // 0.15/1200 and 0.15/1201 are a ten-millionth apart.
    let a = flat_feature("a", 1201, 1);
    let b = flat_feature("b", 1200, 1);
    assert_eq!((a.reach, b.reach), (1201, 1200));
    assert_eq!(a.file_count, b.file_count);
    assert!(b.criticality > a.criticality);
    let ranked = rank_features(vec![a, b], 2);
    assert_eq!(ranked[0].entry_point, "b");
}

#[test]
fn features_are_ranked_found_and_filtered() {
    let mut weak = walk();
    weak.entry_point = "other".to_string();
    weak.criticality = 1;
    let ranked = rank_features(vec![weak, walk()], 1);
    assert_eq!(ranked.len(), 1);
    assert_eq!(ranked[0].entry_point, "main");
    assert!(find_stored(vec![walk()], "main").is_some());
    assert!(find_stored(vec![walk()], "x").is_none());
    assert_eq!(impacted_features(vec![walk()], &["step".to_string()]).len(), 1);
    assert!(impacted_features(vec![walk()], &["nope".to_string()]).is_empty());
}
