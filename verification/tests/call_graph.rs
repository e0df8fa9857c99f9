use codesearch::call_graph::{export_entry, save_failure, CallGraphQuery};
use codesearch::call_graph_traversal::{
    all_paths, cap_resolved, choose_roots, depth_summary, display_label, flatten, leaf_nodes,
    retry_pattern, trace_path, CallGraphNode, Direction, Walk,
};
use codesearch::domain::{Language, ReferenceKind, SymbolReference};
use codesearch::explain::{
    begin_explain, build_prompt, finish_explain, nodes_to_fetch, reconstruct_caller_paths,
    root_repository, with_sources, ExplainStart,
};
use codesearch::impact_analysis::{analysis_query, ImpactAnalysis};
use codesearch::markdown::{strip_markdown_emphasis, xml_to_markdown};
use codesearch::symbol_context::SymbolContext;

fn reference(caller: Option<&str>, callee: &str) -> SymbolReference {
    SymbolReference::new(
        caller.map(str::to_string),
        callee.to_string(),
        "f.rs".to_string(),
        "f.rs".to_string(),
        3,
        1,
        ReferenceKind::Call,
        Language::Rust,
        "repo".to_string(),
    )
}

/// a and b call root, c calls a and b, root calls d.
fn references() -> Vec<SymbolReference> {
    vec![
        reference(Some("a"), "root"),
        reference(Some("b"), "root"),
        reference(Some("c"), "a"),
        reference(Some("c"), "b"),
        reference(Some("root"), "c"),
        reference(Some("root"), "d"),
    ]
}

fn walk(direction: Direction) -> Vec<Vec<CallGraphNode>> {
    let all = references();
    let mut walk = Walk::start(&["root".to_string()], direction);
    while let Some(symbol) = walk.next() {
        let refs: Vec<SymbolReference> = all
            .iter()
            .filter(|r| match direction {
                Direction::Callers => r.callee_symbol == symbol,
                Direction::Callees => r.caller_symbol.as_deref() == Some(symbol),
            })
            .map(|r| r.copied())
            .collect();
        walk.found(&refs);
    }
    walk.finish()
}

fn names(levels: &[Vec<CallGraphNode>]) -> Vec<Vec<&str>> {
    levels
        .iter()
        .map(|l| l.iter().map(|n| n.symbol.as_str()).collect())
        .collect()
}

#[test]
fn walks_reach_each_symbol_at_its_least_depth() {
    let up = walk(Direction::Callers);
    // The callers of c were all reached before, which leaves its level empty.
    assert_eq!(names(&up), vec![vec!["a", "b"], vec!["c"], vec![]]);
    assert_eq!(depth_summary(&up), (3, 2));
    assert_eq!(depth_summary(&[]), (0, 0));
    let down = walk(Direction::Callees);
    assert_eq!(down[0].iter().map(|n| n.symbol.as_str()).collect::<Vec<_>>(), vec!["c", "d"]);
}

#[test]
fn paths_lead_from_the_leaf_back() {
    let up = walk(Direction::Callers);
    let nodes = flatten(&up);
    let leaves = leaf_nodes(&nodes);
    let leaf = leaves.iter().find(|n| n.symbol == "c").unwrap();
    let path: Vec<&str> = trace_path(leaf, &nodes).iter().map(|n| n.symbol.as_str()).collect();
    assert!(path.contains(&"c") && path.contains(&"a"));
    assert_eq!(all_paths(&nodes).len(), leaves.len());
    let impact = ImpactAnalysis::of_walk("root".to_string(), vec!["root".to_string()], up);
    assert_eq!((impact.total_affected, impact.max_depth_reached), (3, 2));
    assert_eq!(impact.leaf_nodes().len(), impact.call_chains().len());
}

#[test]
fn roots_are_chosen_among_what_was_resolved() {
    let (kept, cut) = cap_resolved((0..101).map(|i| format!("s{i}")).collect());
    assert_eq!(kept.len(), 100);
    assert!(cut);
    assert!(!cap_resolved(vec!["x".to_string()]).1);
    let (roots, label, resolved) = choose_roots("x", Vec::new(), false);
    assert_eq!(roots, vec!["x"]);
    assert_eq!(label, "x");
    assert!(!resolved);
    let (roots, _, resolved) = choose_roots("x", vec!["A#x".to_string()], false);
    assert_eq!(roots, vec!["A#x"]);
    assert!(resolved);
    assert_eq!(display_label("x", &["A#x".to_string()], false), "A#x");
    assert!(retry_pattern("AcmeHome", &[], false).is_some());
    assert!(retry_pattern("AcmeHome", &[], true).is_none());
    assert!(retry_pattern("AcmeHome", &["A".to_string()], false).is_none());
}

#[test]
fn queries_carry_their_options() {
    let q = CallGraphQuery::new()
        .with_repository("r".to_string())
        .with_language("rust".to_string())
        .with_reference_kind("call".to_string())
        .with_limit(3)
        .with_regex();
    assert_eq!(q.repository_id.as_deref(), Some("r"));
    assert_eq!(q.limit, Some(3));
    assert!(q.use_regex);
    assert!(!analysis_query(None, false).use_regex);
    assert!(analysis_query(Some("r".to_string()), true).use_regex);
}

#[test]
fn exports_are_indexed_for_scripts_only() {
    let exports = vec!["f".to_string()];
    assert!(export_entry("a.ts".to_string(), Language::TypeScript, exports.clone()).is_some());
    assert!(export_entry("a.ts".to_string(), Language::TypeScript, Vec::new()).is_none());
    assert!(export_entry("a.rs".to_string(), Language::Rust, exports).is_none());
    assert_eq!(save_failure(12), "failed to save 12 references for indexing");
}

fn context() -> SymbolContext {
    SymbolContext::of_walks(
        "root".to_string(),
        vec!["root".to_string()],
        true,
        walk(Direction::Callers),
        walk(Direction::Callees),
    )
}

#[test]
fn contexts_hold_both_directions() {
    let ctx = context();
    assert_eq!((ctx.total_callers, ctx.max_caller_depth), (3, 2));
    assert_eq!(ctx.caller_chains().len(), ctx.caller_leaves().len());
    let children = ctx.callee_children();
    assert!(children.len() > 0);
}

#[test]
fn caller_paths_follow_the_links() {
    let up = walk(Direction::Callers);
    let paths: Vec<Vec<&str>> = reconstruct_caller_paths(&up)
        .iter()
        .map(|p| p.iter().map(|n| n.symbol.as_str()).collect())
        .collect();
    // c was reached through a, and nobody was reached through b.
    assert_eq!(paths, vec![vec!["b"], vec!["c", "a"]]);
    assert!(reconstruct_caller_paths(&[]).is_empty());
}

#[test]
fn explanations_ask_about_the_callers() {
    let ctx = context();
    let paths = reconstruct_caller_paths(&ctx.callers_by_depth);
    assert!(paths.iter().all(|p| !p.is_empty()));
    let callees = flatten(&ctx.callees_by_depth);
    let nodes = nodes_to_fetch(&paths, &callees);
    assert!(nodes.iter().any(|n| n.is_callee && n.symbol == "d"));
    assert_eq!(root_repository(&ctx), "repo");
    let found = nodes.iter().map(|_| Some("code".to_string())).collect();
    let sources = with_sources(nodes, found);
    let prompt = build_prompt(&ctx, &Some(("f.rs".to_string(), "fn root() {}".to_string())), &sources);
    assert!(prompt.contains("fn root() {}"));
    let ctx = match begin_explain("root", ctx, false) {
        ExplainStart::Ask(ctx) => ctx,
        ExplainStart::Answer(a) => panic!("{}", a.explanation),
    };
    let done = finish_explain(ctx, Ok("<summary>Ends things.</summary>".to_string()), sources, false)
        .unwrap();
    assert_eq!(done.root_symbol, "root");
    assert_eq!(done.explanation, "## Summary\nEnds things.");
    assert!(finish_explain(context(), Err("down".to_string()), Vec::new(), false).is_err());
}

#[test]
fn markdown_replaces_the_tags() {
    assert_eq!(
        xml_to_markdown("x <flow>A **calls** B.</flow> y <summary> One. </summary>"),
        "## Summary\nOne.\n\n## Flow\nA calls B."
    );
    assert_eq!(xml_to_markdown("Just **text**."), "Just text.");
}

fn plain(s: &str) -> String {
    let chars: Vec<char> = s.chars().collect();
    strip_markdown_emphasis(&chars).into_iter().collect()
}

#[test]
fn emphasis_is_stripped_outside_code_spans() {
    assert_eq!(plain("`a**b**c` is **bold**"), "`a**b**c` is bold");
    assert_eq!(plain("**see `x**y` here**"), "see `x**y` here");
    assert_eq!(plain("``a`**b**`` and **c**"), "``a`**b**`` and c");
    assert_eq!(plain("a ` alone and **b**"), "a ` alone and b");
    assert_eq!(plain("an unpaired ** stays"), "an unpaired ** stays");
    assert_eq!(plain("```\n**kept**\n```\n**bold**\n"), "```\n**kept**\n```\nbold\n");
}

#[test]
fn italics_are_stripped_outside_code_spans() {
    assert_eq!(plain("an *italic* word and ***both***"), "an italic word and both");
    assert_eq!(plain("*see `a*b`* there"), "see `a*b` there");
    assert_eq!(plain("* item with *stress*"), "* item with stress");
    assert_eq!(plain("2 * 3 * 4"), "2 * 3 * 4");
    assert_eq!(plain("all *.rs and *.ts files"), "all *.rs and *.ts files");
}

#[test]
fn copied_queries_keep_their_filters() {
    let query = CallGraphQuery::new()
        .with_repository("r".to_string())
        .with_language("rust".to_string())
        .with_reference_kind("call".to_string())
        .with_limit(7);
    let tolerant = query.copied().with_regex();
    assert_eq!(tolerant.repository_id.as_deref(), Some("r"));
    assert_eq!(tolerant.language.as_deref(), Some("rust"));
    assert_eq!(tolerant.reference_kind.as_deref(), Some("call"));
    assert_eq!(tolerant.limit, Some(7));
    assert!(tolerant.use_regex && !query.use_regex);
}
