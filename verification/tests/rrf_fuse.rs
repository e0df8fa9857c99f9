use codesearch::domain::{CodeChunk, Language, NodeType, SearchResult};
use codesearch::fusion::{RRF_K, SCORE_ONE};
use codesearch::rrf::{is_test_file, rrf_fuse, TEST_FILE_DIVISOR};

/// Build a minimal SearchResult with a known ID; the raw score is irrelevant
/// because rrf_fuse re-scores everything by rank position.
fn make_result(id: &str) -> SearchResult {
    make_result_at(id, "file.rs")
}

fn make_result_at(id: &str, path: &str) -> SearchResult {
    let chunk = CodeChunk::reconstitute(
        id.to_string(),
        path.to_string(),
        "fn foo() {}".to_string(),
        1,
        1,
        Language::Rust,
        NodeType::Function,
        None,
        None,
        "repo".to_string(),
    );
    SearchResult::new(chunk, SCORE_ONE as i128)
}

// --- is_test_file ---

#[test]
fn non_test_files_are_not_matched() {
    assert!(!is_test_file("src/lib.rs"));
    assert!(!is_test_file("src/foo/bar.rs"));
    assert!(!is_test_file("main.py"));
    assert!(!is_test_file("src/testing_utils.rs")); // "testing_" ≠ "test_"
    assert!(!is_test_file("service/test.go")); // stem named "test" is not a dot-marker
}

#[test]
fn test_directory_segments_are_matched() {
    assert!(is_test_file("tests/foo.rs"));
    assert!(is_test_file("test/foo.rs"));
    assert!(is_test_file("spec/bar.js"));
    assert!(is_test_file("specs/bar.js"));
    assert!(is_test_file("__tests__/baz.ts"));
    assert!(is_test_file("__test__/baz.ts"));
    assert!(is_test_file("testdata/fixture.json"));
    assert!(is_test_file("src/module/tests/integration.rs"));
}

#[test]
fn test_dot_components_in_filename_are_matched() {
    assert!(is_test_file("src/foo.test.ts"));
    assert!(is_test_file("src/foo.spec.js"));
    assert!(is_test_file("bar.test.rs"));
}

#[test]
fn test_stem_prefix_and_suffix_are_matched() {
    assert!(is_test_file("src/test_foo.py"));
    assert!(is_test_file("src/foo_test.rs"));
    assert!(is_test_file("test_bar.go"));
}

#[test]
fn path_separators_are_normalised() {
    // Windows-style backslashes should work too.
    assert!(is_test_file("tests\\foo.rs"));
    assert!(is_test_file("src\\module\\tests\\bar.rs"));
}

// --- rrf_fuse with penalty ---

#[test]
fn test_file_score_is_penalised() {
    // "prod" at rank 0 scores 1/61 ≈ 0.0164 — above RRF_MIN_SCORE.
    // "test_result" at rank 0 scores 1/61 × the penalty ≈ 0.0082 —
    // below RRF_MIN_SCORE, so it is filtered out entirely.
    let semantic = vec![make_result_at("prod", "src/lib.rs")];
    let text = vec![make_result_at("test_result", "tests/foo.rs")];
    let fused = rrf_fuse(vec![semantic, text], 10);

    assert_eq!(fused.len(), 1);
    assert_eq!(fused[0].chunk().id(), "prod");
}

#[test]
fn test_file_penalty_drops_weak_result() {
    // A single test-file result at rank 0: penalised score ≈ 0.0082 < RRF_MIN_SCORE.
    // It should be filtered out entirely.
    let fused = rrf_fuse(vec![vec![make_result_at("x", "tests/foo.rs")]], 10);
    assert!(fused.is_empty());
}

#[test]
fn test_file_in_both_lists_score_is_additive_then_penalized() {
    // Same test-file result at rank 0 in both legs:
    // raw score = 2 × 1/(RRF_K + 1), then multiplied by the penalty.
    let fused = rrf_fuse(
        vec![
            vec![make_result_at("x", "tests/foo.rs")],
            vec![make_result_at("x", "tests/foo.rs")],
        ],
        10,
    );
    assert_eq!(fused.len(), 1);
    let expected = 2 * (SCORE_ONE / (RRF_K + 1)) / TEST_FILE_DIVISOR;
    assert_eq!(fused[0].score(), expected as i128);
}

#[test]
fn empty_inputs_return_empty() {
    assert!(rrf_fuse(vec![], 10).is_empty());
}

#[test]
fn semantic_only_results_sorted_by_rank() {
    // Item at rank 0 (first) should receive a higher RRF score than rank 1.
    let semantic = vec![make_result("top"), make_result("bottom")];
    let fused = rrf_fuse(vec![semantic], 10);
    assert_eq!(fused.len(), 2);
    assert!(fused[0].score() > fused[1].score());
    assert_eq!(fused[0].chunk().id(), "top");
}

#[test]
fn item_in_both_lists_outranks_item_in_one_list() {
    // "shared" appears at rank 0 in both legs; "only_semantic" is in semantic only.
    // Fused score of "shared" must exceed that of "only_semantic".
    let semantic = vec![make_result("shared"), make_result("only_semantic")];
    let text = vec![make_result("shared"), make_result("only_text")];
    let fused = rrf_fuse(vec![semantic, text], 10);
    assert_eq!(fused[0].chunk().id(), "shared");
}

#[test]
fn limit_truncates_output() {
    let semantic: Vec<_> = (0..10).map(|i| make_result(&format!("item{i}"))).collect();
    let fused = rrf_fuse(vec![semantic], 3);
    assert_eq!(fused.len(), 3);
}

#[test]
fn limit_zero_returns_empty() {
    let semantic = vec![make_result("x")];
    assert!(rrf_fuse(vec![semantic], 0).is_empty());
}

#[test]
fn single_item_score_matches_rrf_formula() {
    // Rank 0 → 1-based rank 1 → score = 1 / (RRF_K + 1)
    let fused = rrf_fuse(vec![vec![make_result("x")]], 10);
    let expected = SCORE_ONE / (RRF_K + 1);
    assert_eq!(fused[0].score(), expected as i128);
}

#[test]
fn item_in_both_lists_score_is_additive() {
    // Same item at rank 0 in both legs: score = 2 × 1/(RRF_K + 1)
    let fused = rrf_fuse(vec![vec![make_result("x")], vec![make_result("x")]], 10);
    assert_eq!(fused.len(), 1);
    let expected = 2 * (SCORE_ONE / (RRF_K + 1));
    assert_eq!(fused[0].score(), expected as i128);
}

#[test]
fn text_only_results_sorted_by_rank() {
    let text = vec![make_result("first"), make_result("second")];
    let fused = rrf_fuse(vec![text], 10);
    assert_eq!(fused.len(), 2);
    assert!(fused[0].score() > fused[1].score());
    assert_eq!(fused[0].chunk().id(), "first");
}
