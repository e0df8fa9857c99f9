use codesearch::symbol_index::{index_symbol, resolve_callee, SymbolIndex};

// All `fixture()` definitions live in the `lib` repo.
fn loc(file: &str) -> (String, String) {
    (file.to_string(), "lib".to_string())
}

fn resolved(callee: &str, index: &SymbolIndex) -> Option<(String, String)> {
    resolve_callee(callee, index).map(|s| (s.file, s.repo))
}

/// Build the index from a list of `(symbol, file, repo)` definition sites.
fn build(defs: &[(&str, &str, &str)]) -> SymbolIndex {
    let mut index = SymbolIndex::new();
    for (sym, file, repo) in defs {
        index_symbol(&mut index, sym.to_string(), file.to_string(), repo);
    }
    index
}

fn fixture() -> SymbolIndex {
    build(&[
        ("Order", "src/Models/Orders/Order.php", "lib"),
        ("GenericUtils", "GenericUtils.php", "lib"),
        // Defined once → resolvable, but the namespace check must still
        // reject a foreign caller (see the DeleteRequest tests below).
        ("DeleteRequest", "src/Consents/DeleteRequest.php", "lib"),
        // Same base name in several files → ambiguous, must never resolve.
        ("Invoice", "src/Models/Billing/Invoice.php", "lib"),
        ("Invoice", "src/Models/Archive/Invoice.php", "lib"),
    ])
}

#[test]
fn same_relative_path_in_two_repos_is_ambiguous() {
    // `test/Framework/Client.php` exists in both svc-a and svc-b. The bare
    // name `Client` must be flagged ambiguous, not silently bound to
    // whichever repo was indexed first.
    let index = build(&[
        ("Client", "test/Framework/Client.php", "svc-a"),
        ("Client", "test/Framework/Client.php", "svc-b"),
    ]);
    assert!(index.is_ambiguous("Client"));
}

#[test]
fn same_site_indexed_twice_is_not_ambiguous() {
    let index = build(&[("Utils", "Utils.php", "lib"), ("Utils", "Utils.php", "lib")]);
    assert!(!index.is_ambiguous("Utils"));
    let site = index.site("Utils").unwrap();
    assert_eq!((site.file.as_str(), site.repo.as_str()), ("Utils.php", "lib"));
}

#[test]
fn exact_bare_symbol_resolves() {
    let index = fixture();
    assert_eq!(
        resolved("GenericUtils", &index),
        Some(loc("GenericUtils.php"))
    );
}

#[test]
fn qualified_member_resolves_by_class_base_name() {
    let index = fixture();
    assert_eq!(
        resolved("App\\Models\\Orders\\Order#getTotal", &index),
        Some(loc("src/Models/Orders/Order.php"))
    );
}

#[test]
fn foreign_namespace_with_shared_base_name_is_rejected() {
    let index = fixture();
    // Caller's `Reports\DeleteRequest` must NOT resolve to the library's
    // `Consents/DeleteRequest.php` — parent segment `Reports` is absent.
    assert_eq!(
        resolved("App\\Reports\\DeleteRequest#create", &index),
        None
    );
}

#[test]
fn matching_namespace_with_shared_base_name_resolves() {
    let index = fixture();
    assert_eq!(
        resolved("App\\Consents\\DeleteRequest#create", &index),
        Some(loc("src/Consents/DeleteRequest.php"))
    );
}

#[test]
fn ambiguous_base_name_never_resolves() {
    let index = fixture();
    assert_eq!(
        resolved("App\\Models\\Billing\\Invoice#get", &index),
        None
    );
}

#[test]
fn unknown_callee_returns_none() {
    let index = fixture();
    assert_eq!(resolved("Nonexistent\\Thing#foo", &index), None);
}
