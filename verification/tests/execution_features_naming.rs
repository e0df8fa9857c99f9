use codesearch::execution_features_naming::short_name;

#[test]
fn plain_method_is_qualified_with_class() {
    assert_eq!(
        short_name("RemoteNetwork#getIpMac"),
        "RemoteNetwork.getIpMac"
    );
    assert_eq!(
        short_name("WebsocketChannel#addMembership"),
        "WebsocketChannel.addMembership"
    );
}

#[test]
fn accessor_descriptors_resolve_to_the_member() {
    // Regression: `<get>`/`<set>` prefixes previously collapsed the name to
    // an empty string because the generic-suffix strip split on the leading
    // `<`.
    assert_eq!(
        short_name("NoCertificateAuthority#<get>crypto"),
        "NoCertificateAuthority.crypto"
    );
    assert_eq!(
        short_name("DummyScanner#<get>targetCriteriaProviders"),
        "DummyScanner.targetCriteriaProviders"
    );
    assert_eq!(short_name("Config#<set>timeout"), "Config.timeout");
}

#[test]
fn constructor_is_labelled_by_its_class() {
    assert_eq!(short_name("Producer#<constructor>"), "Producer");
    assert_eq!(
        short_name("SchedulerController#<constructor>"),
        "SchedulerController"
    );
}

#[test]
fn bare_top_level_function_keeps_its_name() {
    assert_eq!(short_name("controllerRouter"), "controllerRouter");
    assert_eq!(short_name("parseCorrelationData"), "parseCorrelationData");
}

#[test]
fn generic_suffixes_are_stripped_but_leading_descriptors_are_not() {
    assert_eq!(short_name("Repo#findAll<T>"), "Repo.findAll");
    assert_eq!(short_name("run()"), "run");
}

#[test]
fn scip_path_prefixed_and_namespaced_symbols_reduce_to_leaf() {
    // SCIP `path Package#Method` shape: only the symbol after the space matters.
    assert_eq!(
        short_name("src/net.ts `net`/RemoteNetwork#getIpMac"),
        "RemoteNetwork.getIpMac"
    );
    // `::`/`.`-qualified class names reduce to their leaf.
    assert_eq!(
        short_name("crate::net::RemoteNetwork#getIpMac"),
        "RemoteNetwork.getIpMac"
    );
}
