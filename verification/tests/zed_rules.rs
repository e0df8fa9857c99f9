use codesearch::zed_rules::{
    install_rules, register_server, remove_block, rules_block, rules_message, server_message,
    uninstall_rules, unregister_server, upsert_block, RulesChange, Servers, RULES_END, RULES_START,
};

#[test]
fn upsert_then_remove_preserves_user_text() {
    let user = "# My rules\n\nBe concise.\n";
    let with_block = upsert_block(user, &rules_block());
    assert!(with_block.contains("# My rules"));
    assert!(with_block.contains("codesearch search"));

    // Re-upsert must not duplicate.
    let again = upsert_block(&with_block, &rules_block());
    assert_eq!(again.matches(RULES_START).count(), 1);

    let removed = remove_block(&again).unwrap();
    assert!(removed.contains("# My rules"));
    assert!(!removed.contains("codesearch search"));
}

#[test]
fn remove_block_none_when_absent() {
    assert!(remove_block("nothing here").is_none());
}

#[test]
fn block_stands_between_its_marks() {
    let block = rules_block();
    assert!(block.starts_with("<!-- codesearch:start -->\n## codesearch\n"));
    assert!(block.ends_with("when the index lacks the detail you need.\n<!-- codesearch:end -->"));
    assert_eq!(block.matches(RULES_END).count(), 1);
}

#[test]
fn upsert_twice_is_upsert_once() {
    for user in ["", "a\n\n\n", "# Rules\n\nText é —\n", "<!-- comment -->"] {
        let once = upsert_block(user, &rules_block());
        assert_eq!(upsert_block(&once, &rules_block()), once);
        assert_eq!(remove_block(&once).unwrap(), user.trim_end());
    }
}

#[test]
fn replacing_keeps_what_surrounds_the_block() {
    let old = "top\n\n<!-- codesearch:start -->\nold\n<!-- codesearch:end -->\n\nbottom\n";
    let new = upsert_block(old, &rules_block());
    assert_eq!(new, format!("top\n\n{}\n\nbottom\n", rules_block()));
    assert_eq!(remove_block(&new).unwrap(), "top\n\nbottom\n");
    assert_eq!(remove_block(old), remove_block(&new));
}

#[test]
fn uninstall_says_what_becomes_of_the_file() {
    assert!(matches!(uninstall_rules(None), RulesChange::NoFile));
    assert!(matches!(uninstall_rules(Some("x")), RulesChange::NoBlock));
    let alone = install_rules(None);
    assert_eq!(alone, format!("{}\n", rules_block()));
    assert!(matches!(uninstall_rules(Some(&alone)), RulesChange::Delete));
    let kept = install_rules(Some("mine"));
    match uninstall_rules(Some(&kept)) {
        RulesChange::Write(t) => assert_eq!(t, "mine"),
        other => panic!("{other:?}"),
    }
}

#[test]
fn rules_messages_name_the_path() {
    assert_eq!(
        rules_message(&RulesChange::NoFile, "p"),
        "no rules file at p (nothing to remove)"
    );
    assert_eq!(rules_message(&RulesChange::NoBlock, "p"), "no codesearch block in p");
    assert_eq!(rules_message(&RulesChange::Delete, "p"), "removed p");
    assert_eq!(
        rules_message(&RulesChange::Write(String::new()), "p"),
        "removed codesearch block from p"
    );
}

#[test]
fn servers_are_entered_and_taken_out() {
    let named = |names: &[&str]| Servers::Named(names.iter().map(|n| n.to_string()).collect());
    assert!(register_server(&Servers::Absent, "s").is_ok());
    assert!(register_server(&named(&["x"]), "s").is_ok());
    assert_eq!(
        register_server(&Servers::Malformed, "s"),
        Err("`context_servers` in s is not an object".to_string())
    );
    assert_eq!(unregister_server(&Servers::Absent), (false, false));
    assert_eq!(unregister_server(&Servers::Malformed), (false, false));
    assert_eq!(unregister_server(&named(&[])), (false, true));
    assert_eq!(unregister_server(&named(&["codesearch"])), (true, true));
    assert_eq!(unregister_server(&named(&["codesearch", "x"])), (true, false));
    assert_eq!(unregister_server(&named(&["x"])), (false, false));
    assert_eq!(
        server_message(true, "s"),
        "removed context_servers.codesearch from s"
    );
    assert_eq!(server_message(false, "s"), "no codesearch server in s");
}
