use codesearch::git_remote::{
    choose_remote, derive_namespace, normalize_remote, parse_commondir, parse_gitdir,
    parse_remote_section, parse_remote_urls, remote_of_config,
};

#[test]
fn normalizes_scp_form() {
    assert_eq!(
        normalize_remote("git@github.com:owner/repo.git").as_deref(),
        Some("github.com/owner/repo")
    );
}

#[test]
fn normalizes_https_form() {
    assert_eq!(
        normalize_remote("https://github.com/owner/repo.git").as_deref(),
        Some("github.com/owner/repo")
    );
}

#[test]
fn normalizes_ssh_form_with_port() {
    assert_eq!(
        normalize_remote("ssh://git@github.com:22/owner/repo").as_deref(),
        Some("github.com/owner/repo")
    );
}

#[test]
fn normalizes_git_protocol() {
    assert_eq!(
        normalize_remote("git://github.com/owner/repo.git").as_deref(),
        Some("github.com/owner/repo")
    );
}

#[test]
fn lowercases_host_only() {
    assert_eq!(
        normalize_remote("git@GitHub.com:Owner/Repo.git").as_deref(),
        Some("github.com/Owner/Repo")
    );
}

#[test]
fn all_protocols_agree() {
    let forms = [
        "git@github.com:owner/repo.git",
        "https://github.com/owner/repo.git",
        "https://github.com/owner/repo",
        "ssh://git@github.com/owner/repo.git",
    ];
    let normalized: Vec<_> = forms.iter().filter_map(|f| normalize_remote(f)).collect();
    assert!(normalized.iter().all(|n| n == "github.com/owner/repo"));
    assert_eq!(normalized.len(), forms.len());
}

#[test]
fn empty_is_none() {
    assert_eq!(normalize_remote("   "), None);
}

#[test]
fn parses_origin_preferred_over_others() {
    let config = r#"
[core]
    bare = false
[remote "upstream"]
    url = https://github.com/upstream/repo.git
    fetch = +refs/heads/*:refs/remotes/upstream/*
[remote "origin"]
    url = git@github.com:owner/repo.git
    fetch = +refs/heads/*:refs/remotes/origin/*
[branch "main"]
    remote = origin
"#;
    let remotes = parse_remote_urls(config);
    assert_eq!(remotes.len(), 2);
    let origin = remotes.iter().find(|(n, _)| n == "origin").unwrap();
    assert_eq!(origin.1, "git@github.com:owner/repo.git");
    assert_eq!(choose_remote(&remotes), Some(&origin.1));
}

#[test]
fn ignores_non_remote_sections() {
    let config = "[remotefoo]\n    url = nope\n[core]\n    url = also-nope\n";
    assert!(parse_remote_urls(config).is_empty());
}

/// A configuration that declares remotes by name and URL.
fn config_with(remotes: &[(&str, &str)]) -> String {
    let mut config = String::from("[core]\n\trepositoryformatversion = 0\n");
    for (name, url) in remotes {
        config.push_str(&format!("[remote \"{name}\"]\n\turl = {url}\n"));
    }
    config
}

/// The namespace of a repository with that configuration in a directory.
fn namespace_of(config: &str, directory: &str) -> Option<String> {
    derive_namespace(remote_of_config(config).as_deref(), Some(directory))
}

#[test]
fn detect_remote_reads_repo_config() {
    assert_eq!(
        remote_of_config("[remote \"origin\"]\n\turl = git@github.com:owner/repo.git\n").as_deref(),
        Some("github.com/owner/repo")
    );
}

#[test]
fn derives_owner_and_repo_from_origin() {
    let config = config_with(&[("origin", "git@github.com:acme/widget.git")]);
    assert_eq!(namespace_of(&config, "d").as_deref(), Some("acme/widget"));
}

#[test]
fn host_is_dropped_so_clone_protocol_does_not_matter() {
    for url in [
        "git@github.com:acme/widget.git",
        "https://github.com/acme/widget.git",
        "ssh://git@github.com:22/acme/widget",
        "git://github.com/acme/widget.git",
    ] {
        let config = config_with(&[("origin", url)]);
        assert_eq!(namespace_of(&config, "d").as_deref(), Some("acme/widget"), "{url}");
    }
}

#[test]
fn derives_from_a_non_origin_remote_when_origin_is_absent() {
    let config = config_with(&[("upstream", "git@gitlab.com:team/svc.git")]);
    assert_eq!(namespace_of(&config, "d").as_deref(), Some("team/svc"));
}

#[test]
fn same_repo_name_under_different_owners_does_not_collide() {
    let a = config_with(&[("origin", "git@github.com:one/api.git")]);
    let b = config_with(&[("origin", "git@github.com:two/api.git")]);
    assert_ne!(namespace_of(&a, "d"), namespace_of(&b, "d"));
}

#[test]
fn falls_back_to_the_directory_basename_without_a_git_remote() {
    assert_eq!(
        derive_namespace(None, Some("standalone-project")).as_deref(),
        Some("standalone-project")
    );
}

#[test]
fn falls_back_to_the_basename_when_a_repo_has_no_remotes() {
    assert_eq!(namespace_of("[core]\n", "project").as_deref(), Some("project"));
    assert_eq!(derive_namespace(None, Some("")), None);
    assert_eq!(derive_namespace(None, None), None);
}

#[test]
fn remotes_without_a_path_or_host() {
    assert_eq!(normalize_remote("https://Example.com").as_deref(), Some("example.com"));
    assert_eq!(normalize_remote("https:///x/y.git/").as_deref(), Some("x/y"));
    assert_eq!(normalize_remote("://"), None);
    assert_eq!(derive_namespace(Some("example.com"), Some("dir")).as_deref(), Some("dir"));
}

#[test]
fn canonical_remotes_are_stable() {
    let once = normalize_remote("ssh://git@Host.org:2222/A/b.git").unwrap();
    assert_eq!(once, "host.org/A/b");
    assert_eq!(normalize_remote(&once).as_deref(), Some("host.org/A/b"));
}

#[test]
fn remotes_agree_however_they_are_written() {
    for raw in [
        "https://Host.org/A/b.git/",
        "https://Host.org//A/b//",
        "ssh://git@HOST.org:22/A/b.git",
        "Host.org/A/b",
        "HOST.ORG/A/b.git/",
        "git@Host.org/A/b",
        "Host.org:A/b.git/",
        "git@Host.org:/A/b",
    ] {
        assert_eq!(normalize_remote(raw).as_deref(), Some("host.org/A/b"), "{raw}");
        assert_eq!(derive_namespace(Some(raw), Some("dir")).as_deref(), Some("A/b"));
    }
    assert_eq!(
        normalize_remote("https://user@host/a@b.git").as_deref(),
        Some("host/a@b")
    );
}

#[test]
fn section_headers_name_remotes() {
    assert_eq!(parse_remote_section("[remote \"origin\"]").as_deref(), Some("origin"));
    assert_eq!(parse_remote_section("[ remote \" up \" ]").as_deref(), Some("up"));
    assert_eq!(parse_remote_section("[remote\"x\"]").as_deref(), Some("x"));
    assert_eq!(parse_remote_section("[remote]"), None);
    assert_eq!(parse_remote_section("[remote \"\"]"), None);
    assert_eq!(parse_remote_section("[branch \"main\"]"), None);
    assert_eq!(parse_remote_section("["), None);
    assert_eq!(parse_remote_section(""), None);
}

#[test]
fn url_keys_ignore_case() {
    let config = "[remote \"a\"]\nURL=one\n push = two\n[x]\nurl = three\n";
    assert_eq!(
        parse_remote_urls(config),
        vec![("a".to_string(), "one".to_string())]
    );
    assert_eq!(choose_remote(&[]), None);
}

#[test]
fn pointer_files_are_read() {
    assert_eq!(parse_gitdir("gitdir: ../.git/worktrees/x\n").as_deref(), Some("../.git/worktrees/x"));
    assert_eq!(parse_gitdir("gitdir:   "), None);
    assert_eq!(parse_gitdir("ref: x"), None);
    assert_eq!(parse_commondir(" ../..\n").as_deref(), Some("../.."));
    assert_eq!(parse_commondir("\n"), None);
}
