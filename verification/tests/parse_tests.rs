use degit_rs::{parse, validate_src, Host, Repo};

#[test]
fn branch() {
    let repo = Repo {
        host: Host::GitHub,
        owner: "zachfedor".to_string(),
        name: "degit-rs-test-repo".to_string(),
        subdir: None,
        gitref: Some("dev".to_string()),
    };
    assert_eq!(parse("zachfedor/degit-rs-test-repo#dev").unwrap(), repo);
}

#[test]
fn tag() {
    let repo = Repo {
        host: Host::GitHub,
        owner: "zachfedor".to_string(),
        name: "degit-rs-test-repo".to_string(),
        subdir: None,
        gitref: Some("v0.0.1".to_string()),
    };
    assert_eq!(parse("zachfedor/degit-rs-test-repo#v0.0.1").unwrap(), repo);
}

#[test]
fn commit() {
    let repo = Repo {
        host: Host::GitHub,
        owner: "zachfedor".to_string(),
        name: "degit-rs-test-repo".to_string(),
        subdir: None,
        gitref: Some("d75ef1c".to_string()),
    };
    assert_eq!(parse("zachfedor/degit-rs-test-repo#d75ef1c").unwrap(), repo);
}

#[test]
fn subdir() {
    let repo = Repo {
        host: Host::GitHub,
        owner: "zachfedor".to_string(),
        name: "degit-rs-test-repo".to_string(),
        subdir: Some("subdir".to_string()),
        gitref: None,
    };
    assert_eq!(parse("zachfedor/degit-rs-test-repo/subdir").unwrap(), repo);
}

#[test]
fn subdir_and_gitref() {
    let repo = Repo {
        host: Host::GitHub,
        owner: "zachfedor".to_string(),
        name: "degit-rs-test-repo".to_string(),
        subdir: Some("subdir".to_string()),
        gitref: Some("dev".to_string()),
    };
    assert_eq!(
        parse("zachfedor/degit-rs-test-repo/subdir#dev").unwrap(),
        repo
    );
}

#[test]
fn github() {
    let repo = Repo {
        host: Host::GitHub,
        owner: "octocat".to_string(),
        name: "Spoon-Knife".to_string(),
        subdir: None,
        gitref: None,
    };

    assert_eq!(parse("octocat/Spoon-Knife").unwrap(), repo);
    assert_eq!(parse("github:octocat/Spoon-Knife").unwrap(), repo);
    assert_eq!(
        parse("https://github.com/octocat/Spoon-Knife.git").unwrap(),
        repo
    );
    assert_eq!(
        parse("git@github.com:octocat/Spoon-Knife.git").unwrap(),
        repo
    );
}

#[test]
fn bitbucket() {
    let repo = Repo {
        host: Host::BitBucket,
        owner: "Rich_Harris".to_string(),
        name: "degit-test-repo".to_string(),
        subdir: None,
        gitref: None,
    };

    assert_eq!(
        parse("https://bitbucket.org/Rich_Harris/degit-test-repo.git").unwrap(),
        repo
    );
    assert_eq!(
        parse("git@bitbucket.org:Rich_Harris/degit-test-repo.git").unwrap(),
        repo
    );
    assert_eq!(
        parse("bitbucket:Rich_Harris/degit-test-repo").unwrap(),
        repo
    );
}

#[test]
fn gitlab() {
    let repo = Repo {
        host: Host::GitLab("gitlab.com".to_string()),
        owner: "zachfedor".to_string(),
        name: "spoon-knife".to_string(),
        subdir: None,
        gitref: None,
    };

    assert_eq!(parse("gitlab:zachfedor/spoon-knife").unwrap(), repo);
    assert_eq!(
        parse("https://gitlab.com/zachfedor/spoon-knife.git").unwrap(),
        repo
    );
    assert_eq!(
        parse("git@gitlab.com:zachfedor/spoon-knife.git").unwrap(),
        repo
    );
}

#[test]
fn shorthand_prefixes() {
    let gh = parse("gh:octocat/Spoon-Knife").unwrap();
    assert_eq!(gh.host, Host::GitHub);
    let gl = parse("gl:owner/name").unwrap();
    assert_eq!(gl.host, Host::GitLab("gitlab.com".to_string()));
    let bb = parse("bb:owner/name").unwrap();
    assert_eq!(bb.host, Host::BitBucket);
    let other = parse("myhost:owner/name").unwrap();
    assert_eq!(other.host, Host::GitLab("myhost".to_string()));
}

#[test]
fn self_hosted_gitlab_domain() {
    let repo = parse("git.example.org/owner/name").unwrap();
    assert_eq!(repo.host, Host::GitLab("git.example.org".to_string()));
    assert_eq!(repo.owner, "owner");
    assert_eq!(repo.name, "name");

    let repo = parse("https://git.example.org/owner/name").unwrap();
    assert_eq!(repo.host, Host::GitLab("git.example.org".to_string()));

    let repo = parse("git@git.example.org:owner/name.git").unwrap();
    assert_eq!(repo.host, Host::GitLab("git.example.org".to_string()));
    assert_eq!(repo.name, "name");
}

#[test]
fn multi_segment_subdir() {
    let repo = parse("owner/name/a/b/c").unwrap();
    assert_eq!(repo.subdir, Some("a/b/c".to_string()));
    assert_eq!(repo.gitref, None);

    let repo = parse("owner/name/subdir#ref").unwrap();
    assert_eq!(repo.subdir, Some("subdir".to_string()));
    assert_eq!(repo.gitref, Some("ref".to_string()));
}

#[test]
fn trailing_slash_tolerated() {
    let repo = parse("owner/name/").unwrap();
    assert_eq!(repo.name, "name");
    assert_eq!(repo.subdir, None);

    let repo = parse("owner/name/sub/").unwrap();
    assert_eq!(repo.subdir, Some("sub".to_string()));
}

#[test]
fn git_suffix_stripped() {
    assert_eq!(parse("owner/name.git").unwrap().name, "name");
    assert_eq!(parse("github:owner/name.git").unwrap().name, "name");
    assert_eq!(parse("https://github.com/owner/name.git").unwrap().name, "name");
    assert_eq!(parse("git@github.com:owner/name.git").unwrap().name, "name");
    assert_eq!(parse("owner/name.git#v1").unwrap().name, "name");
    assert_eq!(parse("owner/name.git/sub").unwrap().name, "name");
    assert_eq!(parse("owner/name.git.git").unwrap().name, "name");
}

#[test]
fn malformed_sources_rejected() {
    assert!(parse("").is_err());
    assert!(parse("justonename").is_err());
    assert!(parse("owner/name#a#b").is_err());
    assert!(parse("owner/name#").is_err());
    assert!(parse("owner/name extra").is_err());
    assert!(parse("owner//name").is_err());
    assert!(parse("/name").is_err());
    assert!(parse(":owner/name").is_err());
}

#[test]
fn validate_src_reports_input() {
    assert_eq!(validate_src("octocat/Spoon-Knife".to_string()), Ok(()));
    assert_eq!(
        validate_src("###".to_string()),
        Err("Could not parse src: ###".to_string())
    );
}

#[test]
fn urls_built_per_host() {
    let gh = parse("octocat/Spoon-Knife").unwrap();
    assert_eq!(gh.url(), "https://github.com/octocat/Spoon-Knife");
    assert_eq!(
        gh.archive_url("abc123"),
        "https://github.com/octocat/Spoon-Knife/archive/abc123.tar.gz"
    );

    let gl = parse("gitlab:owner/name").unwrap();
    assert_eq!(gl.url(), "https://gitlab.com/owner/name");
    assert_eq!(
        gl.archive_url("abc123"),
        "https://gitlab.com/owner/name/-/archive/abc123/name-abc123.tar.gz"
    );

    let bb = parse("bitbucket:owner/name").unwrap();
    assert_eq!(bb.url(), "https://bitbucket.org/owner/name");
    assert_eq!(
        bb.archive_url("abc123"),
        "https://bitbucket.org/owner/name/get/abc123.tar.gz"
    );
}

#[test]
fn describe_mentions_all_parts() {
    let repo = parse("owner/name/sub#dev").unwrap();
    assert_eq!(repo.describe(), "owner/name/sub#dev from GitHub");
    let repo = parse("gitlab:owner/name").unwrap();
    assert_eq!(repo.describe(), "owner/name from GitLab");
}
