use degit_rs::{get_hash, parse, parse_ref_line, parse_ref_listing, GitRef, RefError, RefType};

fn entry(kind: RefType, name: &str, hash: &str) -> GitRef {
    GitRef {
        ref_type: kind,
        name: name.to_string(),
        hash: hash.to_string(),
    }
}

fn sample_refs() -> Vec<GitRef> {
    vec![
        entry(RefType::Head, "HEAD", "aaaa111122223333aaaa111122223333aaaa1111"),
        entry(RefType::Branch, "main", "aaaa111122223333aaaa111122223333aaaa1111"),
        entry(RefType::Branch, "dev", "bbbb444455556666bbbb444455556666bbbb4444"),
        entry(RefType::Tag, "v0.0.1", "cccc777788889999cccc777788889999cccc7777"),
        entry(RefType::Tag, "v0.0.2", "dddd000011112222dddd000011112222dddd0000"),
    ]
}

fn with_gitref(gitref: Option<&str>) -> degit_rs::Repo {
    let mut repo = parse("owner/name").unwrap();
    repo.gitref = gitref.map(|g| g.to_string());
    repo
}

#[test]
fn ref_line_head() {
    let g = parse_ref_line("aaaa1111\tHEAD").unwrap();
    assert_eq!(
        g,
        entry(RefType::Head, "HEAD", "aaaa1111")
    );
}

#[test]
fn ref_line_branch_tag_other() {
    let g = parse_ref_line("aaaa1111\trefs/heads/main").unwrap();
    assert_eq!(g, entry(RefType::Branch, "main", "aaaa1111"));

    let g = parse_ref_line("bbbb2222\trefs/tags/v1.0").unwrap();
    assert_eq!(g, entry(RefType::Tag, "v1.0", "bbbb2222"));

    let g = parse_ref_line("cccc3333\trefs/pull/7/head").unwrap();
    assert_eq!(
        g,
        entry(RefType::Other("pull".to_string()), "7/head", "cccc3333")
    );
}

#[test]
fn ref_line_malformed() {
    assert!(parse_ref_line("no tab here").is_none());
    assert!(parse_ref_line("a\tb\tc").is_none());
    assert!(parse_ref_line("aaaa\tnot-a-ref-path").is_none());
    assert!(parse_ref_line("aaaa\trefs/he-ads/main").is_none());
    assert!(parse_ref_line("aaaa\trefs/heads/").is_none());
    assert!(parse_ref_line("aaaa\trefs/tags").is_none());
}

#[test]
fn ref_listing_parsed_in_order() {
    let text = "aaaa\tHEAD\nbbbb\trefs/heads/main\r\n\ncccc\trefs/tags/v1\n";
    let refs = parse_ref_listing(text).unwrap();
    assert_eq!(refs.len(), 3);
    assert_eq!(refs[0], entry(RefType::Head, "HEAD", "aaaa"));
    assert_eq!(refs[1], entry(RefType::Branch, "main", "bbbb"));
    assert_eq!(refs[2], entry(RefType::Tag, "v1", "cccc"));
}

#[test]
fn ref_listing_fails_on_one_bad_line() {
    let text = "aaaa\tHEAD\nnot a ref line\ncccc\trefs/tags/v1";
    assert_eq!(parse_ref_listing(text), Err(RefError::Malformed));
}

#[test]
fn resolve_no_ref_takes_head() {
    let refs = sample_refs();
    let repo = with_gitref(None);
    assert_eq!(
        get_hash(&repo, &refs).unwrap(),
        "aaaa111122223333aaaa111122223333aaaa1111"
    );
}

#[test]
fn resolve_literal_head() {
    let refs = sample_refs();
    let repo = with_gitref(Some("HEAD"));
    assert_eq!(
        get_hash(&repo, &refs).unwrap(),
        "aaaa111122223333aaaa111122223333aaaa1111"
    );
}

#[test]
fn resolve_branch_and_tag_names() {
    let refs = sample_refs();
    assert_eq!(
        get_hash(&with_gitref(Some("dev")), &refs).unwrap(),
        "bbbb444455556666bbbb444455556666bbbb4444"
    );
    assert_eq!(
        get_hash(&with_gitref(Some("v0.0.1")), &refs).unwrap(),
        "cccc777788889999cccc777788889999cccc7777"
    );
}

#[test]
fn resolve_hash_prefix() {
    let refs = sample_refs();
    assert_eq!(
        get_hash(&with_gitref(Some("dddd0000")), &refs).unwrap(),
        "dddd000011112222dddd000011112222dddd0000"
    );
}

#[test]
fn resolve_first_match_wins() {
    let refs = vec![
        entry(RefType::Branch, "one", "feed111122223333aaaa111122223333aaaa1111"),
        entry(RefType::Branch, "two", "feed444455556666bbbb444455556666bbbb4444"),
    ];
    assert_eq!(
        get_hash(&with_gitref(Some("feed")), &refs).unwrap(),
        "feed111122223333aaaa111122223333aaaa1111"
    );
}

#[test]
fn resolve_unmatched_fails() {
    let refs = sample_refs();
    assert_eq!(
        get_hash(&with_gitref(Some("no-such-ref")), &refs),
        Err(RefError::NotFound)
    );
}

#[test]
fn resolve_no_ref_without_head_fails() {
    let refs = vec![entry(
        RefType::Branch,
        "main",
        "aaaa111122223333aaaa111122223333aaaa1111",
    )];
    let repo = with_gitref(None);
    assert_eq!(get_hash(&repo, &refs), Err(RefError::NotFound));
}
