use degit_rs::entry_destination;

#[test]
fn root_component_stripped() {
    assert_eq!(
        entry_destination("repo-abc123/src/main.rs", &None),
        Some("src/main.rs".to_string())
    );
    assert_eq!(
        entry_destination("repo-abc123/README.md", &None),
        Some("README.md".to_string())
    );
}

#[test]
fn root_only_entry_maps_to_destination_itself() {
    assert_eq!(entry_destination("repo-abc123/", &None), Some("".to_string()));
    assert_eq!(entry_destination("repo-abc123", &None), Some("".to_string()));
}

#[test]
fn subdir_filter_keeps_and_strips() {
    let sub = Some("sub".to_string());
    assert_eq!(
        entry_destination("root/sub/file.txt", &sub),
        Some("file.txt".to_string())
    );
    assert_eq!(
        entry_destination("root/sub/nested/file.txt", &sub),
        Some("nested/file.txt".to_string())
    );
    assert_eq!(entry_destination("root/other/file.txt", &sub), None);
    assert_eq!(entry_destination("root/README.md", &sub), None);
}

#[test]
fn multi_segment_subdir_filter() {
    let sub = Some("a/b".to_string());
    assert_eq!(
        entry_destination("root/a/b/c.txt", &sub),
        Some("c.txt".to_string())
    );
    assert_eq!(entry_destination("root/a/c.txt", &sub), None);
    assert_eq!(entry_destination("root/a", &sub), None);
}

#[test]
fn degenerate_paths_skipped() {
    assert_eq!(entry_destination("", &None), None);
    assert_eq!(entry_destination("/", &None), None);
    assert_eq!(entry_destination(".", &None), None);
}

#[test]
fn current_dir_components_ignored() {
    assert_eq!(
        entry_destination("./root/sub/file.txt", &None),
        Some("sub/file.txt".to_string())
    );
    assert_eq!(
        entry_destination("root//sub/file.txt", &None),
        Some("sub/file.txt".to_string())
    );
}
