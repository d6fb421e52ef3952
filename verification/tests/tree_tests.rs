use miku_core::{
    create_file, delete_file, list_workspace_files, listing_admissible, DeleteKind, MikuError,
    RawEntry, WorkspaceFile,
};

fn file(name: &str) -> RawEntry {
    RawEntry::File { name: name.to_string() }
}

fn dir(name: &str, listing: Vec<RawEntry>) -> RawEntry {
    RawEntry::Dir { name: name.to_string(), listing: Some(listing) }
}

fn unreadable_dir(name: &str) -> RawEntry {
    RawEntry::Dir { name: name.to_string(), listing: None }
}

fn list(root: &str, entries: Vec<RawEntry>) -> Vec<WorkspaceFile> {
    list_workspace_files(root, true, Ok(entries)).unwrap()
}

#[test]
fn test_listing_sorts_directories_first_case_insensitive() {
    let entries = vec![
        file("b.md"),
        dir("Zeta", vec![file("inner.md")]),
        file("A.md"),
        dir("alpha", vec![file("inner.md")]),
    ];
    let files = list("/ws", entries);
    let names: Vec<&str> = files.iter().map(|f| f.name.as_str()).collect();
    assert_eq!(names, vec!["alpha", "Zeta", "A.md", "b.md"]);
    assert!(files[0].is_directory);
    assert!(files[1].is_directory);
    assert!(!files[2].is_directory);
    assert!(!files[3].is_directory);
}

#[test]
fn test_listing_prunes_empty_directories_below_root() {
    // A directory with nothing but an empty directory inside is itself
    // empty, so it vanishes from its parent's listing.
    let entries = vec![dir(
        "outer",
        vec![dir("sub", vec![dir("empty", vec![])]), file("keep.md")],
    )];
    let files = list("/ws", entries);
    assert_eq!(files.len(), 1);
    assert_eq!(files[0].name, "outer");
    let outer_children = files[0].children.as_ref().unwrap();
    let names: Vec<&str> = outer_children.iter().map(|f| f.name.as_str()).collect();
    assert_eq!(names, vec!["keep.md"]);
}

#[test]
fn test_listing_prunes_empty_and_unreadable_at_root() {
    // Empty and unreadable directories are pruned at every level, the
    // root's own listing included: a workspace of nothing but those
    // yields an empty listing, which still confirms the workspace is
    // valid.
    let entries = vec![dir("empty", vec![]), unreadable_dir("locked"), file("keep.md")];
    let files = list("/ws", entries);
    let names: Vec<&str> = files.iter().map(|f| f.name.as_str()).collect();
    assert_eq!(names, vec!["keep.md"]);
    let nothing = list("/ws", vec![dir("empty", vec![]), unreadable_dir("locked")]);
    assert!(nothing.is_empty());
    // No node ever carries an empty or absent children sequence.
    let deep = list("/ws", vec![dir("sub", vec![file("a.md"), dir("gone", vec![])])]);
    assert_eq!(deep.len(), 1);
    let sub_children = deep[0].children.as_ref().unwrap();
    assert_eq!(sub_children.len(), 1);
    assert_eq!(sub_children[0].name, "a.md");
}

#[test]
fn test_listing_skips_excluded_and_non_content() {
    let entries = vec![
        file("notes.md"),
        file("code.rs"),
        file("README.markdown"),
        file(".hidden.md"),
        dir("node_modules", vec![file("x.md")]),
        dir("target", vec![file("y.md")]),
        dir(".git", vec![file("z.md")]),
    ];
    let files = list("/ws", entries);
    let names: Vec<&str> = files.iter().map(|f| f.name.as_str()).collect();
    assert_eq!(names, vec!["notes.md", "README.markdown"]);
}

#[test]
fn test_listing_builds_paths_by_join() {
    let entries = vec![dir("docs", vec![file("guide.md")])];
    let files = list("/ws", entries);
    assert_eq!(files[0].path, "/ws/docs");
    assert_eq!(files[0].children.as_ref().unwrap()[0].path, "/ws/docs/guide.md");
}

#[test]
fn test_listing_missing_root_is_path_error() {
    let r = list_workspace_files("/nope", false, Ok(vec![]));
    match r {
        Err(MikuError::Path(m)) => assert_eq!(m, "Workspace path does not exist"),
        _ => panic!("expected a path error"),
    }
}

#[test]
fn test_listing_unreadable_root_is_io_error() {
    let r = list_workspace_files("/ws", true, Err("permission denied".to_string()));
    match r {
        Err(MikuError::Io(m)) => assert_eq!(m, "permission denied"),
        _ => panic!("expected an io error"),
    }
}

#[test]
fn test_create_then_list_round_trip() {
    // A granted create names dir/x.md, and a listing of raw entries that
    // then hold x.md shows the leaf at that very path.
    let created = create_file("/ws", "x.md", false).unwrap();
    assert_eq!(created, "/ws/x.md");
    let files = list("/ws", vec![file("x.md")]);
    assert_eq!(files.len(), 1);
    assert_eq!(files[0].name, "x.md");
    assert_eq!(files[0].path, created);
    assert!(!files[0].is_directory);
}

#[test]
fn test_delete_directory_then_list_drops_it() {
    // Deleting a directory with nested content is granted as a recursive
    // removal; the parent's next listing no longer holds it.
    let plan = delete_file(true, true);
    assert_eq!(plan.unwrap(), DeleteKind::Directory);
    let before = list("/ws", vec![dir("gone", vec![file("in.md")]), file("stay.md")]);
    assert_eq!(before.len(), 2);
    let after = list("/ws", vec![file("stay.md")]);
    let names: Vec<&str> = after.iter().map(|f| f.name.as_str()).collect();
    assert_eq!(names, vec!["stay.md"]);
}

#[test]
fn test_listing_admissible_checks_sibling_names() {
    let good = vec![file("a.md"), dir("a", vec![file("b.md")])];
    assert!(listing_admissible(&good));
    let dup = vec![file("a.md"), file("a.md")];
    assert!(!listing_admissible(&dup));
    let nested_dup = vec![dir("sub", vec![file("x.md"), dir("x.md", vec![])])];
    assert!(!listing_admissible(&nested_dup));
}

#[test]
fn test_listing_order_is_deterministic() {
    // Names that tie under case folding are ordered by their raw
    // characters, so the listing does not depend on enumeration order.
    let forward = list("/ws", vec![file("A.md"), file("a.md"), file("b.md")]);
    let backward = list("/ws", vec![file("b.md"), file("a.md"), file("A.md")]);
    let f: Vec<&str> = forward.iter().map(|x| x.name.as_str()).collect();
    let b: Vec<&str> = backward.iter().map(|x| x.name.as_str()).collect();
    assert_eq!(f, vec!["A.md", "a.md", "b.md"]);
    assert_eq!(f, b);
}
