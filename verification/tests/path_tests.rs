use miku_core::{get_file_name, get_parent_dir, is_excluded_entry, is_markdown_file, join_path};

#[test]
fn test_is_markdown_file() {
    assert!(is_markdown_file("/path/to/file.md"));
    assert!(is_markdown_file("/path/to/file.markdown"));
    assert!(is_markdown_file("/path/to/file.mdown"));
    assert!(is_markdown_file("file.MD"));
    assert!(!is_markdown_file("/path/to/file.txt"));
    assert!(!is_markdown_file("/path/to/file.rs"));
    assert!(!is_markdown_file("/path/to/file"));
}

#[test]
fn test_get_file_name() {
    assert_eq!(get_file_name("/path/to/file.md"), Some("file.md".to_string()));
    assert_eq!(get_file_name("file.md"), Some("file.md".to_string()));
    // Paths ending with / still get the last component on most systems
    assert_eq!(get_file_name("/path/to/"), Some("to".to_string()));
    // Root path returns None
    assert_eq!(get_file_name("/"), None);
}

#[test]
fn test_get_parent_dir() {
    assert_eq!(get_parent_dir("/path/to/file.md"), Some("/path/to".to_string()));
    assert_eq!(get_parent_dir("file.md"), Some("".to_string()));
}

#[test]
fn test_content_extension_cases() {
    // Mixed-case variants of the three content extensions are accepted.
    assert!(is_markdown_file("note.Markdown"));
    assert!(is_markdown_file("note.MDOWN"));
    assert!(is_markdown_file("note.mD"));
    // A bare hidden name has no extension at all.
    assert!(!is_markdown_file(".md"));
    // An empty extension is not a content extension.
    assert!(!is_markdown_file("note."));
    assert!(!is_markdown_file(""));
}

#[test]
fn test_parent_and_name_edges() {
    assert_eq!(get_parent_dir("/"), None);
    assert_eq!(get_parent_dir(""), None);
    assert_eq!(get_parent_dir("/a"), Some("/".to_string()));
    assert_eq!(get_file_name(""), None);
    assert_eq!(get_file_name(".."), None);
    assert_eq!(get_file_name("/a/.."), None);
    assert_eq!(get_file_name("a/."), Some("a".to_string()));
}

#[test]
fn test_join_path_forms() {
    assert_eq!(join_path("/ws", "x.md"), "/ws/x.md".to_string());
    assert_eq!(join_path("/ws/", "x.md"), "/ws/x.md".to_string());
    assert_eq!(join_path("", "x.md"), "x.md".to_string());
    // An absolute name replaces the base, as the platform join does.
    assert_eq!(join_path("/ws", "/abs/x.md"), "/abs/x.md".to_string());
}

#[test]
fn test_excluded_entries() {
    assert!(is_excluded_entry(".git"));
    assert!(is_excluded_entry(".hidden.md"));
    assert!(is_excluded_entry("node_modules"));
    assert!(is_excluded_entry("target"));
    assert!(!is_excluded_entry("src"));
    assert!(!is_excluded_entry("notes"));
    assert!(!is_excluded_entry("targets"));
}
