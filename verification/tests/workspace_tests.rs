use miku_core::{
    add_recent_file, create_folder, get_current_workspace, get_recent_workspaces,
    get_workspace_info, new_document, rename_file, set_workspace, Document, MikuError,
    ThemePreference, Workspace, WorkspaceConfig,
};

#[test]
fn test_default_document() {
    let doc = Document::default();
    assert!(doc.path.is_none());
    assert!(doc.content.is_empty());
    assert!(!doc.is_modified);
}

#[test]
fn test_new_document_command() {
    let doc = new_document();
    assert!(doc.path.is_none());
    assert!(doc.content.is_empty());
    assert!(!doc.is_modified);
}

#[test]
fn test_workspace_config_default() {
    let config = WorkspaceConfig::default();
    assert!(config.current_workspace.is_none());
    assert!(config.recent_workspaces.is_empty());
}

#[test]
fn test_theme_preference_default() {
    let theme = ThemePreference::default();
    assert_eq!(theme.selected, "system");
    assert_eq!(theme.light_fallback, "light");
    assert_eq!(theme.dark_fallback, "dark");
}

#[test]
fn test_workspace_info_name_derivation() {
    let ws = get_workspace_info("/home/user/notes".to_string());
    assert_eq!(ws.path, "/home/user/notes");
    assert_eq!(ws.name, "notes");
    // A path with no final segment falls back to the fixed label.
    let root = get_workspace_info("/".to_string());
    assert_eq!(root.path, "/");
    assert_eq!(root.name, "Workspace");
}

#[test]
fn test_set_workspace_caps_recent_at_ten() {
    let mut config = WorkspaceConfig::default();
    for i in 1..=11 {
        set_workspace(&mut config, format!("/p{}", i));
    }
    assert_eq!(config.recent_workspaces.len(), 10);
    assert_eq!(config.current_workspace.as_deref(), Some("/p11"));
    // Most recent first: /p11 down to /p2; /p1 fell off the end.
    for (k, ws) in config.recent_workspaces.iter().enumerate() {
        assert_eq!(ws.path, format!("/p{}", 11 - k));
    }
    // Re-selecting the second most recent moves it to the front without
    // growing the list.
    set_workspace(&mut config, "/p10".to_string());
    assert_eq!(config.recent_workspaces.len(), 10);
    assert_eq!(config.recent_workspaces[0].path, "/p10");
    assert_eq!(config.recent_workspaces[1].path, "/p11");
    assert_eq!(config.recent_workspaces[2].path, "/p9");
}

#[test]
fn test_recent_workspaces_filter_and_idempotence() {
    let mut config = WorkspaceConfig::default();
    set_workspace(&mut config, "/miku-definitely-not-a-real-path".to_string());
    set_workspace(&mut config, "/".to_string());
    let first = get_recent_workspaces(&config);
    let second = get_recent_workspaces(&config);
    // The stale entry is dropped from the result but stays in storage.
    assert_eq!(first.len(), 1);
    assert_eq!(first[0].path, "/");
    assert_eq!(config.recent_workspaces.len(), 2);
    // Two reads with no intervening mutation agree entirely.
    assert_eq!(first.len(), second.len());
    for k in 0..first.len() {
        assert_eq!(first[k].path, second[k].path);
        assert_eq!(first[k].name, second[k].name);
    }
}

#[test]
fn test_current_workspace_stale_pointer_is_none() {
    let mut config = WorkspaceConfig::default();
    assert!(get_current_workspace(&config).is_none());
    config.current_workspace = Some("/miku-definitely-not-a-real-path".to_string());
    assert!(get_current_workspace(&config).is_none());
    config.current_workspace = Some("/".to_string());
    let ws = get_current_workspace(&config).unwrap();
    assert_eq!(ws.path, "/");
    assert_eq!(ws.name, "Workspace");
}

#[test]
fn test_rename_conflict_is_refused() {
    let r = rename_file("/ws/old.md", "new.md", true, true);
    match r {
        Err(MikuError::Path(m)) => assert_eq!(m, "A file with that name already exists"),
        _ => panic!("expected a path error"),
    }
}

#[test]
fn test_rename_outcomes() {
    let ok = rename_file("/ws/old.md", "new.md", true, false).unwrap();
    assert_eq!(ok, "/ws/new.md");
    match rename_file("/ws/old.md", "new.md", false, false) {
        Err(MikuError::Path(m)) => assert_eq!(m, "Path does not exist"),
        _ => panic!("expected a path error"),
    }
    match rename_file("/", "new.md", true, false) {
        Err(MikuError::Path(m)) => assert_eq!(m, "Cannot determine parent directory"),
        _ => panic!("expected a path error"),
    }
}

#[test]
fn test_create_folder_conflict_is_refused() {
    assert_eq!(create_folder("/ws", "docs", false).unwrap(), "/ws/docs");
    match create_folder("/ws", "docs", true) {
        Err(MikuError::Path(m)) => assert_eq!(m, "Folder already exists"),
        _ => panic!("expected a path error"),
    }
}

#[test]
fn test_add_recent_file_discipline() {
    let mut files: Vec<String> = Vec::new();
    for i in 1..=11 {
        add_recent_file(&mut files, format!("/f{}.md", i));
    }
    assert_eq!(files.len(), 10);
    assert_eq!(files[0], "/f11.md");
    assert_eq!(files[9], "/f2.md");
    add_recent_file(&mut files, "/f5.md".to_string());
    assert_eq!(files.len(), 10);
    assert_eq!(files[0], "/f5.md");
    assert_eq!(files.iter().filter(|f| f.as_str() == "/f5.md").count(), 1);
}

#[test]
fn test_error_message_accessor() {
    let e = MikuError::Path("test error".to_string());
    assert_eq!(e.message(), "test error");
    let ws = Workspace { path: "/a".to_string(), name: "a".to_string() };
    assert_eq!(ws.path, "/a");
}
