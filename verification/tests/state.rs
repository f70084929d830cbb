use lockd::errors::CoreError;
use lockd::items::RawEntry;
use lockd::state::AppState;

fn note_entry(dir: &str, name: &str) -> RawEntry {
    RawEntry {
        name: name.to_string(),
        path: format!("{}/{}", dir, name),
        is_directory: false,
        children: None,
    }
}

#[test]
fn rename_keeps_the_id_and_updates_the_path() {
    let mut state = AppState::default();
    let (id, created) = state.open_dropped_note("a/b.lockd".to_string());
    assert!(created.is_some());
    state
        .update_note_path(id, None, "a/c.lockd".to_string(), "c.lockd".to_string())
        .unwrap();
    assert_eq!(state.get_path_from_id(id), Some("a/c.lockd".to_string()));
}

#[test]
fn rename_of_unknown_id_fails_with_not_found() {
    let mut state = AppState::default();
    let r = state.update_note_path(42, None, "x".to_string(), "x".to_string());
    assert_eq!(r, Err(CoreError::NotFound));
    assert_eq!(CoreError::NotFound.message(), "Note not found");
}

#[test]
fn open_is_idempotent() {
    let mut state = AppState::default();
    let (id1, created1) = state.open_dropped_note("w/n.lockd".to_string());
    let (id2, created2) = state.open_dropped_note("w/n.lockd".to_string());
    assert_eq!(id1, id2);
    assert!(created1.is_some());
    assert!(created2.is_none());
    assert_eq!(state.get_opened_items().len(), 1);
}

#[test]
fn open_folder_is_idempotent() {
    let mut state = AppState::default();
    let (id1, _) = state.open_folder("w".to_string(), "w".to_string(), Vec::new());
    let (id2, created2) = state.open_folder("w".to_string(), "w".to_string(), Vec::new());
    assert_eq!(id1, id2);
    assert!(created2.is_none());
    assert_eq!(state.get_opened_items().len(), 1);
}

#[test]
fn closing_a_folder_cascades_to_its_children() {
    let mut state = AppState::default();
    let entries = vec![note_entry("w", "a.lockd"), note_entry("w", "b.lockd")];
    let (folder_id, created) = state.open_folder("w".to_string(), "w".to_string(), entries);
    let folder = created.unwrap();
    let children = folder.children.as_ref().unwrap();
    assert_eq!(children.len(), 2);
    let child_ids: Vec<u64> = children.iter().map(|c| c.id).collect();
    for id in &child_ids {
        assert!(state.get_path_from_id(*id).is_some());
    }
    state.remove_opened_item(folder_id);
    for id in &child_ids {
        assert_eq!(state.get_path_from_id(*id), None);
    }
    assert_eq!(state.get_path_from_id(folder_id), None);
    assert!(state.get_opened_items().is_empty());
}

#[test]
fn closing_an_unknown_id_is_a_no_op() {
    let mut state = AppState::default();
    let (id, _) = state.open_dropped_note("w/n.lockd".to_string());
    state.remove_opened_item(id + 100);
    assert_eq!(state.get_opened_items().len(), 1);
    assert!(state.get_path_from_id(id).is_some());
}

#[test]
fn scan_sorts_directories_first_then_names() {
    let mut state = AppState::default();
    let entries = vec![
        note_entry("w", "zeta.lockd"),
        RawEntry {
            name: "beta".to_string(),
            path: "w/beta".to_string(),
            is_directory: true,
            children: Some(vec![note_entry("w/beta", "inner.lockd")]),
        },
        note_entry("w", "alpha.lockd"),
        RawEntry {
            name: "acorn".to_string(),
            path: "w/acorn".to_string(),
            is_directory: true,
            children: Some(Vec::new()),
        },
    ];
    let (_, created) = state.open_folder("w".to_string(), "w".to_string(), entries);
    let folder = created.unwrap();
    let children = folder.children.as_ref().unwrap();
    let names: Vec<&str> = children.iter().map(|c| c.name.as_str()).collect();
    assert_eq!(names, vec!["acorn", "beta", "alpha.lockd", "zeta.lockd"]);
    assert!(children[0].is_directory && children[1].is_directory);
    assert!(!children[2].is_directory && !children[3].is_directory);
    // the nested note was scanned, classified and linked to its parent
    let beta_children = children[1].children.as_ref().unwrap();
    assert_eq!(beta_children.len(), 1);
    assert!(beta_children[0].is_note);
    assert_eq!(beta_children[0].parent_id, Some(children[1].id));
}

#[test]
fn scan_marks_only_single_extension_lockd_files_as_notes() {
    let mut state = AppState::default();
    let entries = vec![
        note_entry("w", "note.lockd"),
        note_entry("w", "blob.txt.lockd"),
        note_entry("w", "plain.txt"),
    ];
    let (_, created) = state.open_folder("w".to_string(), "w".to_string(), entries);
    let folder = created.unwrap();
    let children = folder.children.as_ref().unwrap();
    let notes: Vec<(&str, bool)> =
        children.iter().map(|c| (c.name.as_str(), c.is_note)).collect();
    assert_eq!(
        notes,
        vec![("blob.txt.lockd", false), ("note.lockd", true), ("plain.txt", false)]
    );
}

#[test]
fn hidden_directories_are_not_descended_into() {
    let mut state = AppState::default();
    let entries = vec![RawEntry {
        name: ".lockd".to_string(),
        path: "w/.lockd".to_string(),
        is_directory: true,
        children: Some(vec![note_entry("w/.lockd", "internal.lockd")]),
    }];
    let (_, created) = state.open_folder("w".to_string(), "w".to_string(), entries);
    let folder = created.unwrap();
    let children = folder.children.as_ref().unwrap();
    assert_eq!(children.len(), 1);
    assert!(children[0].children.is_none());
}

#[test]
fn unreadable_directories_become_leaves() {
    let mut state = AppState::default();
    let entries = vec![RawEntry {
        name: "locked".to_string(),
        path: "w/locked".to_string(),
        is_directory: true,
        children: None,
    }];
    let (_, created) = state.open_folder("w".to_string(), "w".to_string(), entries);
    let folder = created.unwrap();
    let children = folder.children.as_ref().unwrap();
    assert!(children[0].is_directory);
    assert!(children[0].children.is_none());
}

#[test]
fn key_lifecycle_and_reset() {
    let mut state = AppState::default();
    assert!(!state.is_logged_in());
    assert_eq!(state.get_encryption_key(), Err(CoreError::NotAuthenticated));
    assert_eq!(CoreError::NotAuthenticated.message(), "Log in first");
    state.set_key([9u8; 32]);
    assert!(state.is_logged_in());
    assert_eq!(state.get_encryption_key(), Ok([9u8; 32]));
    let (id, _) = state.open_dropped_note("w/n.lockd".to_string());
    state.reset();
    assert!(!state.is_logged_in());
    assert!(state.get_opened_items().is_empty());
    assert_eq!(state.get_path_from_id(id), None);
}

#[test]
fn ids_are_not_reused_while_the_session_lives() {
    let mut state = AppState::default();
    let (id1, _) = state.open_dropped_note("w/a.lockd".to_string());
    state.remove_opened_item(id1);
    let (id2, _) = state.open_dropped_note("w/a.lockd".to_string());
    assert_ne!(id1, id2);
}

#[test]
fn frontend_snapshot_mirrors_the_tree_without_paths() {
    let mut state = AppState::default();
    let (id, _) = state.open_dropped_note("w/n.lockd".to_string());
    let items = state.get_opened_items();
    assert_eq!(items.len(), 1);
    assert_eq!(items[0].id, id);
    assert_eq!(items[0].parent_id, None);
    assert_eq!(items[0].name, "n.lockd");
    assert!(items[0].is_note);
    assert!(!items[0].is_directory);
    assert!(items[0].collapsed);
    assert!(items[0].children.is_none());
}

#[test]
fn find_item_locates_nested_nodes() {
    let mut state = AppState::default();
    let entries = vec![note_entry("w", "a.lockd")];
    let (folder_id, created) = state.open_folder("w".to_string(), "w".to_string(), entries);
    let folder = created.unwrap();
    let child_id = folder.children.as_ref().unwrap()[0].id;
    let found = state.get_item_from_id(child_id, Some(folder_id)).unwrap();
    assert_eq!(found.name, "a.lockd");
    assert!(state.get_item_from_id(child_id, None).is_none());
    assert!(state.get_item_from_id(9999, None).is_none());
}
