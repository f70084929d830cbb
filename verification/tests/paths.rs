use lockd::items::RawEntry;
use lockd::paths::{
    can_open_file, can_open_folder, can_open_path, classify_config, classify_path,
    decrypted_file_name, encrypted_file_name, is_note_file_name, is_rc_file,
    should_scan_children, ConfigKind, PathKind,
};

fn entry(name: &str, is_directory: bool) -> RawEntry {
    RawEntry {
        name: name.to_string(),
        path: format!("/w/{}", name),
        is_directory,
        children: None,
    }
}

#[test]
fn single_extension_lockd_file_is_a_note() {
    assert_eq!(classify_path("report.lockd", false, false), PathKind::EncryptedNote);
    assert!(can_open_file("report.lockd"));
    assert!(is_note_file_name("report.lockd"));
}

#[test]
fn double_extension_lockd_file_is_opaque() {
    assert_eq!(classify_path("report.txt.lockd", false, false), PathKind::OpaqueEncryptedFile);
    assert!(!can_open_file("report.txt.lockd"));
}

#[test]
fn plain_file_is_to_encrypt() {
    assert_eq!(classify_path("report.txt", false, false), PathKind::FileToEncrypt);
    assert_eq!(classify_path("README", false, false), PathKind::FileToEncrypt);
}

#[test]
fn directory_with_marker_is_a_workspace_folder() {
    assert_eq!(classify_path("/home/user/notes", true, true), PathKind::WorkspaceFolder);
}

#[test]
fn directory_without_marker_is_to_encrypt() {
    assert_eq!(classify_path("/home/user/notes", true, false), PathKind::FolderToEncrypt);
}

#[test]
fn classification_uses_only_the_final_path_component() {
    assert_eq!(classify_path("/a/b.txt/report.lockd", false, false), PathKind::EncryptedNote);
    assert!(can_open_file("/deep/dir/note.lockd"));
    assert!(!can_open_file("/deep/note.lockd/plain.txt"));
}

#[test]
fn hidden_lockd_name_is_not_a_note() {
    // ".lockd" has no stem, so it carries no extension at all
    assert!(!can_open_file(".lockd"));
    assert_eq!(classify_path(".lockd", false, false), PathKind::FileToEncrypt);
}

#[test]
fn marker_detection_scans_the_listing() {
    let with_marker = vec![entry("a.lockd", false), entry(".lockd", true)];
    let without_marker = vec![entry("a.lockd", false), entry(".lockd", false)];
    let empty: Vec<RawEntry> = Vec::new();
    assert!(can_open_folder(&with_marker));
    assert!(!can_open_folder(&without_marker));
    assert!(!can_open_folder(&empty));
}

#[test]
fn can_open_path_splits_on_directory() {
    assert!(can_open_path("/w", true, true));
    assert!(!can_open_path("/w", true, false));
    assert!(can_open_path("/w/x.lockd", false, false));
    assert!(!can_open_path("/w/x.txt", false, false));
}

#[test]
fn rc_and_config_files_are_recognised() {
    assert!(is_rc_file("init.lockdrc"));
    assert!(!is_rc_file("init.lockd"));
    assert_eq!(classify_config("init.lockdrc"), ConfigKind::RunCommands);
    assert_eq!(classify_config("app.lockdfg"), ConfigKind::Configuration);
    assert_eq!(classify_config("note.lockd"), ConfigKind::Other);
}

#[test]
fn encrypted_name_appends_the_reserved_extension() {
    assert_eq!(encrypted_file_name("report.txt"), "report.txt.lockd");
    assert_eq!(encrypted_file_name("folder"), "folder.lockd");
}

#[test]
fn decrypted_name_strips_one_extension() {
    assert_eq!(decrypted_file_name("report.txt.lockd"), "report.txt");
    assert_eq!(decrypted_file_name("report.lockd"), "report");
    assert_eq!(decrypted_file_name("plain"), "plain");
}

#[test]
fn scan_descends_only_into_visible_directories() {
    assert!(should_scan_children("docs", true));
    assert!(!should_scan_children(".lockd", true));
    assert!(!should_scan_children(".git", true));
    assert!(!should_scan_children("file.txt", false));
    assert!(should_scan_children("", true));
}
