//! Path parsing, store-path validation, permission strings and the etc
//! engine's naming rules.

use system_manager::etc_dir;
use system_manager::etc_files::{
    cleanup_action, cleanup_counts_as_deleted, copy_entry_action, is_dependency_dir_name,
    link_entry_action, link_rel_target, parse_octal_mode, static_dir_name, CleanupAction,
    CopyAction, FsKind, LinkAction,
};
use system_manager::paths::{parse_abs_path, TreeError};
use system_manager::services::{systemd_dir_action, systemd_system_dir, SystemdDirAction};
use system_manager::store_path::{StorePath, StorePathError};

#[test]
fn parse_abs_path_accepts_normal_paths() {
    assert_eq!(parse_abs_path("/foo/bar").unwrap(), vec!["foo", "bar"]);
    assert_eq!(parse_abs_path("/").unwrap(), Vec::<String>::new());
    assert_eq!(parse_abs_path("/a//b/").unwrap(), vec!["a", "b"]);
}

#[test]
fn parse_abs_path_rejects_relative_and_dots() {
    assert_eq!(parse_abs_path("foo"), Err(TreeError::UnsupportedPathComponent));
    assert_eq!(parse_abs_path(""), Err(TreeError::UnsupportedPathComponent));
    assert_eq!(parse_abs_path("/a/./b"), Err(TreeError::UnsupportedPathComponent));
    assert_eq!(parse_abs_path("/a/../b"), Err(TreeError::UnsupportedPathComponent));
    assert_eq!(parse_abs_path("./a"), Err(TreeError::UnsupportedPathComponent));
}

#[test]
fn store_path_validation() {
    let ok = StorePath::try_new("/nix/store/abc-pkg".to_string()).unwrap();
    assert_eq!(ok.store_path, "/nix/store/abc-pkg");
    let root = StorePath::try_new("/nix/store".to_string()).unwrap();
    assert_eq!(root.store_path, "/nix/store");
    assert!(matches!(
        StorePath::try_new("/usr/lib".to_string()),
        Err(StorePathError::InvalidStorePath)
    ));
    assert!(matches!(
        StorePath::try_new("/nix/storeX/abc".to_string()),
        Err(StorePathError::InvalidStorePath)
    ));
}

#[test]
fn octal_modes() {
    assert_eq!(parse_octal_mode("0644"), Some(0o644));
    assert_eq!(parse_octal_mode("777"), Some(0o777));
    assert_eq!(parse_octal_mode("0"), Some(0));
    assert_eq!(parse_octal_mode(""), None);
    assert_eq!(parse_octal_mode("8"), None);
    assert_eq!(parse_octal_mode("06x4"), None);
    assert_eq!(parse_octal_mode("77777777777777"), None);
}

#[test]
fn etc_roots() {
    assert_eq!(etc_dir(false), "/etc");
    assert_eq!(etc_dir(true), "/run/etc");
    assert_eq!(systemd_system_dir(false), "/etc/systemd/system");
    assert_eq!(systemd_system_dir(true), "/run/systemd/system");
    assert_eq!(static_dir_name(), ".system-manager-static");
}

// Scenario: the on-disk target of a symlink entry.
#[test]
fn link_targets() {
    let target = vec!["zsh".to_string(), "zshrc".to_string()];
    assert_eq!(link_rel_target(&target), "../.system-manager-static/zsh/zshrc");
    let top = vec!["hostname".to_string()];
    assert_eq!(link_rel_target(&top), ".system-manager-static/hostname");
    let deep = vec!["a".to_string(), "b".to_string(), "c".to_string()];
    assert_eq!(link_rel_target(&deep), "../../.system-manager-static/a/b/c");
}

#[test]
fn dependency_dir_names() {
    assert!(is_dependency_dir_name(&"multi-user.target.wants".to_string()));
    assert!(is_dependency_dir_name(&"foo.requires".to_string()));
    assert!(!is_dependency_dir_name(&"foo.service".to_string()));
    assert!(!is_dependency_dir_name(&"wants".to_string()));
}

#[test]
fn link_entry_decisions() {
    // a dependency directory with a directory source is entered
    assert_eq!(
        link_entry_action(true, true, false, false, false, false, false),
        LinkAction::DescendIntoSource
    );
    // a dependency directory whose source is no directory fails the entry
    assert_eq!(
        link_entry_action(true, false, false, false, false, false, false),
        LinkAction::ConflictNotDirectory
    );
    // an unmanaged directory at the destination is entered too
    assert_eq!(
        link_entry_action(false, true, true, true, false, false, false),
        LinkAction::DescendIntoSource
    );
    // a symlink that already points at the wanted target is adopted
    assert_eq!(
        link_entry_action(false, false, true, false, true, true, true),
        LinkAction::AlreadyCorrect
    );
    // an unmanaged file is never overwritten
    assert_eq!(
        link_entry_action(false, false, true, false, false, false, false),
        LinkAction::SkipUnmanagedConflict
    );
    // a managed file is replaced
    assert_eq!(
        link_entry_action(false, false, true, false, true, false, true),
        LinkAction::ReplaceLink
    );
    // nothing there: create the link
    assert_eq!(
        link_entry_action(false, false, false, false, false, false, false),
        LinkAction::CreateLink
    );
}

#[test]
fn copy_entry_decisions() {
    assert_eq!(copy_entry_action(false, false), CopyAction::Copy);
    assert_eq!(copy_entry_action(true, true), CopyAction::Copy);
    assert_eq!(copy_entry_action(true, false), CopyAction::SkipUnmanagedConflict);
}

#[test]
fn cleanup_decisions() {
    assert_eq!(cleanup_action(FsKind::Missing, false), CleanupAction::AlreadyGone);
    assert_eq!(cleanup_action(FsKind::Symlink, false), CleanupAction::RemoveLink);
    assert_eq!(cleanup_action(FsKind::RegularFile, false), CleanupAction::RemoveFile);
    assert_eq!(cleanup_action(FsKind::Directory, true), CleanupAction::RemoveDir);
    assert_eq!(cleanup_action(FsKind::Directory, false), CleanupAction::LeaveNonEmpty);
    assert_eq!(cleanup_action(FsKind::Other, false), CleanupAction::Unsupported);

    assert!(cleanup_counts_as_deleted(CleanupAction::AlreadyGone, false));
    assert!(!cleanup_counts_as_deleted(CleanupAction::LeaveNonEmpty, true));
    assert!(!cleanup_counts_as_deleted(CleanupAction::Unsupported, true));
    assert!(cleanup_counts_as_deleted(CleanupAction::RemoveLink, true));
    assert!(!cleanup_counts_as_deleted(CleanupAction::RemoveFile, false));
}

#[test]
fn systemd_dir_decisions() {
    assert_eq!(
        systemd_dir_action(false, true, false, true, true),
        SystemdDirAction::Nothing
    );
    assert_eq!(
        systemd_dir_action(true, true, false, true, true),
        SystemdDirAction::FailNotEmpty
    );
    assert_eq!(
        systemd_dir_action(true, true, false, true, false),
        SystemdDirAction::RemoveDirThenLink
    );
    assert_eq!(
        systemd_dir_action(true, true, true, false, false),
        SystemdDirAction::RemoveFileThenLink
    );
    assert_eq!(
        systemd_dir_action(true, false, false, false, false),
        SystemdDirAction::CreateLink
    );
}
