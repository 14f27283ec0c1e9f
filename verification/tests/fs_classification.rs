use config_watcher::backend::config_file_watcher::classify_fs_event;
use config_watcher::backend::config_file_watcher::match_path;
use config_watcher::backend::config_file_watcher::FsAction;
use config_watcher::backend::config_file_watcher::FsEvent;
use config_watcher::backend::config_file_watcher::FsEventKind;
use config_watcher::backend::lifecycle_step;
use config_watcher::backend::WatcherCommand;
use config_watcher::backend::WatcherState;

fn s(text: &str) -> String {
    text.to_string()
}

fn event(kind: FsEventKind, paths: &[&str]) -> FsEvent {
    FsEvent {
        kind,
        paths: paths.iter().map(|p| p.to_string()).collect(),
    }
}

#[test]
fn glob_pattern_filters_paths_relative_to_the_root() {
    let root = s("/etc/conf");
    let pattern = s("*.yaml");
    let yes = event(FsEventKind::CreateFile, &["/etc/conf/a.yaml"]);
    let no_ext = event(FsEventKind::CreateFile, &["/etc/conf/a.txt"]);
    let outside = event(FsEventKind::CreateFile, &["/var/log/a.yaml"]);
    assert!(match_path(&root, &pattern, &yes));
    assert!(!match_path(&root, &pattern, &no_ext));
    assert!(!match_path(&root, &pattern, &outside));
}

#[test]
fn nested_paths_match_with_default_glob_options() {
    // With the glob crate's default options a `*` is not stopped by a path
    // separator, so nested files match a flat pattern too.
    let root = s("/etc/conf");
    let nested = event(FsEventKind::CreateFile, &["/etc/conf/sub/a.yaml"]);
    assert!(match_path(&root, &s("*.yaml"), &nested));
    assert!(match_path(&root, &s("**/*.yaml"), &nested));
    assert!(!match_path(&root, &s("*.txt"), &nested));
}

#[test]
fn sibling_directory_extending_the_root_name_is_foreign() {
    let root = s("/etc/conf");
    let sibling = event(FsEventKind::CreateFile, &["/etc/confX/a.yaml"]);
    assert!(!match_path(&root, &s("*.yaml"), &sibling));
    // A root written with a trailing separator still matches its contents.
    let slash_root = s("/etc/conf/");
    let inside = event(FsEventKind::CreateFile, &["/etc/conf/a.yaml"]);
    assert!(match_path(&slash_root, &s("*.yaml"), &inside));
}

#[test]
fn any_matching_path_lets_the_event_through() {
    let root = s("/etc/conf");
    let pattern = s("*.yaml");
    let mixed = event(
        FsEventKind::RenameBoth,
        &["/etc/conf/a.txt", "/etc/conf/a.yaml"],
    );
    assert!(match_path(&root, &pattern, &mixed));
}

#[test]
fn invalid_pattern_matches_nothing() {
    let root = s("/etc/conf");
    let bad = s("[");
    let e = event(FsEventKind::CreateFile, &["/etc/conf/a.yaml"]);
    assert!(!match_path(&root, &bad, &e));
}

#[test]
fn create_modify_close_and_rename_to_upsert_the_first_path() {
    for kind in [
        FsEventKind::CreateFile,
        FsEventKind::DataModify,
        FsEventKind::CloseWrite,
        FsEventKind::RenameTo,
    ] {
        let action = classify_fs_event(&event(kind, &["/c/a.yaml"]));
        assert!(matches!(action, FsAction::Upsert(p) if p == "/c/a.yaml"));
    }
}

#[test]
fn remove_and_rename_from_drop_the_first_path() {
    for kind in [FsEventKind::RemoveFile, FsEventKind::RenameFrom] {
        let action = classify_fs_event(&event(kind, &["/c/a.yaml"]));
        assert!(matches!(action, FsAction::Remove(p) if p == "/c/a.yaml"));
    }
}

#[test]
fn rename_both_replaces_source_with_destination() {
    let action = classify_fs_event(&event(FsEventKind::RenameBoth, &["/c/old", "/c/new"]));
    assert!(matches!(action, FsAction::Replace(from, to) if from == "/c/old" && to == "/c/new"));
}

#[test]
fn other_kinds_and_missing_paths_are_ignored() {
    assert!(matches!(
        classify_fs_event(&event(FsEventKind::Other, &["/c/a.yaml"])),
        FsAction::Ignore
    ));
    assert!(matches!(
        classify_fs_event(&event(FsEventKind::CreateFile, &[])),
        FsAction::Ignore
    ));
    assert!(matches!(
        classify_fs_event(&event(FsEventKind::RenameBoth, &["/c/only-one"])),
        FsAction::Ignore
    ));
}

#[test]
fn stop_before_start_terminates_and_stays_terminal() {
    // A stop command received in the created state, before any start, ends
    // the task at once, and no later command revives it.
    let stopped = lifecycle_step(WatcherState::Created, WatcherCommand::Stop);
    assert_eq!(stopped, WatcherState::Stopped);
    assert_eq!(
        lifecycle_step(WatcherState::Stopped, WatcherCommand::Start),
        WatcherState::Stopped
    );
    assert_eq!(
        lifecycle_step(WatcherState::Stopped, WatcherCommand::Stop),
        WatcherState::Stopped
    );
}

#[test]
fn start_runs_and_is_idempotent_while_running() {
    let running = lifecycle_step(WatcherState::Created, WatcherCommand::Start);
    assert_eq!(running, WatcherState::Running);
    assert_eq!(
        lifecycle_step(WatcherState::Running, WatcherCommand::Start),
        WatcherState::Running
    );
    assert_eq!(
        lifecycle_step(WatcherState::Running, WatcherCommand::Stop),
        WatcherState::Stopped
    );
}
