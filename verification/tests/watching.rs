//! What the watcher makes of raw changes.

use locus::types::ChangeKind;
use locus::watcher::{FsWatcher, FsWatcherConfig, Notice, RawChange, WatchError, WatchStep};

fn watcher(patterns: &[&str]) -> FsWatcher {
    let config = FsWatcherConfig {
        root: "/vault".to_string(),
        debounce_ms: 100,
        ignore_patterns: patterns.iter().map(|p| p.to_string()).collect(),
    };
    FsWatcher::new(config, None).unwrap()
}

fn change(path: &str, settled: bool, present: bool) -> RawChange {
    RawChange { path: path.to_string(), settled, present }
}

#[test]
fn test_default_config() {
    let config = FsWatcherConfig::default();
    assert_eq!(config.debounce_ms, 500);
    assert!(!config.ignore_patterns.is_empty());
}

#[test]
fn test_watcher_creation() {
    let config = FsWatcherConfig {
        root: "/vault".to_string(),
        debounce_ms: 100,
        ignore_patterns: vec![],
    };
    assert!(FsWatcher::new(config, Some("/real/vault".to_string())).is_ok());
}

#[test]
fn bad_patterns_are_refused() {
    let config = FsWatcherConfig {
        root: "/vault".to_string(),
        debounce_ms: 100,
        ignore_patterns: vec!["a[".to_string()],
    };
    match FsWatcher::new(config, None) {
        Err(WatchError::Watch(_)) => {}
        Err(e) => panic!("{}", e.message()),
        Ok(_) => panic!("accepted"),
    }
}

#[test]
fn test_stop_handle() {
    let w = watcher(&[]);
    assert!(matches!(w.step(true, &Notice::Timeout), WatchStep::Stop));
    assert!(matches!(w.step(false, &Notice::Timeout), WatchStep::Wait));
    assert!(matches!(w.step(false, &Notice::Disconnected), WatchStep::Stop));
    assert!(matches!(w.step(false, &Notice::Failed("x".into())), WatchStep::Wait));
}

#[test]
fn test_detects_file_creation() {
    let w = watcher(&[]);
    let events = w.events(&vec![change("/vault/test.md", true, true)]);
    assert_eq!(events.len(), 1);
    assert!(events[0].path.ends_with("test.md"));
    assert_eq!(events[0].kind, ChangeKind::Modified);
}

#[test]
fn test_detects_file_deletion() {
    let w = watcher(&[]);
    match w.step(false, &Notice::Changes(vec![change("/vault/to_delete.md", true, false)])) {
        WatchStep::Emit(events) => assert_eq!(events[0].kind, ChangeKind::Deleted),
        other => panic!("{other:?}"),
    }
}

#[test]
fn test_ignores_patterns() {
    let w = watcher(&[".obsidian/**"]);
    let events = w.events(&vec![
        change("/vault/.obsidian/workspace.json", true, true),
        change("/vault/note.md", true, true),
    ]);
    assert!(!events.is_empty());
    for event in &events {
        assert!(!event.path.contains(".obsidian"));
    }
    assert!(w.is_ignored("/vault/.obsidian/workspace.json"));
    assert!(!w.is_ignored("/vault/note.md"));
}

#[test]
fn unsettled_changes_wait() {
    let w = watcher(&[]);
    assert!(w.events(&vec![change("/vault/a.md", false, true)]).is_empty());
}

#[test]
fn patterns_are_judged_below_the_root() {
    let config = FsWatcherConfig {
        root: "/link".to_string(),
        debounce_ms: 7,
        ignore_patterns: vec![".git/**".to_string()],
    };
    let w = FsWatcher::new(config, Some("/real".to_string())).unwrap();
    assert_eq!(w.root_path(), "/real");
    assert_eq!(w.debounce_ms(), 7);
    assert!(w.is_ignored("/real/.git/HEAD"));
    assert!(!w.is_ignored("/real/src/git.rs"));
}

#[test]
fn watch_error_messages() {
    assert_eq!(WatchError::Watch("x".into()).message(), "watch error: x");
    assert_eq!(WatchError::Io("x".into()).message(), "IO error: x");
}
