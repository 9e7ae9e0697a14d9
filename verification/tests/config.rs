//! Registered sources.

use locus::config::{
    config_file, default_config_dir, default_poll_interval_secs, derive_source_name,
    load_config_from, register_remote_source, register_source, register_vault,
    remove_remote_source, remove_source, remove_vault, resolve_source, resolve_vault, source_hash,
    unique_name, update_remote_last_poll, vault_hash, BiemConfig, ConfigError, RemoteSourceEntry,
    SourceEntry, SourceTypeConfig, StorageMode,
};
use locus::types::SourceType;

fn register(
    path: &str,
    kind: SourceType,
    storage: StorageMode,
    config: &mut BiemConfig,
) -> Result<(String, SourceEntry), ConfigError> {
    register_source(path, kind, storage, "/home/me/.locus", config)
}

fn remote(kind: &str) -> RemoteSourceEntry {
    RemoteSourceEntry {
        kind: kind.to_string(),
        data_dir: String::new(),
        last_poll: None,
        poll_interval_secs: default_poll_interval_secs(),
        base_url: None,
        username: None,
        spaces: None,
        projects: None,
        channel_ids: None,
        channel_names: None,
    }
}

#[test]
fn test_source_hash_deterministic() {
    let h1 = source_hash("/foo/bar");
    let h2 = source_hash("/foo/bar");
    assert_eq!(h1, h2);
    assert_eq!(h1.len(), 12);
}

#[test]
fn test_source_hash_different_paths() {
    let h1 = source_hash("/foo/bar");
    let h2 = source_hash("/foo/baz");
    assert_ne!(h1, h2);
}

#[test]
fn source_hash_is_the_head_of_the_digest() {
    let digest = blake3::hash(b"/foo/bar").to_hex().to_string();
    assert_eq!(source_hash("/foo/bar"), digest[..12]);
    assert_eq!(vault_hash("/foo/bar"), digest[..12]);
}

#[test]
fn config_test_load_missing_config_returns_default() {
    let config = load_config_from(None);
    assert_eq!(config.sources.len(), 0);
    assert_eq!(config.remote_sources.len(), 0);
}

#[test]
fn config_test_save_and_load_round_trip() {
    let mut config = BiemConfig::default();
    config.sources.insert(
        "test".into(),
        SourceEntry {
            path: "/tmp/vault".into(),
            source_type: SourceTypeConfig::Obsidian,
            storage: StorageMode::Global,
            data_dir: "/tmp/state".into(),
        },
    );
    let loaded = load_config_from(Some(config));
    assert_eq!(loaded.sources.len(), 1);
    let entry = loaded.sources.get("test").unwrap();
    assert_eq!(entry.path, "/tmp/vault");
    assert_eq!(entry.source_type.to_text(), "obsidian");
    assert_eq!(entry.storage, StorageMode::Global);
    assert_eq!(entry.data_dir, "/tmp/state");
}

#[test]
fn test_register_source_global() {
    let mut config = BiemConfig::default();
    let (name, entry) =
        register("/src/notes", SourceType::Obsidian, StorageMode::Global, &mut config).unwrap();
    assert!(!name.is_empty());
    assert_eq!(entry.storage, StorageMode::Global);
    assert!(entry.data_dir.starts_with("/home/me/.locus/sources/"));
    assert_eq!(entry.data_dir, "/home/me/.locus/sources/notes");
}

#[test]
fn test_register_source_local() {
    let mut config = BiemConfig::default();
    let (_name, entry) =
        register("/src/notes", SourceType::Obsidian, StorageMode::Local, &mut config).unwrap();
    assert_eq!(entry.storage, StorageMode::Local);
    assert_eq!(entry.data_dir, "/src/notes/.locus");
}

#[test]
fn config_test_register_duplicate_errors() {
    let mut config = BiemConfig::default();
    register("/src/notes", SourceType::Obsidian, StorageMode::Global, &mut config).unwrap();
    let err = register("/src/notes", SourceType::Obsidian, StorageMode::Global, &mut config)
        .unwrap_err();
    assert!(matches!(err, ConfigError::SourceAlreadyRegistered(_)));
    assert_eq!(err.message(), "source already registered as 'notes'");
}

#[test]
fn test_resolve_source() {
    let mut config = BiemConfig::default();
    let (_name, expected) =
        register("/src/notes", SourceType::Obsidian, StorageMode::Global, &mut config).unwrap();
    let resolved = resolve_source("/src/notes", &config).unwrap();
    assert_eq!(resolved.data_dir, expected.data_dir);
}

#[test]
fn test_resolve_unknown_source_errors() {
    let config = BiemConfig::default();
    let err = resolve_source("/src/unknown", &config).unwrap_err();
    assert!(matches!(err, ConfigError::SourceNotFound(_)));
    assert_eq!(err.message(), "source not registered: /src/unknown");
}

#[test]
fn test_remove_source() {
    let mut config = BiemConfig::default();
    register("/src/notes", SourceType::Obsidian, StorageMode::Global, &mut config).unwrap();
    assert_eq!(config.sources.len(), 1);
    assert_eq!(remove_source("/src/notes", &mut config).unwrap(), "notes");
    assert_eq!(config.sources.len(), 0);
    assert!(remove_source("/src/notes", &mut config).is_err());
}

#[test]
fn config_test_full_round_trip() {
    let mut config = BiemConfig::default();
    let (_, entry) =
        register("/src/notes", SourceType::Obsidian, StorageMode::Global, &mut config).unwrap();
    let loaded = load_config_from(Some(config));
    let resolved = resolve_source("/src/notes", &loaded).unwrap();
    assert_eq!(resolved.data_dir, entry.data_dir);
}

#[test]
fn config_test_unique_name_dedup() {
    let mut config = BiemConfig::default();
    let (n1, _) =
        register("/a/my-source", SourceType::Obsidian, StorageMode::Global, &mut config).unwrap();
    let (n2, _) =
        register("/b/my-source", SourceType::Obsidian, StorageMode::Global, &mut config).unwrap();
    assert_ne!(n1, n2);
    assert_eq!(n1, "my-source");
    assert_eq!(n2, "my-source-2");
    assert_eq!(config.sources.len(), 2);
    assert_eq!(unique_name("my-source", &config.sources), "my-source-3");
    assert_eq!(unique_name("other", &config.sources), "other");
}

#[test]
fn test_register_code_source() {
    let mut config = BiemConfig::default();
    let (_name, entry) =
        register("/src/code", SourceType::Code, StorageMode::Global, &mut config).unwrap();
    assert!(matches!(entry.source_type, SourceTypeConfig::Code));
}

#[test]
fn test_legacy_vaults_config_migration() {
    let mut stored = BiemConfig::default();
    stored.vaults_compat.insert(
        "old-vault".into(),
        SourceEntry {
            path: "/tmp/old-vault".into(),
            source_type: SourceTypeConfig::Obsidian,
            storage: StorageMode::Global,
            data_dir: "/tmp/state".into(),
        },
    );
    let config = load_config_from(Some(stored));
    assert!(config.sources.contains_key("old-vault"));
    assert_eq!(config.vaults_compat.len(), 0);
}

#[test]
fn a_newer_entry_outlives_migration() {
    let entry = |path: &str| SourceEntry {
        path: path.to_string(),
        source_type: SourceTypeConfig::Obsidian,
        storage: StorageMode::Global,
        data_dir: "/d".into(),
    };
    let mut stored = BiemConfig::default();
    stored.sources.insert("n".into(), entry("/new"));
    stored.vaults_compat.insert("n".into(), entry("/old"));
    let config = load_config_from(Some(stored));
    assert_eq!(config.sources.get("n").unwrap().path, "/new");
}

#[test]
fn source_types_read_as_they_are_written() {
    for (t, s) in [
        (SourceTypeConfig::Obsidian, "obsidian"),
        (SourceTypeConfig::Code, "code"),
        (SourceTypeConfig::Custom("wiki".into()), "wiki"),
    ] {
        assert_eq!(t.to_text(), s);
        assert_eq!(SourceTypeConfig::from_text(s).to_text(), s);
        assert_eq!(SourceTypeConfig::from(SourceType::from(t.clone())).to_text(), s);
    }
}

#[test]
fn configuration_lies_below_the_home_directory() {
    assert_eq!(default_config_dir(Some("/home/me")).unwrap(), "/home/me/.locus");
    assert!(matches!(default_config_dir(None), Err(ConfigError::NoHomeDir)));
    assert_eq!(config_file("/home/me/.locus"), "/home/me/.locus/config.toml");
    assert_eq!(ConfigError::NoHomeDir.message(), "home directory not found");
    assert_eq!(ConfigError::Io("x".into()).message(), "config file I/O: x");
    assert_eq!(ConfigError::TomlRead("x".into()).message(), "TOML parse error: x");
    assert_eq!(ConfigError::TomlWrite("x".into()).message(), "TOML serialization error: x");
}

#[test]
fn names_come_from_the_last_component() {
    assert_eq!(derive_source_name("/a/b/notes"), "notes");
}

#[test]
fn remote_sources_are_registered_polled_and_removed() {
    let mut config = BiemConfig::default();
    register_remote_source("wiki", remote("confluence"), "/home/me/.locus", &mut config).unwrap();
    assert_eq!(config.remote_sources.get("wiki").unwrap().kind(), "confluence");
    let again = register_remote_source("wiki", remote("jira"), "/home/me/.locus", &mut config);
    assert!(matches!(again, Err(ConfigError::SourceAlreadyRegistered(_))));
    update_remote_last_poll("wiki", 1_700_000_000, &mut config).unwrap();
    assert_eq!(config.remote_sources.get("wiki").unwrap().last_poll, Some(1_700_000_000));
    assert!(update_remote_last_poll("none", 1, &mut config).is_err());
    remove_remote_source("wiki", &mut config).unwrap();
    assert!(matches!(
        remove_remote_source("wiki", &mut config),
        Err(ConfigError::SourceNotFound(_))
    ));
}

#[test]
fn vaults_are_sources_of_notes() {
    let mut config = BiemConfig::default();
    let (name, _) =
        register_vault("/v/notes", StorageMode::Global, "/home/me/.locus", &mut config).unwrap();
    let entry = resolve_vault("/v/notes", &config).unwrap();
    assert!(matches!(entry.source_type, SourceTypeConfig::Obsidian));
    assert_eq!(remove_vault("/v/notes", &mut config).unwrap(), name);
}

#[test]
fn source_hashes_are_hexadecimal() {
    for path in ["/foo/bar", "/", "/caf\u{e9}"] {
        let h = source_hash(path);
        assert_eq!(h.len(), 12);
        assert!(h.chars().all(|c| c.is_ascii_digit() || ('a'..='f').contains(&c)));
    }
}
