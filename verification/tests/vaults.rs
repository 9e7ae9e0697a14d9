//! Registered vaults.

use locus::config::StorageMode;
use locus::keymap::KeyMap;
use locus::vaults::{
    default_config_dir, register_vault, remove_vault, resolve_vault, vault_hash, BiemConfig,
    ConfigError, VaultEntry,
};

const DIR: &str = "/home/me/.biem";

#[test]
fn test_vault_hash_deterministic() {
    let h1 = vault_hash("/foo/bar");
    let h2 = vault_hash("/foo/bar");
    assert_eq!(h1, h2);
    assert_eq!(h1.len(), 12);
}

#[test]
fn test_vault_hash_different_paths() {
    let h1 = vault_hash("/foo/bar");
    let h2 = vault_hash("/foo/baz");
    assert_ne!(h1, h2);
}

#[test]
fn a_new_configuration_has_no_vaults() {
    assert_eq!(BiemConfig::default().vaults.len(), 0);
}

#[test]
fn test_register_vault_global() {
    let mut config = BiemConfig::default();
    let (name, entry) =
        register_vault("/v/notes", StorageMode::Global, DIR, &mut config).unwrap();
    assert!(!name.is_empty());
    assert_eq!(entry.storage, StorageMode::Global);
    assert_eq!(entry.data_dir, format!("/home/me/.biem/vaults/{}", vault_hash("/v/notes")));
}

#[test]
fn test_register_vault_local() {
    let mut config = BiemConfig::default();
    let (_name, entry) = register_vault("/v/notes", StorageMode::Local, DIR, &mut config).unwrap();
    assert_eq!(entry.storage, StorageMode::Local);
    assert_eq!(entry.data_dir, "/v/notes/.biem");
}

#[test]
fn registering_a_vault_twice_errors() {
    let mut config = BiemConfig::default();
    register_vault("/v/notes", StorageMode::Global, DIR, &mut config).unwrap();
    let err = register_vault("/v/notes", StorageMode::Global, DIR, &mut config).unwrap_err();
    assert!(matches!(err, ConfigError::VaultAlreadyRegistered(_)));
}

#[test]
fn test_resolve_vault() {
    let mut config = BiemConfig::default();
    let (_name, expected) =
        register_vault("/v/notes", StorageMode::Global, DIR, &mut config).unwrap();
    let resolved = resolve_vault("/v/notes", &config).unwrap();
    assert_eq!(resolved.data_dir, expected.data_dir);
}

#[test]
fn test_resolve_unknown_vault_errors() {
    let config = BiemConfig::default();
    let err = resolve_vault("/v/none", &config).unwrap_err();
    assert!(matches!(err, ConfigError::VaultNotFound(_)));
}

#[test]
fn test_remove_vault() {
    let mut config = BiemConfig::default();
    register_vault("/v/notes", StorageMode::Global, DIR, &mut config).unwrap();
    assert_eq!(config.vaults.len(), 1);
    remove_vault("/v/notes", &mut config).unwrap();
    assert_eq!(config.vaults.len(), 0);
    assert!(remove_vault("/v/notes", &mut config).is_err());
}

#[test]
fn vaults_of_the_same_name_get_different_ones() {
    let mut config = BiemConfig::default();
    let (n1, _) = register_vault("/a/my-vault", StorageMode::Global, DIR, &mut config).unwrap();
    let (n2, _) = register_vault("/b/my-vault", StorageMode::Global, DIR, &mut config).unwrap();
    assert_ne!(n1, n2);
    assert_eq!(config.vaults.len(), 2);
}

#[test]
fn vault_configuration_lies_below_the_home_directory() {
    assert_eq!(default_config_dir(Some("/home/me")).unwrap(), DIR);
    assert!(matches!(default_config_dir(None), Err(ConfigError::NoHomeDir)));
}

#[test]
fn vaults_are_found_by_their_path_alone() {
    let mut vaults = KeyMap::new();
    vaults.insert(
        "other-name".to_string(),
        VaultEntry {
            path: "/v/notes".into(),
            storage: StorageMode::Global,
            data_dir: "/d".into(),
        },
    );
    let config = BiemConfig { vaults };
    assert_eq!(resolve_vault("/v/notes", &config).unwrap().data_dir, "/d");
}
