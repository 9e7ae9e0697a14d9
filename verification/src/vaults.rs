//! Configuration of vaults: the older form of the configuration, which lives in
//! `~/.biem/config.toml` and knows vaults only. The state directory of a vault is named by the hash
//! of its path.

use vstd::prelude::*;

use crate::config;
use crate::config::StorageMode;
use crate::hash;
use crate::keymap;
use crate::keymap::KeyMap;
use crate::paths;
use crate::text;

verus! {

/// A registered vault.
#[derive(Debug)]
pub struct VaultEntry {
    /// Canonical absolute path of the vault.
    pub path: String,
    /// Where its state is stored.
    pub storage: StorageMode,
    /// The state directory.
    pub data_dir: String,
}

impl Clone for VaultEntry {
    fn clone(&self) -> (r: Self)
        ensures
            r == *self,
    {
        VaultEntry {
            path: self.path.clone(),
            storage: self.storage,
            data_dir: self.data_dir.clone(),
        }
    }
}

/// The configuration.
#[derive(Debug)]
pub struct BiemConfig {
    /// Vaults by name.
    pub vaults: KeyMap<VaultEntry>,
}

impl BiemConfig {
    /// What holds of a configuration.
    pub open spec fn wf(&self) -> bool {
        self.vaults.wf()
    }
}

impl Default for BiemConfig {
    fn default() -> (r: Self)
        ensures
            r.wf(),
            r.vaults@ == Map::<Seq<char>, VaultEntry>::empty(),
    {
        BiemConfig { vaults: KeyMap::new() }
    }
}

/// Errors of the configuration.
#[derive(Debug)]
pub enum ConfigError {
    Io(String),
    TomlRead(String),
    TomlWrite(String),
    NoHomeDir,
    VaultNotFound(String),
    VaultAlreadyRegistered(String),
}

impl ConfigError {
    /// The message of the error.
    pub fn message(&self) -> (r: String)
        ensures
            r@ == match self {
                ConfigError::Io(m) => "config file I/O: "@ + m@,
                ConfigError::TomlRead(m) => "TOML parse error: "@ + m@,
                ConfigError::TomlWrite(m) => "TOML serialization error: "@ + m@,
                ConfigError::NoHomeDir => "home directory not found"@,
                ConfigError::VaultNotFound(p) => "vault not registered: "@ + p@,
                ConfigError::VaultAlreadyRegistered(n) => "vault already registered as '"@ + n@
                    + "'"@,
            },
    {
        match self {
            ConfigError::Io(m) => text::concat("config file I/O: ", m.as_str()),
            ConfigError::TomlRead(m) => text::concat("TOML parse error: ", m.as_str()),
            ConfigError::TomlWrite(m) => text::concat("TOML serialization error: ", m.as_str()),
            ConfigError::NoHomeDir => "home directory not found".to_owned(),
            ConfigError::VaultNotFound(p) => text::concat("vault not registered: ", p.as_str()),
            ConfigError::VaultAlreadyRegistered(n) => {
                let a = text::concat("vault already registered as '", n.as_str());
                text::concat(a.as_str(), "'")
            },
        }
    }
}

/// The directory of the configuration below a home directory.
pub fn default_config_dir(home: Option<&str>) -> (r: Result<String, ConfigError>)
    ensures
        match (home, r) {
            (Some(h), Ok(d)) => d@ == paths::join_spec(h@, ".biem"@),
            (None, Err(e)) => e is NoHomeDir,
            _ => false,
        },
{
    match home {
        Some(h) => Ok(paths::join(h, ".biem")),
        None => Err(ConfigError::NoHomeDir),
    }
}

/// The short hash of a vault path, which names its state directory.
pub fn vault_hash(vault_path: &str) -> (r: String)
    ensures
        r@ == config::source_hash_spec(vault_path@),
        r@.len() == 12,
        forall|i: int| 0 <= i < r@.len() ==> hash::is_hex_digit(#[trigger] r@[i]),
{
    config::source_hash(vault_path)
}

/// Whether an entry is the first, in the order of names, with a path.
pub open spec fn is_entry_of(
    vaults: Map<Seq<char>, VaultEntry>,
    path: Seq<char>,
    name: Seq<char>,
) -> bool {
    &&& vaults.dom().contains(name)
    &&& config::same_path(vaults[name].path@, path)
    &&& forall|n: Seq<char>| #[trigger]
        vaults.dom().contains(n) && config::same_path(vaults[n].path@, path) ==> n == name
            || keymap::lex_lt(name, n)
}

/// Whether no entry has a path.
pub open spec fn is_unregistered(vaults: Map<Seq<char>, VaultEntry>, path: Seq<char>) -> bool {
    forall|n: Seq<char>| #[trigger]
        vaults.dom().contains(n) ==> !config::same_path(vaults[n].path@, path)
}

/// The position of the entry of a path.
fn find_entry(path: &str, vaults: &KeyMap<VaultEntry>) -> (r: Option<usize>)
    requires
        vaults.wf(),
    ensures
        match r {
            Some(i) => i < vaults.entries_spec().len() && is_entry_of(
                vaults@,
                path@,
                vaults.keys_spec()[i as int],
            ),
            None => is_unregistered(vaults@, path@),
        },
{
    let key = paths::normalize(path);
    let n = vaults.len();
    let ghost keys = vaults.keys_spec();
    let mut i: usize = 0;
    while i < n
        invariant
            vaults.wf(),
            key@ == paths::normal_spec(path@),
            keys == vaults.keys_spec(),
            n == vaults.entries_spec().len(),
            i <= n,
            forall|j: int|
                0 <= j < i ==> !config::same_path(vaults@[#[trigger] keys[j]].path@, path@),
        decreases n - i,
    {
        proof {
            vaults.lemma_keys();
            assert(vaults.entries_spec()[i as int].1 == vaults@[keys[i as int]]);
        }
        let own = paths::normalize(vaults.value_at(i).path.as_str());
        if text::str_eq(own.as_str(), key.as_str()) {
            proof {
                assert forall|m: Seq<char>| #[trigger]
                    vaults@.dom().contains(m) && config::same_path(vaults@[m].path@, path@)
                        implies m == keys[i as int] || keymap::lex_lt(keys[i as int], m) by {
                    assert(keys.contains(m));
                    let j = keys.index_of(m);
                    assert(keys[j] == m);
                    if j < i {
                        assert(!config::same_path(vaults@[keys[j]].path@, path@));
                    } else if j > i {
                        assert(keymap::lex_lt(keys[i as int], keys[j]));
                    }
                }
            }
            return Some(i);
        }
        i += 1;
    }
    proof {
        vaults.lemma_keys();
        assert forall|m: Seq<char>| #[trigger] vaults@.dom().contains(m) implies !config::same_path(
            vaults@[m].path@,
            path@,
        ) by {
            assert(keys.contains(m));
            let j = keys.index_of(m);
            assert(keys[j] == m);
        }
    }
    None
}

/// The state directory of a vault.
pub open spec fn data_dir_spec(storage: StorageMode, biem_dir: Seq<char>, path: Seq<char>) -> Seq<
    char,
> {
    match storage {
        StorageMode::Global => paths::join_spec(
            paths::join_spec(biem_dir, "vaults"@),
            config::source_hash_spec(path),
        ),
        StorageMode::Local => paths::join_spec(path, ".biem"@),
    }
}

/// Registers a vault, given by its canonical path, and returns its name and entry. The state
/// directory of the entry is to be created.
pub fn register_vault(
    vault_path: &str,
    storage: StorageMode,
    biem_dir: &str,
    config: &mut BiemConfig,
) -> (r: Result<(String, VaultEntry), ConfigError>)
    requires
        old(config).wf(),
    ensures
        final(config).wf(),
        match r {
            Ok((name, entry)) => {
                &&& is_unregistered(old(config).vaults@, vault_path@)
                &&& config::is_free_name(
                    config::source_name_spec(vault_path@),
                    old(config).vaults@.dom(),
                    name@,
                )
                &&& entry.path@ == vault_path@
                &&& entry.storage == storage
                &&& entry.data_dir@ == data_dir_spec(storage, biem_dir@, vault_path@)
                &&& final(config).vaults@ == old(config).vaults@.insert(name@, entry)
            },
            Err(ConfigError::VaultAlreadyRegistered(name)) => is_entry_of(
                old(config).vaults@,
                vault_path@,
                name@,
            ) && final(config).vaults == old(config).vaults,
            Err(_) => false,
        },
{
    if let Some(i) = find_entry(vault_path, &config.vaults) {
        proof {
            config.vaults.lemma_keys();
            assert(config.vaults.entries_spec()[i as int].0@
                == config.vaults.keys_spec()[i as int]);
        }
        return Err(ConfigError::VaultAlreadyRegistered(config.vaults.key_at(i).clone()));
    }
    let data_dir = match storage {
        StorageMode::Global => {
            let dir = paths::join(biem_dir, "vaults");
            let hash = vault_hash(vault_path);
            paths::join(dir.as_str(), hash.as_str())
        },
        StorageMode::Local => paths::join(vault_path, ".biem"),
    };
    let base = config::derive_source_name(vault_path);
    let name = config::unique_name(base.as_str(), &config.vaults);
    let entry = VaultEntry { path: vault_path.to_owned(), storage, data_dir };
    config.vaults.insert(name.clone(), entry.clone());
    Ok((name, entry))
}

/// The entry of a vault, given by its canonical path.
pub fn resolve_vault(vault_path: &str, config: &BiemConfig) -> (r: Result<VaultEntry, ConfigError>)
    requires
        config.wf(),
    ensures
        match r {
            Ok(e) => exists|name: Seq<char>| #[trigger]
                is_entry_of(config.vaults@, vault_path@, name) && e == config.vaults@[name],
            Err(ConfigError::VaultNotFound(p)) => p@ == vault_path@ && is_unregistered(
                config.vaults@,
                vault_path@,
            ),
            Err(_) => false,
        },
{
    match find_entry(vault_path, &config.vaults) {
        Some(i) => {
            proof {
                config.vaults.lemma_keys();
                assert(config.vaults.entries_spec()[i as int].1
                    == config.vaults@[config.vaults.keys_spec()[i as int]]);
            }
            Ok(config.vaults.value_at(i).clone())
        },
        None => Err(ConfigError::VaultNotFound(vault_path.to_owned())),
    }
}

/// Removes a vault, given by its canonical path, and returns its name. Its state directory stays.
pub fn remove_vault(vault_path: &str, config: &mut BiemConfig) -> (r: Result<String, ConfigError>)
    requires
        old(config).wf(),
    ensures
        final(config).wf(),
        match r {
            Ok(name) => is_entry_of(old(config).vaults@, vault_path@, name@)
                && final(config).vaults@ == old(config).vaults@.remove(name@),
            Err(ConfigError::VaultNotFound(p)) => p@ == vault_path@ && is_unregistered(
                old(config).vaults@,
                vault_path@,
            ) && final(config).vaults == old(config).vaults,
            Err(_) => false,
        },
{
    match find_entry(vault_path, &config.vaults) {
        Some(i) => {
            proof {
                config.vaults.lemma_keys();
                assert(config.vaults.entries_spec()[i as int].0@
                    == config.vaults.keys_spec()[i as int]);
            }
            let name = config.vaults.key_at(i).clone();
            config.vaults.remove(name.as_str());
            Ok(name)
        },
        None => Err(ConfigError::VaultNotFound(vault_path.to_owned())),
    }
}

} // verus!
