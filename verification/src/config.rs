//! Configuration and source registration.
//!
//! The global configuration lives in `~/.locus/config.toml`. Each registered source has a state
//! directory of its own.

use vstd::prelude::*;
use vstd::utf8::*;

use crate::dates;
use crate::hash;
use crate::keymap;
use crate::keymap::KeyMap;
use crate::paths;
use crate::text;
use crate::types::{SourceType, SourceTypeView};

verus! {

// ── Types ───────────────────────────────────────────────────────────────────

/// Source type in the configuration, where it is a plain string.
#[derive(Debug, PartialEq, Eq)]
pub enum SourceTypeConfig {
    Obsidian,
    Code,
    Custom(String),
}

impl Clone for SourceTypeConfig {
    fn clone(&self) -> (r: Self)
        ensures
            r == *self,
    {
        match self {
            SourceTypeConfig::Obsidian => SourceTypeConfig::Obsidian,
            SourceTypeConfig::Code => SourceTypeConfig::Code,
            SourceTypeConfig::Custom(s) => SourceTypeConfig::Custom(s.clone()),
        }
    }
}

impl Default for SourceTypeConfig {
    fn default() -> (r: Self)
        ensures
            r == SourceTypeConfig::Obsidian,
    {
        SourceTypeConfig::Obsidian
    }
}

/// The string that a source type is written as.
pub open spec fn source_type_text(t: SourceTypeConfig) -> Seq<char> {
    match t {
        SourceTypeConfig::Obsidian => "obsidian"@,
        SourceTypeConfig::Code => "code"@,
        SourceTypeConfig::Custom(s) => s@,
    }
}

/// The source type with its name taken as text.
pub open spec fn type_view(t: SourceTypeConfig) -> SourceTypeView {
    match t {
        SourceTypeConfig::Obsidian => SourceTypeView::Obsidian,
        SourceTypeConfig::Code => SourceTypeView::Code,
        SourceTypeConfig::Custom(s) => SourceTypeView::Custom(s@),
    }
}

/// The source type that a string stands for.
pub open spec fn type_of_text(s: Seq<char>) -> SourceTypeView {
    if s == "obsidian"@ {
        SourceTypeView::Obsidian
    } else if s == "code"@ {
        SourceTypeView::Code
    } else {
        SourceTypeView::Custom(s)
    }
}

impl SourceTypeConfig {
    /// The string that the source type is written as.
    pub fn to_text(&self) -> (r: String)
        ensures
            r@ == source_type_text(*self),
    {
        match self {
            SourceTypeConfig::Obsidian => "obsidian".to_owned(),
            SourceTypeConfig::Code => "code".to_owned(),
            SourceTypeConfig::Custom(s) => s.clone(),
        }
    }

    /// The source type that a string stands for.
    pub fn from_text(s: &str) -> (r: Self)
        ensures
            type_view(r) == type_of_text(s@),
    {
        if text::str_eq(s, "obsidian") {
            SourceTypeConfig::Obsidian
        } else if text::str_eq(s, "code") {
            SourceTypeConfig::Code
        } else {
            SourceTypeConfig::Custom(s.to_owned())
        }
    }
}

/// The configured form of a source type.
pub open spec fn configured(t: SourceType) -> SourceTypeConfig {
    match t {
        SourceType::Obsidian => SourceTypeConfig::Obsidian,
        SourceType::Code => SourceTypeConfig::Code,
        SourceType::Custom(s) => SourceTypeConfig::Custom(s),
    }
}

impl From<SourceType> for SourceTypeConfig {
    fn from(t: SourceType) -> (r: Self) {
        match t {
            SourceType::Obsidian => SourceTypeConfig::Obsidian,
            SourceType::Code => SourceTypeConfig::Code,
            SourceType::Custom(s) => SourceTypeConfig::Custom(s),
        }
    }
}

impl vstd::std_specs::convert::FromSpecImpl<SourceType> for SourceTypeConfig {
    open spec fn obeys_from_spec() -> bool {
        true
    }

    open spec fn from_spec(t: SourceType) -> Self {
        configured(t)
    }
}

impl From<SourceTypeConfig> for SourceType {
    fn from(t: SourceTypeConfig) -> (r: Self) {
        match t {
            SourceTypeConfig::Obsidian => SourceType::Obsidian,
            SourceTypeConfig::Code => SourceType::Code,
            SourceTypeConfig::Custom(s) => SourceType::Custom(s),
        }
    }
}

impl vstd::std_specs::convert::FromSpecImpl<SourceTypeConfig> for SourceType {
    open spec fn obeys_from_spec() -> bool {
        true
    }

    open spec fn from_spec(t: SourceTypeConfig) -> Self {
        match t {
            SourceTypeConfig::Obsidian => SourceType::Obsidian,
            SourceTypeConfig::Code => SourceType::Code,
            SourceTypeConfig::Custom(s) => SourceType::Custom(s),
        }
    }
}

/// Where the state of a source is stored.
#[derive(Clone, Copy, Debug, PartialEq, Eq, Structural)]
pub enum StorageMode {
    /// Below the configuration directory.
    Global,
    /// Within the source.
    Local,
}

impl Default for StorageMode {
    fn default() -> (r: Self)
        ensures
            r == StorageMode::Global,
    {
        StorageMode::Global
    }
}

/// A registered source.
#[derive(Debug)]
pub struct SourceEntry {
    /// Canonical absolute path of the source.
    pub path: String,
    /// What kind of content it holds.
    pub source_type: SourceTypeConfig,
    /// Where its state is stored.
    pub storage: StorageMode,
    /// The state directory.
    pub data_dir: String,
}

impl Clone for SourceEntry {
    fn clone(&self) -> (r: Self)
        ensures
            r == *self,
    {
        SourceEntry {
            path: self.path.clone(),
            source_type: self.source_type.clone(),
            storage: self.storage,
            data_dir: self.data_dir.clone(),
        }
    }
}

/// A registered vault.
pub type VaultEntry = SourceEntry;

/// A registered remote source. Credentials are not part of it.
#[derive(Debug)]
pub struct RemoteSourceEntry {
    /// `confluence`, `jira` or `slack`.
    pub kind: String,
    /// The state directory.
    pub data_dir: String,
    /// When it was last polled; never where there is none.
    pub last_poll: Option<i64>,
    /// How often it is polled in the background, in seconds.
    pub poll_interval_secs: u64,
    /// Base URL of an Atlassian instance.
    pub base_url: Option<String>,
    /// Account for basic authentication.
    pub username: Option<String>,
    /// Confluence spaces.
    pub spaces: Option<Vec<String>>,
    /// Jira projects.
    pub projects: Option<Vec<String>>,
    /// Slack channels.
    pub channel_ids: Option<Vec<String>>,
    /// Names of the Slack channels.
    pub channel_names: Option<Vec<String>>,
}

/// How often a remote source is polled where nothing else is said.
pub fn default_poll_interval_secs() -> (r: u64)
    ensures
        r == 300,
{
    300
}

impl RemoteSourceEntry {
    /// The kind of the source.
    pub fn kind(&self) -> (r: &str)
        ensures
            r@ == self.kind@,
    {
        self.kind.as_str()
    }
}

/// The configuration.
#[derive(Debug)]
pub struct BiemConfig {
    /// Sources in the file system by name.
    pub sources: KeyMap<SourceEntry>,
    /// Remote sources by name.
    pub remote_sources: KeyMap<RemoteSourceEntry>,
    /// Entries of older configurations, which call sources vaults.
    pub vaults_compat: KeyMap<SourceEntry>,
}

impl BiemConfig {
    /// What holds of a configuration.
    pub open spec fn wf(&self) -> bool {
        self.sources.wf() && self.remote_sources.wf() && self.vaults_compat.wf()
    }
}

impl Default for BiemConfig {
    fn default() -> (r: Self)
        ensures
            r.wf(),
            r.sources@ == Map::<Seq<char>, SourceEntry>::empty(),
            r.remote_sources@ == Map::<Seq<char>, RemoteSourceEntry>::empty(),
            r.vaults_compat@ == Map::<Seq<char>, SourceEntry>::empty(),
    {
        BiemConfig {
            sources: KeyMap::new(),
            remote_sources: KeyMap::new(),
            vaults_compat: KeyMap::new(),
        }
    }
}

/// Errors of the configuration.
#[derive(Debug)]
pub enum ConfigError {
    /// The configuration file could not be read or written.
    Io(String),
    /// The configuration file is not valid.
    TomlRead(String),
    /// The configuration could not be written as text.
    TomlWrite(String),
    NoHomeDir,
    SourceNotFound(String),
    SourceAlreadyRegistered(String),
}

impl ConfigError {
    /// The message of the error.
    pub fn message(&self) -> (r: String)
        ensures
            r@ == match self {
                ConfigError::Io(m) => "config file I/O: "@ + m@,
                ConfigError::TomlRead(m) => "TOML parse error: "@ + m@,
                ConfigError::TomlWrite(m) => "TOML serialization error: "@ + m@,
                ConfigError::NoHomeDir => "home directory not found"@,
                ConfigError::SourceNotFound(p) => "source not registered: "@ + p@,
                ConfigError::SourceAlreadyRegistered(n) => "source already registered as '"@ + n@
                    + "'"@,
            },
    {
        match self {
            ConfigError::Io(m) => text::concat("config file I/O: ", m.as_str()),
            ConfigError::TomlRead(m) => text::concat("TOML parse error: ", m.as_str()),
            ConfigError::TomlWrite(m) => text::concat("TOML serialization error: ", m.as_str()),
            ConfigError::NoHomeDir => "home directory not found".to_owned(),
            ConfigError::SourceNotFound(p) => text::concat("source not registered: ", p.as_str()),
            ConfigError::SourceAlreadyRegistered(n) => {
                let a = text::concat("source already registered as '", n.as_str());
                text::concat(a.as_str(), "'")
            },
        }
    }
}

// ── Loading ─────────────────────────────────────────────────────────────────

/// The directory of the configuration below a home directory.
pub fn default_config_dir(home: Option<&str>) -> (r: Result<String, ConfigError>)
    ensures
        match (home, r) {
            (Some(h), Ok(d)) => d@ == paths::join_spec(h@, ".locus"@),
            (None, Err(e)) => e is NoHomeDir,
            _ => false,
        },
{
    match home {
        Some(h) => Ok(paths::join(h, ".locus")),
        None => Err(ConfigError::NoHomeDir),
    }
}

/// The configuration file of a configuration directory.
pub fn config_file(config_dir: &str) -> (r: String)
    ensures
        r@ == paths::join_spec(config_dir@, "config.toml"@),
{
    paths::join(config_dir, "config.toml")
}

/// Sources with the entries of an older configuration. Where a name is taken, the newer entry
/// stays.
pub open spec fn migrated(
    sources: Map<Seq<char>, SourceEntry>,
    vaults: Map<Seq<char>, SourceEntry>,
) -> Map<Seq<char>, SourceEntry> {
    vaults.union_prefer_right(sources)
}

impl BiemConfig {
    /// Moves the entries of an older configuration to the sources.
    pub fn migrate_legacy(&mut self)
        requires
            old(self).wf(),
        ensures
            final(self).wf(),
            final(self).sources@ == migrated(old(self).sources@, old(self).vaults_compat@),
            final(self).remote_sources@ == old(self).remote_sources@,
            final(self).vaults_compat@ == Map::<Seq<char>, SourceEntry>::empty(),
    {
        let n = self.vaults_compat.len();
        let ghost s0 = self.sources@;
        let ghost v0 = self.vaults_compat@;
        let ghost keys = self.vaults_compat.keys_spec();
        proof {
            self.vaults_compat.lemma_keys();
        }
        let mut i: usize = 0;
        while i < n
            invariant
                self.wf(),
                self.remote_sources@ == old(self).remote_sources@,
                v0 == self.vaults_compat@,
                keys == self.vaults_compat.keys_spec(),
                n == self.vaults_compat.entries_spec().len(),
                keys.len() == n,
                i <= n,
                forall|k: Seq<char>| #[trigger]
                    self.sources@.dom().contains(k) <==> s0.dom().contains(k) || keys.take(
                        i as int,
                    ).contains(k),
                forall|k: Seq<char>| #[trigger]
                    self.sources@.dom().contains(k) ==> self.sources@[k] == if s0.dom().contains(
                        k,
                    ) {
                        s0[k]
                    } else {
                        v0[k]
                    },
            decreases n - i,
        {
            let ghost k0 = keys[i as int];
            proof {
                self.vaults_compat.lemma_keys();
                assert(self.vaults_compat.entries_spec()[i as int].0@ == k0);
                let t = keys.take(i as int);
                assert(keys.take(i + 1) =~= t.push(k0));
                assert forall|k: Seq<char>| #[trigger]
                    keys.take(i + 1).contains(k) <==> t.contains(k) || k == k0 by {
                    crate::bitmap::lemma_push_contains(t, k0, k);
                }
            }
            let key = self.vaults_compat.key_at(i).clone();
            if !self.sources.contains_key(key.as_str()) {
                let entry = self.vaults_compat.value_at(i).clone();
                self.sources.insert(key, entry);
            }
            i += 1;
        }
        proof {
            self.vaults_compat.lemma_keys();
            assert(keys.take(n as int) =~= keys);
            assert(self.sources@ =~= migrated(s0, v0));
        }
        self.vaults_compat = KeyMap::new();
    }
}

/// What loading gives: the default where there is no file, else what the file holds, with the
/// entries of an older configuration moved to the sources.
pub fn load_config_from(stored: Option<BiemConfig>) -> (r: BiemConfig)
    requires
        stored matches Some(c) ==> c.wf(),
    ensures
        r.wf(),
        r.vaults_compat@ == Map::<Seq<char>, SourceEntry>::empty(),
        match stored {
            Some(c) => r.sources@ == migrated(c.sources@, c.vaults_compat@) && r.remote_sources@
                == c.remote_sources@,
            None => r.sources@ == Map::<Seq<char>, SourceEntry>::empty() && r.remote_sources@
                == Map::<Seq<char>, RemoteSourceEntry>::empty(),
        },
{
    match stored {
        Some(c) => {
            let mut config = c;
            config.migrate_legacy();
            config
        },
        None => BiemConfig::default(),
    }
}

// ── Names ───────────────────────────────────────────────────────────────────

/// The short hash of a path: the first twelve hexadecimal digits of its digest.
pub open spec fn source_hash_spec(path: Seq<char>) -> Seq<char> {
    hash::hex_spec(hash::blake3_digest(encode_utf8(path))).take(12)
}

/// A deterministic short hash of a source path.
pub fn source_hash(source_path: &str) -> (r: String)
    ensures
        r@ == source_hash_spec(source_path@),
        r@.len() == 12,
        forall|i: int| 0 <= i < r@.len() ==> hash::is_hex_digit(#[trigger] r@[i]),
{
    let digest = hash::blake3_of(source_path.as_bytes());
    let hex = hash::to_hex(&digest);
    let v = text::chars_of(hex.as_str());
    proof {
        hash::law_hex_injective(digest@, digest@);
        hash::law_hex_digits(digest@);
    }
    text::substring(&v, 0, 12)
}

/// The name of a source: that of its directory, or else its hash.
pub open spec fn source_name_spec(path: Seq<char>) -> Seq<char> {
    match paths::file_name_spec(path) {
        Some(n) => n,
        None => source_hash_spec(path),
    }
}

/// The name of a source.
pub fn derive_source_name(source_path: &str) -> (r: String)
    ensures
        r@ == source_name_spec(source_path@),
{
    match paths::file_name(source_path) {
        Some(n) => n,
        None => source_hash(source_path),
    }
}

/// A name with a number.
pub open spec fn numbered(base: Seq<char>, i: nat) -> Seq<char> {
    base + "-"@ + dates::decimal_spec(i)
}

/// Whether a name is the one to take: the base, or where that is taken the first numbered name
/// that is free, from two on.
pub open spec fn is_free_name(base: Seq<char>, taken: Set<Seq<char>>, name: Seq<char>) -> bool {
    &&& !taken.contains(name)
    &&& if !taken.contains(base) {
        name == base
    } else {
        exists|i: nat|
            2 <= i && name == #[trigger] numbered(base, i) && forall|j: nat|
                2 <= j < i ==> taken.contains(#[trigger] numbered(base, j))
    }
}

proof fn lemma_numbered_injective(base: Seq<char>, i: nat, j: nat)
    requires
        numbered(base, i) == numbered(base, j),
    ensures
        i == j,
{
    let a = dates::decimal_spec(i);
    let b = dates::decimal_spec(j);
    let h = base + "-"@;
    assert(a =~= numbered(base, i).skip(h.len() as int));
    assert(b =~= numbered(base, j).skip(h.len() as int));
    dates::law_decimal_injective(i, j);
}

/// Numbered names that are all taken are no more than the names that are taken.
proof fn lemma_taken_bound(base: Seq<char>, keys: Seq<Seq<char>>, i: nat)
    requires
        2 <= i,
        keys.no_duplicates(),
        forall|j: nat| 2 <= j < i ==> keys.contains(#[trigger] numbered(base, j)),
    ensures
        i <= keys.len() + 2,
{
    let names = Seq::new((i - 2) as nat, |k: int| numbered(base, (k + 2) as nat));
    assert(names.no_duplicates()) by {
        assert forall|a: int, b: int| 0 <= a < names.len() && 0 <= b < names.len() && a
            != b implies names[a] != names[b] by {
            if names[a] == names[b] {
                lemma_numbered_injective(base, (a + 2) as nat, (b + 2) as nat);
            }
        }
    }
    names.unique_seq_to_set();
    keys.unique_seq_to_set();
    assert(names.to_set().subset_of(keys.to_set())) by {
        assert forall|x: Seq<char>| names.to_set().contains(x) implies keys.to_set().contains(
            x,
        ) by {
            let k = names.index_of(x);
            assert(names[k] == x);
            assert(keys.contains(numbered(base, (k + 2) as nat)));
        }
    }
    vstd::seq_lib::seq_to_set_is_finite(keys);
    vstd::set_lib::lemma_len_subset(names.to_set(), keys.to_set());
}

/// A name that is free in a map.
pub fn unique_name<V>(base: &str, taken: &KeyMap<V>) -> (r: String)
    requires
        taken.wf(),
    ensures
        is_free_name(base@, taken@.dom(), r@),
{
    if !taken.contains_key(base) {
        return base.to_owned();
    }
    let ghost keys = taken.keys_spec();
    let n = taken.len();
    proof {
        taken.lemma_keys();
    }
    let mut i: u128 = 2;
    loop
        invariant
            taken.wf(),
            keys == taken.keys_spec(),
            n == keys.len(),
            keys.no_duplicates(),
            forall|k: Seq<char>| #[trigger] keys.contains(k) <==> taken@.dom().contains(k),
            2 <= i <= n + 2,
            taken@.dom().contains(base@),
            forall|j: nat| 2 <= j < i ==> taken@.dom().contains(#[trigger] numbered(base@, j)),
        decreases n + 3 - i,
    {
        let head = text::concat(base, "-");
        let number = dates::decimal_wide(i);
        let candidate = text::concat(head.as_str(), number.as_str());
        assert(candidate@ == numbered(base@, i as nat));
        if !taken.contains_key(candidate.as_str()) {
            return candidate;
        }
        proof {
            assert forall|j: nat| 2 <= j < i + 1 implies keys.contains(
                #[trigger] numbered(base@, j),
            ) by {
                if j == i {
                    assert(taken@.dom().contains(numbered(base@, i as nat)));
                }
            }
            lemma_taken_bound(base@, keys, (i + 1) as nat);
        }
        i += 1;
    }
}

// ── Sources ─────────────────────────────────────────────────────────────────

/// Whether two paths are the same.
pub open spec fn same_path(a: Seq<char>, b: Seq<char>) -> bool {
    paths::normal_spec(a) == paths::normal_spec(b)
}

/// Whether an entry is the first, in the order of names, with a path.
pub open spec fn is_entry_of(
    sources: Map<Seq<char>, SourceEntry>,
    path: Seq<char>,
    name: Seq<char>,
) -> bool {
    &&& sources.dom().contains(name)
    &&& same_path(sources[name].path@, path)
    &&& forall|n: Seq<char>| #[trigger]
        sources.dom().contains(n) && same_path(sources[n].path@, path) ==> n == name
            || keymap::lex_lt(name, n)
}

/// Whether no entry has a path.
pub open spec fn is_unregistered(sources: Map<Seq<char>, SourceEntry>, path: Seq<char>) -> bool {
    forall|n: Seq<char>| #[trigger]
        sources.dom().contains(n) ==> !same_path(sources[n].path@, path)
}

/// The position of the entry of a path.
fn find_entry(path: &str, sources: &KeyMap<SourceEntry>) -> (r: Option<usize>)
    requires
        sources.wf(),
    ensures
        match r {
            Some(i) => i < sources.entries_spec().len() && is_entry_of(
                sources@,
                path@,
                sources.keys_spec()[i as int],
            ),
            None => is_unregistered(sources@, path@),
        },
{
    let key = paths::normalize(path);
    let n = sources.len();
    let ghost keys = sources.keys_spec();
    let mut i: usize = 0;
    while i < n
        invariant
            sources.wf(),
            key@ == paths::normal_spec(path@),
            keys == sources.keys_spec(),
            n == sources.entries_spec().len(),
            i <= n,
            forall|j: int| 0 <= j < i ==> !same_path(sources@[#[trigger] keys[j]].path@, path@),
        decreases n - i,
    {
        proof {
            sources.lemma_keys();
            assert(sources.entries_spec()[i as int].1 == sources@[keys[i as int]]);
        }
        let own = paths::normalize(sources.value_at(i).path.as_str());
        if text::str_eq(own.as_str(), key.as_str()) {
            proof {
                assert forall|m: Seq<char>| #[trigger]
                    sources@.dom().contains(m) && same_path(sources@[m].path@, path@) implies m
                    == keys[i as int] || keymap::lex_lt(keys[i as int], m) by {
                    assert(keys.contains(m));
                    let j = keys.index_of(m);
                    assert(keys[j] == m);
                    if j < i {
                        assert(!same_path(sources@[keys[j]].path@, path@));
                    } else if j > i {
                        assert(keymap::lex_lt(keys[i as int], keys[j]));
                    }
                }
            }
            return Some(i);
        }
        i += 1;
    }
    proof {
        sources.lemma_keys();
        assert forall|m: Seq<char>| #[trigger] sources@.dom().contains(m) implies !same_path(
            sources@[m].path@,
            path@,
        ) by {
            assert(keys.contains(m));
            let j = keys.index_of(m);
            assert(keys[j] == m);
        }
    }
    None
}

/// The state directory of a source.
pub open spec fn data_dir_spec(
    storage: StorageMode,
    locus_dir: Seq<char>,
    name: Seq<char>,
    path: Seq<char>,
) -> Seq<char> {
    match storage {
        StorageMode::Global => paths::join_spec(paths::join_spec(locus_dir, "sources"@), name),
        StorageMode::Local => paths::join_spec(path, ".locus"@),
    }
}

/// Whether an entry is that of a new source.
pub open spec fn is_new_entry(
    e: SourceEntry,
    path: Seq<char>,
    source_type: SourceType,
    storage: StorageMode,
    locus_dir: Seq<char>,
    name: Seq<char>,
) -> bool {
    &&& e.path@ == path
    &&& e.source_type == configured(source_type)
    &&& e.storage == storage
    &&& e.data_dir@ == data_dir_spec(storage, locus_dir, name, path)
}

/// Registers a source, given by its canonical path, and returns its name and entry. The state
/// directory of the entry is to be created.
pub fn register_source(
    source_path: &str,
    source_type: SourceType,
    storage: StorageMode,
    locus_dir: &str,
    config: &mut BiemConfig,
) -> (r: Result<(String, SourceEntry), ConfigError>)
    requires
        old(config).wf(),
    ensures
        final(config).wf(),
        final(config).remote_sources == old(config).remote_sources,
        final(config).vaults_compat == old(config).vaults_compat,
        match r {
            Ok((name, entry)) => {
                &&& is_unregistered(old(config).sources@, source_path@)
                &&& is_free_name(
                    source_name_spec(source_path@),
                    old(config).sources@.dom(),
                    name@,
                )
                &&& is_new_entry(
                    entry,
                    source_path@,
                    source_type,
                    storage,
                    locus_dir@,
                    name@,
                )
                &&& final(config).sources@ == old(config).sources@.insert(name@, entry)
            },
            Err(ConfigError::SourceAlreadyRegistered(name)) => is_entry_of(
                old(config).sources@,
                source_path@,
                name@,
            ) && final(config).sources == old(config).sources,
            Err(_) => false,
        },
{
    if let Some(i) = find_entry(source_path, &config.sources) {
        proof {
            config.sources.lemma_keys();
            assert(config.sources.entries_spec()[i as int].0@
                == config.sources.keys_spec()[i as int]);
        }
        return Err(ConfigError::SourceAlreadyRegistered(config.sources.key_at(i).clone()));
    }
    let base = derive_source_name(source_path);
    let name = unique_name(base.as_str(), &config.sources);
    let data_dir = match storage {
        StorageMode::Global => {
            let dir = paths::join(locus_dir, "sources");
            paths::join(dir.as_str(), name.as_str())
        },
        StorageMode::Local => paths::join(source_path, ".locus"),
    };
    let entry = SourceEntry {
        path: source_path.to_owned(),
        source_type: SourceTypeConfig::from(source_type),
        storage,
        data_dir,
    };
    config.sources.insert(name.clone(), entry.clone());
    Ok((name, entry))
}

/// The entry of a source, given by its canonical path.
pub fn resolve_source(source_path: &str, config: &BiemConfig) -> (r: Result<
    SourceEntry,
    ConfigError,
>)
    requires
        config.wf(),
    ensures
        match r {
            Ok(e) => exists|name: Seq<char>| #[trigger]
                is_entry_of(config.sources@, source_path@, name) && e == config.sources@[name],
            Err(ConfigError::SourceNotFound(p)) => p@ == source_path@ && is_unregistered(
                config.sources@,
                source_path@,
            ),
            Err(_) => false,
        },
{
    match find_entry(source_path, &config.sources) {
        Some(i) => {
            proof {
                config.sources.lemma_keys();
                assert(config.sources.entries_spec()[i as int].1
                    == config.sources@[config.sources.keys_spec()[i as int]]);
            }
            Ok(config.sources.value_at(i).clone())
        },
        None => Err(ConfigError::SourceNotFound(source_path.to_owned())),
    }
}

/// Removes a source, given by its canonical path, and returns its name. Its state directory stays.
pub fn remove_source(source_path: &str, config: &mut BiemConfig) -> (r: Result<String, ConfigError>)
    requires
        old(config).wf(),
    ensures
        final(config).wf(),
        final(config).remote_sources == old(config).remote_sources,
        final(config).vaults_compat == old(config).vaults_compat,
        match r {
            Ok(name) => is_entry_of(old(config).sources@, source_path@, name@)
                && final(config).sources@ == old(config).sources@.remove(name@),
            Err(ConfigError::SourceNotFound(p)) => p@ == source_path@ && is_unregistered(
                old(config).sources@,
                source_path@,
            ) && final(config).sources == old(config).sources,
            Err(_) => false,
        },
{
    match find_entry(source_path, &config.sources) {
        Some(i) => {
            proof {
                config.sources.lemma_keys();
                assert(config.sources.entries_spec()[i as int].0@
                    == config.sources.keys_spec()[i as int]);
            }
            let name = config.sources.key_at(i).clone();
            config.sources.remove(name.as_str());
            Ok(name)
        },
        None => Err(ConfigError::SourceNotFound(source_path.to_owned())),
    }
}

// ── Remote sources ──────────────────────────────────────────────────────────

/// An entry with its state directory filled in: below the configuration directory where none is
/// given.
pub open spec fn is_filled(
    e: RemoteSourceEntry,
    given: RemoteSourceEntry,
    locus_dir: Seq<char>,
    name: Seq<char>,
) -> bool {
    if given.data_dir@.len() == 0 {
        e.data_dir@ == paths::join_spec(paths::join_spec(locus_dir, "remote"@), name) && e
            == (RemoteSourceEntry { data_dir: e.data_dir, ..given })
    } else {
        e == given
    }
}

/// Registers a remote source. Its state directory is to be created.
pub fn register_remote_source(
    name: &str,
    entry: RemoteSourceEntry,
    locus_dir: &str,
    config: &mut BiemConfig,
) -> (r: Result<(), ConfigError>)
    requires
        old(config).wf(),
    ensures
        final(config).wf(),
        final(config).sources == old(config).sources,
        final(config).vaults_compat == old(config).vaults_compat,
        match r {
            Ok(()) => {
                &&& !old(config).remote_sources@.dom().contains(name@)
                &&& final(config).remote_sources@.dom().contains(name@)
                &&& is_filled(final(config).remote_sources@[name@], entry, locus_dir@, name@)
                &&& final(config).remote_sources@ == old(config).remote_sources@.insert(
                    name@,
                    final(config).remote_sources@[name@],
                )
            },
            Err(ConfigError::SourceAlreadyRegistered(n)) => n@ == name@
                && old(config).remote_sources@.dom().contains(name@)
                && final(config).remote_sources == old(config).remote_sources,
            Err(_) => false,
        },
{
    if config.remote_sources.contains_key(name) {
        return Err(ConfigError::SourceAlreadyRegistered(name.to_owned()));
    }
    let mut filled = entry;
    proof {
        reveal_strlit("");
        if entry.data_dir@.len() == 0 {
            assert(entry.data_dir@ =~= ""@);
        }
    }
    if text::str_eq(filled.data_dir.as_str(), "") {
        let dir = paths::join(locus_dir, "remote");
        filled.data_dir = paths::join(dir.as_str(), name);
    }
    config.remote_sources.insert(name.to_owned(), filled);
    Ok(())
}

/// Removes a remote source. Its state directory stays.
pub fn remove_remote_source(name: &str, config: &mut BiemConfig) -> (r: Result<(), ConfigError>)
    requires
        old(config).wf(),
    ensures
        final(config).wf(),
        final(config).sources == old(config).sources,
        final(config).vaults_compat == old(config).vaults_compat,
        final(config).remote_sources@ == old(config).remote_sources@.remove(name@),
        match r {
            Ok(()) => old(config).remote_sources@.dom().contains(name@),
            Err(ConfigError::SourceNotFound(n)) => n@ == name@
                && !old(config).remote_sources@.dom().contains(name@),
            Err(_) => false,
        },
{
    match config.remote_sources.remove(name) {
        Some(_) => Ok(()),
        None => Err(ConfigError::SourceNotFound(name.to_owned())),
    }
}

/// Sets when a remote source was last polled.
pub fn update_remote_last_poll(name: &str, ts: i64, config: &mut BiemConfig) -> (r: Result<
    (),
    ConfigError,
>)
    requires
        old(config).wf(),
    ensures
        final(config).wf(),
        final(config).sources == old(config).sources,
        final(config).vaults_compat == old(config).vaults_compat,
        match r {
            Ok(()) => old(config).remote_sources@.dom().contains(name@)
                && final(config).remote_sources@ == old(config).remote_sources@.insert(
                name@,
                RemoteSourceEntry {
                    last_poll: Some(ts),
                    ..old(config).remote_sources@[name@]
                },
            ),
            Err(ConfigError::SourceNotFound(n)) => n@ == name@
                && !old(config).remote_sources@.dom().contains(name@)
                && final(config).remote_sources@ == old(config).remote_sources@,
            Err(_) => false,
        },
{
    match config.remote_sources.remove(name) {
        Some(entry) => {
            let mut polled = entry;
            polled.last_poll = Some(ts);
            config.remote_sources.insert(name.to_owned(), polled);
            assert(config.remote_sources@ =~= old(config).remote_sources@.insert(name@, polled));
            Ok(())
        },
        None => {
            assert(config.remote_sources@ =~= old(config).remote_sources@);
            Err(ConfigError::SourceNotFound(name.to_owned()))
        },
    }
}

// ── Vaults ──────────────────────────────────────────────────────────────────

/// Registers an Obsidian source.
pub fn register_vault(
    vault_path: &str,
    storage: StorageMode,
    locus_dir: &str,
    config: &mut BiemConfig,
) -> (r: Result<(String, SourceEntry), ConfigError>)
    requires
        old(config).wf(),
    ensures
        final(config).wf(),
        final(config).remote_sources == old(config).remote_sources,
        final(config).vaults_compat == old(config).vaults_compat,
        match r {
            Ok((name, entry)) => {
                &&& is_unregistered(old(config).sources@, vault_path@)
                &&& is_free_name(source_name_spec(vault_path@), old(config).sources@.dom(), name@)
                &&& is_new_entry(
                    entry,
                    vault_path@,
                    SourceType::Obsidian,
                    storage,
                    locus_dir@,
                    name@,
                )
                &&& final(config).sources@ == old(config).sources@.insert(name@, entry)
            },
            Err(ConfigError::SourceAlreadyRegistered(name)) => is_entry_of(
                old(config).sources@,
                vault_path@,
                name@,
            ) && final(config).sources == old(config).sources,
            Err(_) => false,
        },
{
    register_source(vault_path, SourceType::Obsidian, storage, locus_dir, config)
}

/// The entry of a source.
pub fn resolve_vault(vault_path: &str, config: &BiemConfig) -> (r: Result<SourceEntry, ConfigError>)
    requires
        config.wf(),
    ensures
        match r {
            Ok(e) => exists|name: Seq<char>| #[trigger]
                is_entry_of(config.sources@, vault_path@, name) && e == config.sources@[name],
            Err(ConfigError::SourceNotFound(p)) => p@ == vault_path@ && is_unregistered(
                config.sources@,
                vault_path@,
            ),
            Err(_) => false,
        },
{
    resolve_source(vault_path, config)
}

/// Removes a source.
pub fn remove_vault(vault_path: &str, config: &mut BiemConfig) -> (r: Result<String, ConfigError>)
    requires
        old(config).wf(),
    ensures
        final(config).wf(),
        final(config).remote_sources == old(config).remote_sources,
        final(config).vaults_compat == old(config).vaults_compat,
        match r {
            Ok(name) => is_entry_of(old(config).sources@, vault_path@, name@)
                && final(config).sources@ == old(config).sources@.remove(name@),
            Err(ConfigError::SourceNotFound(p)) => p@ == vault_path@ && is_unregistered(
                old(config).sources@,
                vault_path@,
            ) && final(config).sources == old(config).sources,
            Err(_) => false,
        },
{
    remove_source(vault_path, config)
}

/// The short hash of a vault path.
pub fn vault_hash(vault_path: &str) -> (r: String)
    ensures
        r@ == source_hash_spec(vault_path@),
        r@.len() == 12,
        forall|i: int| 0 <= i < r@.len() ==> hash::is_hex_digit(#[trigger] r@[i]),
{
    source_hash(vault_path)
}

// ── Laws ────────────────────────────────────────────────────────────────────

/// Reading a source type that was written gives it back, unless a custom one has a reserved name.
pub proof fn law_source_type_round_trip(t: SourceTypeConfig)
    requires
        t matches SourceTypeConfig::Custom(x) ==> x@ != "obsidian"@ && x@ != "code"@,
    ensures
        type_of_text(source_type_text(t)) == type_view(t),
{
    reveal_strlit("obsidian");
    reveal_strlit("code");
    assert("obsidian"@.len() != "code"@.len());
}

/// A source that was just registered is resolved to its entry, and removing it leaves the other
/// sources as they were.
pub proof fn law_register_then_resolve(
    sources: Map<Seq<char>, SourceEntry>,
    path: Seq<char>,
    name: Seq<char>,
    entry: SourceEntry,
)
    requires
        is_unregistered(sources, path),
        !sources.dom().contains(name),
        entry.path@ == path,
    ensures
        is_entry_of(sources.insert(name, entry), path, name),
        forall|n: Seq<char>| #[trigger]
            is_entry_of(sources.insert(name, entry), path, n) ==> n == name,
        sources.insert(name, entry).remove(name) == sources,
{
    let after = sources.insert(name, entry);
    assert forall|n: Seq<char>| #[trigger]
        after.dom().contains(n) && same_path(after[n].path@, path) implies n == name by {
        if n != name {
            assert(sources.dom().contains(n));
        }
    }
    assert(after.remove(name) =~= sources);
}

} // verus!
