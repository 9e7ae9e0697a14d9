//! Enrichment: taggers that infer bitmap keys from parse results, and the cache of their results.

use vstd::prelude::*;
use vstd::utf8::*;

use crate::clock;
use crate::dates;
use crate::hash;
use crate::keymap::KeyMap;
use crate::paths;
use crate::query;
use crate::text;
use crate::types;
use crate::types::{ParseResult, ParseView, SourceType, SourceTypeView, Timestamp};

verus! {

broadcast use crate::types::lemma_views_push;

// ── Results ─────────────────────────────────────────────────────────────────

/// Result of one tagger.
#[derive(Debug)]
pub struct TaggerResult {
    /// Name of the tagger that produced these tags.
    pub tagger_name: String,
    /// Inferred bitmap keys, such as `topic:auth` or `size:small`.
    pub tags: Vec<String>,
    /// The bits of a single-precision confidence between zero and one; none for rules.
    pub confidence: Option<u32>,
}

/// Result of a tagger with its strings taken as texts.
#[verifier::ext_equal]
pub struct TaggerView {
    pub tagger_name: Seq<char>,
    pub tags: Seq<Seq<char>>,
    pub confidence: Option<u32>,
}

impl View for TaggerResult {
    type V = TaggerView;

    open spec fn view(&self) -> TaggerView {
        TaggerView {
            tagger_name: self.tagger_name@,
            tags: self.tags.deep_view(),
            confidence: self.confidence,
        }
    }
}

impl TaggerResult {
    fn copied(&self) -> (r: Self)
        ensures
            r@ == self@,
    {
        TaggerResult {
            tagger_name: self.tagger_name.clone(),
            tags: query::clone_keys(&self.tags),
            confidence: self.confidence,
        }
    }
}

/// The results of all taggers for a document, as the cache holds them.
#[derive(Debug)]
pub struct EnrichmentCache {
    /// Hash of the content, in hexadecimal.
    pub content_hash: String,
    /// Hash of the set of taggers.
    pub tagger_config_hash: String,
    /// Results of each tagger.
    pub results: Vec<TaggerResult>,
    /// When this entry was made.
    pub timestamp: Timestamp,
}

/// A cache entry with its strings taken as texts.
#[verifier::ext_equal]
pub struct CacheView {
    pub content_hash: Seq<char>,
    pub tagger_config_hash: Seq<char>,
    pub results: Seq<TaggerView>,
    pub timestamp: Timestamp,
}

impl View for EnrichmentCache {
    type V = CacheView;

    open spec fn view(&self) -> CacheView {
        CacheView {
            content_hash: self.content_hash@,
            tagger_config_hash: self.tagger_config_hash@,
            results: types::views(self.results@),
            timestamp: self.timestamp,
        }
    }
}

fn copied_results(v: &Vec<TaggerResult>) -> (r: Vec<TaggerResult>)
    ensures
        types::views(r@) == types::views(v@),
{
    let mut out: Vec<TaggerResult> = Vec::new();
    let mut i: usize = 0;
    while i < v.len()
        invariant
            i <= v@.len(),
            out@.len() == i,
            forall|j: int| 0 <= j < i ==> (#[trigger] out@[j])@ == v@[j]@,
        decreases v@.len() - i,
    {
        out.push(v[i].copied());
        i += 1;
    }
    assert(types::views(out@) =~= types::views(v@));
    out
}

impl EnrichmentCache {
    fn copied(&self) -> (r: Self)
        ensures
            r@ == self@,
    {
        EnrichmentCache {
            content_hash: self.content_hash.clone(),
            tagger_config_hash: self.tagger_config_hash.clone(),
            results: copied_results(&self.results),
            timestamp: self.timestamp,
        }
    }
}

/// Errors from enrichment.
#[derive(Debug)]
pub enum EnrichError {
    TaggerFailed(String, String),
    CacheIo(String),
    CacheSerialization(String),
}

impl EnrichError {
    /// The message of the error.
    pub fn message(&self) -> (r: String)
        ensures
            r@ == match self {
                EnrichError::TaggerFailed(a, b) => "tagger '"@ + a@ + "' failed: "@ + b@,
                EnrichError::CacheIo(m) => "cache I/O error: "@ + m@,
                EnrichError::CacheSerialization(m) => "cache serialization error: "@ + m@,
            },
    {
        match self {
            EnrichError::TaggerFailed(a, b) => {
                let x = text::concat("tagger '", a.as_str());
                let y = text::concat(x.as_str(), "' failed: ");
                text::concat(y.as_str(), b.as_str())
            },
            EnrichError::CacheIo(m) => text::concat("cache I/O error: ", m.as_str()),
            EnrichError::CacheSerialization(m) => text::concat(
                "cache serialization error: ",
                m.as_str(),
            ),
        }
    }
}

// ── Traits ──────────────────────────────────────────────────────────────────

/// A tagger infers bitmap keys from a parse result. Taggers are pure functions of the path, the
/// content and the parse result: no I/O.
pub trait Tagger: Send + Sync {
    /// The name of the tagger.
    spec fn name_spec(&self) -> Seq<char>;

    /// Whether the tagger is meant for a source type.
    spec fn applies_spec(&self, source: SourceTypeView) -> bool;

    /// What the tagger infers; nothing where it fails.
    spec fn tagging(&self, path: Seq<char>, content: Seq<u8>, parsed: ParseView) -> Option<
        TaggerView,
    >;

    /// Unique name of this tagger.
    fn name(&self) -> (r: &str)
        ensures
            r@ == self.name_spec(),
    ;

    /// Whether this tagger is meant for a source type.
    fn applies_to(&self, source: &SourceType) -> (r: bool)
        ensures
            r == self.applies_spec(source@),
    ;

    /// Infers tags from the parse result and the content.
    fn tag(&self, path: &str, content: &[u8], parse_result: &ParseResult) -> (r: Result<
        TaggerResult,
        EnrichError,
    >)
        ensures
            match r {
                Ok(t) => self.tagging(path@, content@, parse_result@) == Some(t@),
                Err(_) => self.tagging(path@, content@, parse_result@) is None,
            },
    ;
}

/// What the entries of a cache become when a tagger is forgotten: its results leave, and an entry
/// that loses its last result goes with it.
pub open spec fn without_tagger(m: Map<Seq<char>, CacheView>, name: Seq<char>) -> Map<
    Seq<char>,
    CacheView,
> {
    Map::new(
        |h: Seq<char>| m.dom().contains(h) && stays_without(m[h].results, name),
        |h: Seq<char>| CacheView { results: results_without(m[h].results, name), ..m[h] },
    )
}

/// The results that are not of a tagger.
pub open spec fn results_without(s: Seq<TaggerView>, name: Seq<char>) -> Seq<TaggerView>
    decreases s.len(),
{
    if s.len() == 0 {
        s
    } else if s.last().tagger_name == name {
        results_without(s.drop_last(), name)
    } else {
        results_without(s.drop_last(), name).push(s.last())
    }
}

/// Whether an entry with these results stays when a tagger is forgotten.
pub open spec fn stays_without(s: Seq<TaggerView>, name: Seq<char>) -> bool {
    results_without(s, name).len() == s.len() || results_without(s, name).len() > 0
}

/// Cache of tagger results by content hash. A backend may fail; where an operation succeeds, it
/// does what is stated here.
pub trait TaggerCache: Send + Sync {
    /// The entries by content hash.
    spec fn entries(&self) -> Map<Seq<char>, CacheView>;

    /// What holds of the cache between operations.
    spec fn wf(&self) -> bool;

    /// Whether operations of this backend always succeed.
    spec fn infallible(&self) -> bool;

    /// Whether reading the entry of a content hash may fail with an error.
    spec fn read_fails(&self, content_hash: Seq<char>, e: EnrichError) -> bool;

    /// The entry of a content hash.
    fn get(&self, content_hash: &str) -> (r: Result<Option<EnrichmentCache>, EnrichError>)
        requires
            self.wf(),
        ensures
            self.infallible() ==> r is Ok,
            r matches Ok(o) ==> match o {
                Some(e) => self.entries().dom().contains(content_hash@) && e@
                    == self.entries()[content_hash@],
                None => !self.entries().dom().contains(content_hash@),
            },
            r matches Err(e) ==> self.read_fails(content_hash@, e),
    ;

    /// Stores an entry under its content hash.
    fn put(&mut self, cache: &EnrichmentCache) -> (r: Result<(), EnrichError>)
        requires
            old(self).wf(),
        ensures
            final(self).wf(),
            final(self).infallible() == old(self).infallible(),
            old(self).infallible() ==> r is Ok,
            r is Ok ==> final(self).entries() == old(self).entries().insert(
                cache@.content_hash,
                cache@,
            ),
            r is Err ==> final(self).entries() == old(self).entries(),
    ;

    /// Forgets the results of a tagger.
    fn invalidate_tagger(&mut self, tagger_name: &str) -> (r: Result<(), EnrichError>)
        requires
            old(self).wf(),
        ensures
            final(self).wf(),
            final(self).infallible() == old(self).infallible(),
            old(self).infallible() ==> r is Ok,
            r is Ok ==> final(self).entries() == without_tagger(
                old(self).entries(),
                tagger_name@,
            ),
            r is Err ==> final(self).entries() == old(self).entries(),
    ;
}

/// What becomes of a cache entry when a tagger is forgotten.
#[derive(Debug)]
pub enum CacheChange {
    /// It has no result of the tagger.
    Keep,
    /// It is rewritten without the tagger's results.
    Rewrite(EnrichmentCache),
    /// It has results of no other tagger.
    Remove,
}

/// Decides what becomes of a cache entry when a tagger is forgotten.
pub fn forget_tagger(entry: EnrichmentCache, tagger_name: &str) -> (r: CacheChange)
    ensures
        ({
            let rest = results_without(entry@.results, tagger_name@);
            match r {
                CacheChange::Keep => rest.len() == entry@.results.len() && rest == entry@.results,
                CacheChange::Remove => rest.len() == 0 && entry@.results.len() > 0,
                CacheChange::Rewrite(e) => 0 < rest.len() < entry@.results.len() && e@
                    == (CacheView { results: rest, ..entry@ }),
            }
        }),
{
    let ghost all = types::views(entry.results@);
    let mut kept: Vec<TaggerResult> = Vec::new();
    let n = entry.results.len();
    let mut i: usize = 0;
    assert(types::views(kept@) =~= results_without(all.take(0), tagger_name@));
    while i < n
        invariant
            n == entry.results@.len(),
            all == types::views(entry.results@),
            i <= n,
            kept@.len() <= i,
            types::views(kept@) == results_without(all.take(i as int), tagger_name@),
            kept@.len() == i ==> results_without(all.take(i as int), tagger_name@) == all.take(
                i as int,
            ),
        decreases n - i,
    {
        proof {
            let t = all.take(i + 1);
            assert(t.drop_last() =~= all.take(i as int));
            assert(t.last() == entry.results@[i as int]@);
            assert(all.take(i as int).push(all[i as int]) =~= t);
        }
        if !text::str_eq(entry.results[i].tagger_name.as_str(), tagger_name) {
            kept.push(entry.results[i].copied());
        }
        i += 1;
    }
    assert(all.take(n as int) =~= all);
    if kept.len() == n {
        CacheChange::Keep
    } else if kept.len() == 0 {
        CacheChange::Remove
    } else {
        CacheChange::Rewrite(
            EnrichmentCache {
                content_hash: entry.content_hash,
                tagger_config_hash: entry.tagger_config_hash,
                results: kept,
                timestamp: entry.timestamp,
            },
        )
    }
}

/// The directory of the cache files below a data directory.
pub open spec fn cache_dir_spec(data_dir: Seq<char>) -> Seq<char> {
    paths::join_spec(paths::join_spec(data_dir, "cache"@), "taggers"@)
}

/// The directory of the cache files below a data directory.
pub fn cache_dir(data_dir: &str) -> (r: String)
    ensures
        r@ == cache_dir_spec(data_dir@),
{
    let a = paths::join(data_dir, "cache");
    paths::join(a.as_str(), "taggers")
}

/// The file of a content hash in a cache directory.
pub fn cache_file(dir: &str, content_hash: &str) -> (r: String)
    ensures
        r@ == paths::join_spec(dir@, content_hash@ + ".json"@),
{
    let name = text::concat(content_hash, ".json");
    paths::join(dir, name.as_str())
}

// ── The cache in memory ─────────────────────────────────────────────────────

/// Tagger cache in memory.
#[derive(Debug)]
pub struct InMemoryTaggerCache {
    map: KeyMap<EnrichmentCache>,
}

impl InMemoryTaggerCache {
    /// A cache without entries.
    pub fn new() -> (r: Self)
        ensures
            r.wf(),
            r.entries() == Map::<Seq<char>, CacheView>::empty(),
    {
        let r = InMemoryTaggerCache { map: KeyMap::new() };
        assert(r.entries() =~= Map::<Seq<char>, CacheView>::empty());
        r
    }
}

impl Default for InMemoryTaggerCache {
    fn default() -> (r: Self)
        ensures
            r.wf(),
            r.entries() == Map::<Seq<char>, CacheView>::empty(),
    {
        InMemoryTaggerCache::new()
    }
}

impl TaggerCache for InMemoryTaggerCache {
    closed spec fn entries(&self) -> Map<Seq<char>, CacheView> {
        Map::new(|h: Seq<char>| self.map@.dom().contains(h), |h: Seq<char>| self.map@[h]@)
    }

    closed spec fn wf(&self) -> bool {
        self.map.wf()
    }

    open spec fn infallible(&self) -> bool {
        true
    }

    open spec fn read_fails(&self, content_hash: Seq<char>, e: EnrichError) -> bool {
        false
    }

    fn get(&self, content_hash: &str) -> (r: Result<Option<EnrichmentCache>, EnrichError>)
        ensures
            r is Ok,
    {
        match self.map.get(content_hash) {
            Some(e) => Ok(Some(e.copied())),
            None => Ok(None),
        }
    }

    fn put(&mut self, cache: &EnrichmentCache) -> (r: Result<(), EnrichError>)
        ensures
            r is Ok,
    {
        let e = cache.copied();
        self.map.insert(cache.content_hash.clone(), e);
        assert(self.entries() =~= old(self).entries().insert(cache@.content_hash, cache@));
        Ok(())
    }

    fn invalidate_tagger(&mut self, tagger_name: &str) -> (r: Result<(), EnrichError>)
        ensures
            r is Ok,
    {
        let ghost m0 = self.entries();
        let ghost keys = self.map.keys_spec();
        let mut next: KeyMap<EnrichmentCache> = KeyMap::new();
        let n = self.map.len();
        proof {
            self.map.lemma_keys();
        }
        let mut i: usize = 0;
        while i < n
            invariant
                self.wf(),
                m0 == self.entries(),
                keys == self.map.keys_spec(),
                n == self.map.entries_spec().len(),
                keys.len() == n,
                i <= n,
                next.wf(),
                keys.no_duplicates(),
                forall|h: Seq<char>| #[trigger]
                    next@.dom().contains(h) <==> keys.take(i as int).contains(h)
                        && stays_without(m0[h].results, tagger_name@),
                forall|h: Seq<char>| #[trigger]
                    next@.dom().contains(h) ==> next@[h]@ == (CacheView {
                        results: results_without(m0[h].results, tagger_name@),
                        ..m0[h]
                    }),
            decreases n - i,
        {
            let ghost before = next@;
            let ghost k = keys[i as int];
            proof {
                self.map.lemma_keys();
                assert(self.map.entries_spec()[i as int].0@ == k);
                let t = keys.take(i as int);
                assert(keys.take(i + 1) =~= t.push(k));
                if t.contains(k) {
                    let j = t.index_of(k);
                    assert(keys[j] == keys[i as int]);
                }
                assert forall|h: Seq<char>| #[trigger]
                    keys.take(i + 1).contains(h) <==> t.contains(h) || h == k by {
                    crate::bitmap::lemma_push_contains(t, k, h);
                }
            }
            let key = self.map.key_at(i).clone();
            let entry = self.map.value_at(i).copied();
            let same = entry.copied();
            assert(same@ == m0[k]);
            match forget_tagger(entry, tagger_name) {
                CacheChange::Keep => {
                    next.insert(key, same);
                },
                CacheChange::Rewrite(e) => {
                    next.insert(key, e);
                },
                CacheChange::Remove => {},
            }
            i += 1;
        }
        proof {
            assert(keys.take(n as int) =~= keys);
            self.map.lemma_keys();
        }
        self.map = next;
        assert(self.entries() =~= without_tagger(m0, tagger_name@));
        Ok(())
    }
}

// ── Built-in taggers ────────────────────────────────────────────────────────

/// The result of a rule.
pub open spec fn rule_result(name: Seq<char>, tags: Seq<Seq<char>>) -> TaggerView {
    TaggerView { tagger_name: name, tags, confidence: None }
}

fn rule(name: &str, tag: &str) -> (r: TaggerResult)
    ensures
        r@ == rule_result(name@, seq![tag@]),
{
    let mut tags: Vec<String> = Vec::new();
    tags.push(tag.to_owned());
    let r = TaggerResult { tagger_name: name.to_owned(), tags, confidence: None };
    assert(r@ =~= rule_result(name@, seq![tag@]));
    r
}

/// Classifies files by their number of bytes: small below 1 KB, medium up to 10 KB, large beyond.
#[derive(Clone, Copy, Debug)]
pub struct SizeTagger;

/// The size tag of a number of bytes.
pub open spec fn size_tag(len: nat) -> Seq<char> {
    if len < 1024 {
        "size:small"@
    } else if len <= 10240 {
        "size:medium"@
    } else {
        "size:large"@
    }
}

impl Tagger for SizeTagger {
    open spec fn name_spec(&self) -> Seq<char> {
        "size"@
    }

    open spec fn applies_spec(&self, source: SourceTypeView) -> bool {
        true
    }

    open spec fn tagging(&self, path: Seq<char>, content: Seq<u8>, parsed: ParseView) -> Option<
        TaggerView,
    > {
        Some(rule_result("size"@, seq![size_tag(content.len())]))
    }

    fn name(&self) -> (r: &str) {
        "size"
    }

    fn applies_to(&self, source: &SourceType) -> (r: bool) {
        let _ = source;
        true
    }

    fn tag(&self, path: &str, content: &[u8], parse_result: &ParseResult) -> (r: Result<
        TaggerResult,
        EnrichError,
    >) {
        let _ = (path, parse_result);
        let n = content.len();
        let tag = if n < 1024 {
            "size:small"
        } else if n <= 10240 {
            "size:medium"
        } else {
            "size:large"
        };
        Ok(rule("size", tag))
    }
}

/// Classifies files by their structure: high with more than ten chunks or a chunk of depth four,
/// medium with more than three chunks, low otherwise.
#[derive(Clone, Copy, Debug)]
pub struct ComplexityTagger;

/// The complexity tag of a parse result.
pub open spec fn complexity_tag(parsed: ParseView) -> Seq<char> {
    if parsed.chunks.len() > 10 || exists|i: int|
        0 <= i < parsed.chunks.len() && (#[trigger] parsed.chunks[i]).depth >= 4 {
        "complexity:high"@
    } else if parsed.chunks.len() > 3 {
        "complexity:medium"@
    } else {
        "complexity:low"@
    }
}

impl Tagger for ComplexityTagger {
    open spec fn name_spec(&self) -> Seq<char> {
        "complexity"@
    }

    open spec fn applies_spec(&self, source: SourceTypeView) -> bool {
        true
    }

    open spec fn tagging(&self, path: Seq<char>, content: Seq<u8>, parsed: ParseView) -> Option<
        TaggerView,
    > {
        Some(rule_result("complexity"@, seq![complexity_tag(parsed)]))
    }

    fn name(&self) -> (r: &str) {
        "complexity"
    }

    fn applies_to(&self, source: &SourceType) -> (r: bool) {
        let _ = source;
        true
    }

    fn tag(&self, path: &str, content: &[u8], parse_result: &ParseResult) -> (r: Result<
        TaggerResult,
        EnrichError,
    >) {
        let _ = (path, content);
        let n = parse_result.chunks.len();
        let mut deep = false;
        let mut i: usize = 0;
        while i < n
            invariant
                n == parse_result.chunks@.len(),
                i <= n,
                deep <==> exists|j: int|
                    0 <= j < i && (#[trigger] parse_result@.chunks[j]).depth >= 4,
            decreases n - i,
        {
            assert(parse_result@.chunks[i as int] == parse_result.chunks@[i as int]@);
            if parse_result.chunks[i].depth >= 4 {
                assert(parse_result@.chunks[i as int].depth >= 4);
                deep = true;
            }
            i += 1;
        }
        let tag = if n > 10 || deep {
            "complexity:high"
        } else if n > 3 {
            "complexity:medium"
        } else {
            "complexity:low"
        };
        Ok(rule("complexity", tag))
    }
}

/// The text of bytes where what is not UTF-8 is replaced.
pub uninterp spec fn utf8_lossy(bytes: Seq<u8>) -> Seq<char>;

/// Calls `String::from_utf8_lossy`. The text depends on the bytes alone, and is the one that they
/// encode where they are valid UTF-8.
#[verifier::external_body]
fn lossy_text(bytes: &[u8]) -> (r: String)
    ensures
        r@ == utf8_lossy(bytes@),
        valid_utf8(bytes@) ==> r@ == decode_utf8(bytes@),
{
    String::from_utf8_lossy(bytes).into_owned()
}

/// Detects topics by their keywords.
#[derive(Clone, Copy, Debug)]
pub struct TopicTagger;

/// The keywords of each topic.
pub open spec fn topic_keywords() -> Seq<(Seq<Seq<char>>, Seq<char>)> {
    seq![
        (seq!["authentication"@, "auth"@, "login"@, "oauth"@, "jwt"@, "session"@], "topic:auth"@),
        (seq!["database"@, "sql"@, "query"@, "schema"@, "migration"@, "orm"@], "topic:database"@),
        (seq!["api"@, "endpoint"@, "rest"@, "graphql"@, "grpc"@], "topic:api"@),
        (seq!["test"@, "testing"@, "assert"@, "mock"@, "fixture"@, "spec"@], "topic:testing"@),
        (
            seq!["deploy"@, "deployment"@, "ci/cd"@, "pipeline"@, "docker"@, "kubernetes"@],
            "topic:deployment"@,
        ),
        (seq!["config"@, "configuration"@, "settings"@, "environment"@, "env"@], "topic:config"@),
        (seq!["error"@, "exception"@, "handling"@, "retry"@, "fallback"@], "topic:error-handling"@),
        (seq!["cache"@, "caching"@, "redis"@, "memcached"@, "ttl"@], "topic:caching"@),
        (seq!["logging"@, "log"@, "tracing"@, "observability"@, "metrics"@], "topic:observability"@),
        (seq!["security"@, "encryption"@, "tls"@, "certificate"@, "vulnerability"@], "topic:security"@),
        (
            seq!["async"@, "concurrent"@, "parallel"@, "thread"@, "tokio"@, "future"@],
            "topic:concurrency"@,
        ),
        (seq!["network"@, "http"@, "tcp"@, "socket"@, "request"@, "response"@], "topic:networking"@),
        (seq!["parser"@, "parsing"@, "ast"@, "syntax"@, "lexer"@, "token"@], "topic:parsing"@),
        (seq!["index"@, "bitmap"@, "search"@, "filter"@, "query"@], "topic:indexing"@),
    ]
}

/// String slices taken as texts.
pub open spec fn words_view(s: Seq<&str>) -> Seq<Seq<char>> {
    Seq::new(s.len(), |i: int| s[i]@)
}

/// Groups of string slices taken as texts.
pub open spec fn groups_view(s: Seq<(Vec<&str>, &str)>) -> Seq<(Seq<Seq<char>>, Seq<char>)> {
    Seq::new(s.len(), |i: int| (words_view(s[i].0@), s[i].1@))
}

#[verifier::rlimit(40)]
fn topic_groups() -> (r: Vec<(Vec<&'static str>, &'static str)>)
    ensures
        groups_view(r@) == topic_keywords(),
{
    let r = vec![
        (vec!["authentication", "auth", "login", "oauth", "jwt", "session"], "topic:auth"),
        (vec!["database", "sql", "query", "schema", "migration", "orm"], "topic:database"),
        (vec!["api", "endpoint", "rest", "graphql", "grpc"], "topic:api"),
        (vec!["test", "testing", "assert", "mock", "fixture", "spec"], "topic:testing"),
        (vec!["deploy", "deployment", "ci/cd", "pipeline", "docker", "kubernetes"], "topic:deployment"),
        (vec!["config", "configuration", "settings", "environment", "env"], "topic:config"),
        (vec!["error", "exception", "handling", "retry", "fallback"], "topic:error-handling"),
        (vec!["cache", "caching", "redis", "memcached", "ttl"], "topic:caching"),
        (vec!["logging", "log", "tracing", "observability", "metrics"], "topic:observability"),
        (vec!["security", "encryption", "tls", "certificate", "vulnerability"], "topic:security"),
        (vec!["async", "concurrent", "parallel", "thread", "tokio", "future"], "topic:concurrency"),
        (vec!["network", "http", "tcp", "socket", "request", "response"], "topic:networking"),
        (vec!["parser", "parsing", "ast", "syntax", "lexer", "token"], "topic:parsing"),
        (vec!["index", "bitmap", "search", "filter", "query"], "topic:indexing"),
    ];
    proof {
        let a = groups_view(r@);
        let b = topic_keywords();
        assert(a.len() == b.len());
        assert forall|i: int| 0 <= i < a.len() implies a[i] == b[i] by {
            assert(a[i].0 =~= b[i].0);
        }
        assert(a =~= b);
    }
    r
}

/// How many of the first `n` keywords occur in a text.
pub open spec fn hits_spec(content: Seq<char>, words: Seq<Seq<char>>, n: int) -> nat
    decreases n,
{
    if n <= 0 {
        0
    } else {
        hits_spec(content, words, n - 1) + if text::contains_spec(content, words[n - 1]) {
            1nat
        } else {
            0nat
        }
    }
}

/// The topics, among the first `n`, of which at least two keywords occur.
pub open spec fn topics_spec(
    content: Seq<char>,
    groups: Seq<(Seq<Seq<char>>, Seq<char>)>,
    n: int,
) -> Seq<Seq<char>>
    decreases n,
{
    if n <= 0 {
        Seq::empty()
    } else if hits_spec(content, groups[n - 1].0, groups[n - 1].0.len() as int) >= 2 {
        topics_spec(content, groups, n - 1).push(groups[n - 1].1)
    } else {
        topics_spec(content, groups, n - 1)
    }
}

fn count_hits(content: &Vec<char>, words: &Vec<&'static str>) -> (r: usize)
    ensures
        r == hits_spec(content@, words_view(words@), words@.len() as int),
{
    let mut hits: usize = 0;
    let mut i: usize = 0;
    while i < words.len()
        invariant
            i <= words@.len(),
            hits <= i,
            hits == hits_spec(content@, words_view(words@), i as int),
        decreases words@.len() - i,
    {
        if text::contains(content, words[i]) {
            hits += 1;
        }
        i += 1;
    }
    hits
}

impl Tagger for TopicTagger {
    open spec fn name_spec(&self) -> Seq<char> {
        "topic"@
    }

    open spec fn applies_spec(&self, source: SourceTypeView) -> bool {
        true
    }

    open spec fn tagging(&self, path: Seq<char>, content: Seq<u8>, parsed: ParseView) -> Option<
        TaggerView,
    > {
        Some(
            rule_result(
                "topic"@,
                topics_spec(
                    text::lowercase(utf8_lossy(content)),
                    topic_keywords(),
                    topic_keywords().len() as int,
                ),
            ),
        )
    }

    fn name(&self) -> (r: &str) {
        "topic"
    }

    fn applies_to(&self, source: &SourceType) -> (r: bool) {
        let _ = source;
        true
    }

    fn tag(&self, path: &str, content: &[u8], parse_result: &ParseResult) -> (r: Result<
        TaggerResult,
        EnrichError,
    >) {
        let _ = (path, parse_result);
        let whole = lossy_text(content);
        let lower = whole.as_str().to_lowercase();
        let r = TaggerResult {
            tagger_name: "topic".to_owned(),
            tags: topics_of(lower.as_str()),
            confidence: None,
        };
        Ok(r)
    }
}

/// The topics of a text in lower case.
pub fn topics_of(lower: &str) -> (r: Vec<String>)
    ensures
        r.deep_view() == topics_spec(lower@, topic_keywords(), topic_keywords().len() as int),
{
    let v = text::chars_of(lower);
    let groups = topic_groups();
    let ghost g = topic_keywords();
    let mut tags: Vec<String> = Vec::new();
    let mut i: usize = 0;
    assert(tags.deep_view() =~= topics_spec(lower@, g, 0));
    while i < groups.len()
        invariant
            v@ == lower@,
            groups_view(groups@) == g,
            i <= groups@.len(),
            tags.deep_view() == topics_spec(lower@, g, i as int),
        decreases groups@.len() - i,
    {
        assert(groups_view(groups@)[i as int] == g[i as int]);
        let ghost before = tags.deep_view();
        if count_hits(&v, &groups[i].0) >= 2 {
            tags.push(groups[i].1.to_owned());
            assert(tags.deep_view() =~= before.push(g[i as int].1));
        }
        i += 1;
    }
    assert(groups_view(groups@).len() == groups@.len());
    tags
}

/// A tagger that gives every document the same tags.
#[derive(Debug)]
pub struct FixedTagger {
    pub name: String,
    pub tags: Vec<String>,
}

impl Tagger for FixedTagger {
    open spec fn name_spec(&self) -> Seq<char> {
        self.name@
    }

    open spec fn applies_spec(&self, source: SourceTypeView) -> bool {
        true
    }

    open spec fn tagging(&self, path: Seq<char>, content: Seq<u8>, parsed: ParseView) -> Option<
        TaggerView,
    > {
        Some(rule_result(self.name@, self.tags.deep_view()))
    }

    fn name(&self) -> (r: &str) {
        self.name.as_str()
    }

    fn applies_to(&self, source: &SourceType) -> (r: bool) {
        let _ = source;
        true
    }

    fn tag(&self, path: &str, content: &[u8], parse_result: &ParseResult) -> (r: Result<
        TaggerResult,
        EnrichError,
    >) {
        let _ = (path, content, parse_result);
        Ok(
            TaggerResult {
                tagger_name: self.name.clone(),
                tags: query::clone_keys(&self.tags),
                confidence: None,
            },
        )
    }
}

// ── The pipeline ────────────────────────────────────────────────────────────

/// Runs taggers, with a cache of their results.
pub struct TagPipeline {
    parts: (Vec<Box<dyn Tagger>>, Box<dyn TaggerCache>),
    force: bool,
}

/// The names of taggers, in order.
pub open spec fn names_of(taggers: Seq<Box<dyn Tagger>>) -> Seq<Seq<char>> {
    Seq::new(taggers.len(), |i: int| taggers[i].name_spec())
}

/// A name behind its length.
pub open spec fn measured(name: Seq<char>) -> Seq<char> {
    dates::decimal_spec(name.len()) + ":"@ + name
}

/// Names one after the other, each behind its length.
pub open spec fn names_written(names: Seq<Seq<char>>) -> Seq<char>
    decreases names.len(),
{
    if names.len() == 0 {
        Seq::empty()
    } else {
        names_written(names.drop_last()) + measured(names.last())
    }
}

proof fn lemma_names_from_front(names: Seq<Seq<char>>)
    requires
        names.len() > 0,
    ensures
        names_written(names) == measured(names[0]) + names_written(names.skip(1)),
    decreases names.len(),
{
    let rest = names.skip(1);
    if names.len() == 1 {
        assert(names.drop_last() =~= Seq::<Seq<char>>::empty());
        assert(rest =~= Seq::<Seq<char>>::empty());
        assert(names_written(names) =~= measured(names[0]) + names_written(rest));
    } else {
        lemma_names_from_front(names.drop_last());
        assert(names.drop_last().skip(1) =~= rest.drop_last());
        assert(names_written(names) =~= measured(names[0]) + names_written(rest));
    }
}

proof fn lemma_digits_only(n: nat)
    ensures
        dates::decimal_spec(n).len() > 0,
        forall|i: int|
            0 <= i < dates::decimal_spec(n).len() ==> #[trigger] dates::decimal_spec(n)[i] != ':',
    decreases n,
{
    if n >= 10 {
        lemma_digits_only(n / 10);
    }
}

proof fn lemma_measured_prefix(a: Seq<char>, x: Seq<char>, b: Seq<char>, y: Seq<char>)
    requires
        measured(a) + x == measured(b) + y,
    ensures
        a == b,
        x == y,
{
    reveal_strlit(":");
    let s = measured(a) + x;
    let t = measured(b) + y;
    let da = dates::decimal_spec(a.len());
    let db = dates::decimal_spec(b.len());
    lemma_digits_only(a.len());
    lemma_digits_only(b.len());
    assert(s[da.len() as int] == ':');
    assert(t[db.len() as int] == ':');
    if da.len() < db.len() {
        assert(t[da.len() as int] == db[da.len() as int]);
    }
    if db.len() < da.len() {
        assert(s[db.len() as int] == da[db.len() as int]);
    }
    assert(da =~= s.take(da.len() as int));
    assert(db =~= t.take(db.len() as int));
    dates::law_decimal_injective(a.len(), b.len());
    let k: int = da.len() + 1int;
    assert(a =~= s.subrange(k, k + a.len()));
    assert(b =~= t.subrange(k, k + b.len()));
    assert(x =~= s.skip(k + a.len()));
    assert(y =~= t.skip(k + b.len()));
}

proof fn lemma_names_written(a: Seq<Seq<char>>, b: Seq<Seq<char>>)
    requires
        names_written(a) == names_written(b),
    ensures
        a == b,
    decreases a.len() + b.len(),
{
    if a.len() == 0 || b.len() == 0 {
        if a.len() > 0 {
            lemma_names_from_front(a);
            lemma_digits_only(a[0].len());
            assert(names_written(a).len() > 0);
        }
        if b.len() > 0 {
            lemma_names_from_front(b);
            lemma_digits_only(b[0].len());
            assert(names_written(b).len() > 0);
        }
        assert(a =~= b);
    } else {
        lemma_names_from_front(a);
        lemma_names_from_front(b);
        lemma_measured_prefix(
            a[0],
            names_written(a.skip(1)),
            b[0],
            names_written(b.skip(1)),
        );
        lemma_names_written(a.skip(1), b.skip(1));
        assert(a =~= seq![a[0]] + a.skip(1));
        assert(b =~= seq![b[0]] + b.skip(1));
    }
}

/// The bytes that are hashed change with the set of taggers: lists of names that differ are written
/// as different bytes.
pub proof fn law_tagger_sets_are_told_apart(a: Seq<Seq<char>>, b: Seq<Seq<char>>)
    requires
        a != b,
    ensures
        encode_utf8(names_written(a)) != encode_utf8(names_written(b)),
{
    encode_utf8_decode_utf8(names_written(a));
    encode_utf8_decode_utf8(names_written(b));
    if encode_utf8(names_written(a)) == encode_utf8(names_written(b)) {
        lemma_names_written(a, b);
    }
}

/// The hash of a set of taggers: the first sixteen hexadecimal digits of the digest of their names.
pub open spec fn config_hash_spec(names: Seq<char>) -> Seq<char> {
    hash::hex_spec(hash::blake3_digest(encode_utf8(names))).take(16)
}

/// The results of those taggers, among the first `n`, that are meant for the source and succeed.
pub open spec fn results_of(
    taggers: Seq<Box<dyn Tagger>>,
    path: Seq<char>,
    content: Seq<u8>,
    parsed: ParseView,
    source: SourceTypeView,
    n: int,
) -> Seq<TaggerView>
    decreases n,
{
    if n <= 0 {
        Seq::empty()
    } else {
        let front = results_of(taggers, path, content, parsed, source, n - 1);
        let t = taggers[n - 1];
        if t.applies_spec(source) {
            match t.tagging(path, content, parsed) {
                Some(r) => front.push(r),
                None => front,
            }
        } else {
            front
        }
    }
}

/// The tags of results, one after the other.
pub open spec fn merged_tags(s: Seq<TaggerView>) -> Seq<Seq<char>>
    decreases s.len(),
{
    if s.len() == 0 {
        Seq::empty()
    } else {
        merged_tags(s.drop_last()) + s.last().tags
    }
}

/// The tags of results, one after the other.
pub fn merge_tags(results: &Vec<TaggerResult>) -> (r: Vec<String>)
    ensures
        r.deep_view() == merged_tags(types::views(results@)),
{
    let ghost all = types::views(results@);
    let mut out: Vec<String> = Vec::new();
    let mut i: usize = 0;
    assert(out.deep_view() =~= merged_tags(all.take(0)));
    while i < results.len()
        invariant
            all == types::views(results@),
            i <= results@.len(),
            out.deep_view() == merged_tags(all.take(i as int)),
        decreases results@.len() - i,
    {
        let mut own = query::clone_keys(&results[i].tags);
        proof {
            let t = all.take(i + 1);
            assert(t.drop_last() =~= all.take(i as int));
            assert(t.last() == results@[i as int]@);
        }
        let ghost a = out.deep_view();
        let ghost b = own.deep_view();
        out.append(&mut own);
        assert(out.deep_view() =~= a + b);
        i += 1;
    }
    assert(all.take(i as int) =~= all);
    out
}

/// Whether a lookup gives what the cache of a pipeline holds for a content hash.
pub open spec fn is_cached(
    p: TagPipeline,
    content_hash: Seq<char>,
    r: Result<Option<EnrichmentCache>, EnrichError>,
) -> bool {
    match r {
        Ok(Some(e)) => p.cached().dom().contains(content_hash) && e@ == p.cached()[content_hash],
        Ok(None) => !p.cached().dom().contains(content_hash),
        Err(e) => !p.infallible() && p.read_fails(content_hash, e),
    }
}

impl TagPipeline {
    /// The taggers, in order.
    pub closed spec fn taggers(&self) -> Seq<Box<dyn Tagger>> {
        self.parts.0@
    }

    /// The entries of the cache.
    pub closed spec fn cached(&self) -> Map<Seq<char>, CacheView> {
        self.parts.1.entries()
    }

    /// Whether the cache is passed over.
    pub closed spec fn forced(&self) -> bool {
        self.force
    }

    /// What holds of the pipeline between operations.
    pub closed spec fn wf(&self) -> bool {
        self.parts.1.wf()
    }

    /// Whether the cache always succeeds.
    pub closed spec fn infallible(&self) -> bool {
        self.parts.1.infallible()
    }

    /// Whether reading the cache for a content hash may fail with an error.
    pub closed spec fn read_fails(&self, content_hash: Seq<char>, e: EnrichError) -> bool {
        self.parts.1.read_fails(content_hash, e)
    }

    /// The hash of the set of taggers.
    pub open spec fn own_hash(&self) -> Seq<char> {
        config_hash_spec(names_written(names_of(self.taggers())))
    }

    /// Whether the cache answers for a content.
    pub open spec fn hits(&self, content: Seq<u8>) -> bool {
        let h = hash::hex_spec(hash::blake3_digest(content));
        !self.forced() && self.cached().dom().contains(h) && self.cached()[h].tagger_config_hash
            == self.own_hash()
    }

    /// What the taggers infer.
    pub open spec fn fresh_results(
        &self,
        path: Seq<char>,
        content: Seq<u8>,
        parsed: ParseView,
        source: SourceTypeView,
    ) -> Seq<TaggerView> {
        results_of(self.taggers(), path, content, parsed, source, self.taggers().len() as int)
    }

    /// What enriching a file gives: what the cache holds for its content, or else what the taggers
    /// infer.
    pub open spec fn enriched(
        &self,
        path: Seq<char>,
        content: Seq<u8>,
        parsed: ParseView,
        source: SourceTypeView,
    ) -> Seq<Seq<char>> {
        if self.hits(content) {
            merged_tags(self.cached()[hash::hex_spec(hash::blake3_digest(content))].results)
        } else {
            merged_tags(self.fresh_results(path, content, parsed, source))
        }
    }

    /// A pipeline of taggers over a cache.
    pub fn new(taggers: Vec<Box<dyn Tagger>>, cache: Box<dyn TaggerCache>) -> (r: Self)
        requires
            cache.wf(),
        ensures
            r.wf(),
            r.taggers() == taggers@,
            r.cached() == cache.entries(),
            r.infallible() == cache.infallible(),
            forall|h: Seq<char>, e: EnrichError| #[trigger]
                r.read_fails(h, e) == cache.read_fails(h, e),
            !r.forced(),
    {
        let parts = (taggers, cache);
        TagPipeline { parts, force: false }
    }

    /// A pipeline of taggers and a cache that are kept together.
    pub fn over(parts: (Vec<Box<dyn Tagger>>, Box<dyn TaggerCache>)) -> (r: Self)
        requires
            parts.1.wf(),
        ensures
            r.wf(),
            r.taggers() == parts.0@,
            r.cached() == parts.1.entries(),
            r.infallible() == parts.1.infallible(),
            forall|h: Seq<char>, e: EnrichError| #[trigger]
                r.read_fails(h, e) == parts.1.read_fails(h, e),
            !r.forced(),
    {
        TagPipeline { parts, force: false }
    }

    /// Sets whether the cache is passed over.
    pub fn with_force(self, force: bool) -> (r: Self)
        requires
            self.wf(),
        ensures
            r.wf(),
            r.taggers() == self.taggers(),
            r.cached() == self.cached(),
            r.infallible() == self.infallible(),
            forall|h: Seq<char>, e: EnrichError| #[trigger]
                r.read_fails(h, e) == self.read_fails(h, e),
            r.forced() == force,
    {
        TagPipeline { parts: self.parts, force }
    }

    /// A hash that changes with the set of taggers.
    pub fn config_hash(&self) -> (r: String)
        ensures
            r@ == self.own_hash(),
    {
        let n = self.parts.0.len();
        let ghost all = names_of(self.parts.0@);
        let mut names = String::new();
        assert(names@ =~= names_written(all.take(0)));
        let mut i: usize = 0;
        while i < n
            invariant
                n == self.parts.0@.len(),
                all == names_of(self.parts.0@),
                i <= n,
                names@ == names_written(all.take(i as int)),
            decreases n - i,
        {
            let name = self.parts.0[i].name();
            let len: usize = text::chars_of(name).len();
            let a = text::concat(dates::decimal(len as u64).as_str(), ":");
            let b = text::concat(a.as_str(), name);
            proof {
                assert(all.take(i + 1).drop_last() =~= all.take(i as int));
                assert(all.take(i + 1).last() == name@);
                assert(b@ == measured(name@));
            }
            names = text::concat(names.as_str(), b.as_str());
            i += 1;
        }
        assert(all.take(n as int) =~= all);
        let digest = hash::blake3_of(names.as_str().as_bytes());
        let hex = hash::to_hex(&digest);
        let v = text::chars_of(hex.as_str());
        proof {
            hash::law_hex_injective(digest@, digest@);
        }
        text::substring(&v, 0, 16)
    }

    /// Runs the taggers on a file, and returns the inferred tags. Results come from the cache where
    /// it has them, and are put there where it has not. A tagger that fails is passed over, and so
    /// is a cache that cannot be written. An error is one of reading the cache.
    pub fn enrich(
        &mut self,
        path: &str,
        content: &[u8],
        parse_result: &ParseResult,
        source_type: &SourceType,
    ) -> (r: Result<Vec<String>, EnrichError>)
        requires
            old(self).wf(),
        ensures
            final(self).wf(),
            final(self).taggers() == old(self).taggers(),
            final(self).infallible() == old(self).infallible(),
            final(self).forced() == old(self).forced(),
            old(self).infallible() ==> r is Ok,
            match r {
                Ok(tags) => {
                    let h = hash::hex_spec(hash::blake3_digest(content@));
                    &&& tags.deep_view() == old(self).enriched(
                        path@,
                        content@,
                        parse_result@,
                        source_type@,
                    )
                    &&& old(self).hits(content@) ==> final(self).cached() == old(self).cached()
                    &&& !old(self).hits(content@) ==> stored(
                        old(self).cached(),
                        final(self).cached(),
                        h,
                        old(self).own_hash(),
                        old(self).fresh_results(path@, content@, parse_result@, source_type@),
                    ) || !old(self).infallible() && final(self).cached() == old(self).cached()
                },
                Err(e) => {
                    &&& !old(self).forced()
                    &&& old(self).read_fails(hash::hex_spec(hash::blake3_digest(content@)), e)
                    &&& final(self).cached() == old(self).cached()
                },
            },
    {
        let digest = hash::blake3_of(content);
        let content_hash = hash::to_hex(&digest);
        let config_hash = self.config_hash();
        if !self.force {
            match self.parts.1.get(content_hash.as_str()) {
                Ok(Some(e)) => {
                    if text::str_eq(e.tagger_config_hash.as_str(), config_hash.as_str()) {
                        return Ok(merge_tags(&e.results));
                    }
                },
                Ok(None) => {},
                Err(e) => {
                    return Err(e);
                },
            }
        }
        let mut results: Vec<TaggerResult> = Vec::new();
        let n = self.parts.0.len();
        let mut i: usize = 0;
        assert(types::views(results@) =~= Seq::<TaggerView>::empty());
        while i < n
            invariant
                n == self.parts.0@.len(),
                i <= n,
                *self == *old(self),
                types::views(results@) == results_of(
                    self.parts.0@,
                    path@,
                    content@,
                    parse_result@,
                    source_type@,
                    i as int,
                ),
            decreases n - i,
        {
            if self.parts.0[i].applies_to(source_type) {
                if let Ok(t) = self.parts.0[i].tag(path, content, parse_result) {
                    results.push(t);
                }
            }
            i += 1;
        }
        let tags = merge_tags(&results);
        let entry = EnrichmentCache {
            content_hash,
            tagger_config_hash: config_hash,
            results,
            timestamp: clock::now(),
        };
        let put = self.parts.1.put(&entry);
        proof {
            if put is Ok {
                assert(entry@ =~= cache_entry(
                    entry@.content_hash,
                    entry@.tagger_config_hash,
                    entry@.results,
                    entry.timestamp,
                ));
            }
        }
        Ok(tags)
    }

    /// What the cache holds for a content hash.
    pub fn cached_entry(&self, content_hash: &str) -> (r: Result<
        Option<EnrichmentCache>,
        EnrichError,
    >)
        requires
            self.wf(),
        ensures
            is_cached(*self, content_hash@, r),
    {
        self.parts.1.get(content_hash)
    }

    /// The names of the taggers.
    pub fn tagger_names(&self) -> (r: Vec<String>)
        ensures
            r.deep_view() == Seq::new(self.taggers().len(), |i: int| self.taggers()[i].name_spec()),
    {
        let n = self.parts.0.len();
        let mut out: Vec<String> = Vec::new();
        let mut i: usize = 0;
        while i < n
            invariant
                n == self.parts.0@.len(),
                i <= n,
                out@.len() == i,
                forall|j: int| 0 <= j < i ==> (#[trigger] out@[j])@ == self.parts.0@[j].name_spec(),
            decreases n - i,
        {
            out.push(self.parts.0[i].name().to_owned());
            i += 1;
        }
        assert(out.deep_view() =~= Seq::new(
            self.taggers().len(),
            |i: int| self.taggers()[i].name_spec(),
        ));
        out
    }
}

/// An entry of the cache.
pub open spec fn cache_entry(
    content_hash: Seq<char>,
    config_hash: Seq<char>,
    results: Seq<TaggerView>,
    now: Timestamp,
) -> CacheView {
    CacheView { content_hash, tagger_config_hash: config_hash, results, timestamp: now }
}

/// Whether a cache comes of another by storing results, at whatever time.
pub open spec fn stored(
    before: Map<Seq<char>, CacheView>,
    after: Map<Seq<char>, CacheView>,
    content_hash: Seq<char>,
    config_hash: Seq<char>,
    results: Seq<TaggerView>,
) -> bool {
    exists|now: Timestamp|
        after == before.insert(
            content_hash,
            #[trigger] cache_entry(content_hash, config_hash, results, now),
        )
}

/// Enriching a content again gives what was stored: after results are stored for a content under
/// the hash of the taggers, they are what the cache answers with.
pub proof fn law_cache_round_trip(
    before: Map<Seq<char>, CacheView>,
    after: Map<Seq<char>, CacheView>,
    content_hash: Seq<char>,
    config_hash: Seq<char>,
    results: Seq<TaggerView>,
)
    requires
        stored(before, after, content_hash, config_hash, results),
    ensures
        after.dom().contains(content_hash),
        after[content_hash].tagger_config_hash == config_hash,
        after[content_hash].results == results,
        forall|h: Seq<char>| #[trigger]
            before.dom().contains(h) && h != content_hash ==> after.dom().contains(h) && after[h]
                == before[h],
{
}

/// Enriching a content a second time gives the same tags: once the results for it are stored, the
/// cache answers, whatever the path and without asking a tagger. A cache that is passed over changes
/// nothing: the same taggers infer the same again.
pub proof fn law_second_enrich(
    p: TagPipeline,
    q: TagPipeline,
    path: Seq<char>,
    content: Seq<u8>,
    parsed: ParseView,
    source: SourceTypeView,
    path2: Seq<char>,
    parsed2: ParseView,
    source2: SourceTypeView,
)
    requires
        q.taggers() == p.taggers(),
        q.forced() == p.forced(),
        p.hits(content) ==> q.cached() == p.cached(),
        !p.hits(content) ==> stored(
            p.cached(),
            q.cached(),
            hash::hex_spec(hash::blake3_digest(content)),
            p.own_hash(),
            p.fresh_results(path, content, parsed, source),
        ),
    ensures
        !p.forced() ==> q.hits(content) && q.enriched(path2, content, parsed2, source2)
            == p.enriched(path, content, parsed, source),
        p.forced() ==> q.enriched(path, content, parsed, source) == p.enriched(
            path,
            content,
            parsed,
            source,
        ),
{
}

} // verus!
