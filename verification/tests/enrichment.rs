//! Taggers, their cache and the pipeline.

use locus::enrich::{
    cache_dir, cache_file, forget_tagger, merge_tags, CacheChange, ComplexityTagger,
    EnrichmentCache, FixedTagger, InMemoryTaggerCache, SizeTagger, TagPipeline, Tagger, TaggerCache,
    TaggerResult, TopicTagger,
};
use locus::commands::builtin_taggers;
use locus::keymap::KeyMap;
use locus::types::{Chunk, ChunkKind, ChunkMetadata, ParseResult, SourceType};

fn pr_with_chunks(count: usize, depth: u8) -> ParseResult {
    let chunks = (0..count)
        .map(|i| Chunk {
            byte_range: (i * 100)..(i * 100 + 50),
            kind: ChunkKind::Section,
            label: None,
            depth,
            metadata: ChunkMetadata::default(),
        })
        .collect();
    ParseResult {
        chunks,
        tags: vec![],
        links: vec![],
        auto_type: None,
        frontmatter: KeyMap::new(),
    }
}

#[test]
fn low_complexity() {
    let r = ComplexityTagger
        .tag("x.md", b"", &pr_with_chunks(2, 1))
        .unwrap();
    assert_eq!(r.tags, vec!["complexity:low"]);
}

#[test]
fn medium_complexity() {
    let r = ComplexityTagger
        .tag("x.md", b"", &pr_with_chunks(6, 2))
        .unwrap();
    assert_eq!(r.tags, vec!["complexity:medium"]);
}

#[test]
fn high_complexity_by_count() {
    let r = ComplexityTagger
        .tag("x.md", b"", &pr_with_chunks(15, 2))
        .unwrap();
    assert_eq!(r.tags, vec!["complexity:high"]);
}

#[test]
fn high_complexity_by_depth() {
    let r = ComplexityTagger
        .tag("x.md", b"", &pr_with_chunks(3, 5))
        .unwrap();
    assert_eq!(r.tags, vec!["complexity:high"]);
}

fn empty_pr() -> ParseResult {
    ParseResult {
        chunks: vec![], tags: vec![], links: vec![],
        auto_type: None, frontmatter: KeyMap::new(),
    }
}

#[test]
fn small_file() {
    let r = SizeTagger.tag("x.md", b"hello", &empty_pr()).unwrap();
    assert_eq!(r.tags, vec!["size:small"]);
}

#[test]
fn medium_file() {
    let content = vec![b'x'; 5000];
    let r = SizeTagger.tag("x.md", &content, &empty_pr()).unwrap();
    assert_eq!(r.tags, vec!["size:medium"]);
}

#[test]
fn large_file() {
    let content = vec![b'x'; 20_000];
    let r = SizeTagger.tag("x.md", &content, &empty_pr()).unwrap();
    assert_eq!(r.tags, vec!["size:large"]);
}

#[test]
fn detects_auth_topic() {
    let content = b"This module handles authentication via JWT tokens and OAuth login flows.";
    let r = TopicTagger.tag("x.md", content, &empty_pr()).unwrap();
    assert!(r.tags.contains(&"topic:auth".to_string()));
}

#[test]
fn detects_database_topic() {
    let content = b"Run the SQL migration to update the database schema.";
    let r = TopicTagger.tag("x.md", content, &empty_pr()).unwrap();
    assert!(r.tags.contains(&"topic:database".to_string()));
}

#[test]
fn no_topic_for_generic_content() {
    let content = b"Hello world, this is a simple note.";
    let r = TopicTagger.tag("x.md", content, &empty_pr()).unwrap();
    assert!(r.tags.is_empty());
}

#[test]
fn multiple_topics() {
    let content = b"The auth endpoint uses JWT tokens and caches sessions in Redis with a TTL.";
    let r = TopicTagger.tag("x.md", content, &empty_pr()).unwrap();
    assert!(r.tags.contains(&"topic:auth".to_string()));
    assert!(r.tags.contains(&"topic:caching".to_string()));
}

fn sample_entry(hash: &str) -> EnrichmentCache {
    EnrichmentCache {
        content_hash: hash.into(),
        tagger_config_hash: "cfg1".into(),
        results: vec![TaggerResult {
            tagger_name: "size".into(),
            tags: vec!["size:small".into()],
            confidence: None,
        }],
        timestamp: 1000,
    }
}

#[test]
fn round_trip() {
    let mut cache = InMemoryTaggerCache::new();
    let entry = sample_entry("abc123");
    cache.put(&entry).unwrap();
    let got = cache.get("abc123").unwrap().unwrap();
    assert_eq!(got.content_hash, "abc123");
    assert_eq!(got.results[0].tags, vec!["size:small"]);
}

#[test]
fn miss_returns_none() {
    let cache = InMemoryTaggerCache::new();
    assert!(cache.get("nonexistent").unwrap().is_none());
}

#[test]
fn config_hash_mismatch_still_returns_entry() {
    // Cache returns the entry regardless — the pipeline checks config_hash
    let mut cache = InMemoryTaggerCache::new();
    let entry = sample_entry("abc123");
    cache.put(&entry).unwrap();
    let got = cache.get("abc123").unwrap().unwrap();
    assert_eq!(got.tagger_config_hash, "cfg1");
}

#[test]
fn invalidate_removes_tagger_results() {
    let mut cache = InMemoryTaggerCache::new();
    let entry = EnrichmentCache {
        content_hash: "abc123".into(),
        tagger_config_hash: "cfg1".into(),
        results: vec![
            TaggerResult {
                tagger_name: "size".into(),
                tags: vec!["size:small".into()],
                confidence: None,
            },
            TaggerResult {
                tagger_name: "topic".into(),
                tags: vec!["topic:auth".into()],
                confidence: None,
            },
        ],
        timestamp: 1000,
    };
    cache.put(&entry).unwrap();
    cache.invalidate_tagger("size").unwrap();
    let got = cache.get("abc123").unwrap().unwrap();
    assert_eq!(got.results.len(), 1);
    assert_eq!(got.results[0].tagger_name, "topic");
}

#[test]
fn empty_pipeline_returns_no_tags() {
    let mut pipeline = TagPipeline::new(vec![], Box::new(InMemoryTaggerCache::new()));
    let result = pipeline
        .enrich(
            "test.md",
            b"hello",
            &empty_pr(),
            &SourceType::Obsidian,
        )
        .unwrap();
    assert!(result.is_empty());
}

#[test]
fn pipeline_returns_tagger_tags() {
    let tagger = FixedTagger {
        name: "mock".into(),
        tags: vec!["topic:auth".into(), "size:small".into()],
    };
    let mut pipeline = TagPipeline::new(
        vec![Box::new(tagger)],
        Box::new(InMemoryTaggerCache::new()),
    );
    let result = pipeline
        .enrich(
            "test.md",
            b"hello",
            &empty_pr(),
            &SourceType::Obsidian,
        )
        .unwrap();
    assert_eq!(result, vec!["topic:auth", "size:small"]);
}

#[test]
fn cache_hit_skips_tagger() {
    let tagger = FixedTagger {
        name: "mock".into(),
        tags: vec!["topic:auth".into()],
    };
    let cache = InMemoryTaggerCache::new();
    let mut pipeline = TagPipeline::new(vec![Box::new(tagger)], Box::new(cache));
    let path = "test.md";
    let content = b"hello world";
    let pr = empty_pr();

    // First call: cache miss, runs tagger
    let r1 = pipeline.enrich(path, content, &pr, &SourceType::Obsidian).unwrap();
    assert_eq!(r1, vec!["topic:auth"]);

    // Second call: same content → cache hit (tagger not re-run,
    // but returns same result from cache)
    let r2 = pipeline.enrich(path, content, &pr, &SourceType::Obsidian).unwrap();
    assert_eq!(r2, vec!["topic:auth"]);
}

#[test]
fn multiple_taggers_merge_results() {
    let t1 = FixedTagger {
        name: "size".into(),
        tags: vec!["size:small".into()],
    };
    let t2 = FixedTagger {
        name: "topic".into(),
        tags: vec!["topic:auth".into(), "topic:jwt".into()],
    };
    let mut pipeline = TagPipeline::new(
        vec![Box::new(t1), Box::new(t2)],
        Box::new(InMemoryTaggerCache::new()),
    );
    let result = pipeline
        .enrich(
            "test.md",
            b"hello",
            &empty_pr(),
            &SourceType::Obsidian,
        )
        .unwrap();
    assert_eq!(result, vec!["size:small", "topic:auth", "topic:jwt"]);
}

// ── More on taggers ──────────────────────────────────────────────

#[test]
fn sizes_change_at_their_limits() {
    let tag = |n: usize| SizeTagger.tag("x", &vec![b'x'; n], &empty_pr()).unwrap().tags;
    assert_eq!(tag(0), vec!["size:small"]);
    assert_eq!(tag(1023), vec!["size:small"]);
    assert_eq!(tag(10 * 1024 + 1), vec!["size:large"]);
}

#[test]
fn topics_do_not_depend_on_case() {
    let lower = TopicTagger.tag("x", b"jwt oauth login", &empty_pr()).unwrap();
    let upper = TopicTagger.tag("x", b"JWT OAUTH LOGIN", &empty_pr()).unwrap();
    assert_eq!(lower.tags, upper.tags);
    assert!(upper.tags.contains(&"topic:auth".to_string()));
}

#[test]
fn topics_are_found_in_broken_text() {
    let r = TopicTagger.tag("x", b"\xff jwt oauth login \xfe", &empty_pr()).unwrap();
    assert!(r.tags.contains(&"topic:auth".to_string()));
}

#[test]
fn builtin_taggers_have_their_names() {
    let p = TagPipeline::new(builtin_taggers(), Box::new(InMemoryTaggerCache::new()));
    assert_eq!(p.tagger_names(), vec!["size", "topic", "complexity"]);
}

#[test]
fn the_configuration_hash_depends_on_the_names() {
    let a = TagPipeline::new(builtin_taggers(), Box::new(InMemoryTaggerCache::new()));
    let b = TagPipeline::new(vec![], Box::new(InMemoryTaggerCache::new()));
    assert_ne!(a.config_hash(), b.config_hash());
    assert_eq!(
        a.config_hash(),
        TagPipeline::new(builtin_taggers(), Box::new(InMemoryTaggerCache::new())).config_hash()
    );
}

#[test]
fn tags_are_merged_in_order() {
    let result = |name: &str, tags: &[&str]| TaggerResult {
        tagger_name: name.to_string(),
        tags: tags.iter().map(|t| t.to_string()).collect(),
        confidence: None,
    };
    let merged = merge_tags(&vec![result("a", &["x", "y"]), result("b", &["y", "z"])]);
    assert_eq!(merged, vec!["x", "y", "y", "z"]);
}

#[test]
fn forgetting_keeps_rewrites_or_drops_an_entry() {
    assert!(matches!(forget_tagger(sample_entry("h"), "size"), CacheChange::Remove));
    assert!(matches!(forget_tagger(sample_entry("h"), "other"), CacheChange::Keep));
    let mut two = sample_entry("h");
    two.results.push(TaggerResult {
        tagger_name: "topic".into(),
        tags: vec![],
        confidence: None,
    });
    match forget_tagger(two, "size") {
        CacheChange::Rewrite(e) => assert_eq!(e.results.len(), 1),
        other => panic!("{other:?}"),
    }
}

#[test]
fn cache_files_are_named_by_hash() {
    let dir = cache_dir("/data");
    assert!(dir.starts_with("/data/"));
    assert_eq!(cache_file(&dir, "abc"), format!("{dir}/abc.json"));
}

#[test]
fn a_forced_pipeline_passes_the_cache_over() {
    let mut p = TagPipeline::new(builtin_taggers(), Box::new(InMemoryTaggerCache::new()))
        .with_force(true);
    let r = p.enrich("a.md", b"hello", &empty_pr(), &SourceType::Obsidian).unwrap();
    assert_eq!(r, vec!["size:small", "complexity:low"]);
    assert_eq!(p.enrich("a.md", b"hello", &empty_pr(), &SourceType::Obsidian).unwrap(), r);
}

#[test]
fn a_content_that_was_seen_is_answered_from_the_cache() {
    let mut p = TagPipeline::new(builtin_taggers(), Box::new(InMemoryTaggerCache::new()));
    p.enrich("a.md", b"hello", &pr_with_chunks(1, 1), &SourceType::Obsidian).unwrap();
    let again =
        p.enrich("b.md", b"hello", &pr_with_chunks(50, 9), &SourceType::Obsidian).unwrap();
    assert!(again.contains(&"complexity:low".to_string()));
}

#[test]
fn the_configuration_hash_tells_lists_of_names_apart() {
    let hash = |names: &[&str]| {
        let taggers: Vec<Box<dyn Tagger>> = names
            .iter()
            .map(|n| Box::new(FixedTagger { name: n.to_string(), tags: vec![] }) as Box<dyn Tagger>)
            .collect();
        TagPipeline::new(taggers, Box::new(InMemoryTaggerCache::new())).config_hash()
    };
    assert_ne!(hash(&["ab", "c"]), hash(&["a", "bc"]));
    assert_ne!(hash(&["a", "b"]), hash(&["b", "a"]));
    assert_ne!(hash(&["abc"]), hash(&["a", "b", "c"]));
    assert_ne!(hash(&[]), hash(&[""]));
    assert_eq!(hash(&["ab", "c"]), hash(&["ab", "c"]));
    assert_eq!(hash(&["ab", "c"]), blake3::hash(b"2:ab1:c").to_hex()[..16]);
}

#[test]
fn a_second_enrichment_gives_the_same_tags() {
    let mut p = TagPipeline::new(builtin_taggers(), Box::new(InMemoryTaggerCache::new()));
    let parsed = pr_with_chunks(3, 1);
    let content = b"# Login\njwt oauth login session\n";
    let first = p.enrich("/v/a.md", content, &parsed, &SourceType::Obsidian).unwrap();
    assert!(!first.is_empty());
    // The cache answers: neither the path nor the parse result is looked at again.
    let other = pr_with_chunks(200, 6);
    assert_eq!(p.enrich("/v/b.md", content, &other, &SourceType::Obsidian).unwrap(), first);
    let mut forced = p.with_force(true);
    assert_ne!(forced.enrich("/v/b.md", content, &other, &SourceType::Obsidian).unwrap(), first);
}
