//! Ingesting files: events, bulk indexing and compaction.

use locus::bitmap::{BitmapStore, InMemoryBitmapStore};
use locus::code::CodeParser;
use locus::commands::builtin_taggers;
use locus::enrich::{InMemoryTaggerCache, TagPipeline};
use locus::ignore::{ignore_globs, in_ignored_dir, IgnoreRules};
use locus::ingest::{
    bitmap_keys_for, folder_key, link_key, source_key, tag_key, type_key, visibility_key,
    IngestAction, IngestError, IngestResult, IngestionPipeline, SourceFile,
};
use locus::markdown::MarkdownParser;
use locus::parser::Parser;
use locus::query::{BitmapQueryEngine, Filter, QueryEngine, QueryRequest};
use locus::registry::{InMemoryRegistry, Registry};
use locus::types::{ChangeEvent, ChangeKind, DocType, SourceType, Visibility};

const SIMPLE: &str = "---\ntags: [work, rust]\n---\n# Introduction\nSee [[ProjectAlpha]].\n";

fn make_pipeline() -> IngestionPipeline {
    IngestionPipeline::new(
        vec![Box::new(MarkdownParser)],
        Box::new(InMemoryRegistry::new()),
        Box::new(InMemoryBitmapStore::new()),
    )
}

fn make_code_pipeline() -> IngestionPipeline {
    IngestionPipeline::new(
        vec![Box::new(MarkdownParser), Box::new(CodeParser::new())],
        Box::new(InMemoryRegistry::new()),
        Box::new(InMemoryBitmapStore::new()),
    )
}

fn event(path: &str, kind: ChangeKind) -> ChangeEvent {
    ChangeEvent { path: path.to_string(), kind }
}

fn process(
    p: &mut IngestionPipeline,
    path: &str,
    kind: ChangeKind,
    content: &str,
) -> Result<IngestResult, IngestError> {
    p.process_event(&event(path, kind), &Ok(content.as_bytes().to_vec()))
}

fn files(list: &[(&str, &str)]) -> Vec<SourceFile> {
    list.iter()
        .map(|(p, c)| SourceFile { path: p.to_string(), content: c.as_bytes().to_vec() })
        .collect()
}

fn found(engine: &BitmapQueryEngine, keys: &[&str]) -> u32 {
    let all = keys.iter().map(|k| Filter::Key(k.to_string())).collect();
    let request = QueryRequest { filter: Filter::And(all), limit: Some(50), offset: None };
    engine.query(request).unwrap().total_matching
}

fn engine_of(p: IngestionPipeline) -> BitmapQueryEngine {
    let (_parsers, registry, bitmap_store) = p.into_parts();
    BitmapQueryEngine::new(bitmap_store, registry)
}

// ── Events ───────────────────────────────────────────────────────

#[test]
fn test_created_indexes_doc_and_bitmaps() {
    let mut pipeline = make_pipeline();
    let result = process(&mut pipeline, "simple.md", ChangeKind::Created, SIMPLE).unwrap();
    assert_eq!(result.action, IngestAction::Indexed);
    assert!(result.bitmaps_updated > 0);
    let engine = engine_of(pipeline);
    for key in ["tag:work", "tag:rust", "link:ProjectAlpha", "source:obsidian"] {
        assert_eq!(found(&engine, &[key]), 1, "{key}");
    }
    assert_eq!(found(&engine, &["tag:other"]), 0);
}

#[test]
fn test_created_task_note() {
    let mut pipeline = make_pipeline();
    let content = "# T\n- [ ] a\n- [x] b\n- [ ] c\n- [ ] d\n";
    let result = process(&mut pipeline, "task-note.md", ChangeKind::Created, content).unwrap();
    assert_eq!(result.action, IngestAction::Indexed);
    assert_eq!(found(&engine_of(pipeline), &["type:task"]), 1);
}

#[test]
fn test_modified_unchanged_hash_skips() {
    let mut pipeline = make_pipeline();
    process(&mut pipeline, "simple.md", ChangeKind::Created, SIMPLE).unwrap();
    let result = process(&mut pipeline, "simple.md", ChangeKind::Modified, SIMPLE).unwrap();
    assert_eq!(result.action, IngestAction::Skipped);
    assert_eq!(result.bitmaps_updated, 0);
}

#[test]
fn test_modified_changed_content_updates() {
    let mut pipeline = make_pipeline();
    let before = "---\ntags: [a]\n---\n# Hello\nContent";
    let after = "---\ntags: [b]\n---\n# Hello\nNew content";
    process(&mut pipeline, "test.md", ChangeKind::Created, before).unwrap();
    let result = process(&mut pipeline, "test.md", ChangeKind::Modified, after).unwrap();
    assert_eq!(result.action, IngestAction::Updated);
    assert!(result.bitmaps_updated > 0);
    let engine = engine_of(pipeline);
    assert_eq!(found(&engine, &["tag:a"]), 0);
    assert_eq!(found(&engine, &["tag:b"]), 1);
}

#[test]
fn test_deleted_tombstones() {
    let mut pipeline = make_pipeline();
    process(&mut pipeline, "simple.md", ChangeKind::Created, SIMPLE).unwrap();
    let result = pipeline
        .process_event(&event("simple.md", ChangeKind::Deleted), &Err("gone".to_string()))
        .unwrap();
    assert_eq!(result.action, IngestAction::Tombstoned);
    assert_eq!(found(&engine_of(pipeline), &["tag:work"]), 0);
}

#[test]
fn test_renamed_updates_path() {
    let mut pipeline = make_pipeline();
    process(&mut pipeline, "/v/old.md", ChangeKind::Created, "# Test\nContent").unwrap();
    let renamed = ChangeKind::Renamed { from: "/v/old.md".to_string() };
    let result = process(&mut pipeline, "/v/new.md", renamed, "# Test\nContent").unwrap();
    assert_eq!(result.action, IngestAction::Moved);
    let (_, registry, _) = pipeline.into_parts();
    assert!(registry.lookup_by_path("/v/old.md").unwrap().is_none());
    assert_eq!(registry.lookup_by_path("/v/new.md").unwrap().unwrap().doc_id, 1);
}

#[test]
fn test_renamed_different_folder_updates_bitmaps() {
    let mut pipeline = make_pipeline();
    process(&mut pipeline, "/v/a/note.md", ChangeKind::Created, "# Test\nContent").unwrap();
    let renamed = ChangeKind::Renamed { from: "/v/a/note.md".to_string() };
    let result = process(&mut pipeline, "/v/b/note.md", renamed, "# Test\nContent").unwrap();
    assert_eq!(result.action, IngestAction::Moved);
    assert_eq!(result.bitmaps_updated, 2);
}

#[test]
fn test_no_parser_returns_error() {
    let mut pipeline = make_pipeline();
    let result = process(&mut pipeline, "test.txt", ChangeKind::Created, "hello");
    assert!(matches!(result, Err(IngestError::NoParser(_))));
}

#[test]
fn a_file_that_cannot_be_read_is_an_error() {
    let mut pipeline = make_pipeline();
    let result =
        pipeline.process_event(&event("a.md", ChangeKind::Created), &Err("denied".to_string()));
    match result {
        Err(e) => assert!(e.message().contains("denied"), "{}", e.message()),
        Ok(_) => panic!("accepted"),
    }
}

#[test]
fn a_file_that_cannot_be_parsed_is_an_error() {
    let mut pipeline = make_pipeline();
    let result = pipeline.process_event(&event("a.md", ChangeKind::Created), &Ok(vec![0xff]));
    assert!(matches!(result, Err(IngestError::Parse(_))));
}

#[test]
fn documents_are_upserted_by_their_path() {
    let mut pipeline = make_pipeline();
    let first = pipeline.upsert_document("a.md", SIMPLE.as_bytes().to_vec()).unwrap();
    assert_eq!(first.action, IngestAction::Indexed);
    let same = pipeline.upsert_document("a.md", SIMPLE.as_bytes().to_vec()).unwrap();
    assert_eq!(same.action, IngestAction::Skipped);
    let other = pipeline.upsert_document("a.md", b"# Other #new\n".to_vec()).unwrap();
    assert_eq!(other.action, IngestAction::Updated);
}

// ── Bulk indexing ────────────────────────────────────────────────

#[test]
fn test_bulk_index_fixtures() {
    let mut pipeline = make_pipeline();
    let list = files(&[
        ("/v/simple.md", SIMPLE),
        ("/v/task-note.md", "# T\n- [ ] a\n- [x] b\n- [ ] c\n"),
        ("/v/moc.md", "# M\n[[A]]\n[[B]]\n[[C]]\n[[D]]\n[[E]]\n"),
        ("/v/no-frontmatter.md", "# P\nA [[link]]\n"),
    ]);
    let result = pipeline.bulk_index("/v", &list, "").unwrap();
    assert!(result.docs_indexed >= 4);
    assert!(result.bitmaps_created > 0);
}

#[test]
fn test_bulk_index_temp_dir() {
    let mut pipeline = make_pipeline();
    let list = files(&[
        ("/v/a.md", "---\ntags: [x]\n---\n# A\nHello"),
        ("/v/b.md", "# B\nWorld"),
        ("/v/skip.txt", "not parsed"),
    ]);
    let result = pipeline.bulk_index("/v", &list, "").unwrap();
    assert_eq!(result.docs_indexed, 2);
    assert!(result.bitmaps_created > 0);
}

#[test]
fn indexing_again_changes_nothing() {
    let mut pipeline = make_pipeline();
    let list = files(&[("/v/a.md", SIMPLE), ("/v/b.md", "# B\n#tag\n")]);
    let first = pipeline.bulk_index("/v", &list, "").unwrap();
    assert_eq!((first.docs_indexed, first.docs_skipped), (2, 0));
    let again = pipeline.bulk_index("/v", &list, "").unwrap();
    assert_eq!(again.docs_indexed, 0);
    assert_eq!(again.docs_updated, 0);
    assert_eq!(again.docs_skipped, 2);
    assert_eq!(again.docs_tombstoned, 0);
}

#[test]
fn files_that_are_gone_are_no_longer_found() {
    let mut pipeline = make_pipeline();
    pipeline.bulk_index("/v", &files(&[("/v/a.md", SIMPLE), ("/v/b.md", SIMPLE)]), "").unwrap();
    let r = pipeline.bulk_index("/v", &files(&[("/v/a.md", SIMPLE)]), "").unwrap();
    assert_eq!(r.docs_tombstoned, 1);
    assert_eq!(found(&engine_of(pipeline), &["tag:work"]), 1);
}

#[test]
fn changed_files_move_between_keys_in_bulk() {
    let mut pipeline = make_pipeline();
    pipeline.bulk_index("/v", &files(&[("/v/a.md", "# A\n#old\n")]), "").unwrap();
    let r = pipeline.bulk_index("/v", &files(&[("/v/a.md", "# A\n#new\n")]), "").unwrap();
    assert_eq!(r.docs_updated, 1);
    let engine = engine_of(pipeline);
    assert_eq!(found(&engine, &["tag:old"]), 0);
    assert_eq!(found(&engine, &["tag:new"]), 1);
}

#[test]
fn documents_of_other_roots_stay() {
    let mut pipeline = make_pipeline();
    pipeline.bulk_index("/v", &files(&[("/v/a.md", SIMPLE)]), "").unwrap();
    pipeline.bulk_index("/w", &files(&[("/w/b.md", SIMPLE)]), "").unwrap();
    assert_eq!(found(&engine_of(pipeline), &["tag:work"]), 2);
}

// ── Compaction ───────────────────────────────────────────────────

#[test]
fn compaction_forgets_the_dead_and_keeps_the_rest() {
    let mut pipeline = make_pipeline();
    process(&mut pipeline, "/v/a.md", ChangeKind::Created, "# A\n#one #two\n").unwrap();
    process(&mut pipeline, "/v/b.md", ChangeKind::Created, "# B\n#two\n").unwrap();
    pipeline
        .process_event(&event("/v/a.md", ChangeKind::Deleted), &Err("gone".to_string()))
        .unwrap();
    let r = pipeline.compact().unwrap();
    assert_eq!(r.docs_removed, 1);
    // The event has taken the document out of its bitmaps already.
    assert_eq!(r.bitmaps_cleaned, 0);
    let (_, registry, bitmaps) = pipeline.into_parts();
    assert!(registry.lookup_by_path("/v/a.md").unwrap().is_none());
    assert!(registry.lookup_by_path("/v/b.md").unwrap().is_some());
    assert!(bitmaps.get("tag:one").unwrap().is_empty());
    assert_eq!(bitmaps.cardinality("tag:two").unwrap(), 1);
    assert!(bitmaps.get_tombstone().unwrap().is_empty());
}

#[test]
fn compaction_cleans_the_bitmaps_of_a_document_that_came_back() {
    let mut pipeline = make_pipeline();
    process(&mut pipeline, "/v/a.md", ChangeKind::Created, "# A\n#one #two\n").unwrap();
    process(&mut pipeline, "/v/b.md", ChangeKind::Created, "# B\n#two\n").unwrap();
    pipeline
        .process_event(&event("/v/a.md", ChangeKind::Deleted), &Err("gone".to_string()))
        .unwrap();
    process(&mut pipeline, "/v/a.md", ChangeKind::Modified, "# A again\n#one #two\n").unwrap();
    let r = pipeline.compact().unwrap();
    assert_eq!(r.docs_removed, 1);
    assert!(r.bitmaps_cleaned > 0);
    let (_, _, bitmaps) = pipeline.into_parts();
    assert!(!bitmaps.has_key("tag:one"));
    assert_eq!(bitmaps.cardinality("tag:two").unwrap(), 1);
}

#[test]
fn compacting_nothing_removes_nothing() {
    let mut pipeline = make_pipeline();
    process(&mut pipeline, "/v/a.md", ChangeKind::Created, SIMPLE).unwrap();
    let r = pipeline.compact().unwrap();
    assert_eq!((r.docs_removed, r.bitmaps_cleaned), (0, 0));
    assert_eq!(found(&engine_of(pipeline), &["tag:work"]), 1);
}

// ── What is ignored ──────────────────────────────────────────────

#[test]
fn test_default_ignored_dirs_skipped_in_bulk_index() {
    let mut pipeline = make_pipeline();
    let list = files(&[
        ("/v/note.md", "# Hello\nSome content"),
        ("/v/target/output.md", "# Target\nIgnored"),
        ("/v/node_modules/dep.md", "# Dep\nIgnored"),
        ("/v/.git/config.md", "# Git\nIgnored"),
    ]);
    let result = pipeline.bulk_index("/v", &list, "").unwrap();
    assert_eq!(result.docs_indexed, 1, "only note.md should be indexed");
}

#[test]
fn test_biemignore_file_excludes_patterns() {
    let mut pipeline = make_pipeline();
    let list = files(&[
        ("/v/note.md", "# Note\nContent"),
        ("/v/drafts/wip.md", "# WIP\nDraft"),
        ("/v/scratch.tmp.md", "# Temp"),
    ]);
    let result = pipeline.bulk_index("/v", &list, "drafts/\n*.tmp.md\n").unwrap();
    assert_eq!(result.docs_indexed, 1, "only note.md should be indexed");
}

#[test]
fn test_incremental_event_in_ignored_dir_is_skipped() {
    let mut pipeline = make_pipeline();
    let path = "/v/target/generated.md";
    let result = process(&mut pipeline, path, ChangeKind::Created, "# Generated\n").unwrap();
    assert_eq!(result.action, IngestAction::Skipped);
}

#[test]
fn ignore_rules_hold_below_their_root() {
    let rules = IgnoreRules::new("/v", "# comment\n\ndrafts/\n");
    assert!(rules.ignores("/v/drafts/a.md"));
    assert!(!rules.ignores("/v/notes/a.md"));
    assert!(rules.ignores("/v/target/a.md"));
    assert!(in_ignored_dir("/v/node_modules/x/a.md"));
    assert!(!in_ignored_dir("/v/targets/a.md"));
    assert!(ignore_globs("# only a comment\n\n").is_empty());
}

// ── Keys ─────────────────────────────────────────────────────────

#[test]
fn keys_of_a_document() {
    assert_eq!(tag_key("work", false), "tag:work");
    assert_eq!(tag_key("work", true), "tag:work");
    assert_eq!(tag_key("lang:rust", true), "lang:rust");
    assert_eq!(tag_key("lang:en", false), "tag:lang:en");
    assert_eq!(folder_key("/v/a/note.md"), "folder:/v/a");
    assert_eq!(link_key("Home", false), "link:Home");
    assert_eq!(link_key("serde", true), "import:serde");
    assert_eq!(type_key(DocType::TestFile), "type:test_file");
    assert_eq!(source_key(&SourceType::Custom("wiki".into())), "source:wiki");
    assert_eq!(visibility_key(Visibility::Public), "visibility:public");
    let parsed = MarkdownParser.parse("/v/a.md", SIMPLE.as_bytes()).unwrap();
    let keys = bitmap_keys_for("/v/a.md", &SourceType::Obsidian, &parsed);
    for k in ["tag:work", "tag:rust", "folder:/v", "link:ProjectAlpha", "source:obsidian"] {
        assert!(keys.contains(&k.to_string()), "{k} is missing from {keys:?}");
    }
}

#[test]
fn taggers_add_their_keys() {
    let taggers = TagPipeline::new(builtin_taggers(), Box::new(InMemoryTaggerCache::new()));
    let mut pipeline = make_pipeline().with_tag_pipeline(taggers);
    process(&mut pipeline, "/v/a.md", ChangeKind::Created, "# A\ntext\n").unwrap();
    let engine = engine_of(pipeline);
    let sizes = engine.list_filter_keys(None).unwrap();
    assert!(sizes.iter().any(|e| e.key.ends_with("size:small")));
    assert!(sizes.iter().any(|e| e.key.ends_with("complexity:low")));
}

// ── Code projects ────────────────────────────────────────────────

const LIB: &str = r#"use serde::Serialize;
use std::collections::HashMap;
use roaring::RoaringBitmap;

pub struct BitmapIndex {
    store: HashMap<String, RoaringBitmap>,
}

impl BitmapIndex {
    pub fn new() -> Self {
        Self { store: HashMap::new() }
    }

    pub fn insert(&mut self, key: &str, id: u32) {
        self.store.entry(key.to_string())
            .or_insert_with(RoaringBitmap::new)
            .insert(id);
    }

    pub fn intersect(&self, keys: &[&str]) -> RoaringBitmap {
        let mut result = RoaringBitmap::new();
        for (i, key) in keys.iter().enumerate() {
            if let Some(bm) = self.store.get(*key) {
                if i == 0 { result = bm.clone(); } else { result &= bm; }
            }
        }
        result
    }

    fn compact_internal(&mut self) {
        self.store.retain(|_, v| !v.is_empty());
    }
}

pub async fn process_batch(items: Vec<u32>) -> Vec<u32> {
    items.into_iter().map(|x| x * 2).collect()
}

pub const MAX_BATCH_SIZE: usize = 1000;
"#;

const LIB_TESTS: &str = r#"use super::BitmapIndex;

#[test]
fn test_insert_and_intersect() {
    let mut idx = BitmapIndex::new();
    idx.insert("a", 1);
    idx.insert("b", 1);
    let result = idx.intersect(&["a", "b"]);
    assert!(result.contains(1));
}
"#;

fn rust_project() -> IngestionPipeline {
    let mut pipeline = make_code_pipeline();
    let list = files(&[("/p/lib.rs", LIB), ("/p/tests/bitmap_tests.rs", LIB_TESTS)]);
    let result = pipeline.bulk_index("/p", &list, "").unwrap();
    assert!(result.docs_indexed > 0, "should index at least one doc");
    pipeline
}

#[test]
fn test_rust_lang_and_kind_filter() {
    let engine = engine_of(rust_project());
    assert!(found(&engine, &["lang:rust", "kind:function"]) > 0);
}

#[test]
fn test_rust_visibility_filter() {
    let engine = engine_of(rust_project());
    assert!(found(&engine, &["visibility:public", "kind:method"]) > 0);
    assert!(found(&engine, &["visibility:private"]) > 0, "should find private items");
}

#[test]
fn test_rust_import_filter() {
    let engine = engine_of(rust_project());
    assert!(found(&engine, &["import:roaring", "kind:method"]) > 0);
}

#[test]
fn test_rust_async_filter() {
    let engine = engine_of(rust_project());
    assert!(found(&engine, &["async:true"]) > 0, "should find async functions");
}

#[test]
fn test_rust_test_file_type() {
    let engine = engine_of(rust_project());
    assert!(found(&engine, &["type:test_file"]) > 0, "should find test files");
}

#[test]
fn test_chunk_labels_match_source() {
    let (_parsers, registry, _bitmap_store) = rust_project().into_parts();
    let docs = registry.list_all_docs().unwrap();
    let lib_doc = docs.iter().find(|d| d.file_path.ends_with("lib.rs")).unwrap();
    let chunks = registry.get_chunks(lib_doc.doc_id).unwrap();
    let labels: Vec<_> = chunks.iter().filter_map(|c| c.label.as_deref()).collect();
    assert!(labels.contains(&"BitmapIndex"), "should have struct label");
    assert!(labels.iter().any(|l| l.contains("new")), "should have new method");
    assert!(labels.iter().any(|l| l.contains("intersect")), "should have intersect method");
    assert!(labels.iter().any(|l| l.contains("process_batch")), "should have process_batch fn");
    assert!(labels.contains(&"MAX_BATCH_SIZE"), "should have constant label");
}

#[test]
fn test_chunk_byte_ranges_accurate() {
    let content = r#"pub fn hello() -> String {
    "hello".to_string()
}

pub fn world() -> &'static str {
    "world"
}
"#;
    let mut pipeline = make_code_pipeline();
    pipeline.bulk_index("/p", &files(&[("/p/funcs.rs", content)]), "").unwrap();
    let (_parsers, registry, _bitmap_store) = pipeline.into_parts();
    let docs = registry.list_all_docs().unwrap();
    let chunks = registry.get_chunks(docs[0].doc_id).unwrap();
    assert_eq!(chunks.len(), 2);
    for chunk in &chunks {
        let start = chunk.byte_start as usize;
        let end = chunk.byte_end as usize;
        assert!(end <= content.len(), "byte range should be within content");
        let extracted = &content[start..end];
        if let Some(ref label) = chunk.label {
            assert!(extracted.contains(label), "{label} should occur in: {extracted}");
        }
    }
}

#[test]
fn test_mixed_language_project() {
    let mut pipeline = make_code_pipeline();
    let list = files(&[
        ("/p/lib.rs", "pub fn rust_fn() -> u32 { 42 }\n"),
        ("/p/index.ts", "export function tsFn(): number { return 42; }\n"),
        ("/p/main.py", "def py_fn():\n    return 42\n"),
        ("/p/README.md", "# Project\nSome docs\n"),
    ]);
    let result = pipeline.bulk_index("/p", &list, "").unwrap();
    assert_eq!(result.docs_indexed, 4, "should index all 4 files");
    let (_parsers, _registry, bitmap_store) = pipeline.into_parts();
    assert!(!bitmap_store.get("lang:rust").unwrap().is_empty());
    assert!(!bitmap_store.get("lang:typescript").unwrap().is_empty());
    assert!(!bitmap_store.get("lang:python").unwrap().is_empty());
    assert!(!bitmap_store.get("source:obsidian").unwrap().is_empty());
}

#[test]
fn test_code_project_ignores_target_dir() {
    let mut pipeline = make_code_pipeline();
    let list = files(&[
        ("/p/lib.rs", "pub fn good() {}\n"),
        ("/p/target/debug/generated.rs", "fn bad() {}\n"),
    ]);
    let result = pipeline.bulk_index("/p", &list, "").unwrap();
    assert_eq!(result.docs_indexed, 1, "should only index lib.rs, not target/");
}

#[test]
fn test_parsing_throughput() {
    let list: Vec<SourceFile> = (0..100)
        .map(|i| SourceFile {
            path: format!("/p/mod_{i}.rs"),
            content: format!(
                "pub fn func_{i}(x: u32) -> u32 {{ x + {i} }}\n\
                 pub struct Type{i} {{ value: u32 }}\n\
                 impl Type{i} {{ pub fn new() -> Self {{ Self {{ value: {i} }} }} }}\n"
            )
            .into_bytes(),
        })
        .collect();
    let mut pipeline = make_code_pipeline();
    let result = pipeline.bulk_index("/p", &list, "").unwrap();
    assert_eq!(result.docs_indexed, 100);
    let files_per_sec =
        if result.duration_ms > 0 { 100_000 / result.duration_ms } else { 99_999 };
    assert!(files_per_sec > 100, "throughput should be reasonable ({files_per_sec} files/s)");
}

// ── The whole index ──────────────────────────────────────────────

fn contents(bitmaps: &dyn BitmapStore) -> Vec<(String, Vec<u32>)> {
    bitmaps
        .list_keys(None)
        .unwrap()
        .into_iter()
        .map(|k| (k.clone(), bitmaps.get(&k).unwrap().iter().collect()))
        .collect()
}

#[test]
fn indexing_again_with_taggers_changes_no_bitmap() {
    let list = files(&[
        ("/v/a.md", SIMPLE),
        ("/v/b.md", "# B\nJWT tokens and OAuth login.\n"),
        ("/v/c.md", SIMPLE),
    ]);
    for force in [false, true] {
        let taggers = TagPipeline::new(builtin_taggers(), Box::new(InMemoryTaggerCache::new()))
            .with_force(force);
        let mut once = make_pipeline().with_tag_pipeline(taggers);
        once.bulk_index("/v", &list, "").unwrap();
        let taggers = TagPipeline::new(builtin_taggers(), Box::new(InMemoryTaggerCache::new()))
            .with_force(force);
        let mut twice = make_pipeline().with_tag_pipeline(taggers);
        twice.bulk_index("/v", &list, "").unwrap();
        let again = twice.bulk_index("/v", &list, "").unwrap();
        assert_eq!(again.docs_skipped, 3);
        let (_, _, a) = once.into_parts();
        let (_, _, b) = twice.into_parts();
        assert_eq!(contents(a.as_ref()), contents(b.as_ref()));
    }
}

#[test]
fn bitmaps_hold_none_but_ids_that_were_given() {
    let mut pipeline = make_pipeline();
    pipeline.bulk_index("/v", &files(&[("/v/a.md", SIMPLE), ("/v/b.md", SIMPLE)]), "").unwrap();
    process(&mut pipeline, "/v/c.md", ChangeKind::Created, "# C\n#c\n").unwrap();
    pipeline
        .process_event(&event("/v/a.md", ChangeKind::Deleted), &Err("gone".to_string()))
        .unwrap();
    pipeline.compact().unwrap();
    let (_, registry, bitmaps) = pipeline.into_parts();
    let next = registry.get_global_state().unwrap().next_doc_id;
    for (key, ids) in contents(bitmaps.as_ref()) {
        assert!(ids.iter().all(|id| (1..next).contains(id)), "{key}: {ids:?}");
    }
}

#[test]
fn cached_results_can_be_read_back() {
    let taggers = TagPipeline::new(builtin_taggers(), Box::new(InMemoryTaggerCache::new()));
    let mut pipeline = make_pipeline().with_tag_pipeline(taggers);
    process(&mut pipeline, "/v/a.md", ChangeKind::Created, "# A\n").unwrap();
    let hash = blake3::hash(b"# A\n").to_hex().to_string();
    let entry = pipeline.cached_tags(b"# A\n").unwrap().unwrap();
    assert_eq!(entry.content_hash, hash);
    assert_eq!(entry.results[0].tags, vec!["size:small"]);
    assert!(pipeline.cached_tags(b"# B\n").unwrap().is_none());
    assert!(make_pipeline().cached_tags(b"# A\n").unwrap().is_none());
}

#[test]
fn registered_documents_are_followed_into_ignored_directories() {
    let mut pipeline = make_pipeline();
    process(&mut pipeline, "/v/a.md", ChangeKind::Created, "# A\n#a\n").unwrap();
    let moved = event("/v/target/a.md", ChangeKind::Renamed { from: "/v/a.md".to_string() });
    let gone: Result<Vec<u8>, String> = Err("gone".to_string());
    assert_eq!(pipeline.process_event(&moved, &gone).unwrap().action, IngestAction::Moved);
    let changed =
        process(&mut pipeline, "/v/target/a.md", ChangeKind::Modified, "# A\n#b\n").unwrap();
    assert_eq!(changed.action, IngestAction::Updated);
    let deleted = event("/v/target/a.md", ChangeKind::Deleted);
    assert_eq!(
        pipeline.process_event(&deleted, &gone).unwrap().action,
        IngestAction::Tombstoned
    );
    let unknown = event("/v/target/b.md", ChangeKind::Deleted);
    assert_eq!(pipeline.process_event(&unknown, &gone).unwrap().action, IngestAction::Skipped);
    let unknown = event("/v/target/c.md", ChangeKind::Renamed { from: "/v/c.md".to_string() });
    assert_eq!(pipeline.process_event(&unknown, &gone).unwrap().action, IngestAction::Skipped);
}

#[test]
fn a_vault_below_an_ignored_name_is_kept_up_to_date() {
    let mut pipeline = make_pipeline();
    let root = "/build/target/vault";
    let list = files(&[("/build/target/vault/a.md", "# A\n#a\n")]);
    assert_eq!(pipeline.bulk_index(root, &list, "").unwrap().docs_indexed, 1);
    let path = "/build/target/vault/a.md";
    let changed = process(&mut pipeline, path, ChangeKind::Modified, "# A\n#b\n").unwrap();
    assert_eq!(changed.action, IngestAction::Updated);
    let gone = event(path, ChangeKind::Deleted);
    let result = pipeline.process_event(&gone, &Err("gone".to_string())).unwrap();
    assert_eq!(result.action, IngestAction::Tombstoned);
}

#[test]
fn notes_about_languages_are_not_code() {
    let mut pipeline = make_code_pipeline();
    let note = "---\ntags: [\"lang:en\"]\n---\n# N\n[[Foo]]\n";
    process(&mut pipeline, "/v/n.md", ChangeKind::Created, note).unwrap();
    process(&mut pipeline, "/v/m.rs", ChangeKind::Created, "use std::fmt;\nfn f() {}\n").unwrap();
    let engine = engine_of(pipeline);
    assert_eq!(found(&engine, &["tag:lang:en", "link:Foo"]), 1);
    assert_eq!(found(&engine, &["lang:en"]), 0);
    assert_eq!(found(&engine, &["import:Foo"]), 0);
    assert_eq!(found(&engine, &["lang:rust", "kind:function"]), 1);
}

#[test]
fn files_before_one_that_fails_are_indexed() {
    let mut pipeline = make_pipeline();
    let list = files(&[
        ("/v/a.md", "# A\n#a\n"),
        ("/v/b.md", "---\ntags: [\n---\n# B\n"),
        ("/v/c.md", "# C\n#c\n"),
    ]);
    assert!(matches!(pipeline.bulk_index("/v", &list, ""), Err(IngestError::Parse(_))));
    let (_, registry, bitmaps) = pipeline.into_parts();
    assert!(registry.lookup_by_path("/v/a.md").unwrap().is_some());
    assert!(registry.lookup_by_path("/v/b.md").unwrap().is_none());
    assert!(registry.lookup_by_path("/v/c.md").unwrap().is_none());
    assert!(bitmaps.get("tag:a").unwrap().contains(1));
}
