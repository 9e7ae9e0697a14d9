//! Queries over bitmaps and the registry.

use locus::bitmap::{BitmapError, BitmapStore, InMemoryBitmapStore};
use locus::query::{
    collect_leaf_keys, doc_type_name, kind_name, source_name, BitmapQueryEngine, Filter,
    QueryEngine, QueryError, QueryRequest,
};
use locus::registry::{InMemoryRegistry, NewChunk, NewDoc, Registry};
use locus::types::{ChunkKind, ChunkMetadata, DocType, SourceType};

fn make_query_engine() -> BitmapQueryEngine {
    let mut bitmap_store = InMemoryBitmapStore::new();
    let mut registry = InMemoryRegistry::new();

    let d1 = registry
        .insert_doc(NewDoc {
            file_path: "/vault/work/task1.md".to_string(),
            source_type: SourceType::Obsidian,
            blake3_hash: [1; 32],
            auto_type: Some(DocType::Task),
        })
        .unwrap();
    let d2 = registry
        .insert_doc(NewDoc {
            file_path: "/vault/work/note1.md".to_string(),
            source_type: SourceType::Obsidian,
            blake3_hash: [2; 32],
            auto_type: None,
        })
        .unwrap();
    let d3 = registry
        .insert_doc(NewDoc {
            file_path: "/vault/archive/old.md".to_string(),
            source_type: SourceType::Obsidian,
            blake3_hash: [3; 32],
            auto_type: None,
        })
        .unwrap();

    // Populate bitmaps
    bitmap_store.insert_id("tag:work", d1).unwrap();
    bitmap_store.insert_id("tag:work", d2).unwrap();
    bitmap_store.insert_id("tag:personal", d3).unwrap();
    bitmap_store.insert_id("type:task", d1).unwrap();
    bitmap_store.insert_id("folder:/vault/work", d1).unwrap();
    bitmap_store.insert_id("folder:/vault/work", d2).unwrap();
    bitmap_store.insert_id("folder:/vault/archive", d3).unwrap();
    bitmap_store.insert_id("source:obsidian", d1).unwrap();
    bitmap_store.insert_id("source:obsidian", d2).unwrap();
    bitmap_store.insert_id("source:obsidian", d3).unwrap();

    BitmapQueryEngine::new(Box::new(bitmap_store), Box::new(registry))
}

#[test]
fn test_single_key_filter() {
    let engine = make_query_engine();
    let result = engine
        .query(QueryRequest {
            filter: Filter::Key("tag:work".into()),
            limit: None,
            offset: None,
        })
        .unwrap();
    assert_eq!(result.total_matching, 2);
    assert_eq!(result.matches.len(), 2);
}

#[test]
fn test_and_filter() {
    let engine = make_query_engine();
    let result = engine
        .query(QueryRequest {
            filter: Filter::And(vec![
                Filter::Key("tag:work".into()),
                Filter::Key("type:task".into()),
            ]),
            limit: None,
            offset: None,
        })
        .unwrap();
    assert_eq!(result.total_matching, 1);
    assert_eq!(result.matches[0].file_path, "/vault/work/task1.md".to_string());
}

#[test]
fn test_or_filter() {
    let engine = make_query_engine();
    let result = engine
        .query(QueryRequest {
            filter: Filter::Or(vec![
                Filter::Key("tag:work".into()),
                Filter::Key("tag:personal".into()),
            ]),
            limit: None,
            offset: None,
        })
        .unwrap();
    assert_eq!(result.total_matching, 3);
}

#[test]
fn test_not_filter() {
    let engine = make_query_engine();
    let result = engine
        .query(QueryRequest {
            filter: Filter::Not(Box::new(Filter::Key("tag:work".into()))),
            limit: None,
            offset: None,
        })
        .unwrap();
    // 3 total docs - 2 with tag:work = 1
    assert_eq!(result.total_matching, 1);
    assert_eq!(result.matches[0].file_path, "/vault/archive/old.md".to_string());
}

#[test]
fn test_nested_compound_filter() {
    let engine = make_query_engine();
    // "work tasks that are NOT in archive"
    let result = engine
        .query(QueryRequest {
            filter: Filter::And(vec![
                Filter::Key("tag:work".into()),
                Filter::Not(Box::new(Filter::Key("folder:/vault/archive".into()))),
            ]),
            limit: None,
            offset: None,
        })
        .unwrap();
    assert_eq!(result.total_matching, 2);
}

#[test]
fn test_tombstoned_docs_excluded() {
    let mut bitmap_store = InMemoryBitmapStore::new();
    let mut registry = InMemoryRegistry::new();

    let d1 = registry
        .insert_doc(NewDoc {
            file_path: "/a.md".to_string(),
            source_type: SourceType::Obsidian,
            blake3_hash: [1; 32],
            auto_type: None,
        })
        .unwrap();
    let d2 = registry
        .insert_doc(NewDoc {
            file_path: "/b.md".to_string(),
            source_type: SourceType::Obsidian,
            blake3_hash: [2; 32],
            auto_type: None,
        })
        .unwrap();

    bitmap_store.insert_id("tag:x", d1).unwrap();
    bitmap_store.insert_id("tag:x", d2).unwrap();
    bitmap_store.tombstone(d1).unwrap();

    let engine = BitmapQueryEngine::new(Box::new(bitmap_store), Box::new(registry));
    let result = engine
        .query(QueryRequest {
            filter: Filter::Key("tag:x".into()),
            limit: None,
            offset: None,
        })
        .unwrap();
    assert_eq!(result.total_matching, 1);
    assert_eq!(result.matches[0].file_path, "/b.md".to_string());
}

#[test]
fn test_limit_and_offset() {
    let engine = make_query_engine();
    let result = engine
        .query(QueryRequest {
            filter: Filter::Key("source:obsidian".into()),
            limit: Some(1),
            offset: Some(1),
        })
        .unwrap();
    assert_eq!(result.total_matching, 3); // total before limit
    assert_eq!(result.matches.len(), 1); // limited to 1
}

#[test]
fn test_empty_result() {
    let engine = make_query_engine();
    let result = engine
        .query(QueryRequest {
            filter: Filter::Key("tag:nonexistent".into()),
            limit: None,
            offset: None,
        })
        .unwrap();
    assert_eq!(result.total_matching, 0);
    assert!(result.matches.is_empty());
}

#[test]
fn test_list_filters() {
    let engine = make_query_engine();
    // No catalog entries populated in this test, so empty
    let filters = engine.list_filters(None).unwrap();
    assert!(filters.is_empty());
}

#[test]
fn test_query_time_populated() {
    let engine = make_query_engine();
    let result = engine
        .query(QueryRequest {
            filter: Filter::Key("tag:work".into()),
            limit: None,
            offset: None,
        })
        .unwrap();
    // query_time_us should be set (may be 0 on very fast machines, but field exists)
    assert!(result.query_time_us < 1_000_000); // less than 1 second
}

// ── Laws on concrete values ──────────────────────────────────────

fn key(k: &str) -> Filter {
    Filter::Key(k.to_string())
}

fn not(f: Filter) -> Filter {
    Filter::Not(Box::new(f))
}

fn paths(engine: &BitmapQueryEngine, filter: Filter) -> Vec<String> {
    let request = QueryRequest { filter, limit: None, offset: None };
    engine.query(request).unwrap().matches.into_iter().map(|m| m.file_path).collect()
}

#[test]
fn a_double_negation_selects_what_is_known() {
    let e = make_query_engine();
    assert_eq!(paths(&e, not(not(key("tag:work")))), paths(&e, key("tag:work")));
}

#[test]
fn negation_swaps_all_and_some() {
    let e = make_query_engine();
    let all = Filter::And(vec![key("tag:work"), key("type:task")]);
    let some = Filter::Or(vec![not(key("tag:work")), not(key("type:task"))]);
    assert_eq!(paths(&e, not(all)), paths(&e, some));
}

#[test]
fn pages_put_together_are_the_whole_result() {
    let e = make_query_engine();
    let whole = paths(&e, key("source:obsidian"));
    let mut pages: Vec<String> = Vec::new();
    for offset in 0..4 {
        let request = QueryRequest {
            filter: key("source:obsidian"),
            limit: Some(1),
            offset: Some(offset),
        };
        pages.extend(e.query(request).unwrap().matches.into_iter().map(|m| m.file_path));
    }
    assert_eq!(pages, whole);
    assert_eq!(
        whole,
        vec!["/vault/work/task1.md", "/vault/work/note1.md", "/vault/archive/old.md"]
    );
}

#[test]
fn empty_compounds() {
    let e = make_query_engine();
    assert!(paths(&e, Filter::Or(vec![])).is_empty());
    assert!(paths(&e, Filter::And(vec![])).is_empty());
}

#[test]
fn matches_tell_the_keys_they_were_asked_for() {
    let e = make_query_engine();
    let request = QueryRequest {
        filter: Filter::And(vec![key("tag:work"), not(key("tag:personal"))]),
        limit: Some(1),
        offset: None,
    };
    let r = e.query(request).unwrap();
    assert_eq!(r.matches[0].source_type, "Obsidian");
    assert_eq!(r.matches[0].auto_type.as_deref(), Some("Task"));
    assert_eq!(r.matches[0].matched_filters, vec!["tag:work", "tag:personal"]);
    assert_eq!(r.matches[0].score, None);
}

#[test]
fn leaf_keys_are_collected_in_order() {
    let f = Filter::Or(vec![key("a"), not(key("b")), Filter::And(vec![key("c"), key("a")])]);
    assert_eq!(collect_leaf_keys(&f), vec!["a", "b", "c", "a"]);
}

#[test]
fn documents_are_inspected_by_path() {
    let e = make_query_engine();
    let d = e.inspect("/vault/work/task1.md").unwrap().unwrap();
    assert_eq!(d.doc_id, 1);
    assert_eq!(d.source_type, "Obsidian");
    assert_eq!(d.auto_type.as_deref(), Some("Task"));
    assert_eq!(d.blake3_hash, "01".repeat(32));
    assert_eq!(
        d.bitmap_keys,
        vec!["folder:/vault/work", "source:obsidian", "tag:work", "type:task"]
    );
    assert!(e.inspect("/vault/none.md").unwrap().is_none());
}

#[test]
fn the_status_counts() {
    let e = make_query_engine();
    let s = e.status().unwrap();
    assert_eq!(s.total_documents, 3);
    assert_eq!(s.total_bitmaps, 6);
    assert_eq!(s.tombstoned, 0);
    assert_eq!(s.next_doc_id, 4);
    assert_eq!(s.next_chunk_id, 1);
}

#[test]
fn filter_keys_are_listed_with_their_counts() {
    let e = make_query_engine();
    let tags = e.list_filter_keys(Some("tag")).unwrap();
    assert_eq!(tags.len(), 2);
    assert_eq!((tags[0].key.as_str(), tags[0].cardinality), ("tag:personal", 1));
    assert_eq!((tags[1].key.as_str(), tags[1].cardinality), ("tag:work", 2));
    assert_eq!(e.list_filter_keys(None).unwrap().len(), 6);
}

#[test]
fn chunks_of_a_match_are_listed() {
    let mut bitmaps = InMemoryBitmapStore::new();
    let mut registry = InMemoryRegistry::new();
    let id = registry
        .insert_doc(NewDoc {
            file_path: "a.md".into(),
            source_type: SourceType::Custom("wiki".into()),
            blake3_hash: [0; 32],
            auto_type: None,
        })
        .unwrap();
    let chunk = |depth: u8, start: u32, end: u32| NewChunk {
        doc_id: id,
        kind: ChunkKind::Section,
        byte_start: start,
        byte_end: end,
        label: None,
        depth,
        metadata: ChunkMetadata::default(),
    };
    registry.replace_chunks(id, vec![chunk(1, 0, 10), chunk(2, 10, 20)]).unwrap();
    bitmaps.insert_id("tag:a", id).unwrap();
    let e = BitmapQueryEngine::new(Box::new(bitmaps), Box::new(registry));
    let r = e
        .query(QueryRequest { filter: key("tag:a"), limit: None, offset: None })
        .unwrap();
    assert_eq!(r.matches[0].source_type, "Custom(\"wiki\")");
    assert_eq!(r.matches[0].chunks.len(), 2);
    assert_eq!(r.matches[0].chunks[1].byte_start, 10);
    assert_eq!(r.matches[0].chunks[0].kind, "Section");
}

#[test]
fn names_of_kinds() {
    assert_eq!(kind_name(ChunkKind::Frontmatter), "Frontmatter");
    assert_eq!(doc_type_name(DocType::TestFile), "TestFile");
    assert_eq!(source_name(&SourceType::Code), "Code");
    assert_eq!(source_name(&SourceType::Custom("a\"b".into())), "Custom(\"a\\\"b\")");
}

#[test]
fn query_error_messages() {
    assert_eq!(QueryError::UnknownFilter("k".into()).message(), "unknown bitmap key: k");
    assert_eq!(
        QueryError::Bitmap(BitmapError::Storage("x".into())).message(),
        "storage error: x"
    );
}

#[test]
fn pages_make_the_whole() {
    let engine = make_query_engine();
    let ask = |limit: Option<u32>, offset: Option<u32>| {
        let result = engine
            .query(QueryRequest { filter: Filter::Key("source:obsidian".into()), limit, offset })
            .unwrap();
        result.matches.iter().map(|m| m.doc_id).collect::<Vec<u32>>()
    };
    let whole = ask(None, None);
    assert_eq!(whole, vec![1, 2, 3]);
    for limit in 1..5 {
        let mut pages = Vec::new();
        let mut offset = 0;
        while offset < 6 {
            pages.extend(ask(Some(limit), Some(offset)));
            offset += limit;
        }
        assert_eq!(pages, whole);
    }
}
