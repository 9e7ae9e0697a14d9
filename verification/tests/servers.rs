//! What the servers answer.

use locus::base64::{base64_decode, base64_encode, Base64Error};
use locus::bitmap::{BitmapStore, InMemoryBitmapStore};
use locus::commands::{action_name, request_filter, search_filter};
use locus::graph::{
    Edge, EdgeCategory, GraphStore, InMemoryGraphStore, DEFAULT_DAMPING, DEFAULT_WEIGHT,
};
use locus::ingest::{IngestAction, IngestionPipeline};
use locus::markdown::MarkdownParser;
use locus::query::{BitmapQueryEngine, Filter, QueryEngine, QueryRequest};
use locus::registry::{InMemoryRegistry, NewDoc, Registry};
use locus::tools::{
    default_algorithm, default_direction, default_hops, default_k, default_limit, default_op,
    default_top_k, error_reply, graph_query, ingest_content, not_found_reply, webhook_content,
    GraphParams, GraphReply, RemoteIngestParams, SearchParams,
};
use locus::types::{DocType, SourceType};

fn make_engine() -> BitmapQueryEngine {
    let mut bitmap_store = InMemoryBitmapStore::new();
    let mut registry = InMemoryRegistry::new();
    let doc = |path: &str, byte: u8, auto_type: Option<DocType>| NewDoc {
        file_path: path.to_string(),
        source_type: SourceType::Obsidian,
        blake3_hash: [byte; 32],
        auto_type,
    };
    let d1 = registry.insert_doc(doc("/vault/work/task1.md", 1, Some(DocType::Task))).unwrap();
    let d2 = registry.insert_doc(doc("/vault/work/note1.md", 2, None)).unwrap();
    bitmap_store.insert_id("tag:work", d1).unwrap();
    bitmap_store.insert_id("tag:work", d2).unwrap();
    bitmap_store.insert_id("type:task", d1).unwrap();
    bitmap_store.insert_id("source:obsidian", d1).unwrap();
    bitmap_store.insert_id("source:obsidian", d2).unwrap();
    BitmapQueryEngine::new(Box::new(bitmap_store), Box::new(registry))
}

fn search(engine: &BitmapQueryEngine, params: SearchParams) -> (u32, usize) {
    let filter = search_filter(&params.filters, params.op == "or");
    let request = QueryRequest { filter, limit: Some(params.limit), offset: None };
    let r = engine.query(request).unwrap();
    (r.total_matching, r.matches.len())
}

fn params(filters: &[&str], op: &str) -> SearchParams {
    SearchParams {
        filters: filters.iter().map(|f| f.to_string()).collect(),
        op: op.to_string(),
        limit: 20,
    }
}

// ── Tools ────────────────────────────────────────────────────────

#[test]
fn mcp_test_search_returns_valid_json() {
    assert_eq!(search(&make_engine(), params(&["tag:work"], "and")), (2, 2));
}

#[test]
fn mcp_test_search_and_filter() {
    assert_eq!(search(&make_engine(), params(&["tag:work", "type:task"], "and")).0, 1);
}

#[test]
fn mcp_test_search_or_filter() {
    assert_eq!(search(&make_engine(), params(&["tag:work", "type:task"], "or")).0, 2);
}

#[test]
fn mcp_test_search_empty_filters_defaults_to_source_obsidian() {
    assert_eq!(search(&make_engine(), params(&[], "and")).0, 2);
}

#[test]
fn mcp_test_inspect_found() {
    let d = make_engine().inspect("/vault/work/task1.md").unwrap().unwrap();
    assert_eq!(d.source_type, "Obsidian");
    assert!(!d.bitmap_keys.is_empty());
}

#[test]
fn mcp_test_inspect_not_found() {
    let path = "/vault/nonexistent.md";
    assert!(make_engine().inspect(path).unwrap().is_none());
    let json: serde_json::Value = serde_json::from_str(&not_found_reply(path)).unwrap();
    assert_eq!(json["error"], "not found");
    assert_eq!(json["path"], path);
}

#[test]
fn mcp_test_status_returns_valid_json() {
    let s = make_engine().status().unwrap();
    assert_eq!(s.total_documents, 2);
    assert_eq!(s.total_bitmaps, 3);
    assert_eq!(s.tombstoned, 0);
}

#[test]
fn mcp_test_filters_all() {
    assert_eq!(make_engine().list_filter_keys(None).unwrap().len(), 3);
}

#[test]
fn mcp_test_filters_by_category() {
    let entries = make_engine().list_filter_keys(Some("tag")).unwrap();
    assert_eq!(entries.len(), 1);
    assert_eq!(entries[0].key, "tag:work");
    assert_eq!(entries[0].cardinality, 2);
}

fn graph_params(op: &str) -> GraphParams {
    GraphParams {
        operation: op.to_string(),
        doc_id: None,
        to_doc_id: None,
        hops: 1,
        direction: "outgoing".into(),
        algorithm: "pagerank".into(),
        k: 10,
    }
}

#[test]
fn test_graph_tool_returns_error_when_not_wired() {
    let m = graph_query(&graph_params("stats"), None).unwrap_err();
    let json: serde_json::Value = serde_json::from_str(&error_reply(&m)).unwrap();
    assert!(json["error"].is_string(), "expected error when graph not wired");
}

#[test]
fn test_graph_tool_any_op_without_engine_returns_error() {
    for op in ["bogus", "neighbours", "stats"] {
        assert!(graph_query(&graph_params(op), None).is_err(), "{op}");
    }
}

fn graph() -> InMemoryGraphStore {
    let mut g = InMemoryGraphStore::new();
    for (from, to) in [(1, 2), (2, 3), (3, 1), (1, 4)] {
        g.insert_edge(Edge {
            from,
            to,
            category: EdgeCategory::Reference,
            kind: "ref:wikilink".into(),
            weight: DEFAULT_WEIGHT,
            byte_offset: None,
            created_at: 0,
        })
        .unwrap();
    }
    g
}

#[test]
fn the_graph_tool_answers_each_operation() {
    let g = graph();
    let mut p = graph_params("neighbours");
    p.doc_id = Some(1);
    match graph_query(&p, Some(&g)).unwrap() {
        GraphReply::Neighbours { found } => {
            assert_eq!(found.iter().map(|f| f.0).collect::<Vec<_>>(), vec![2, 4]);
        }
        other => panic!("{other:?}"),
    }
    let mut p = graph_params("expand");
    p.doc_id = Some(2);
    p.hops = 2;
    match graph_query(&p, Some(&g)).unwrap() {
        GraphReply::Expanded { mut ids, .. } => {
            ids.sort();
            assert_eq!(ids, vec![1, 3]);
        }
        other => panic!("{other:?}"),
    }
    let mut p = graph_params("path");
    p.doc_id = Some(2);
    p.to_doc_id = Some(4);
    match graph_query(&p, Some(&g)).unwrap() {
        GraphReply::Path { path } => assert_eq!(path, vec![2, 3, 1, 4]),
        other => panic!("{other:?}"),
    }
    let mut p = graph_params("central");
    p.algorithm = "outdegree".into();
    match graph_query(&p, Some(&g)).unwrap() {
        GraphReply::Central { ranked } => assert_eq!(ranked[0], (1, 2)),
        other => panic!("{other:?}"),
    }
    match graph_query(&graph_params("central"), Some(&g)).unwrap() {
        GraphReply::PageRank { iterations, damping, k } => {
            assert_eq!((iterations, k), (100, 10));
            assert_eq!(damping, DEFAULT_DAMPING);
            assert_eq!(f32::from_bits(damping), 0.85);
        }
        other => panic!("{other:?}"),
    }
    match graph_query(&graph_params("stats"), Some(&g)).unwrap() {
        GraphReply::Stats { node_count, edge_count, by_category } => {
            assert_eq!((node_count, edge_count), (4, 4));
            assert_eq!(by_category, vec![("reference".to_string(), 4)]);
        }
        other => panic!("{other:?}"),
    }
}

#[test]
fn the_graph_tool_refuses_what_it_cannot_answer() {
    let g = graph();
    for (op, words) in [
        ("bogus", "unknown operation 'bogus'"),
        ("neighbours", "doc_id required for neighbours"),
    ] {
        let m = graph_query(&graph_params(op), Some(&g)).unwrap_err();
        assert!(m.starts_with(words), "{m}");
    }
    let mut p = graph_params("path");
    p.doc_id = Some(4);
    p.to_doc_id = Some(1);
    let m = graph_query(&p, Some(&g)).unwrap_err();
    assert!(m.contains("no path found between 4 and 1"), "{m}");
}

#[test]
fn parameters_have_defaults() {
    assert_eq!(default_op(), "and");
    assert_eq!(default_limit(), 20);
    assert_eq!(default_hops(), 1);
    assert_eq!(default_direction(), "outgoing");
    assert_eq!(default_algorithm(), "pagerank");
    assert_eq!(default_k(), 10);
    assert_eq!(default_top_k(), 10);
}

// ── Requests ─────────────────────────────────────────────────────

fn strings(v: &[&str]) -> Vec<String> {
    v.iter().map(|s| s.to_string()).collect()
}

fn count(filter: Filter) -> u32 {
    let request = QueryRequest { filter, limit: None, offset: None };
    make_engine().query(request).unwrap().total_matching
}

#[test]
fn requests_are_expressions_or_keys_or_everything() {
    let none: Vec<String> = Vec::new();
    let f = request_filter(Some("tag:work AND type:task"), &none, "and", &none).unwrap();
    assert_eq!(count(f), 1);
    let f = request_filter(None, &strings(&["tag:work", "type:task"]), "or", &none).unwrap();
    assert_eq!(count(f), 2);
    let f = request_filter(None, &none, "and", &strings(&["source:obsidian"])).unwrap();
    assert_eq!(count(f), 2);
    let f = request_filter(None, &none, "and", &none).unwrap();
    assert_eq!(count(f), 0);
    assert!(request_filter(Some("tag:work AND"), &none, "and", &none).is_err());
}

// ── Pushed documents ─────────────────────────────────────────────

fn push(p: &mut IngestionPipeline, content_b64: &str) -> Result<&'static str, String> {
    let content = webhook_content(content_b64)?;
    let r = p
        .upsert_document("/vault/remote/hello.md", content)
        .map_err(|e| e.message())?;
    Ok(action_name(r.action))
}

fn make_pipeline() -> IngestionPipeline {
    IngestionPipeline::new(
        vec![Box::new(MarkdownParser)],
        Box::new(InMemoryRegistry::new()),
        Box::new(InMemoryBitmapStore::new()),
    )
}

#[test]
fn test_webhook_ingest_new_document() {
    let mut p = make_pipeline();
    let md = base64_encode(b"# Hello\n\nThis is a test note.");
    assert_eq!(push(&mut p, &md), Ok("indexed"));
}

#[test]
fn test_webhook_ingest_idempotent() {
    let mut p = make_pipeline();
    let md = base64_encode(b"# Hello\n\nSame content.");
    push(&mut p, &md).unwrap();
    assert_eq!(push(&mut p, &md), Ok("skipped"));
}

#[test]
fn test_webhook_bad_base64() {
    let mut p = make_pipeline();
    let m = push(&mut p, "!!!not-base64!!!").unwrap_err();
    assert!(m.starts_with("invalid base64: "), "{m}");
    let params = RemoteIngestParams { path: "a.md".into(), content_b64: "!!!".into() };
    assert!(ingest_content(&params).unwrap_err().starts_with("invalid base64: "));
}

#[test]
fn test_base64_roundtrip() {
    let inputs = [
        b"".as_slice(),
        b"a",
        b"ab",
        b"abc",
        b"Hello, World!",
        b"\x00\xff\xfe",
    ];
    for input in inputs {
        let encoded = base64_encode(input);
        let decoded = base64_decode(&encoded).unwrap();
        assert_eq!(decoded, input, "roundtrip failed for {input:?}");
    }
}

#[test]
fn base64_of_known_texts() {
    assert_eq!(base64_encode(b"Hello, World!"), "SGVsbG8sIFdvcmxkIQ==");
    assert_eq!(base64_decode("SGVsbG8=").unwrap(), b"Hello");
    let e: Base64Error = base64_decode("SG*l").unwrap_err();
    assert!(e.message().contains('*'), "{}", e.message());
    assert!(!e.webhook_message().is_empty());
}

#[test]
fn actions_have_names() {
    assert_eq!(action_name(IngestAction::Indexed), "indexed");
    assert_eq!(action_name(IngestAction::Updated), "updated");
    assert_eq!(action_name(IngestAction::Skipped), "skipped");
    assert_eq!(action_name(IngestAction::Tombstoned), "tombstoned");
    assert_eq!(action_name(IngestAction::Moved), "moved");
}
