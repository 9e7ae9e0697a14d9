//! Semantic search: candidates, vectors and ranking.

use locus::bitmap::{BitmapStore, InMemoryBitmapStore};
use locus::query::{BitmapQueryEngine, Filter};
use locus::registry::{InMemoryRegistry, NewChunk, NewDoc, Registry};
use locus::semantic::{
    best, EmbedError, Embedder, EmbeddingModel, EmbeddingVector, FastEmbedEmbedder,
    FastEmbedReranker, InMemoryVectorStore, IndexAction, RerankError, RerankerModel, ScoreSource,
    SemanticQueryRequest, UsearchVectorStore, VectorError, VectorStore,
};
use locus::types::{ChunkId, ChunkKind, ChunkMetadata, SourceType};

fn bits(v: &[f32]) -> Vec<u32> {
    v.iter().map(|x| x.to_bits()).collect()
}

fn cosine_similarity(a: &[f32], b: &[f32]) -> f32 {
    let dot: f32 = a.iter().zip(b.iter()).map(|(x, y)| x * y).sum();
    let norm_a: f32 = a.iter().map(|x| x * x).sum::<f32>().sqrt();
    let norm_b: f32 = b.iter().map(|x| x * x).sum::<f32>().sqrt();
    if norm_a == 0.0 || norm_b == 0.0 {
        return 0.0;
    }
    dot / (norm_a * norm_b)
}

fn search_within(
    store: &InMemoryVectorStore,
    query: &[f32],
    candidates: &[ChunkId],
    top_k: usize,
) -> Vec<(ChunkId, f32)> {
    let scored: Vec<(ChunkId, u32)> = store
        .searched(&candidates.to_vec())
        .into_iter()
        .map(|id| {
            let v: Vec<f32> =
                store.vector_of(id).unwrap().iter().map(|b| f32::from_bits(*b)).collect();
            (id, cosine_similarity(query, &v).to_bits())
        })
        .collect();
    best(&scored, top_k).into_iter().map(|(id, s)| (id, f32::from_bits(s))).collect()
}

// ── Vectors ──────────────────────────────────────────────────────

#[test]
fn upsert_and_search_round_trip() {
    let mut store = InMemoryVectorStore::new();
    store.upsert(1, bits(&[1.0, 0.0, 0.0]));
    store.upsert(2, bits(&[0.0, 1.0, 0.0]));
    store.upsert(3, bits(&[0.9, 0.1, 0.0]));
    let results = search_within(&store, &[1.0, 0.0, 0.0], &[1, 2, 3], 2);
    assert_eq!(results.len(), 2);
    assert_eq!(results[0].0, 1);
    assert_eq!(results[1].0, 3);
    assert!((results[0].1 - 1.0).abs() < 0.001);
}

#[test]
fn search_within_respects_candidate_set() {
    let mut store = InMemoryVectorStore::new();
    store.upsert(1, bits(&[1.0, 0.0]));
    store.upsert(2, bits(&[1.0, 0.0]));
    store.upsert(3, bits(&[0.0, 1.0]));
    let results = search_within(&store, &[1.0, 0.0], &[1, 3], 10);
    assert_eq!(results.len(), 2);
    assert!(results.iter().all(|(id, _)| *id != 2));
}

#[test]
fn delete_removes_from_results() {
    let mut store = InMemoryVectorStore::new();
    store.upsert(1, bits(&[1.0, 0.0]));
    store.upsert(2, bits(&[0.0, 1.0]));
    store.delete(1);
    let results = search_within(&store, &[1.0, 0.0], &[1, 2], 10);
    assert_eq!(results.len(), 1);
    assert_eq!(results[0].0, 2);
}

#[test]
fn empty_candidates_returns_empty() {
    let mut store = InMemoryVectorStore::new();
    store.upsert(1, bits(&[1.0, 0.0]));
    assert!(search_within(&store, &[1.0, 0.0], &[], 10).is_empty());
}

#[test]
fn memory_upsert_overwrites() {
    let mut store = InMemoryVectorStore::new();
    store.upsert(1, bits(&[1.0, 0.0]));
    store.upsert(1, bits(&[0.0, 1.0]));
    assert_eq!(store.size(), 1);
    let results = search_within(&store, &[0.0, 1.0], &[1], 1);
    assert_eq!(results.len(), 1);
    assert!((results[0].1 - 1.0).abs() < 0.001);
}

// ── Ranking ──────────────────────────────────────────────────────

#[test]
fn the_best_come_first_and_equals_keep_their_order() {
    let s = |id: u32, score: f32| (id, score.to_bits());
    let ranked = best(
        &vec![s(1, 0.5), s(2, -0.5), s(3, 0.9), s(4, 0.5), s(5, 0.0), s(6, -0.0), s(7, -0.9)],
        10,
    );
    let ids: Vec<u32> = ranked.iter().map(|r| r.0).collect();
    assert_eq!(ids, vec![3, 1, 4, 5, 6, 2, 7]);
}

#[test]
fn ranking_agrees_with_the_order_of_floats() {
    let scores = [3.5f32, -1.0, 0.25, f32::INFINITY, -7.25, 1e-40, f32::NEG_INFINITY, 2.0];
    let scored: Vec<(u32, u32)> =
        scores.iter().enumerate().map(|(i, s)| (i as u32, s.to_bits())).collect();
    let mut expected: Vec<f32> = scores.to_vec();
    expected.sort_by(|a, b| b.partial_cmp(a).unwrap());
    let got: Vec<f32> = best(&scored, 8).iter().map(|r| f32::from_bits(r.1)).collect();
    assert_eq!(got, expected);
    assert_eq!(best(&scored, 3).len(), 3);
    assert!(best(&scored, 0).is_empty());
}

// ── Queries ──────────────────────────────────────────────────────

/// Vectors that follow from the length of the text.
struct FakeEmbedder;

impl Embedder for FakeEmbedder {
    fn embed(&self, texts: &Vec<String>) -> Result<Vec<EmbeddingVector>, EmbedError> {
        Ok(texts
            .iter()
            .map(|t| {
                let len = t.len() as f32;
                bits(&[len.sin(), len.cos(), (len * 0.5).sin(), (len * 0.5).cos()])
            })
            .collect())
    }

    fn width(&self) -> usize {
        4
    }

    fn dimension(&self) -> usize {
        4
    }
}

/// An embedder that never works.
struct BrokenEmbedder;

impl Embedder for BrokenEmbedder {
    fn embed(&self, _texts: &Vec<String>) -> Result<Vec<EmbeddingVector>, EmbedError> {
        Err(EmbedError::Model("no model".into()))
    }

    fn width(&self) -> usize {
        4
    }

    fn dimension(&self) -> usize {
        4
    }
}

struct Vectors(InMemoryVectorStore);

impl VectorStore for Vectors {
    fn upsert(&mut self, chunk_id: ChunkId, vector: &EmbeddingVector) -> Result<(), VectorError> {
        self.0.upsert(chunk_id, vector.clone());
        Ok(())
    }

    fn delete(&mut self, chunk_id: ChunkId) -> Result<(), VectorError> {
        self.0.delete(chunk_id);
        Ok(())
    }

    fn search_within(
        &self,
        query: &EmbeddingVector,
        candidate_chunk_ids: &Vec<ChunkId>,
        top_k: usize,
    ) -> Result<Vec<(ChunkId, u32)>, VectorError> {
        let query: Vec<f32> = query.iter().map(|b| f32::from_bits(*b)).collect();
        Ok(search_within(&self.0, &query, candidate_chunk_ids, top_k)
            .into_iter()
            .map(|(id, s)| (id, s.to_bits()))
            .collect())
    }
}

fn request(key: &str, query_text: &str) -> SemanticQueryRequest {
    SemanticQueryRequest {
        filter: Filter::Key(key.to_string()),
        query_text: query_text.to_string(),
        top_k: 10,
        rerank: false,
    }
}

#[test]
fn test_end_to_end_semantic_query() {
    let mut registry = InMemoryRegistry::new();
    let mut bitmap_store = InMemoryBitmapStore::new();
    let mut vector_store = Vectors(InMemoryVectorStore::new());
    let embedder = FakeEmbedder;
    let doc = |path: &str, byte: u8| NewDoc {
        file_path: path.to_string(),
        source_type: SourceType::Obsidian,
        blake3_hash: [byte; 32],
        auto_type: None,
    };
    let d1 = registry.insert_doc(doc("/vault/project-plan.md", 1)).unwrap();
    let d2 = registry.insert_doc(doc("/vault/diary.md", 2)).unwrap();
    bitmap_store.insert_id("tag:work", d1).unwrap();
    bitmap_store.insert_id("tag:personal", d2).unwrap();
    bitmap_store.insert_id("source:obsidian", d1).unwrap();
    bitmap_store.insert_id("source:obsidian", d2).unwrap();
    let chunk = |doc_id: u32, start: u32, end: u32, label: &str, depth: u8| NewChunk {
        doc_id,
        kind: ChunkKind::Section,
        byte_start: start,
        byte_end: end,
        label: Some(label.to_string()),
        depth,
        metadata: ChunkMetadata::default(),
    };
    let d1_chunks = registry
        .replace_chunks(
            d1,
            vec![chunk(d1, 0, 100, "Project Plan", 1), chunk(d1, 100, 200, "Timeline", 2)],
        )
        .unwrap();
    let d2_chunks =
        registry.replace_chunks(d2, vec![chunk(d2, 0, 150, "Dear Diary", 1)]).unwrap();
    let texts: Vec<String> =
        ["Project Plan", "Timeline", "Dear Diary"].iter().map(|s| s.to_string()).collect();
    let vectors = embedder.embed(&texts).unwrap();
    vector_store.upsert(d1_chunks[0], &vectors[0]).unwrap();
    vector_store.upsert(d1_chunks[1], &vectors[1]).unwrap();
    vector_store.upsert(d2_chunks[0], &vectors[2]).unwrap();
    let engine = BitmapQueryEngine::new(Box::new(bitmap_store), Box::new(registry));

    let result = engine
        .semantic_query(&request("tag:work", "project planning"), &embedder, &vector_store)
        .unwrap();
    assert_eq!(result.bitmap_candidates, 1, "bitmap should match 1 doc");
    assert_eq!(result.vector_searched, 2, "d1 has 2 chunks");
    assert_eq!(result.pointers.len(), 2, "should return both chunks from d1");
    let score = |i: usize| f32::from_bits(result.pointers[i].score);
    assert!(score(0) >= score(1));
    assert!(result.pointers.iter().all(|p| p.pointer.file_path == "/vault/project-plan.md"));

    let result2 = engine
        .semantic_query(&request("source:obsidian", "diary entry"), &embedder, &vector_store)
        .unwrap();
    assert_eq!(result2.bitmap_candidates, 2);
    assert_eq!(result2.vector_searched, 3);
    assert_eq!(result2.pointers.len(), 3);

    let nothing = request("tag:nonexistent", "anything");
    let result3 = engine.semantic_query(&nothing, &embedder, &vector_store).unwrap();
    assert_eq!(result3.bitmap_candidates, 0);
    assert_eq!(result3.vector_searched, 0);
    assert!(result3.pointers.is_empty());

    // No vector is asked for where there is nothing to search.
    assert!(engine.semantic_query(&nothing, &BrokenEmbedder, &vector_store).is_ok());
    match engine.semantic_query(&request("tag:work", "x"), &BrokenEmbedder, &vector_store) {
        Err(e) => assert_eq!(e.message(), "semantic error: embedding model error: no model"),
        Ok(_) => panic!("accepted"),
    }
}

#[test]
fn a_document_without_chunks_needs_no_vector() {
    let mut registry = InMemoryRegistry::new();
    let mut bitmaps = InMemoryBitmapStore::new();
    let id = registry
        .insert_doc(NewDoc {
            file_path: "a.md".to_string(),
            source_type: SourceType::Obsidian,
            blake3_hash: [0; 32],
            auto_type: None,
        })
        .unwrap();
    bitmaps.insert_id("tag:a", id).unwrap();
    let engine = BitmapQueryEngine::new(Box::new(bitmaps), Box::new(registry));
    let vectors = Vectors(InMemoryVectorStore::new());
    let r = engine.semantic_query(&request("tag:a", "x"), &BrokenEmbedder, &vectors).unwrap();
    assert_eq!(r.bitmap_candidates, 1);
    assert_eq!(r.vector_searched, 0);
    assert!(r.pointers.is_empty());
}

#[test]
fn at_most_so_many_chunks_are_returned_best_first() {
    let mut registry = InMemoryRegistry::new();
    let mut bitmaps = InMemoryBitmapStore::new();
    let mut vectors = Vectors(InMemoryVectorStore::new());
    let id = registry
        .insert_doc(NewDoc {
            file_path: "a.md".to_string(),
            source_type: SourceType::Obsidian,
            blake3_hash: [0; 32],
            auto_type: None,
        })
        .unwrap();
    bitmaps.insert_id("tag:a", id).unwrap();
    let chunk = |start: u32| NewChunk {
        doc_id: id,
        kind: ChunkKind::Section,
        byte_start: start,
        byte_end: start + 1,
        label: None,
        depth: 1,
        metadata: ChunkMetadata::default(),
    };
    let ids = registry.replace_chunks(id, vec![chunk(0), chunk(1), chunk(2)]).unwrap();
    let wanted = FakeEmbedder.embed(&vec!["four".to_string()]).unwrap().remove(0);
    vectors.upsert(ids[2], &wanted).unwrap();
    vectors.upsert(ids[0], &bits(&[-1.0, 0.5, 0.0, 0.0])).unwrap();
    vectors.upsert(ids[1], &bits(&[0.0, 0.0, 1.0, 0.0])).unwrap();
    let engine = BitmapQueryEngine::new(Box::new(bitmaps), Box::new(registry));
    let mut ask = request("tag:a", "four");
    ask.top_k = 1;
    let r = engine.semantic_query(&ask, &FakeEmbedder, &vectors).unwrap();
    assert_eq!(r.vector_searched, 3);
    assert_eq!(r.pointers.len(), 1);
    assert_eq!(r.pointers[0].chunk_id, ids[2]);
}

#[test]
fn candidates_are_the_chunks_of_the_selected_documents() {
    let mut registry = InMemoryRegistry::new();
    let mut bitmaps = InMemoryBitmapStore::new();
    for (i, path) in ["a.md", "b.md"].iter().enumerate() {
        let id = registry
            .insert_doc(NewDoc {
                file_path: path.to_string(),
                source_type: SourceType::Obsidian,
                blake3_hash: [i as u8; 32],
                auto_type: None,
            })
            .unwrap();
        bitmaps.insert_id(&format!("doc:{i}"), id).unwrap();
        let chunk = |start: u32| NewChunk {
            doc_id: id,
            kind: ChunkKind::Section,
            byte_start: start,
            byte_end: start + 1,
            label: None,
            depth: 1,
            metadata: ChunkMetadata::default(),
        };
        registry.replace_chunks(id, vec![chunk(0), chunk(1)]).unwrap();
    }
    let engine = BitmapQueryEngine::new(Box::new(bitmaps), Box::new(registry));
    let c = engine.semantic_candidates(&request("doc:1", "x")).unwrap();
    assert_eq!(c.docs, vec![2]);
    assert_eq!(c.chunks, vec![3, 4]);
    let ranked = vec![(4, 0.5f32.to_bits()), (99, 0.4f32.to_bits())];
    let p = engine
        .semantic_pointers(&request("doc:1", "x"), &ranked, &ScoreSource::CosineSimilarity)
        .unwrap();
    assert_eq!(p.len(), 1);
    assert_eq!(p[0].chunk_id, 4);
    assert_eq!(p[0].pointer.file_path, "b.md");
}

#[test]
fn vectors_are_as_long_as_the_dimension_says() {
    let e = FastEmbedEmbedder::with_model(EmbeddingModel::Other {
        name: "m".to_string(),
        dimension: 2,
    })
    .unwrap();
    let texts = vec!["a".to_string(), "b".to_string()];
    let good = vec![bits(&[1.0, 0.0]), bits(&[0.0, 1.0])];
    assert_eq!(e.embedded(&texts, good.clone()).unwrap(), good);
    assert!(e.embedded(&texts, vec![bits(&[1.0, 0.0])]).is_err());
    assert!(matches!(
        e.embedded(&texts, vec![bits(&[1.0, 0.0]), bits(&[1.0])]),
        Err(EmbedError::Model(_))
    ));
    assert!(e.embedded(&vec![], vec![]).unwrap().is_empty());
}

// ── The index on disk ────────────────────────────────────────────

#[test]
fn a_new_vector_is_added() {
    let mut store = UsearchVectorStore::new("/d/vectors.usearch", 3, 0);
    assert_eq!(store.path(), "/d/vectors.usearch");
    assert_eq!(store.dimensions(), 3);
    let room = UsearchVectorStore::initial_capacity();
    assert_eq!(store.upsert(false, room), vec![IndexAction::Insert]);
    assert_eq!(store.size(), 1);
}

#[test]
fn usearch_upsert_overwrites() {
    let mut store = UsearchVectorStore::new("/d/vectors.usearch", 3, 1);
    assert_eq!(store.upsert(true, 100), vec![IndexAction::Remove, IndexAction::Insert]);
    assert_eq!(store.size(), 1);
}

#[test]
fn room_is_made_before_it_runs_out() {
    let mut store = UsearchVectorStore::new("/d/vectors.usearch", 3, 9);
    assert_eq!(store.upsert(false, 10), vec![IndexAction::Reserve(21), IndexAction::Insert]);
}

#[test]
fn delete_removes_vector() {
    let mut store = UsearchVectorStore::new("/d/vectors.usearch", 3, 1);
    assert!(store.is_searchable(&vec![1]));
    assert_eq!(store.delete(true), Some(IndexAction::Remove));
    assert_eq!(store.size(), 0);
    assert_eq!(store.delete(false), None);
    assert!(!store.is_searchable(&vec![1]));
}

// ── Models ───────────────────────────────────────────────────────

#[test]
fn models_have_their_dimensions_and_names() {
    assert_eq!(FastEmbedEmbedder::new().unwrap().dimension, 384);
    let base = FastEmbedEmbedder::with_model(EmbeddingModel::BGEBaseENV15).unwrap();
    assert_eq!(base.dimension, 768);
    let mini = FastEmbedEmbedder::with_model(EmbeddingModel::AllMiniLML6V2).unwrap();
    assert_eq!(mini.dimension, 384);
    let other = EmbeddingModel::Other { name: "some/model".to_string(), dimension: 1024 };
    assert_eq!(FastEmbedEmbedder::with_model(other).unwrap().dimension, 1024);
    assert_eq!(FastEmbedReranker::new().unwrap().model_name(), "BGERerankerBase");
    assert_eq!(
        FastEmbedReranker::with_model(RerankerModel::BGERerankerV2M3).unwrap().model_name(),
        "BGERerankerV2M3"
    );
}

#[test]
fn semantic_error_messages() {
    assert_eq!(EmbedError::Model("x".into()).message(), "embedding model error: x");
    assert_eq!(EmbedError::Io("x".into()).message(), "I/O error: x");
    assert_eq!(VectorError::Store("x".into()).message(), "vector store error: x");
    assert_eq!(VectorError::Io("x".into()).message(), "I/O error: x");
    assert_eq!(RerankError::Model("x".into()).message(), "reranker error: x");
}

#[test]
fn the_size_follows_a_run_of_changes() {
    let mut store = UsearchVectorStore::new("/d/vectors.usearch", 3, 0);
    let mut held = std::collections::BTreeSet::new();
    for (id, added) in [(1, true), (2, true), (1, true), (3, false), (2, false), (4, true)] {
        let known = held.contains(&id);
        if added {
            store.upsert(known, 100);
            held.insert(id);
        } else {
            assert_eq!(store.delete(known).is_some(), known);
            held.remove(&id);
        }
        assert_eq!(store.size(), held.len());
    }
    assert_eq!(store.size(), 2);
    assert_eq!(store.dimensions(), 3);
}
