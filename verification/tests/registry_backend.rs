//! The registry behind its trait.

use locus::registry::{
    BitmapCatalogEntry, InMemoryRegistry, NewChunk, NewDoc, Registry, RegistryError,
};
use locus::types::{BitmapCategory, ChunkKind, ChunkMetadata, DocType, SourceType};

fn open_registry() -> Box<dyn Registry> {
    Box::new(InMemoryRegistry::new())
}

fn make_doc(path: &str) -> NewDoc {
    NewDoc {
        file_path: path.to_string(),
        source_type: SourceType::Obsidian,
        blake3_hash: [0u8; 32],
        auto_type: None,
    }
}

fn make_chunk(doc_id: u32) -> NewChunk {
    NewChunk {
        doc_id,
        kind: ChunkKind::Section,
        byte_start: 0,
        byte_end: 100,
        label: Some("Intro".into()),
        depth: 1,
        metadata: ChunkMetadata::default(),
    }
}

#[test]
fn insert_and_lookup_by_path() {
    let mut r = open_registry();
    let id = r.insert_doc(make_doc("a.md")).unwrap();
    let record = r.lookup_by_path("a.md").unwrap().unwrap();
    assert_eq!(record.doc_id, id);
}

#[test]
fn insert_and_lookup_by_id() {
    let mut r = open_registry();
    let id = r.insert_doc(make_doc("a.md")).unwrap();
    let record = r.lookup_by_id(id).unwrap().unwrap();
    assert_eq!(record.file_path, "a.md".to_string());
}

#[test]
fn monotonic_ids() {
    let mut r = open_registry();
    let id1 = r.insert_doc(make_doc("a.md")).unwrap();
    let id2 = r.insert_doc(make_doc("b.md")).unwrap();
    assert_eq!(id1, 1);
    assert_eq!(id2, 2);
}

#[test]
fn duckdb_tests_duplicate_path_error() {
    let mut r = open_registry();
    r.insert_doc(make_doc("a.md")).unwrap();
    let result = r.insert_doc(make_doc("a.md"));
    assert!(matches!(result, Err(RegistryError::DuplicatePath(_))));
}

#[test]
fn bulk_insert() {
    let mut r = open_registry();
    let ids = r
        .bulk_insert_docs(vec![make_doc("a.md"), make_doc("b.md")])
        .unwrap();
    assert_eq!(ids, vec![1, 2]);
}

#[test]
fn update_doc_fields() {
    let mut r = open_registry();
    let id = r.insert_doc(make_doc("a.md")).unwrap();
    let new_hash = [1u8; 32];
    r.update_doc(id, new_hash, Some(DocType::Task)).unwrap();

    let record = r.lookup_by_id(id).unwrap().unwrap();
    assert_eq!(record.blake3_hash, new_hash);
    assert_eq!(record.auto_type, Some(DocType::Task));
}

#[test]
fn duckdb_tests_update_doc_not_found() {
    let mut r = open_registry();
    assert!(matches!(
        r.update_doc(999, [0u8; 32], None),
        Err(RegistryError::NotFound(999))
    ));
}

#[test]
fn update_path_rename() {
    let mut r = open_registry();
    let id = r.insert_doc(make_doc("old.md")).unwrap();
    r.update_path(id, "new.md".to_string()).unwrap();

    assert!(r.lookup_by_path("old.md").unwrap().is_none());
    assert!(r.lookup_by_path("new.md").unwrap().is_some());
}

#[test]
fn replace_and_get_chunks() {
    let mut r = open_registry();
    let id = r.insert_doc(make_doc("a.md")).unwrap();

    let ids1 = r.replace_chunks(id, vec![make_chunk(id)]).unwrap();
    assert_eq!(ids1.len(), 1);

    let ids2 = r
        .replace_chunks(id, vec![make_chunk(id), make_chunk(id)])
        .unwrap();
    assert_eq!(ids2.len(), 2);

    let chunks = r.get_chunks(id).unwrap();
    assert_eq!(chunks.len(), 2);
    assert_eq!(chunks[0].chunk_id, ids2[0]);
}

#[test]
fn duckdb_tests_catalog_upsert_and_get() {
    let mut r = open_registry();
    r.upsert_catalog_entry(BitmapCatalogEntry {
        bitmap_key: "tag:work".into(),
        category: BitmapCategory::Tag,
        cardinality: 5,
        last_updated: 1000,
    })
    .unwrap();

    let entry = r.get_catalog_entry("tag:work").unwrap().unwrap();
    assert_eq!(entry.cardinality, 5);
}

#[test]
fn list_catalog_with_filter() {
    let mut r = open_registry();
    r.upsert_catalog_entry(BitmapCatalogEntry {
        bitmap_key: "tag:a".into(),
        category: BitmapCategory::Tag,
        cardinality: 1,
        last_updated: 0,
    })
    .unwrap();
    r.upsert_catalog_entry(BitmapCatalogEntry {
        bitmap_key: "folder:/x".into(),
        category: BitmapCategory::Folder,
        cardinality: 2,
        last_updated: 0,
    })
    .unwrap();

    let tags = r.list_catalog(Some(BitmapCategory::Tag)).unwrap();
    assert_eq!(tags.len(), 1);

    let all = r.list_catalog(None).unwrap();
    assert_eq!(all.len(), 2);
}

#[test]
fn global_state() {
    let mut r = open_registry();
    let state = r.get_global_state().unwrap();
    assert_eq!(state.next_doc_id, 1);
    assert_eq!(state.total_documents, 0);

    r.insert_doc(make_doc("a.md")).unwrap();
    let state = r.get_global_state().unwrap();
    assert_eq!(state.next_doc_id, 2);
    assert_eq!(state.total_documents, 1);
}

#[test]
fn lookup_by_ids() {
    let mut r = open_registry();
    let id1 = r.insert_doc(make_doc("a.md")).unwrap();
    let _id2 = r.insert_doc(make_doc("b.md")).unwrap();
    let id3 = r.insert_doc(make_doc("c.md")).unwrap();

    let results = r.lookup_by_ids(&[id1, id3, 999]).unwrap();
    assert_eq!(results.len(), 2);
}

#[test]
fn schema_idempotent() {
    // Two registries do not share their documents.
    let mut r1 = open_registry();
    let r2 = open_registry();
    r1.insert_doc(make_doc("a.md")).unwrap();
    assert!(r2.lookup_by_path("a.md").unwrap().is_none());
}

#[test]
fn deleted_documents_are_gone_with_their_chunks() {
    let mut r = open_registry();
    let id = r.insert_doc(make_doc("a.md")).unwrap();
    let chunk = r.replace_chunks(id, vec![make_chunk(id)]).unwrap()[0];
    r.delete_doc(id).unwrap();
    assert!(r.lookup_by_id(id).unwrap().is_none());
    assert!(r.lookup_by_path("a.md").unwrap().is_none());
    assert!(r.get_chunks(id).unwrap().is_empty());
    assert_eq!(r.doc_for_chunk(chunk).unwrap(), None);
    assert!(matches!(r.delete_doc(id), Err(RegistryError::NotFound(_))));
    // Identifiers are never given twice.
    assert_eq!(r.insert_doc(make_doc("a.md")).unwrap(), id + 1);
}

#[test]
fn chunks_lead_back_to_their_document() {
    let mut r = open_registry();
    let a = r.insert_doc(make_doc("a.md")).unwrap();
    let b = r.insert_doc(make_doc("b.md")).unwrap();
    let of_a = r.replace_chunks(a, vec![make_chunk(a), make_chunk(a)]).unwrap();
    let of_b = r.replace_chunks(b, vec![make_chunk(b)]).unwrap();
    assert_eq!(r.doc_for_chunk(of_a[1]).unwrap(), Some(a));
    assert_eq!(r.doc_for_chunk(of_b[0]).unwrap(), Some(b));
    assert_eq!(r.doc_for_chunk(999).unwrap(), None);
    assert_eq!(r.chunk_range(a).unwrap(), Some((of_a[0], of_a[1])));
    assert_eq!(r.chunk_range(999).unwrap(), None);
    let both = r.get_chunks_for_docs(&[b, a]).unwrap();
    let ids: Vec<u32> = both.iter().map(|c| c.chunk_id).collect();
    assert_eq!(ids, vec![of_a[0], of_a[1], of_b[0]]);
}

#[test]
fn a_path_that_is_taken_is_refused_on_rename() {
    let mut r = open_registry();
    let a = r.insert_doc(make_doc("a.md")).unwrap();
    assert!(matches!(
        r.update_path(77, "c.md".to_string()),
        Err(RegistryError::NotFound(77))
    ));
    r.update_path(a, "b.md".to_string()).unwrap();
    assert_eq!(r.lookup_by_path("b.md").unwrap().unwrap().doc_id, a);
}

#[test]
fn registry_error_messages() {
    assert_eq!(RegistryError::NotFound(7).message(), "document not found: 7");
    assert_eq!(RegistryError::DuplicatePath("a.md".into()).message(), "path already registered: a.md");
    assert_eq!(RegistryError::Database("x".into()).message(), "database error: x");
}

#[test]
fn all_documents_are_listed_in_order() {
    let mut r = open_registry();
    r.insert_doc(make_doc("z.md")).unwrap();
    r.insert_doc(make_doc("a.md")).unwrap();
    let paths: Vec<String> =
        r.list_all_docs().unwrap().into_iter().map(|d| d.file_path).collect();
    assert_eq!(paths, vec!["z.md", "a.md"]);
}

#[test]
fn stored_documents_are_taken_in_with_their_ids() {
    let mut r = InMemoryRegistry::new();
    let a = r.insert_doc(make_doc("a.md")).unwrap();
    r.insert_doc(make_doc("b.md")).unwrap();
    r.replace_chunks(a, vec![make_chunk(a), make_chunk(a)]).unwrap();
    let ids = r.replace_chunks(a, vec![make_chunk(a)]).unwrap();
    let state = r.get_global_state().unwrap();

    let mut s = InMemoryRegistry::new();
    for d in r.list_all_docs().unwrap() {
        let chunks = r.get_chunks(d.doc_id).unwrap();
        s.restore_doc(d, chunks).unwrap();
    }
    s.raise_counters(state.next_doc_id, state.next_chunk_id);
    assert_eq!(s.get_global_state().unwrap(), state);
    assert_eq!(s.lookup_by_path("a.md").unwrap().unwrap().doc_id, a);
    assert_eq!(s.doc_for_chunk(ids[0]).unwrap(), Some(a));
}

#[test]
fn stored_documents_that_do_not_fit_are_refused() {
    let mut r = InMemoryRegistry::new();
    let a = r.insert_doc(make_doc("a.md")).unwrap();
    r.replace_chunks(a, vec![make_chunk(a)]).unwrap();
    let record = r.lookup_by_id(a).unwrap().unwrap();
    let chunks = r.get_chunks(a).unwrap();
    assert!(r.restore_doc(record, chunks).is_err());
    let mut other = r.lookup_by_id(a).unwrap().unwrap();
    other.doc_id = 9;
    let mut theirs = r.get_chunks(a).unwrap();
    theirs[0].doc_id = 9;
    // Chunk ids belong to one document only.
    assert!(r.restore_doc(other, theirs).is_err());
}
