//! The registry in memory.

use locus::registry::{
    BitmapCatalogEntry, InMemoryRegistry, NewChunk, NewDoc, Registry, RegistryError,
};
use locus::types::{BitmapCategory, ChunkKind, ChunkMetadata, DocId, DocType, SourceType};

fn make_doc(path: &str) -> NewDoc {
    NewDoc {
        file_path: path.to_string(),
        source_type: SourceType::Obsidian,
        blake3_hash: [0u8; 32],
        auto_type: None,
    }
}

fn make_chunk(doc_id: DocId) -> NewChunk {
    NewChunk {
        doc_id,
        kind: ChunkKind::Section,
        byte_start: 0,
        byte_end: 100,
        label: Some("Intro".into()),
        depth: 1,
        metadata: ChunkMetadata::default(),
    }
}

#[test]
fn insert_doc_assigns_monotonic_ids() {
    let mut r = InMemoryRegistry::new();
    let id1 = r.insert_doc(make_doc("a.md")).unwrap();
    let id2 = r.insert_doc(make_doc("b.md")).unwrap();
    assert_eq!(id1, 1);
    assert_eq!(id2, 2);
}

#[test]
fn lookup_by_path_round_trip() {
    let mut r = InMemoryRegistry::new();
    let id = r.insert_doc(make_doc("notes/a.md")).unwrap();
    let record = r.lookup_by_path("notes/a.md").unwrap().unwrap();
    assert_eq!(record.doc_id, id);
    assert_eq!(record.file_path, "notes/a.md".to_string());
}

#[test]
fn lookup_by_id_round_trip() {
    let mut r = InMemoryRegistry::new();
    let id = r.insert_doc(make_doc("a.md")).unwrap();
    let record = r.lookup_by_id(id).unwrap().unwrap();
    assert_eq!(record.doc_id, id);
}

#[test]
fn lookup_by_id_missing_returns_none() {
    let r = InMemoryRegistry::new();
    assert!(r.lookup_by_id(999).unwrap().is_none());
}

#[test]
fn bulk_insert_docs_returns_ids() {
    let mut r = InMemoryRegistry::new();
    let ids = r
        .bulk_insert_docs(vec![make_doc("a.md"), make_doc("b.md"), make_doc("c.md")])
        .unwrap();
    assert_eq!(ids, vec![1, 2, 3]);
}

#[test]
fn update_doc_modifies_fields() {
    let mut r = InMemoryRegistry::new();
    let id = r.insert_doc(make_doc("a.md")).unwrap();
    let new_hash = [1u8; 32];
    r.update_doc(id, new_hash, Some(DocType::Task)).unwrap();

    let record = r.lookup_by_id(id).unwrap().unwrap();
    assert_eq!(record.blake3_hash, new_hash);
    assert_eq!(record.auto_type, Some(DocType::Task));
}

#[test]
fn memory_update_doc_not_found() {
    let mut r = InMemoryRegistry::new();
    let result = r.update_doc(999, [0u8; 32], None);
    assert!(matches!(result, Err(RegistryError::NotFound(999))));
}

#[test]
fn update_path_handles_rename() {
    let mut r = InMemoryRegistry::new();
    let id = r.insert_doc(make_doc("old.md")).unwrap();
    r.update_path(id, "new.md".to_string()).unwrap();

    assert!(r.lookup_by_path("old.md").unwrap().is_none());
    let record = r.lookup_by_path("new.md").unwrap().unwrap();
    assert_eq!(record.doc_id, id);
}

#[test]
fn replace_chunks_deletes_old_inserts_new() {
    let mut r = InMemoryRegistry::new();
    let id = r.insert_doc(make_doc("a.md")).unwrap();

    let ids1 = r.replace_chunks(id, vec![make_chunk(id)]).unwrap();
    assert_eq!(ids1.len(), 1);

    let ids2 = r
        .replace_chunks(id, vec![make_chunk(id), make_chunk(id)])
        .unwrap();
    assert_eq!(ids2.len(), 2);
    // Old chunks replaced
    let chunks = r.get_chunks(id).unwrap();
    assert_eq!(chunks.len(), 2);
    assert_eq!(chunks[0].chunk_id, ids2[0]);
}

#[test]
fn get_chunks_empty_for_no_chunks() {
    let mut r = InMemoryRegistry::new();
    let id = r.insert_doc(make_doc("a.md")).unwrap();
    assert!(r.get_chunks(id).unwrap().is_empty());
}

#[test]
fn replace_chunks_not_found() {
    let mut r = InMemoryRegistry::new();
    let result = r.replace_chunks(999, vec![]);
    assert!(matches!(result, Err(RegistryError::NotFound(999))));
}

#[test]
fn memory_catalog_upsert_and_get() {
    let mut r = InMemoryRegistry::new();
    let entry = BitmapCatalogEntry {
        bitmap_key: "tag:work".into(),
        category: BitmapCategory::Tag,
        cardinality: 5,
        last_updated: 1000,
    };
    r.upsert_catalog_entry(entry.clone()).unwrap();
    let got = r.get_catalog_entry("tag:work").unwrap().unwrap();
    assert_eq!(got.cardinality, 5);
}

#[test]
fn catalog_get_missing_returns_none() {
    let r = InMemoryRegistry::new();
    assert!(r.get_catalog_entry("nope").unwrap().is_none());
}

#[test]
fn list_catalog_with_category_filter() {
    let mut r = InMemoryRegistry::new();
    r.upsert_catalog_entry(BitmapCatalogEntry {
        bitmap_key: "tag:a".into(),
        category: BitmapCategory::Tag,
        cardinality: 1,
        last_updated: 0,
    })
    .unwrap();
    r.upsert_catalog_entry(BitmapCatalogEntry {
        bitmap_key: "folder:/x".into(),
        category: BitmapCategory::Folder,
        cardinality: 2,
        last_updated: 0,
    })
    .unwrap();

    let tags = r.list_catalog(Some(BitmapCategory::Tag)).unwrap();
    assert_eq!(tags.len(), 1);
    assert_eq!(tags[0].bitmap_key, "tag:a");

    let all = r.list_catalog(None).unwrap();
    assert_eq!(all.len(), 2);
}

#[test]
fn get_global_state_reflects_counters() {
    let mut r = InMemoryRegistry::new();
    let state = r.get_global_state().unwrap();
    assert_eq!(state.next_doc_id, 1);
    assert_eq!(state.total_documents, 0);

    r.insert_doc(make_doc("a.md")).unwrap();
    r.insert_doc(make_doc("b.md")).unwrap();
    let state = r.get_global_state().unwrap();
    assert_eq!(state.next_doc_id, 3);
    assert_eq!(state.total_documents, 2);
}

#[test]
fn memory_duplicate_path_error() {
    let mut r = InMemoryRegistry::new();
    r.insert_doc(make_doc("a.md")).unwrap();
    let result = r.insert_doc(make_doc("a.md"));
    assert!(matches!(result, Err(RegistryError::DuplicatePath(_))));
}

#[test]
fn bulk_insert_duplicate_rolls_back_none() {
    let mut r = InMemoryRegistry::new();
    r.insert_doc(make_doc("a.md")).unwrap();
    // Second doc collides — whole bulk should fail
    let result = r.bulk_insert_docs(vec![make_doc("b.md"), make_doc("a.md")]);
    assert!(result.is_err());
}

#[test]
fn lookup_by_ids_returns_matching() {
    let mut r = InMemoryRegistry::new();
    let id1 = r.insert_doc(make_doc("a.md")).unwrap();
    let _id2 = r.insert_doc(make_doc("b.md")).unwrap();
    let id3 = r.insert_doc(make_doc("c.md")).unwrap();

    let results = r.lookup_by_ids(&[id1, id3, 999]).unwrap();
    assert_eq!(results.len(), 2);
}

#[test]
fn a_batch_with_a_repeated_path_leaves_nothing() {
    let mut r = InMemoryRegistry::new();
    match r.bulk_insert_docs(vec![make_doc("b.md"), make_doc("b.md")]) {
        Err(RegistryError::DuplicatePath(p)) => assert_eq!(p, "b.md"),
        other => panic!("{other:?}"),
    }
    assert!(r.lookup_by_path("b.md").unwrap().is_none());
    assert_eq!(r.get_global_state().unwrap().total_documents, 0);
    r.insert_doc(make_doc("a.md")).unwrap();
    assert!(r.bulk_insert_docs(vec![make_doc("c.md"), make_doc("a.md")]).is_err());
    assert!(r.lookup_by_path("c.md").unwrap().is_none());
    assert_eq!(r.bulk_insert_docs(vec![make_doc("c.md"), make_doc("d.md")]).unwrap(), vec![2, 3]);
}

#[test]
fn the_two_lookups_agree() {
    let mut r = InMemoryRegistry::new();
    let a = r.insert_doc(make_doc("a.md")).unwrap();
    let b = r.insert_doc(make_doc("b.md")).unwrap();
    r.update_path(a, "c.md".to_string()).unwrap();
    r.delete_doc(b).unwrap();
    assert!(r.lookup_by_path("a.md").unwrap().is_none());
    assert!(r.lookup_by_path("b.md").unwrap().is_none());
    assert_eq!(r.lookup_by_path("c.md").unwrap().unwrap().doc_id, a);
    assert_eq!(r.lookup_by_id(a).unwrap().unwrap().file_path, "c.md");
    assert!(r.lookup_by_id(b).unwrap().is_none());
}
