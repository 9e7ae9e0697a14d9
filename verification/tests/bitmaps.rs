//! Bitmap stores, and bitmaps as bytes.

use locus::bitmap::{
    deserialize, jaccard, serialize, BitmapError, BitmapStore, InMemoryBitmapStore,
};
use roaring::RoaringBitmap;

fn store() -> InMemoryBitmapStore {
    InMemoryBitmapStore::new()
}

#[test]
fn memory_put_get_round_trip() {
    let mut s = store();
    let mut bm = RoaringBitmap::new();
    bm.insert(1);
    bm.insert(42);
    s.put("tag:work", &bm).unwrap();

    let got = s.get("tag:work").unwrap();
    assert_eq!(got, bm);
}

#[test]
fn get_missing_key_returns_empty() {
    let s = store();
    let got = s.get("nonexistent").unwrap();
    assert!(got.is_empty());
}

#[test]
fn insert_id_into_existing_bitmap() {
    let mut s = store();
    let mut bm = RoaringBitmap::new();
    bm.insert(1);
    s.put("tag:work", &bm).unwrap();

    s.insert_id("tag:work", 2).unwrap();
    let got = s.get("tag:work").unwrap();
    assert!(got.contains(1));
    assert!(got.contains(2));
}

#[test]
fn insert_id_creates_bitmap_if_missing() {
    let mut s = store();
    s.insert_id("tag:new", 5).unwrap();
    let got = s.get("tag:new").unwrap();
    assert!(got.contains(5));
    assert_eq!(got.len(), 1);
}

#[test]
fn remove_id_removes_doc() {
    let mut s = store();
    s.insert_id("tag:work", 1).unwrap();
    s.insert_id("tag:work", 2).unwrap();
    s.remove_id("tag:work", 1).unwrap();

    let got = s.get("tag:work").unwrap();
    assert!(!got.contains(1));
    assert!(got.contains(2));
}

#[test]
fn remove_id_on_missing_key_is_noop() {
    let mut s = store();
    s.remove_id("nonexistent", 1).unwrap();
}

#[test]
fn memory_delete_removes_key() {
    let mut s = store();
    s.insert_id("tag:work", 1).unwrap();
    assert!(s.has_key("tag:work"));

    s.delete("tag:work").unwrap();
    assert!(!s.has_key("tag:work"));
    assert!(s.get("tag:work").unwrap().is_empty());
}

#[test]
fn exists_returns_correct_value() {
    let mut s = store();
    assert!(!s.has_key("tag:work"));
    s.insert_id("tag:work", 1).unwrap();
    assert!(s.has_key("tag:work"));
}

#[test]
fn bulk_put_writes_multiple() {
    let mut s = store();
    let mut bm1 = RoaringBitmap::new();
    bm1.insert(1);
    let mut bm2 = RoaringBitmap::new();
    bm2.insert(2);

    s.bulk_put(vec![
        ("tag:a".to_string(), bm1.clone()),
        ("tag:b".to_string(), bm2.clone()),
    ])
    .unwrap();

    assert_eq!(s.get("tag:a").unwrap(), bm1);
    assert_eq!(s.get("tag:b").unwrap(), bm2);
}

#[test]
fn memory_tombstone_round_trip() {
    let mut s = store();
    assert!(s.get_tombstone().unwrap().is_empty());

    s.tombstone(10).unwrap();
    s.tombstone(20).unwrap();

    let ts = s.get_tombstone().unwrap();
    assert!(ts.contains(10));
    assert!(ts.contains(20));
    assert_eq!(ts.len(), 2);
}

#[test]
fn list_keys_excludes_tombstone() {
    let mut s = store();
    s.insert_id("tag:a", 1).unwrap();
    s.tombstone(1).unwrap();

    let keys = s.list_keys(None).unwrap();
    assert_eq!(keys, vec!["tag:a".to_string()]);
}

#[test]
fn memory_list_keys_with_prefix() {
    let mut s = store();
    s.insert_id("tag:a", 1).unwrap();
    s.insert_id("tag:b", 2).unwrap();
    s.insert_id("folder:/projects", 3).unwrap();

    let mut keys = s.list_keys(Some("tag:")).unwrap();
    keys.sort();
    assert_eq!(keys, vec!["tag:a".to_string(), "tag:b".to_string()]);
}

#[test]
fn cardinality_returns_count() {
    let mut s = store();
    assert_eq!(s.cardinality("missing").unwrap(), 0);

    s.insert_id("tag:a", 1).unwrap();
    s.insert_id("tag:a", 2).unwrap();
    s.insert_id("tag:a", 3).unwrap();
    assert_eq!(s.cardinality("tag:a").unwrap(), 3);
}

// ── Bitmaps as bytes ─────────────────────────────────────────────

fn bitmap(ids: &[u32]) -> RoaringBitmap {
    ids.iter().copied().collect()
}

#[test]
fn bytes_give_the_bitmap_back() {
    for ids in [vec![], vec![0], vec![1, 42, 70_000, u32::MAX]] {
        let b = bitmap(&ids);
        assert_eq!(deserialize(&serialize(&b)).unwrap(), b);
    }
}

#[test]
fn large_bitmap_round_trip() {
    let mut bm = RoaringBitmap::new();
    for i in 0..10_000u32 {
        bm.insert(i);
    }
    let got = deserialize(&serialize(&bm)).unwrap();
    assert_eq!(got.len(), 10_000);
    assert_eq!(got, bm);
}

#[test]
fn bytes_in_another_format_are_refused() {
    match deserialize(b"not a bitmap") {
        Err(BitmapError::Serialization(m)) => assert_eq!(m, "unknown cookie value"),
        other => panic!("{other:?}"),
    }
    assert!(matches!(deserialize(&[]), Err(BitmapError::Serialization(_))));
}

#[test]
fn bitmap_error_messages() {
    assert_eq!(BitmapError::Storage("x".into()).message(), "storage error: x");
    assert_eq!(BitmapError::Serialization("y".into()).message(), "serialization error: y");
}

// ── Similarity ───────────────────────────────────────────────────

#[test]
fn jaccard_counts_shared_and_all() {
    assert_eq!(jaccard(&bitmap(&[1, 2, 3]), &bitmap(&[2, 3, 4, 5])), (2, 5));
    assert_eq!(jaccard(&bitmap(&[2, 3, 4, 5]), &bitmap(&[1, 2, 3])), (2, 5));
    assert_eq!(jaccard(&bitmap(&[7, 8]), &bitmap(&[7, 8])), (2, 2));
    assert_eq!(jaccard(&bitmap(&[]), &bitmap(&[])), (0, 0));
}

// ── More on stores ───────────────────────────────────────────────

#[test]
fn cleared_tombstones_are_gone() {
    let mut s = store();
    s.tombstone(3).unwrap();
    s.clear_tombstone().unwrap();
    assert!(s.get_tombstone().unwrap().is_empty());
}

#[test]
fn keys_are_listed_in_order() {
    let mut s = store();
    for k in ["tag:b", "folder:/x", "tag:a"] {
        s.insert_id(k, 1).unwrap();
    }
    assert_eq!(s.list_keys(None).unwrap(), vec!["folder:/x", "tag:a", "tag:b"]);
}
