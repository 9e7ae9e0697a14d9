//! Bitmaps of document ids, and the store that holds one for each key.

use roaring::RoaringBitmap;
use vstd::prelude::*;

use crate::keymap::KeyMap;
use crate::text;
use crate::types::{BitmapKey, DocId};

verus! {

// ── Roaring bitmaps ─────────────────────────────────────────────────────────

/// `roaring::RoaringBitmap`, a compressed set of 32-bit integers.
#[verifier::external_type_specification]
#[verifier::external_body]
pub struct ExRoaringBitmap(roaring::RoaringBitmap);

/// The integers that a bitmap holds.
pub uninterp spec fn ids(b: RoaringBitmap) -> Set<u32>;

/// `RoaringBitmap::new` makes an empty bitmap.
pub assume_specification[ RoaringBitmap::new ]() -> (r: RoaringBitmap)
    ensures
        ids(r) == Set::<u32>::empty(),
;

/// `RoaringBitmap::insert` adds a value, and tells whether it was absent.
pub assume_specification[ RoaringBitmap::insert ](b: &mut RoaringBitmap, value: u32) -> (r: bool)
    ensures
        ids(*final(b)) == ids(*old(b)).insert(value),
        r == !ids(*old(b)).contains(value),
;

/// `RoaringBitmap::remove` takes a value out, and tells whether it was present.
pub assume_specification[ RoaringBitmap::remove ](b: &mut RoaringBitmap, value: u32) -> (r: bool)
    ensures
        ids(*final(b)) == ids(*old(b)).remove(value),
        r == ids(*old(b)).contains(value),
;

/// `RoaringBitmap::contains` tells whether a value is present.
pub assume_specification[ RoaringBitmap::contains ](b: &RoaringBitmap, value: u32) -> (r: bool)
    ensures
        r == ids(*b).contains(value),
;

/// `RoaringBitmap::is_empty` tells whether no value is present.
pub assume_specification[ RoaringBitmap::is_empty ](b: &RoaringBitmap) -> (r: bool)
    ensures
        r == (ids(*b) == Set::<u32>::empty()),
;

/// `RoaringBitmap::len` counts the values.
pub assume_specification[ RoaringBitmap::len ](b: &RoaringBitmap) -> (r: u64)
    ensures
        r == ids(*b).len(),
;

/// `RoaringBitmap::intersection_len` counts the values that two bitmaps share.
pub assume_specification[ RoaringBitmap::intersection_len ](
    a: &RoaringBitmap,
    b: &RoaringBitmap,
) -> (r: u64)
    ensures
        r == ids(*a).intersect(ids(*b)).len(),
;

/// `RoaringBitmap::union_len` counts the values that either of two bitmaps holds.
pub assume_specification[ RoaringBitmap::union_len ](
    a: &RoaringBitmap,
    b: &RoaringBitmap,
) -> (r: u64)
    ensures
        r == ids(*a).union(ids(*b)).len(),
;

/// `RoaringBitmap::clone` copies a bitmap.
pub assume_specification[ <RoaringBitmap as Clone>::clone ](b: &RoaringBitmap) -> (r: RoaringBitmap)
    ensures
        ids(r) == ids(*b),
;

/// The `|` of two roaring bitmaps: the values that either holds.
#[verifier::external_body]
pub(crate) fn bitmap_or(a: &RoaringBitmap, b: &RoaringBitmap) -> (r: RoaringBitmap)
    ensures
        ids(r) == ids(*a).union(ids(*b)),
{
    a | b
}

/// The `&` of two roaring bitmaps: the values that both hold.
#[verifier::external_body]
pub(crate) fn bitmap_and(a: &RoaringBitmap, b: &RoaringBitmap) -> (r: RoaringBitmap)
    ensures
        ids(r) == ids(*a).intersect(ids(*b)),
{
    a & b
}

/// The `-` of two roaring bitmaps: the values that only the first holds.
#[verifier::external_body]
pub(crate) fn bitmap_minus(a: &RoaringBitmap, b: &RoaringBitmap) -> (r: RoaringBitmap)
    ensures
        ids(r) == ids(*a).difference(ids(*b)),
{
    a - b
}

/// `RoaringBitmap::iter`: every value once, in ascending order.
#[verifier::external_body]
pub(crate) fn bitmap_values(b: &RoaringBitmap) -> (r: Vec<u32>)
    ensures
        r@.to_set() == ids(*b),
        forall|i: int, j: int| 0 <= i < j < r@.len() ==> #[trigger] r@[i] < #[trigger] r@[j],
{
    b.iter().collect()
}

/// The Jaccard similarity of two bitmaps as a fraction: the number of values that they share,
/// and the number of those that either holds. Both are 0 where both bitmaps are empty.
pub fn jaccard(a: &RoaringBitmap, b: &RoaringBitmap) -> (r: (u64, u64))
    ensures
        r.0 == ids(*a).intersect(ids(*b)).len(),
        r.1 == ids(*a).union(ids(*b)).len(),
{
    (a.intersection_len(b), a.union_len(b))
}

/// Similarity does not depend on the order of the two sets, never exceeds one, and is one for
/// equal sets.
pub proof fn law_jaccard(a: Set<u32>, b: Set<u32>)
    requires
        a.finite(),
        b.finite(),
    ensures
        a.intersect(b).len() == b.intersect(a).len(),
        a.union(b).len() == b.union(a).len(),
        a.intersect(b).len() <= a.union(b).len(),
        a == b ==> a.intersect(b).len() == a.union(b).len(),
{
    assert(a.intersect(b) =~= b.intersect(a));
    assert(a.union(b) =~= b.union(a));
    assert(a.intersect(b).subset_of(a.union(b)));
    vstd::set_lib::lemma_len_subset(a.intersect(b), a.union(b));
    if a == b {
        assert(a.intersect(b) =~= a.union(b));
    }
}

// ── Stores ──────────────────────────────────────────────────────────────────

/// Errors from bitmap store operations.
#[derive(Debug)]
pub enum BitmapError {
    Storage(String),
    Serialization(String),
}

/// The message of a bitmap error.
pub open spec fn bitmap_error_message(e: BitmapError) -> Seq<char> {
    match e {
        BitmapError::Storage(m) => "storage error: "@ + m@,
        BitmapError::Serialization(m) => "serialization error: "@ + m@,
    }
}

impl BitmapError {
    /// The message of the error.
    pub fn message(&self) -> (r: String)
        ensures
            r@ == bitmap_error_message(*self),
    {
        match self {
            BitmapError::Storage(m) => text::concat("storage error: ", m.as_str()),
            BitmapError::Serialization(m) => text::concat("serialization error: ", m.as_str()),
        }
    }
}

// ── Stored bitmaps ──────────────────────────────────────────────────────────

/// The values that the portable format of roaring bitmaps holds in some bytes, or the message
/// of the error where the bytes are not in that format.
pub uninterp spec fn stored_values(bytes: Seq<u8>) -> Result<Seq<u32>, Seq<char>>;

/// The set that some bytes stand for, or the message of the error.
pub open spec fn stored_ids(bytes: Seq<u8>) -> Result<Set<u32>, Seq<char>> {
    match stored_values(bytes) {
        Ok(v) => Ok(v.to_set()),
        Err(m) => Err(m),
    }
}

/// Whether some bytes stand for a set.
pub open spec fn are_stored(bytes: Seq<u8>, s: Set<u32>) -> bool {
    stored_ids(bytes) == Ok::<Set<u32>, Seq<char>>(s)
}

/// A result with its values and its message taken by their views.
pub open spec fn plain_result(r: Result<Vec<u32>, String>) -> Result<Seq<u32>, Seq<char>> {
    match r {
        Ok(v) => Ok(v@),
        Err(m) => Err(m@),
    }
}

/// `RoaringBitmap::serialize_into` writes the portable format, from which the same values are
/// read again. Writing to memory does not fail, so no error is handed on.
#[verifier::external_body]
fn roaring_bytes(b: &RoaringBitmap) -> (r: Vec<u8>)
    ensures
        are_stored(r@, ids(*b)),
{
    let mut buf = Vec::with_capacity(b.serialized_size());
    let _ = b.serialize_into(&mut buf);
    buf
}

/// `RoaringBitmap::deserialize_from` reads the portable format. Which values it finds depends
/// on the bytes alone.
#[verifier::external_body]
fn roaring_values(bytes: &[u8]) -> (r: Result<Vec<u32>, String>)
    ensures
        stored_values(bytes@) == plain_result(r),
{
    match RoaringBitmap::deserialize_from(bytes) {
        Ok(b) => Ok(b.iter().collect()),
        Err(e) => Err(e.to_string()),
    }
}

/// The bytes that a bitmap is stored as. Reading them gives the bitmap back.
pub fn serialize(bitmap: &RoaringBitmap) -> (r: Vec<u8>)
    ensures
        are_stored(r@, ids(*bitmap)),
{
    roaring_bytes(bitmap)
}

/// The bitmap that was stored as some bytes.
pub fn deserialize(bytes: &[u8]) -> (r: Result<RoaringBitmap, BitmapError>)
    ensures
        match stored_ids(bytes@) {
            Ok(s) => r matches Ok(b) && ids(b) == s,
            Err(m) => r matches Err(BitmapError::Serialization(e)) && e@ == m,
        },
{
    match roaring_values(bytes) {
        Ok(v) => Ok(bitmap_of(&v)),
        Err(m) => Err(BitmapError::Serialization(m)),
    }
}

/// The bitmap of some values.
fn bitmap_of(values: &Vec<u32>) -> (r: RoaringBitmap)
    ensures
        ids(r) == values@.to_set(),
{
    let mut b = RoaringBitmap::new();
    let mut i: usize = 0;
    assert(values@.take(0).to_set() =~= Set::<u32>::empty());
    while i < values.len()
        invariant
            i <= values@.len(),
            ids(b) == values@.take(i as int).to_set(),
        decreases values@.len() - i,
    {
        b.insert(values[i]);
        proof {
            let before = values@.take(i as int);
            let after = values@.take(i + 1);
            assert(after =~= before.push(values@[i as int]));
            assert forall|x: u32| after.to_set().contains(x) <==> before.to_set().insert(
                values@[i as int],
            ).contains(x) by {
                if before.contains(x) {
                    assert(after[before.index_of(x)] == x);
                }
                assert(after[i as int] == values@[i as int]);
            }
            assert(after.to_set() =~= before.to_set().insert(values@[i as int]));
        }
        i += 1;
    }
    assert(values@.take(i as int) =~= values@);
    b
}

/// The key under which a store keeps the ids of deleted documents.
pub open spec fn tombstone_key() -> Seq<char> {
    "__tombstone__"@
}

/// The ids under a key; none where there is no such key.
pub open spec fn bitmap_at(m: Map<Seq<char>, Set<u32>>, key: Seq<char>) -> Set<u32> {
    if m.dom().contains(key) {
        m[key]
    } else {
        Set::empty()
    }
}

/// Whether a key is listed: it is not that of the tombstones, and has the prefix.
pub open spec fn is_listed(key: Seq<char>, prefix: Option<Seq<char>>) -> bool {
    key != tombstone_key() && match prefix {
        Some(p) => text::starts_with_spec(key, p),
        None => true,
    }
}

/// An optional string slice taken as a text.
pub open spec fn opt_str(o: Option<&str>) -> Option<Seq<char>> {
    match o {
        Some(s) => Some(s@),
        None => None,
    }
}

/// The entries of a batch, from `i` on, put into a store.
pub open spec fn put_all(
    m: Map<Seq<char>, Set<u32>>,
    entries: Seq<(BitmapKey, RoaringBitmap)>,
    i: int,
) -> Map<Seq<char>, Set<u32>>
    decreases entries.len() - i,
{
    if i < 0 || i >= entries.len() {
        m
    } else {
        put_all(m.insert(entries[i].0@, ids(entries[i].1)), entries, i + 1)
    }
}

/// Pluggable bitmap storage backend. A backend may fail; where an operation succeeds, it does
/// what is stated here.
pub trait BitmapStore: Send + Sync {
    /// The ids under each key.
    spec fn bitmaps(&self) -> Map<Seq<char>, Set<u32>>;

    /// What holds of the store between operations.
    spec fn wf(&self) -> bool;

    /// Whether operations of this backend always succeed.
    spec fn infallible(&self) -> bool;

    /// The bitmap of a key. It is empty where the key does not exist.
    fn get(&self, key: &str) -> (r: Result<RoaringBitmap, BitmapError>)
        requires
            self.wf(),
        ensures
            self.infallible() ==> r is Ok,
            r matches Ok(b) ==> ids(b) == bitmap_at(self.bitmaps(), key@),
    ;

    /// Sets the bitmap of a key.
    fn put(&mut self, key: &str, bitmap: &RoaringBitmap) -> (r: Result<(), BitmapError>)
        requires
            old(self).wf(),
        ensures
            old(self).infallible() ==> r is Ok,
            final(self).wf(),
            final(self).infallible() == old(self).infallible(),
            r is Err ==> final(self).bitmaps() == old(self).bitmaps(),
            r is Ok ==> final(self).bitmaps() == old(self).bitmaps().insert(key@, ids(*bitmap)),
    ;

    /// Adds an id to the bitmap of a key.
    fn insert_id(&mut self, key: &str, doc_id: DocId) -> (r: Result<(), BitmapError>)
        requires
            old(self).wf(),
        ensures
            old(self).infallible() ==> r is Ok,
            final(self).wf(),
            final(self).infallible() == old(self).infallible(),
            r is Err ==> final(self).bitmaps() == old(self).bitmaps(),
            r is Ok ==> final(self).bitmaps() == old(self).bitmaps().insert(
                key@,
                bitmap_at(old(self).bitmaps(), key@).insert(doc_id),
            ),
    ;

    /// Takes an id out of the bitmap of a key. Nothing happens where the key does not exist.
    fn remove_id(&mut self, key: &str, doc_id: DocId) -> (r: Result<(), BitmapError>)
        requires
            old(self).wf(),
        ensures
            old(self).infallible() ==> r is Ok,
            final(self).wf(),
            final(self).infallible() == old(self).infallible(),
            r is Err ==> final(self).bitmaps() == old(self).bitmaps(),
            r is Ok ==> final(self).bitmaps() == if old(self).bitmaps().dom().contains(key@) {
                old(self).bitmaps().insert(key@, old(self).bitmaps()[key@].remove(doc_id))
            } else {
                old(self).bitmaps()
            },
    ;

    /// Deletes a key.
    fn delete(&mut self, key: &str) -> (r: Result<(), BitmapError>)
        requires
            old(self).wf(),
        ensures
            old(self).infallible() ==> r is Ok,
            final(self).wf(),
            final(self).infallible() == old(self).infallible(),
            r is Err ==> final(self).bitmaps() == old(self).bitmaps(),
            r is Ok ==> final(self).bitmaps() == old(self).bitmaps().remove(key@),
    ;

    /// Whether a key exists.
    fn has_key(&self, key: &str) -> (r: bool)
        requires
            self.wf(),
        ensures
            r == self.bitmaps().dom().contains(key@),
    ;

    /// Sets the bitmaps of several keys.
    fn bulk_put(&mut self, entries: Vec<(BitmapKey, RoaringBitmap)>) -> (r: Result<
        (),
        BitmapError,
    >)
        requires
            old(self).wf(),
        ensures
            old(self).infallible() ==> r is Ok,
            final(self).wf(),
            final(self).infallible() == old(self).infallible(),
            r is Err ==> final(self).bitmaps() == old(self).bitmaps(),
            r is Ok ==> final(self).bitmaps() == put_all(old(self).bitmaps(), entries@, 0),
    ;

    /// Adds an id to the tombstones.
    fn tombstone(&mut self, doc_id: DocId) -> (r: Result<(), BitmapError>)
        requires
            old(self).wf(),
        ensures
            old(self).infallible() ==> r is Ok,
            final(self).wf(),
            final(self).infallible() == old(self).infallible(),
            r is Err ==> final(self).bitmaps() == old(self).bitmaps(),
            r is Ok ==> final(self).bitmaps() == old(self).bitmaps().insert(
                tombstone_key(),
                bitmap_at(old(self).bitmaps(), tombstone_key()).insert(doc_id),
            ),
    ;

    /// The tombstones.
    fn get_tombstone(&self) -> (r: Result<RoaringBitmap, BitmapError>)
        requires
            self.wf(),
        ensures
            self.infallible() ==> r is Ok,
            r matches Ok(b) ==> ids(b) == bitmap_at(self.bitmaps(), tombstone_key()),
    ;

    /// Forgets the tombstones.
    fn clear_tombstone(&mut self) -> (r: Result<(), BitmapError>)
        requires
            old(self).wf(),
        ensures
            old(self).infallible() ==> r is Ok,
            final(self).wf(),
            final(self).infallible() == old(self).infallible(),
            r is Err ==> final(self).bitmaps() == old(self).bitmaps(),
            r is Ok ==> final(self).bitmaps() == old(self).bitmaps().remove(tombstone_key()),
    ;

    /// The keys, optionally those with a prefix. The key of the tombstones is not among them.
    fn list_keys(&self, prefix: Option<&str>) -> (r: Result<Vec<BitmapKey>, BitmapError>)
        requires
            self.wf(),
        ensures
            self.infallible() ==> r is Ok,
            r matches Ok(keys) ==> keys.deep_view().no_duplicates() && forall|k: Seq<char>| #[trigger]
                keys.deep_view().contains(k) <==> self.bitmaps().dom().contains(k) && is_listed(
                    k,
                    opt_str(prefix),
                ),
    ;

    /// The number of ids under a key, modulo 2^32.
    fn cardinality(&self, key: &str) -> (r: Result<u32, BitmapError>)
        requires
            self.wf(),
        ensures
            self.infallible() ==> r is Ok,
            r matches Ok(n) ==> n == bitmap_at(self.bitmaps(), key@).len() % 0x1_0000_0000,
    ;
}

/// Bitmap store in memory.
#[derive(Debug)]
pub struct InMemoryBitmapStore {
    bitmaps: KeyMap<RoaringBitmap>,
}

impl InMemoryBitmapStore {
    /// An empty store.
    pub fn new() -> (r: Self)
        ensures
            r.wf(),
            r.bitmaps() == Map::<Seq<char>, Set<u32>>::empty(),
    {
        let r = InMemoryBitmapStore { bitmaps: KeyMap::new() };
        assert(r.bitmaps() =~= Map::<Seq<char>, Set<u32>>::empty());
        r
    }

    /// Sets the bitmap of a key.
    fn set(&mut self, key: String, bitmap: RoaringBitmap)
        requires
            old(self).wf(),
        ensures
            final(self).wf(),
            final(self).bitmaps() == old(self).bitmaps().insert(key@, ids(bitmap)),
    {
        self.bitmaps.insert(key, bitmap);
        assert(self.bitmaps() =~= old(self).bitmaps().insert(key@, ids(bitmap)));
    }

    /// The bitmap of a key.
    fn find(&self, key: &str) -> (r: RoaringBitmap)
        requires
            self.wf(),
        ensures
            ids(r) == bitmap_at(self.bitmaps(), key@),
    {
        match self.bitmaps.get(key) {
            Some(b) => b.clone(),
            None => RoaringBitmap::new(),
        }
    }

    /// The keys in ascending order, optionally those with a prefix.
    fn keys(&self, prefix: Option<&str>) -> (r: Vec<BitmapKey>)
        requires
            self.wf(),
        ensures
            r.deep_view().no_duplicates(),
            crate::keymap::ascending(r.deep_view()),
            forall|k: Seq<char>| #[trigger]
                r.deep_view().contains(k) <==> self.bitmaps().dom().contains(k) && is_listed(
                    k,
                    opt_str(prefix),
                ),
    {
        let mut out: Vec<BitmapKey> = Vec::new();
        let ghost all = self.bitmaps.keys_spec();
        let mut i: usize = 0;
        proof {
            self.bitmaps.lemma_keys();
        }
        while i < self.bitmaps.len()
            invariant
                self.wf(),
                all == self.bitmaps.keys_spec(),
                all.len() == self.bitmaps.entries_spec().len(),
                i <= all.len(),
                crate::keymap::ascending(all),
                crate::keymap::ascending(out.deep_view()),
                forall|a: int, b: int|
                    0 <= a < out.deep_view().len() && i <= b < all.len() ==> crate::keymap::lex_lt(
                        #[trigger] out.deep_view()[a],
                        #[trigger] all[b],
                    ),
                forall|k: Seq<char>| #[trigger]
                    out.deep_view().contains(k) <==> all.take(i as int).contains(k) && is_listed(
                        k,
                        opt_str(prefix),
                    ),
            decreases all.len() - i,
        {
            let key = self.bitmaps.key_at(i);
            let ghost before = out.deep_view();
            let ghost k0 = all[i as int];
            let listed = !text::str_eq(key.as_str(), "__tombstone__") && match prefix {
                Some(p) => text::starts_with(&text::chars_of(key.as_str()), p),
                None => true,
            };
            proof {
                assert(all.take(i + 1) =~= all.take(i as int).push(k0));
                assert forall|k: Seq<char>|
                    all.take(i + 1).contains(k) <==> all.take(i as int).contains(k) || k == k0 by {
                    lemma_push_contains(all.take(i as int), k0, k);
                }
            }
            if listed {
                out.push(key.clone());
                proof {
                    assert(out.deep_view() =~= before.push(k0));
                    assert forall|k: Seq<char>| #[trigger]
                        out.deep_view().contains(k) <==> all.take(i + 1).contains(k) && is_listed(
                            k,
                            opt_str(prefix),
                        ) by {
                        lemma_push_contains(before, k0, k);
                        lemma_push_contains(all.take(i as int), k0, k);
                    }
                }
            } else {
                proof {
                    assert forall|k: Seq<char>| #[trigger]
                        out.deep_view().contains(k) <==> all.take(i + 1).contains(k) && is_listed(
                            k,
                            opt_str(prefix),
                        ) by {
                        lemma_push_contains(all.take(i as int), k0, k);
                    }
                }
            }
            i += 1;
        }
        proof {
            assert(all.take(i as int) =~= all);
            crate::keymap::lemma_ascending_distinct(out.deep_view());
            assert forall|k: Seq<char>| #[trigger]
                out.deep_view().contains(k) <==> self.bitmaps().dom().contains(k) && is_listed(
                    k,
                    opt_str(prefix),
                ) by {
                assert(all.contains(k) <==> self.bitmaps@.dom().contains(k));
            }
        }
        out
    }
}

/// A list with one more element holds what it held, and that element.
pub proof fn lemma_push_contains<A>(s: Seq<A>, x: A, k: A)
    ensures
        s.push(x).contains(k) <==> s.contains(k) || k == x,
{
    if s.contains(k) {
        let i = s.index_of(k);
        assert(s.push(x)[i] == k);
    }
    if k == x {
        assert(s.push(x)[s.len() as int] == k);
    }
    if s.push(x).contains(k) {
        let i = s.push(x).index_of(k);
        assert(s.push(x)[i] == k);
        if i < s.len() {
            assert(s[i] == k);
        }
    }
}

impl Default for InMemoryBitmapStore {
    fn default() -> (r: Self)
        ensures
            r.wf(),
            r.bitmaps() == Map::<Seq<char>, Set<u32>>::empty(),
    {
        InMemoryBitmapStore::new()
    }
}

impl BitmapStore for InMemoryBitmapStore {
    closed spec fn bitmaps(&self) -> Map<Seq<char>, Set<u32>> {
        Map::new(
            |k: Seq<char>| self.bitmaps@.dom().contains(k),
            |k: Seq<char>| ids(self.bitmaps@[k]),
        )
    }

    closed spec fn wf(&self) -> bool {
        self.bitmaps.wf()
    }

    open spec fn infallible(&self) -> bool {
        true
    }

    fn get(&self, key: &str) -> (r: Result<RoaringBitmap, BitmapError>)
        ensures
            r is Ok,
    {
        Ok(self.find(key))
    }

    fn put(&mut self, key: &str, bitmap: &RoaringBitmap) -> (r: Result<(), BitmapError>)
        ensures
            r is Ok,
    {
        self.set(key.to_owned(), bitmap.clone());
        Ok(())
    }

    fn insert_id(&mut self, key: &str, doc_id: DocId) -> (r: Result<(), BitmapError>)
        ensures
            r is Ok,
    {
        let mut b = self.find(key);
        b.insert(doc_id);
        self.set(key.to_owned(), b);
        Ok(())
    }

    fn remove_id(&mut self, key: &str, doc_id: DocId) -> (r: Result<(), BitmapError>)
        ensures
            r is Ok,
    {
        if self.bitmaps.contains_key(key) {
            let mut b = self.find(key);
            b.remove(doc_id);
            self.set(key.to_owned(), b);
        }
        Ok(())
    }

    fn delete(&mut self, key: &str) -> (r: Result<(), BitmapError>)
        ensures
            r is Ok,
    {
        self.bitmaps.remove(key);
        assert(self.bitmaps() =~= old(self).bitmaps().remove(key@));
        Ok(())
    }

    fn has_key(&self, key: &str) -> bool {
        self.bitmaps.contains_key(key)
    }

    fn bulk_put(&mut self, entries: Vec<(BitmapKey, RoaringBitmap)>) -> (r: Result<
        (),
        BitmapError,
    >)
        ensures
            r is Ok,
    {
        let mut i: usize = 0;
        while i < entries.len()
            invariant
                self.wf(),
                i <= entries@.len(),
                put_all(self.bitmaps(), entries@, i as int) == put_all(
                    old(self).bitmaps(),
                    entries@,
                    0,
                ),
            decreases entries@.len() - i,
        {
            self.set(entries[i].0.clone(), entries[i].1.clone());
            i += 1;
        }
        Ok(())
    }

    fn tombstone(&mut self, doc_id: DocId) -> (r: Result<(), BitmapError>)
        ensures
            r is Ok,
    {
        let mut b = self.find("__tombstone__");
        b.insert(doc_id);
        self.set("__tombstone__".to_owned(), b);
        Ok(())
    }

    fn get_tombstone(&self) -> (r: Result<RoaringBitmap, BitmapError>)
        ensures
            r is Ok,
    {
        Ok(self.find("__tombstone__"))
    }

    fn clear_tombstone(&mut self) -> (r: Result<(), BitmapError>)
        ensures
            r is Ok,
    {
        self.bitmaps.remove("__tombstone__");
        assert(self.bitmaps() =~= old(self).bitmaps().remove(tombstone_key()));
        Ok(())
    }

    fn list_keys(&self, prefix: Option<&str>) -> (r: Result<Vec<BitmapKey>, BitmapError>)
        ensures
            r is Ok,
            r matches Ok(keys) ==> crate::keymap::ascending(keys.deep_view()),
    {
        Ok(self.keys(prefix))
    }

    fn cardinality(&self, key: &str) -> (r: Result<u32, BitmapError>)
        ensures
            r is Ok,
    {
        let b = self.find(key);
        Ok((b.len() % 0x1_0000_0000) as u32)
    }
}

} // verus!
