//! The registry of documents, chunks and the bitmap catalog.
//!
//! Chunk ids within a document are contiguous and ascend in document order. Every replacement of
//! a document's chunks assigns a fresh run of ids, so that an id belongs to at most one document
//! and old ids belong to none.

use vstd::prelude::*;

use crate::clock;
use crate::dates;
use crate::idmap::IdMap;
use crate::keymap::KeyMap;
use crate::paths;
use crate::text;
use crate::types;
use crate::types::{
    BitmapCategory, BitmapKey, ChunkId, ChunkKind, ChunkMetadata, DocId, DocType, SourceType,
    Timestamp,
};

verus! {

// ── Records ─────────────────────────────────────────────────────────────────

/// A document in the registry.
#[derive(Debug)]
pub struct DocRecord {
    pub doc_id: DocId,
    pub file_path: String,
    pub source_type: SourceType,
    pub blake3_hash: [u8; 32],
    pub last_indexed: Timestamp,
    pub auto_type: Option<DocType>,
}

impl Clone for DocRecord {
    fn clone(&self) -> (r: Self)
        ensures
            r == *self,
    {
        DocRecord {
            doc_id: self.doc_id,
            file_path: self.file_path.clone(),
            source_type: self.source_type.clone(),
            blake3_hash: self.blake3_hash,
            last_indexed: self.last_indexed,
            auto_type: self.auto_type,
        }
    }
}

/// A chunk in the registry.
#[derive(Debug)]
pub struct ChunkRecord {
    pub chunk_id: ChunkId,
    pub doc_id: DocId,
    pub kind: ChunkKind,
    pub byte_start: u32,
    pub byte_end: u32,
    pub label: Option<String>,
    pub depth: u8,
    pub metadata: ChunkMetadata,
}

impl Clone for ChunkRecord {
    fn clone(&self) -> (r: Self)
        ensures
            r == *self,
    {
        ChunkRecord {
            chunk_id: self.chunk_id,
            doc_id: self.doc_id,
            kind: self.kind,
            byte_start: self.byte_start,
            byte_end: self.byte_end,
            label: types::clone_text(&self.label),
            depth: self.depth,
            metadata: self.metadata.clone(),
        }
    }
}

/// Metadata about a bitmap.
#[derive(Debug)]
pub struct BitmapCatalogEntry {
    pub bitmap_key: BitmapKey,
    pub category: BitmapCategory,
    pub cardinality: u32,
    pub last_updated: Timestamp,
}

impl Clone for BitmapCatalogEntry {
    fn clone(&self) -> (r: Self)
        ensures
            r == *self,
    {
        BitmapCatalogEntry {
            bitmap_key: self.bitmap_key.clone(),
            category: self.category,
            cardinality: self.cardinality,
            last_updated: self.last_updated,
        }
    }
}

/// Counters of the registry.
#[derive(Clone, Copy, Debug, PartialEq, Eq, Structural)]
pub struct GlobalState {
    pub next_doc_id: DocId,
    pub next_chunk_id: ChunkId,
    pub total_documents: u32,
}

/// A document to register.
#[derive(Debug)]
pub struct NewDoc {
    pub file_path: String,
    pub source_type: SourceType,
    pub blake3_hash: [u8; 32],
    pub auto_type: Option<DocType>,
}

/// A chunk to register.
#[derive(Debug)]
pub struct NewChunk {
    pub doc_id: DocId,
    pub kind: ChunkKind,
    pub byte_start: u32,
    pub byte_end: u32,
    pub label: Option<String>,
    pub depth: u8,
    pub metadata: ChunkMetadata,
}

/// Errors from registry operations.
#[derive(Debug)]
pub enum RegistryError {
    NotFound(DocId),
    DuplicatePath(String),
    Database(String),
}

/// The message of a registry error.
pub open spec fn registry_error_message(e: RegistryError) -> Seq<char> {
    match e {
        RegistryError::NotFound(id) => "document not found: "@ + dates::decimal_spec(id as nat),
        RegistryError::DuplicatePath(p) => "path already registered: "@ + p@,
        RegistryError::Database(m) => "database error: "@ + m@,
    }
}

impl RegistryError {
    /// The message of the error.
    pub fn message(&self) -> (r: String)
        ensures
            r@ == registry_error_message(*self),
    {
        match self {
            RegistryError::NotFound(id) => {
                let n = dates::decimal(*id as u64);
                text::concat("document not found: ", n.as_str())
            },
            RegistryError::DuplicatePath(p) => text::concat(
                "path already registered: ",
                p.as_str(),
            ),
            RegistryError::Database(m) => text::concat("database error: ", m.as_str()),
        }
    }
}

// ── The model ───────────────────────────────────────────────────────────────

/// What a registry holds.
#[verifier::ext_equal]
pub struct RegistryState {
    /// The id that the next document gets.
    pub next_doc_id: DocId,
    /// The id that the next chunk gets.
    pub next_chunk_id: ChunkId,
    /// Documents by id.
    pub docs: Map<DocId, DocRecord>,
    /// Document ids by normal path.
    pub paths: Map<Seq<char>, DocId>,
    /// Chunks by document.
    pub chunks: Map<DocId, Seq<ChunkRecord>>,
    /// Catalog entries by bitmap key.
    pub catalog: Map<Seq<char>, BitmapCatalogEntry>,
}

/// The path by which a registry knows a file.
pub open spec fn path_key(p: String) -> Seq<char> {
    paths::normal_spec(p@)
}

/// Whether chunks are a contiguous run of ids of one document, below `next`.
pub open spec fn is_run(chunks: Seq<ChunkRecord>, doc_id: DocId, next: ChunkId) -> bool {
    &&& forall|k: int|
        #![trigger chunks[k]]
        0 <= k < chunks.len() ==> chunks[k].doc_id == doc_id && chunks[k].chunk_id
            == chunks[0].chunk_id + k && 1 <= chunks[k].chunk_id < next
}

/// Whether two runs have an id in common.
pub open spec fn runs_meet(a: Seq<ChunkRecord>, b: Seq<ChunkRecord>) -> bool {
    exists|i: int, j: int|
        0 <= i < a.len() && 0 <= j < b.len() && (#[trigger] a[i]).chunk_id == (
        #[trigger] b[j]).chunk_id
}

/// What holds of a registry between operations.
pub open spec fn valid_state(s: RegistryState) -> bool {
    &&& 1 <= s.next_doc_id
    &&& 1 <= s.next_chunk_id
    &&& forall|id: DocId|
        #![trigger s.docs.dom().contains(id)]
        #![trigger s.docs[id]]
        s.docs.dom().contains(id) ==> s.docs[id].doc_id == id && 1 <= id < s.next_doc_id
    &&& forall|p: Seq<char>|
        #![trigger s.paths.dom().contains(p)]
        s.paths.dom().contains(p) ==> s.docs.dom().contains(s.paths[p]) && path_key(
            s.docs[s.paths[p]].file_path,
        ) == p
    &&& forall|id: DocId|
        #![trigger s.chunks.dom().contains(id)]
        s.chunks.dom().contains(id) ==> s.docs.dom().contains(id) && is_run(
            s.chunks[id],
            id,
            s.next_chunk_id,
        )
    &&& forall|a: DocId, b: DocId|
        #![trigger s.chunks.dom().contains(a), s.chunks.dom().contains(b)]
        s.chunks.dom().contains(a) && s.chunks.dom().contains(b) && a != b ==> !runs_meet(
            s.chunks[a],
            s.chunks[b],
        )
    &&& forall|k: Seq<char>|
        #![trigger s.catalog.dom().contains(k)]
        s.catalog.dom().contains(k) ==> s.catalog[k].bitmap_key@ == k
}

/// The state of a registry that holds nothing.
pub open spec fn empty_state() -> RegistryState {
    RegistryState {
        next_doc_id: 1,
        next_chunk_id: 1,
        docs: Map::empty(),
        paths: Map::empty(),
        chunks: Map::empty(),
        catalog: Map::empty(),
    }
}

/// The record of a new document.
pub open spec fn doc_record(doc: NewDoc, id: DocId, now: Timestamp) -> DocRecord {
    DocRecord {
        doc_id: id,
        file_path: doc.file_path,
        source_type: doc.source_type,
        blake3_hash: doc.blake3_hash,
        last_indexed: now,
        auto_type: doc.auto_type,
    }
}

/// The state with a new document.
pub open spec fn with_doc(s: RegistryState, doc: NewDoc, now: Timestamp) -> RegistryState {
    RegistryState {
        next_doc_id: (s.next_doc_id + 1) as DocId,
        docs: s.docs.insert(s.next_doc_id, doc_record(doc, s.next_doc_id, now)),
        paths: s.paths.insert(path_key(doc.file_path), s.next_doc_id),
        ..s
    }
}

/// The state with new documents, each registered at its time.
pub open spec fn with_docs(s: RegistryState, docs: Seq<NewDoc>, times: Seq<Timestamp>) -> RegistryState
    decreases docs.len(),
{
    if docs.len() == 0 {
        s
    } else {
        with_doc(with_docs(s, docs.drop_last(), times.drop_last()), docs.last(), times.last())
    }
}

/// Whether a state comes of another by registering documents, at whatever times.
pub open spec fn became_with_docs(s: RegistryState, docs: Seq<NewDoc>, t: RegistryState) -> bool {
    exists|times: Seq<Timestamp>|
        times.len() == docs.len() && t == #[trigger] with_docs(s, docs, times)
}

/// Whether the path of a document is registered.
pub open spec fn is_taken(s: RegistryState, doc: NewDoc) -> bool {
    s.paths.dom().contains(path_key(doc.file_path))
}

/// Whether the path of the document at `i` occurs before.
pub open spec fn is_repeated(docs: Seq<NewDoc>, i: int) -> bool {
    exists|j: int|
        0 <= j < i && path_key((#[trigger] docs[j]).file_path) == path_key(docs[i].file_path)
}

/// Whether the document at `i` is the first whose path is registered.
pub open spec fn is_first_taken(s: RegistryState, docs: Seq<NewDoc>, i: int) -> bool {
    is_taken(s, docs[i]) && forall|j: int| 0 <= j < i ==> !is_taken(s, #[trigger] docs[j])
}

/// Whether no path is registered, and the document at `i` is the first that repeats one.
pub open spec fn is_first_repeated(s: RegistryState, docs: Seq<NewDoc>, i: int) -> bool {
    &&& forall|j: int| 0 <= j < docs.len() ==> !is_taken(s, #[trigger] docs[j])
    &&& is_repeated(docs, i)
    &&& forall|j: int| 0 <= j < i ==> !#[trigger] is_repeated(docs, j)
}

/// The state with the hash, type and time of a document replaced.
pub open spec fn with_update(
    s: RegistryState,
    id: DocId,
    hash: [u8; 32],
    auto_type: Option<DocType>,
    now: Timestamp,
) -> RegistryState {
    RegistryState {
        docs: s.docs.insert(
            id,
            DocRecord { blake3_hash: hash, last_indexed: now, auto_type, ..s.docs[id] },
        ),
        ..s
    }
}

/// The state with a document under another path.
pub open spec fn with_path(s: RegistryState, id: DocId, path: String) -> RegistryState {
    RegistryState {
        docs: s.docs.insert(id, DocRecord { file_path: path, ..s.docs[id] }),
        paths: s.paths.remove(path_key(s.docs[id].file_path)).insert(path_key(path), id),
        ..s
    }
}

/// The state without a document and its chunks.
pub open spec fn without_doc(s: RegistryState, id: DocId) -> RegistryState {
    RegistryState {
        docs: s.docs.remove(id),
        paths: s.paths.remove(path_key(s.docs[id].file_path)),
        chunks: s.chunks.remove(id),
        ..s
    }
}

/// The record of a new chunk.
pub open spec fn chunk_record(c: NewChunk, doc_id: DocId, id: ChunkId) -> ChunkRecord {
    ChunkRecord {
        chunk_id: id,
        doc_id,
        kind: c.kind,
        byte_start: c.byte_start,
        byte_end: c.byte_end,
        label: c.label,
        depth: c.depth,
        metadata: c.metadata,
    }
}

/// The records of new chunks, with ids from `next` on.
pub open spec fn chunk_run(chunks: Seq<NewChunk>, doc_id: DocId, next: ChunkId) -> Seq<
    ChunkRecord,
> {
    Seq::new(chunks.len(), |k: int| chunk_record(chunks[k], doc_id, (next + k) as ChunkId))
}

/// The state with the chunks of a document replaced.
pub open spec fn with_chunks(s: RegistryState, id: DocId, chunks: Seq<NewChunk>) -> RegistryState {
    RegistryState {
        next_chunk_id: (s.next_chunk_id + chunks.len()) as ChunkId,
        chunks: s.chunks.insert(id, chunk_run(chunks, id, s.next_chunk_id)),
        ..s
    }
}

/// The state with a catalog entry.
pub open spec fn with_entry(s: RegistryState, e: BitmapCatalogEntry) -> RegistryState {
    RegistryState { catalog: s.catalog.insert(e.bitmap_key@, e), ..s }
}

/// The state with the catalog entries from `i` on.
pub open spec fn with_entries(
    s: RegistryState,
    es: Seq<BitmapCatalogEntry>,
    i: int,
) -> RegistryState
    decreases es.len() - i,
{
    if i < 0 || i >= es.len() {
        s
    } else {
        with_entries(with_entry(s, es[i]), es, i + 1)
    }
}

/// The chunks of a document; none where it has none.
pub open spec fn chunks_at(s: RegistryState, id: DocId) -> Seq<ChunkRecord> {
    if s.chunks.dom().contains(id) {
        s.chunks[id]
    } else {
        Seq::empty()
    }
}

/// Whether a chunk id is one of a document's.
pub open spec fn owns_chunk(s: RegistryState, id: DocId, chunk: ChunkId) -> bool {
    exists|k: int|
        0 <= k < chunks_at(s, id).len() && (#[trigger] chunks_at(s, id)[k]).chunk_id == chunk
}

/// The records of documents, from `i` on, of those ids that are known.
pub open spec fn known_docs(s: RegistryState, doc_ids: Seq<DocId>, i: int) -> Seq<DocRecord>
    decreases doc_ids.len() - i,
{
    if i < 0 || i >= doc_ids.len() {
        Seq::empty()
    } else if s.docs.dom().contains(doc_ids[i]) {
        seq![s.docs[doc_ids[i]]] + known_docs(s, doc_ids, i + 1)
    } else {
        known_docs(s, doc_ids, i + 1)
    }
}

/// The chunks of documents, one document after the other.
pub open spec fn chunks_of_docs(s: RegistryState, doc_ids: Seq<DocId>) -> Seq<ChunkRecord>
    decreases doc_ids.len(),
{
    if doc_ids.len() == 0 {
        Seq::empty()
    } else {
        chunks_of_docs(s, doc_ids.drop_last()) + chunks_at(s, doc_ids.last())
    }
}

/// A record put into a list behind the last one whose id is not greater.
pub open spec fn put_by_id(s: Seq<ChunkRecord>, x: ChunkRecord) -> Seq<ChunkRecord>
    decreases s.len(),
{
    if s.len() == 0 || s.last().chunk_id <= x.chunk_id {
        s.push(x)
    } else {
        put_by_id(s.drop_last(), x).push(s.last())
    }
}

/// The records in ascending order of their id. Those with equal ids keep their order.
pub open spec fn by_id(s: Seq<ChunkRecord>) -> Seq<ChunkRecord>
    decreases s.len(),
{
    if s.len() == 0 {
        s
    } else {
        put_by_id(by_id(s.drop_last()), s.last())
    }
}

/// Ordering by id keeps the records and ascends.
pub proof fn law_by_id(s: Seq<ChunkRecord>)
    ensures
        by_id(s).len() == s.len(),
        by_id(s).to_multiset() == s.to_multiset(),
        forall|i: int, j: int|
            0 <= i < j < by_id(s).len() ==> (#[trigger] by_id(s)[i]).chunk_id <= (
            #[trigger] by_id(s)[j]).chunk_id,
    decreases s.len(),
{
    broadcast use vstd::seq_lib::group_to_multiset_ensures;

    if s.len() > 0 {
        law_by_id(s.drop_last());
        lemma_put_by_id(by_id(s.drop_last()), s.last());
        assert(s =~= s.drop_last().push(s.last()));
    }
}

proof fn lemma_put_by_id(s: Seq<ChunkRecord>, x: ChunkRecord)
    requires
        forall|i: int, j: int|
            0 <= i < j < s.len() ==> (#[trigger] s[i]).chunk_id <= (#[trigger] s[j]).chunk_id,
    ensures
        put_by_id(s, x).len() == s.len() + 1,
        put_by_id(s, x).to_multiset() == s.to_multiset().insert(x),
        forall|i: int|
            0 <= i < put_by_id(s, x).len() ==> (#[trigger] put_by_id(s, x)[i]).chunk_id
                <= x.chunk_id || (s.len() > 0 && put_by_id(s, x)[i].chunk_id <= s.last().chunk_id),
        forall|i: int, j: int|
            0 <= i < j < put_by_id(s, x).len() ==> (#[trigger] put_by_id(s, x)[i]).chunk_id <= (
            #[trigger] put_by_id(s, x)[j]).chunk_id,
    decreases s.len(),
{
    broadcast use vstd::seq_lib::group_to_multiset_ensures;

    if s.len() > 0 && s.last().chunk_id > x.chunk_id {
        let t = s.drop_last();
        assert forall|i: int, j: int| 0 <= i < j < t.len() implies (#[trigger] t[i]).chunk_id <= (
        #[trigger] t[j]).chunk_id by {
            assert(s[i].chunk_id <= s[j].chunk_id);
        }
        lemma_put_by_id(t, x);
        assert(s =~= t.push(s.last()));
        assert(put_by_id(s, x).to_multiset() =~= s.to_multiset().insert(x));
        if t.len() > 0 {
            assert(s[t.len() - 1].chunk_id <= s[s.len() - 1].chunk_id);
        }
    } else if s.len() > 0 {
        assert forall|i: int| 0 <= i < s.len() implies (#[trigger] s[i]).chunk_id <= x.chunk_id by {
            if i < s.len() - 1 {
                assert(s[i].chunk_id <= s[s.len() - 1].chunk_id);
            }
        }
    }
}

// ── Validity is kept ────────────────────────────────────────────────────────

/// Registering a document keeps a registry valid.
pub proof fn lemma_with_doc_valid(s: RegistryState, doc: NewDoc, now: Timestamp)
    requires
        valid_state(s),
        s.next_doc_id < u32::MAX,
        !s.paths.dom().contains(path_key(doc.file_path)),
    ensures
        valid_state(with_doc(s, doc, now)),
{
    let t = with_doc(s, doc, now);
    assert(!s.docs.dom().contains(s.next_doc_id));
    assert forall|p: Seq<char>|
        #![trigger t.paths.dom().contains(p)]
        t.paths.dom().contains(p) implies t.docs.dom().contains(t.paths[p]) && path_key(
        t.docs[t.paths[p]].file_path,
    ) == p by {
        if p != path_key(doc.file_path) {
            assert(s.paths.dom().contains(p));
        }
    }
}

/// Replacing a document keeps a registry valid.
pub proof fn lemma_with_update_valid(
    s: RegistryState,
    id: DocId,
    hash: [u8; 32],
    auto_type: Option<DocType>,
    now: Timestamp,
)
    requires
        valid_state(s),
        s.docs.dom().contains(id),
    ensures
        valid_state(with_update(s, id, hash, auto_type, now)),
{
    let t = with_update(s, id, hash, auto_type, now);
    assert forall|x: DocId|
        #![trigger t.docs.dom().contains(x)]
        t.docs.dom().contains(x) implies t.docs[x].doc_id
        == x && 1 <= x < t.next_doc_id by {
        assert(s.docs.dom().contains(x));
    }
    assert forall|p: Seq<char>|
        #![trigger t.paths.dom().contains(p)]
        t.paths.dom().contains(p) implies t.docs.dom().contains(t.paths[p]) && path_key(
        t.docs[t.paths[p]].file_path,
    ) == p by {
        assert(s.paths.dom().contains(p));
    }
    assert forall|x: DocId|
        #![trigger t.chunks.dom().contains(x)]
        t.chunks.dom().contains(x) implies t.docs.dom().contains(x) && is_run(
        t.chunks[x],
        x,
        t.next_chunk_id,
    ) by {
        assert(s.chunks.dom().contains(x));
    }
}

proof fn lemma_with_path_valid(s: RegistryState, id: DocId, path: String)
    requires
        valid_state(s),
        s.docs.dom().contains(id),
    ensures
        valid_state(with_path(s, id, path)),
{
    let t = with_path(s, id, path);
    assert forall|x: DocId|
        #![trigger t.docs.dom().contains(x)]
        t.docs.dom().contains(x) implies t.docs[x].doc_id
        == x && 1 <= x < t.next_doc_id by {
        assert(s.docs.dom().contains(x));
    }
    assert forall|p: Seq<char>|
        #![trigger t.paths.dom().contains(p)]
        t.paths.dom().contains(p) implies t.docs.dom().contains(t.paths[p]) && path_key(
        t.docs[t.paths[p]].file_path,
    ) == p by {
        if p != path_key(path) {
            assert(s.paths.dom().contains(p));
            assert(s.paths[p] != id);
        }
    }
    assert forall|x: DocId|
        #![trigger t.chunks.dom().contains(x)]
        t.chunks.dom().contains(x) implies t.docs.dom().contains(x) && is_run(
        t.chunks[x],
        x,
        t.next_chunk_id,
    ) by {
        assert(s.chunks.dom().contains(x));
    }
}

proof fn lemma_without_doc_valid(s: RegistryState, id: DocId)
    requires
        valid_state(s),
        s.docs.dom().contains(id),
    ensures
        valid_state(without_doc(s, id)),
{
    let t = without_doc(s, id);
    assert forall|p: Seq<char>|
        #![trigger t.paths.dom().contains(p)]
        t.paths.dom().contains(p) implies t.docs.dom().contains(t.paths[p]) && path_key(
        t.docs[t.paths[p]].file_path,
    ) == p by {
        assert(s.paths.dom().contains(p));
        assert(s.paths[p] != id);
    }
    assert forall|x: DocId|
        #![trigger t.chunks.dom().contains(x)]
        t.chunks.dom().contains(x) implies t.docs.dom().contains(x) && is_run(
        t.chunks[x],
        x,
        t.next_chunk_id,
    ) by {
        assert(s.chunks.dom().contains(x));
    }
    assert forall|a: DocId, b: DocId|
        #![trigger t.chunks.dom().contains(a), t.chunks.dom().contains(b)]
        t.chunks.dom().contains(a) && t.chunks.dom().contains(b) && a != b implies !runs_meet(
        t.chunks[a],
        t.chunks[b],
    ) by {
        assert(s.chunks.dom().contains(a) && s.chunks.dom().contains(b));
    }
}

/// Replacing chunks keeps a registry valid.
pub proof fn lemma_with_chunks_valid(s: RegistryState, id: DocId, chunks: Seq<NewChunk>)
    requires
        valid_state(s),
        s.docs.dom().contains(id),
        s.next_chunk_id + chunks.len() <= u32::MAX,
    ensures
        valid_state(with_chunks(s, id, chunks)),
{
    let t = with_chunks(s, id, chunks);
    let run = chunk_run(chunks, id, s.next_chunk_id);
    assert(is_run(run, id, t.next_chunk_id));
    assert forall|x: DocId|
        #![trigger t.chunks.dom().contains(x)]
        t.chunks.dom().contains(x) implies t.docs.dom().contains(x) && is_run(
        t.chunks[x],
        x,
        t.next_chunk_id,
    ) by {
        if x != id {
            assert(s.chunks.dom().contains(x));
        }
    }
    assert forall|a: DocId, b: DocId|
        #![trigger t.chunks.dom().contains(a), t.chunks.dom().contains(b)]
        t.chunks.dom().contains(a) && t.chunks.dom().contains(b) && a != b implies !runs_meet(
        t.chunks[a],
        t.chunks[b],
    ) by {
        if a == id {
            assert(s.chunks.dom().contains(b));
            assert(is_run(s.chunks[b], b, s.next_chunk_id));
        } else if b == id {
            assert(s.chunks.dom().contains(a));
            assert(is_run(s.chunks[a], a, s.next_chunk_id));
        } else {
            assert(s.chunks.dom().contains(a) && s.chunks.dom().contains(b));
        }
    }
}

/// Whether a sequence lists the entries of a catalog, or those of a category, each once.
pub open spec fn lists_catalog(
    v: Seq<BitmapCatalogEntry>,
    catalog: Map<Seq<char>, BitmapCatalogEntry>,
    category: Option<BitmapCategory>,
) -> bool {
    &&& v.no_duplicates()
    &&& forall|e: BitmapCatalogEntry| #[trigger]
        v.contains(e) <==> (exists|k: Seq<char>| #[trigger]
            catalog.dom().contains(k) && catalog[k] == e) && (category is None || category == Some(
            e.category,
        ))
}

// ── The trait ───────────────────────────────────────────────────────────────

/// Pluggable storage backend for document metadata, chunks and the bitmap catalog. A backend may
/// fail with [`RegistryError::Database`]; otherwise an operation does what is stated here.
pub trait Registry: Send + Sync {
    /// What the registry holds.
    spec fn state(&self) -> RegistryState;

    /// What holds of the registry between operations.
    spec fn wf(&self) -> bool;

    /// Whether operations of this backend fail for no reason of its own. It may still run out of
    /// ids.
    spec fn infallible(&self) -> bool;

    /// Whether reading the chunks of a document may fail with an error.
    spec fn chunks_fail(&self, doc_id: DocId, e: RegistryError) -> bool;

    /// Whether the chunks of a document may be read.
    spec fn chunks_read(&self, doc_id: DocId) -> bool;

    /// Whether looking a path up may fail with an error.
    spec fn lookup_fails(&self, path: Seq<char>, e: RegistryError) -> bool;

    /// Registers a document, and returns its id.
    fn insert_doc(&mut self, doc: NewDoc) -> (r: Result<DocId, RegistryError>)
        requires
            old(self).wf(),
        ensures
            final(self).wf(),
            valid_state(final(self).state()),
            final(self).infallible() == old(self).infallible(),
            match r {
                Ok(id) => {
                    &&& id == old(self).state().next_doc_id
                    &&& id < u32::MAX
                    &&& !old(self).state().paths.dom().contains(path_key(doc.file_path))
                    &&& exists|now: Timestamp|
                        final(self).state() == #[trigger] with_doc(old(self).state(), doc, now)
                },
                Err(RegistryError::DuplicatePath(p)) => p == doc.file_path
                    && old(self).state().paths.dom().contains(path_key(doc.file_path))
                    && final(self).state() == old(self).state(),
                Err(RegistryError::NotFound(_)) => false,
                Err(RegistryError::Database(_)) => final(self).state() == old(self).state() && (old(
                    self,
                ).infallible() ==> old(self).state().next_doc_id == u32::MAX),
            },
    ;

    /// Registers documents in a single transaction, and returns their ids. Nothing is registered
    /// where a path is taken or occurs twice among the documents.
    fn bulk_insert_docs(&mut self, docs: Vec<NewDoc>) -> (r: Result<Vec<DocId>, RegistryError>)
        requires
            old(self).wf(),
        ensures
            final(self).wf(),
            valid_state(final(self).state()),
            final(self).infallible() == old(self).infallible(),
            match r {
                Ok(ids) => {
                    &&& old(self).state().next_doc_id + docs@.len() <= u32::MAX
                    &&& forall|j: int|
                        0 <= j < docs@.len() ==> !is_taken(
                            old(self).state(),
                            #[trigger] docs@[j],
                        ) && !is_repeated(docs@, j)
                    &&& ids@ == Seq::new(
                        docs@.len(),
                        |k: int| (old(self).state().next_doc_id + k) as DocId,
                    )
                    &&& became_with_docs(old(self).state(), docs@, final(self).state())
                },
                Err(RegistryError::DuplicatePath(p)) => exists|i: int|
                    #![trigger docs@[i]]
                    {
                        &&& 0 <= i < docs@.len()
                        &&& p == docs@[i].file_path
                        &&& is_first_taken(old(self).state(), docs@, i) || is_first_repeated(
                            old(self).state(),
                            docs@,
                            i,
                        )
                    },
                Err(RegistryError::NotFound(_)) => false,
                Err(RegistryError::Database(_)) => old(self).infallible() ==> old(
                    self,
                ).state().next_doc_id + docs@.len() > u32::MAX,
            },
            r is Err ==> final(self).state() == old(self).state(),
    ;

    /// The document at a path.
    fn lookup_by_path(&self, path: &str) -> (r: Result<Option<DocRecord>, RegistryError>)
        requires
            self.wf(),
        ensures
            valid_state(self.state()),
            self.infallible() ==> r is Ok,
            r matches Ok(o) ==> match o {
                Some(d) => self.state().paths.dom().contains(paths::normal_spec(path@)) && d
                    == self.state().docs[self.state().paths[paths::normal_spec(path@)]],
                None => !self.state().paths.dom().contains(paths::normal_spec(path@)),
            },
            r matches Err(e) ==> self.lookup_fails(path@, e),
    ;

    /// The document with an id.
    fn lookup_by_id(&self, doc_id: DocId) -> (r: Result<Option<DocRecord>, RegistryError>)
        requires
            self.wf(),
        ensures
            valid_state(self.state()),
            self.infallible() ==> r is Ok,
            r matches Ok(o) ==> match o {
                Some(d) => self.state().docs.dom().contains(doc_id) && d
                    == self.state().docs[doc_id],
                None => !self.state().docs.dom().contains(doc_id),
            },
    ;

    /// The documents with ids, in the order of the ids. Unknown ids are passed over.
    fn lookup_by_ids(&self, doc_ids: &[DocId]) -> (r: Result<Vec<DocRecord>, RegistryError>)
        requires
            self.wf(),
        ensures
            valid_state(self.state()),
            self.infallible() ==> r is Ok,
            r matches Ok(v) ==> v@ == known_docs(self.state(), doc_ids@, 0),
    ;

    /// Replaces the hash, time and type of a document.
    fn update_doc(&mut self, doc_id: DocId, hash: [u8; 32], auto_type: Option<DocType>) -> (r:
        Result<(), RegistryError>)
        requires
            old(self).wf(),
        ensures
            final(self).wf(),
            valid_state(final(self).state()),
            final(self).infallible() == old(self).infallible(),
            match r {
                Ok(()) => old(self).state().docs.dom().contains(doc_id) && exists|now: Timestamp|
                    final(self).state() == #[trigger] with_update(
                        old(self).state(),
                        doc_id,
                        hash,
                        auto_type,
                        now,
                    ),
                Err(RegistryError::NotFound(id)) => id == doc_id
                    && !old(self).state().docs.dom().contains(doc_id) && final(self).state()
                    == old(self).state(),
                Err(RegistryError::DuplicatePath(_)) => false,
                Err(RegistryError::Database(_)) => !old(self).infallible() && final(self).state()
                    == old(self).state(),
            },
    ;

    /// Moves a document to another path.
    fn update_path(&mut self, doc_id: DocId, new_path: String) -> (r: Result<(), RegistryError>)
        requires
            old(self).wf(),
        ensures
            final(self).wf(),
            valid_state(final(self).state()),
            final(self).infallible() == old(self).infallible(),
            match r {
                Ok(()) => old(self).state().docs.dom().contains(doc_id) && final(self).state()
                    == with_path(old(self).state(), doc_id, new_path),
                Err(RegistryError::NotFound(id)) => id == doc_id
                    && !old(self).state().docs.dom().contains(doc_id) && final(self).state()
                    == old(self).state(),
                Err(RegistryError::DuplicatePath(_)) => false,
                Err(RegistryError::Database(_)) => !old(self).infallible() && final(self).state()
                    == old(self).state(),
            },
    ;

    /// Deletes a document and its chunks.
    fn delete_doc(&mut self, doc_id: DocId) -> (r: Result<(), RegistryError>)
        requires
            old(self).wf(),
        ensures
            final(self).wf(),
            valid_state(final(self).state()),
            final(self).infallible() == old(self).infallible(),
            match r {
                Ok(()) => old(self).state().docs.dom().contains(doc_id) && final(self).state()
                    == without_doc(old(self).state(), doc_id),
                Err(RegistryError::NotFound(id)) => id == doc_id
                    && !old(self).state().docs.dom().contains(doc_id) && final(self).state()
                    == old(self).state(),
                Err(RegistryError::DuplicatePath(_)) => false,
                Err(RegistryError::Database(_)) => !old(self).infallible() && final(self).state()
                    == old(self).state(),
            },
    ;

    /// Replaces the chunks of a document, and returns their ids: a contiguous run from the next
    /// chunk id on.
    fn replace_chunks(&mut self, doc_id: DocId, chunks: Vec<NewChunk>) -> (r: Result<
        Vec<ChunkId>,
        RegistryError,
    >)
        requires
            old(self).wf(),
        ensures
            final(self).wf(),
            valid_state(final(self).state()),
            final(self).infallible() == old(self).infallible(),
            match r {
                Ok(ids) => {
                    &&& old(self).state().docs.dom().contains(doc_id)
                    &&& old(self).state().next_chunk_id + chunks@.len() <= u32::MAX
                    &&& final(self).state() == with_chunks(old(self).state(), doc_id, chunks@)
                    &&& ids@ == Seq::new(
                        chunks@.len(),
                        |k: int| (old(self).state().next_chunk_id + k) as ChunkId,
                    )
                },
                Err(RegistryError::NotFound(id)) => id == doc_id
                    && !old(self).state().docs.dom().contains(doc_id) && final(self).state()
                    == old(self).state(),
                Err(RegistryError::DuplicatePath(_)) => false,
                Err(RegistryError::Database(_)) => final(self).state() == old(self).state() && (old(
                    self,
                ).infallible() ==> old(self).state().docs.dom().contains(doc_id) && old(
                    self,
                ).state().next_chunk_id + chunks@.len() > u32::MAX),
            },
    ;

    /// The chunks of a document, in ascending order of their id.
    fn get_chunks(&self, doc_id: DocId) -> (r: Result<Vec<ChunkRecord>, RegistryError>)
        requires
            self.wf(),
        ensures
            valid_state(self.state()),
            self.infallible() ==> r is Ok,
            r matches Ok(v) ==> self.chunks_read(doc_id) && v@ == chunks_at(self.state(), doc_id),
            r matches Err(e) ==> self.chunks_fail(doc_id, e),
    ;

    /// The first and last chunk id of a document, if it has chunks.
    fn chunk_range(&self, doc_id: DocId) -> (r: Result<Option<(ChunkId, ChunkId)>, RegistryError>)
        requires
            self.wf(),
        ensures
            valid_state(self.state()),
            self.infallible() ==> r is Ok,
            r matches Ok(o) ==> match o {
                Some((a, b)) => chunks_at(self.state(), doc_id).len() > 0 && a == chunks_at(
                    self.state(),
                    doc_id,
                )[0].chunk_id && b == chunks_at(self.state(), doc_id).last().chunk_id,
                None => chunks_at(self.state(), doc_id).len() == 0,
            },
    ;

    /// The document that a chunk id belongs to, if any.
    fn doc_for_chunk(&self, chunk_id: ChunkId) -> (r: Result<Option<DocId>, RegistryError>)
        requires
            self.wf(),
        ensures
            valid_state(self.state()),
            self.infallible() ==> r is Ok,
            r matches Ok(o) ==> match o {
                Some(id) => owns_chunk(self.state(), id, chunk_id),
                None => forall|id: DocId| !#[trigger] owns_chunk(self.state(), id, chunk_id),
            },
    ;

    /// The chunks of documents, in ascending order of their id. Unless a backend has a better way,
    /// they are read document by document, up to the first that cannot be read.
    fn get_chunks_for_docs(&self, doc_ids: &[DocId]) -> (r: Result<
        Vec<ChunkRecord>,
        RegistryError,
    >)
        requires
            self.wf(),
        ensures
            doc_ids@.len() > 0 ==> valid_state(self.state()),
            self.infallible() ==> r is Ok,
            r matches Ok(v) ==> v@ == by_id(chunks_of_docs(self.state(), doc_ids@)),
        default_ensures
            doc_ids@.len() == 0 ==> r is Ok,
            r is Ok ==> forall|j: int|
                0 <= j < doc_ids@.len() ==> self.chunks_read(#[trigger] doc_ids@[j]),
            r matches Err(e) ==> exists|i: int|
                0 <= i < doc_ids@.len() && self.chunks_fail(#[trigger] doc_ids@[i], e) && forall|
                    j: int,
                |
                    0 <= j < i ==> self.chunks_read(#[trigger] doc_ids@[j]),
    {
        let mut out: Vec<ChunkRecord> = Vec::new();
        let mut i: usize = 0;
        while i < doc_ids.len()
            invariant
                self.wf(),
                i <= doc_ids@.len(),
                i > 0 ==> valid_state(self.state()),
                forall|j: int| 0 <= j < i ==> self.chunks_read(#[trigger] doc_ids@[j]),
                out@ == by_id(chunks_of_docs(self.state(), doc_ids@.take(i as int))),
            decreases doc_ids@.len() - i,
        {
            let ghost head = chunks_of_docs(self.state(), doc_ids@.take(i as int));
            let ghost own = chunks_at(self.state(), doc_ids@[i as int]);
            proof {
                let t = doc_ids@.take(i + 1);
                assert(t.drop_last() =~= doc_ids@.take(i as int));
                assert(chunks_of_docs(self.state(), t) == head + own);
                assert(head + own.take(0) =~= head);
                assert(own.take(own.len() as int) =~= own);
            }
            let v = match self.get_chunks(doc_ids[i]) {
                Ok(v) => v,
                Err(e) => {
                    assert(self.chunks_fail(doc_ids@[i as int], e));
                    return Err(e);
                },
            };
            let mut k: usize = 0;
            while k < v.len()
                invariant
                    k <= v@.len(),
                    own == v@,
                    out@ == by_id(head + own.take(k as int)),
                decreases v@.len() - k,
            {
                proof {
                    let t = head + own.take(k + 1);
                    assert(t.drop_last() =~= head + own.take(k as int));
                    assert(t.last() == own[k as int]);
                }
                insert_by_id(&mut out, v[k].clone());
                k += 1;
            }
            i += 1;
        }
        assert(doc_ids@.take(i as int) =~= doc_ids@);
        Ok(out)
    }

    /// Sets a catalog entry.
    fn upsert_catalog_entry(&mut self, entry: BitmapCatalogEntry) -> (r: Result<(), RegistryError>)
        requires
            old(self).wf(),
        ensures
            old(self).infallible() ==> r is Ok,
            final(self).wf(),
            valid_state(final(self).state()),
            final(self).infallible() == old(self).infallible(),
            r is Ok ==> final(self).state() == with_entry(old(self).state(), entry),
    ;

    /// Sets catalog entries.
    fn bulk_upsert_catalog(&mut self, entries: Vec<BitmapCatalogEntry>) -> (r: Result<
        (),
        RegistryError,
    >)
        requires
            old(self).wf(),
        ensures
            old(self).infallible() ==> r is Ok,
            final(self).wf(),
            valid_state(final(self).state()),
            final(self).infallible() == old(self).infallible(),
            r is Ok ==> final(self).state() == with_entries(old(self).state(), entries@, 0),
    ;

    /// The catalog entry of a key.
    fn get_catalog_entry(&self, key: &str) -> (r: Result<
        Option<BitmapCatalogEntry>,
        RegistryError,
    >)
        requires
            self.wf(),
        ensures
            valid_state(self.state()),
            self.infallible() ==> r is Ok,
            r matches Ok(o) ==> match o {
                Some(e) => self.state().catalog.dom().contains(key@) && e
                    == self.state().catalog[key@],
                None => !self.state().catalog.dom().contains(key@),
            },
    ;

    /// The catalog entries, optionally those of a category.
    fn list_catalog(&self, category: Option<BitmapCategory>) -> (r: Result<
        Vec<BitmapCatalogEntry>,
        RegistryError,
    >)
        requires
            self.wf(),
        ensures
            valid_state(self.state()),
            self.infallible() ==> r is Ok,
            r matches Ok(v) ==> lists_catalog(v@, self.state().catalog, category),
    ;

    /// All documents.
    fn list_all_docs(&self) -> (r: Result<Vec<DocRecord>, RegistryError>)
        requires
            self.wf(),
        ensures
            valid_state(self.state()),
            self.infallible() ==> r is Ok,
            r matches Ok(v) ==> v@.no_duplicates() && forall|d: DocRecord| #[trigger]
                v@.contains(d) <==> self.state().docs.dom().contains(d.doc_id)
                    && self.state().docs[d.doc_id] == d,
    ;

    /// The counters.
    fn get_global_state(&self) -> (r: Result<GlobalState, RegistryError>)
        requires
            self.wf(),
        ensures
            valid_state(self.state()),
            self.infallible() ==> r is Ok,
            r matches Ok(g) ==> g.next_doc_id == self.state().next_doc_id && g.next_chunk_id
                == self.state().next_chunk_id && self.state().docs.dom().finite()
                && g.total_documents == self.state().docs.dom().len(),
    ;
}

// ── The registry in memory ──────────────────────────────────────────────────

/// A registry held in memory.
#[derive(Debug)]
pub struct InMemoryRegistry {
    next_doc_id: DocId,
    next_chunk_id: ChunkId,
    docs: IdMap<DocRecord>,
    path_index: KeyMap<DocId>,
    chunks: IdMap<Vec<ChunkRecord>>,
    catalog: KeyMap<BitmapCatalogEntry>,
}

/// Lists of records by document.
pub open spec fn chunk_map(m: Map<DocId, Vec<ChunkRecord>>) -> Map<DocId, Seq<ChunkRecord>> {
    m.map_values(|v: Vec<ChunkRecord>| v@)
}

/// The message of a registry that has run out of ids.
pub open spec fn out_of_ids() -> Seq<char> {
    "out of identifiers"@
}

fn clone_records(v: &Vec<ChunkRecord>) -> (r: Vec<ChunkRecord>)
    ensures
        r@ == v@,
{
    let mut out: Vec<ChunkRecord> = Vec::new();
    let mut i: usize = 0;
    while i < v.len()
        invariant
            i <= v@.len(),
            out@ == v@.take(i as int),
        decreases v@.len() - i,
    {
        out.push(v[i].clone());
        proof {
            assert(v@.take(i + 1) =~= v@.take(i as int).push(v@[i as int]));
        }
        i += 1;
    }
    assert(v@.take(v@.len() as int) =~= v@);
    out
}

/// Puts a record into a list behind the last one whose id is not greater.
fn insert_by_id(s: &mut Vec<ChunkRecord>, x: ChunkRecord)
    ensures
        final(s)@ == put_by_id(old(s)@, x),
{
    let ghost s0 = s@;
    let mut i: usize = s.len();
    proof {
        assert(s0.take(s0.len() as int) =~= s0);
        assert(s0.skip(s0.len() as int) =~= Seq::<ChunkRecord>::empty());
    }
    while i > 0 && s[i - 1].chunk_id > x.chunk_id
        invariant
            s@ == s0,
            i <= s0.len(),
            put_by_id(s0, x) =~= put_by_id(s0.take(i as int), x) + s0.skip(i as int),
        decreases i,
    {
        proof {
            let t = s0.take(i as int);
            assert(t.drop_last() =~= s0.take(i - 1));
            assert(t.last() == s0[i - 1]);
            assert(seq![s0[i - 1]] + s0.skip(i as int) =~= s0.skip(i - 1));
        }
        i -= 1;
    }
    proof {
        let t = s0.take(i as int);
        if i > 0 {
            assert(t.last() == s0[i - 1]);
        }
        assert(s0.insert(i as int, x) =~= t.push(x) + s0.skip(i as int));
    }
    s.insert(i, x);
}

impl InMemoryRegistry {
    /// A registry that holds nothing.
    pub fn new() -> (r: Self)
        ensures
            r.wf(),
            r.state() == empty_state(),
    {
        let r = InMemoryRegistry {
            next_doc_id: 1,
            next_chunk_id: 1,
            docs: IdMap::new(),
            path_index: KeyMap::new(),
            chunks: IdMap::new(),
            catalog: KeyMap::new(),
        };
        assert(chunk_map(r.chunks@) =~= Map::empty());
        r
    }

    /// Registers a document at a given time.
    pub fn insert_doc_at(&mut self, doc: NewDoc, now: Timestamp) -> (r: Result<
        DocId,
        RegistryError,
    >)
        requires
            old(self).wf(),
        ensures
            final(self).wf(),
            match r {
                Ok(id) => {
                    &&& id == old(self).state().next_doc_id
                    &&& id < u32::MAX
                    &&& !is_taken(old(self).state(), doc)
                    &&& final(self).state() == with_doc(old(self).state(), doc, now)
                },
                Err(RegistryError::DuplicatePath(p)) => p == doc.file_path && is_taken(
                    old(self).state(),
                    doc,
                ) && final(self).state() == old(self).state(),
                Err(RegistryError::NotFound(_)) => false,
                Err(RegistryError::Database(m)) => m@ == out_of_ids() && !is_taken(
                    old(self).state(),
                    doc,
                ) && old(self).state().next_doc_id == u32::MAX && final(self).state() == old(
                    self,
                ).state(),
            },
    {
        let key = paths::normalize(doc.file_path.as_str());
        if self.path_index.contains_key(key.as_str()) {
            return Err(RegistryError::DuplicatePath(doc.file_path));
        }
        if self.next_doc_id == u32::MAX {
            return Err(RegistryError::Database("out of identifiers".to_owned()));
        }
        let id = self.next_doc_id;
        proof {
            lemma_with_doc_valid(self.state(), doc, now);
        }
        self.next_doc_id = id + 1;
        let record = DocRecord {
            doc_id: id,
            file_path: doc.file_path,
            source_type: doc.source_type,
            blake3_hash: doc.blake3_hash,
            last_indexed: now,
            auto_type: doc.auto_type,
        };
        self.path_index.insert(key, id);
        self.docs.insert(id, record);
        assert(self.state() =~= with_doc(old(self).state(), doc, now));
        Ok(id)
    }

    /// Replaces the hash and type of a document at a given time.
    pub fn update_doc_at(
        &mut self,
        doc_id: DocId,
        hash: [u8; 32],
        auto_type: Option<DocType>,
        now: Timestamp,
    ) -> (r: Result<(), RegistryError>)
        requires
            old(self).wf(),
        ensures
            final(self).wf(),
            match r {
                Ok(()) => old(self).state().docs.dom().contains(doc_id) && final(self).state()
                    == with_update(old(self).state(), doc_id, hash, auto_type, now),
                Err(RegistryError::NotFound(id)) => id == doc_id && !old(
                    self,
                ).state().docs.dom().contains(doc_id) && final(self).state() == old(self).state(),
                Err(_) => false,
            },
    {
        let record = match self.docs.get(doc_id) {
            Some(d) => d.clone(),
            None => {
                return Err(RegistryError::NotFound(doc_id));
            },
        };
        proof {
            lemma_with_update_valid(self.state(), doc_id, hash, auto_type, now);
        }
        let record = DocRecord {
            doc_id: record.doc_id,
            file_path: record.file_path,
            source_type: record.source_type,
            blake3_hash: hash,
            last_indexed: now,
            auto_type,
        };
        self.docs.insert(doc_id, record);
        assert(self.state() =~= with_update(old(self).state(), doc_id, hash, auto_type, now));
        Ok(())
    }
}

// ── Restoring ───────────────────────────────────────────────────────────────

/// Whether a stored document fits a registry: its id is free, and its chunks are a run of ids that
/// no other document has.
pub open spec fn is_restorable(
    s: RegistryState,
    record: DocRecord,
    chunks: Seq<ChunkRecord>,
) -> bool {
    &&& 1 <= record.doc_id < u32::MAX
    &&& !s.docs.dom().contains(record.doc_id)
    &&& is_run(chunks, record.doc_id, u32::MAX)
    &&& forall|id: DocId| #[trigger]
        s.chunks.dom().contains(id) ==> !runs_meet(s.chunks[id], chunks)
}

/// The greater of two ids.
pub open spec fn greater(a: u32, b: int) -> u32 {
    if a < b {
        b as u32
    } else {
        a
    }
}

/// The state with a stored document. Ids that are given later lie behind its own.
pub open spec fn with_restored(
    s: RegistryState,
    record: DocRecord,
    chunks: Seq<ChunkRecord>,
) -> RegistryState {
    RegistryState {
        next_doc_id: greater(s.next_doc_id, record.doc_id + 1),
        next_chunk_id: if chunks.len() == 0 {
            s.next_chunk_id
        } else {
            greater(s.next_chunk_id, chunks.last().chunk_id + 1)
        },
        docs: s.docs.insert(record.doc_id, record),
        paths: s.paths.insert(path_key(record.file_path), record.doc_id),
        chunks: s.chunks.insert(record.doc_id, chunks),
        ..s
    }
}

proof fn lemma_with_restored_valid(s: RegistryState, record: DocRecord, chunks: Seq<ChunkRecord>)
    requires
        valid_state(s),
        is_restorable(s, record, chunks),
    ensures
        valid_state(with_restored(s, record, chunks)),
{
    let t = with_restored(s, record, chunks);
    let new = record.doc_id;
    assert(!s.chunks.dom().contains(new));
    assert forall|id: DocId| #[trigger] t.chunks.dom().contains(id) implies t.docs.dom().contains(
        id,
    ) && is_run(t.chunks[id], id, t.next_chunk_id) by {
        if id == new {
            if chunks.len() > 0 {
                assert(chunks.last().chunk_id == chunks[0].chunk_id + chunks.len() - 1);
            }
            assert forall|k: int|
                #![trigger chunks[k]]
                0 <= k < chunks.len() implies chunks[k].doc_id == id && chunks[k].chunk_id
                == chunks[0].chunk_id + k && 1 <= chunks[k].chunk_id < t.next_chunk_id by {
                assert(chunks[k].chunk_id <= chunks.last().chunk_id);
            }
        } else {
            assert(s.chunks.dom().contains(id));
        }
    }
    assert forall|a: DocId, b: DocId|
        #![trigger t.chunks.dom().contains(a), t.chunks.dom().contains(b)]
        t.chunks.dom().contains(a) && t.chunks.dom().contains(b) && a != b implies !runs_meet(
        t.chunks[a],
        t.chunks[b],
    ) by {
        if a == new {
            assert(s.chunks.dom().contains(b));
            if runs_meet(chunks, s.chunks[b]) {
                let (i, j) = choose|i: int, j: int|
                    0 <= i < chunks.len() && 0 <= j < s.chunks[b].len() && (
                    #[trigger] chunks[i]).chunk_id == (#[trigger] s.chunks[b][j]).chunk_id;
                assert(s.chunks[b][j].chunk_id == chunks[i].chunk_id);
                assert(runs_meet(s.chunks[b], chunks));
            }
        } else {
            assert(s.chunks.dom().contains(a));
            if b != new {
                assert(s.chunks.dom().contains(b));
            }
        }
    }
    assert forall|id: DocId|
        #![trigger t.docs.dom().contains(id)]
        #![trigger t.docs[id]]
        t.docs.dom().contains(id) implies t.docs[id].doc_id == id && 1 <= id < t.next_doc_id by {
        if id != new {
            assert(s.docs.dom().contains(id));
        }
    }
    assert forall|p: Seq<char>| #[trigger] t.paths.dom().contains(p) implies t.docs.dom().contains(
        t.paths[p],
    ) && path_key(t.docs[t.paths[p]].file_path) == p by {
        if p != path_key(record.file_path) {
            assert(s.paths.dom().contains(p));
            assert(s.docs.dom().contains(s.paths[p]));
        }
    }
}

/// Whether chunks are a run of ids of one document.
fn are_run(chunks: &Vec<ChunkRecord>, doc_id: DocId) -> (r: bool)
    ensures
        r == is_run(chunks@, doc_id, u32::MAX),
{
    let mut i: usize = 0;
    while i < chunks.len()
        invariant
            i <= chunks@.len(),
            forall|k: int|
                #![trigger chunks@[k]]
                0 <= k < i ==> chunks@[k].doc_id == doc_id && chunks@[k].chunk_id
                    == chunks@[0].chunk_id + k && 1 <= chunks@[k].chunk_id < u32::MAX,
        decreases chunks@.len() - i,
    {
        let first: u64 = chunks[0].chunk_id as u64;
        let id: u64 = chunks[i].chunk_id as u64;
        let whole = chunks[i].doc_id == doc_id && id >= first && id - first == i as u64 && 1 <= id
            && id < 0xffff_ffff;
        if !whole {
            assert(!(chunks@[i as int].doc_id == doc_id && chunks@[i as int].chunk_id
                == chunks@[0].chunk_id + i && 1 <= chunks@[i as int].chunk_id < u32::MAX));
            return false;
        }
        i += 1;
    }
    true
}

impl InMemoryRegistry {
    /// Whether no document has one of the ids of a run.
    fn is_free_run(&self, chunks: &Vec<ChunkRecord>, Ghost(doc_id): Ghost<DocId>) -> (r: bool)
        requires
            self.wf(),
            is_run(chunks@, doc_id, u32::MAX),
        ensures
            r == forall|id: DocId| #[trigger]
                self.state().chunks.dom().contains(id) ==> !runs_meet(
                    self.state().chunks[id],
                    chunks@,
                ),
    {
        if chunks.len() == 0 {
            return true;
        }
        let first: ChunkId = chunks[0].chunk_id;
        let last: ChunkId = chunks[chunks.len() - 1].chunk_id;
        let n = self.chunks.len();
        let mut i: usize = 0;
        while i < n
            invariant
                self.wf(),
                is_run(chunks@, doc_id, u32::MAX),
                chunks@.len() > 0,
                first == chunks@[0].chunk_id,
                last == chunks@[chunks@.len() - 1].chunk_id,
                n == self.chunks.entries_spec().len(),
                i <= n,
                forall|j: int|
                    #![trigger self.chunks.entries_spec()[j]]
                    0 <= j < i ==> !runs_meet(self.chunks.entries_spec()[j].1@, chunks@),
            decreases n - i,
        {
            let id = self.chunks.id_at(i);
            let v = self.chunks.value_at(i);
            proof {
                self.chunks.lemma_ids();
                assert(self.chunks.entries_spec()[i as int].0 == id);
                assert(self.state().chunks.dom().contains(id));
                assert(self.state().chunks[id] == v@);
                assert(is_run(v@, id, self.next_chunk_id));
            }
            if v.len() > 0 {
                let low: ChunkId = v[0].chunk_id;
                let high: ChunkId = v[v.len() - 1].chunk_id;
                proof {
                    assert(high == low + v@.len() - 1);
                    assert(last == first + chunks@.len() - 1);
                }
                if low <= last && first <= high {
                    proof {
                        let c: int = if low <= first {
                            first as int
                        } else {
                            low as int
                        };
                        assert(v@[c - low].chunk_id == low + (c - low));
                        assert(chunks@[c - first].chunk_id == first + (c - first));
                        assert(v@[c - low].chunk_id == chunks@[c - first].chunk_id);
                        assert(runs_meet(v@, chunks@));
                    }
                    return false;
                }
                proof {
                    if runs_meet(v@, chunks@) {
                        let (a, b) = choose|a: int, b: int|
                            0 <= a < v@.len() && 0 <= b < chunks@.len() && (
                            #[trigger] v@[a]).chunk_id == (#[trigger] chunks@[b]).chunk_id;
                        assert(v@[a].chunk_id == low + a);
                        assert(chunks@[b].chunk_id == first + b);
                        assert(false);
                    }
                }
            }
            i += 1;
        }
        proof {
            self.chunks.lemma_ids();
            assert forall|id: DocId| #[trigger]
                self.state().chunks.dom().contains(id) implies !runs_meet(
                self.state().chunks[id],
                chunks@,
            ) by {
                assert(self.chunks@.dom().contains(id));
                assert(self.chunks.ids_spec().contains(id));
                let j = self.chunks.ids_spec().index_of(id);
                assert(self.chunks.ids_spec()[j] == id);
                assert(self.chunks.entries_spec()[j].0 == id);
                assert(self.state().chunks[id] == self.chunks.entries_spec()[j].1@);
            }
        }
        true
    }

    /// Takes in a document that was stored, with the ids that it and its chunks had.
    pub fn restore_doc(&mut self, record: DocRecord, chunks: Vec<ChunkRecord>) -> (r: Result<
        (),
        RegistryError,
    >)
        requires
            old(self).wf(),
        ensures
            final(self).wf(),
            match r {
                Ok(()) => is_restorable(old(self).state(), record, chunks@) && final(self).state()
                    == with_restored(old(self).state(), record, chunks@),
                Err(RegistryError::Database(m)) => m@ == "stored document does not fit"@
                    && !is_restorable(old(self).state(), record, chunks@) && final(self).state()
                    == old(self).state(),
                Err(_) => false,
            },
    {
        let id = record.doc_id;
        let fits = 1 <= id && id < u32::MAX && !self.docs.contains_id(id) && are_run(&chunks, id)
            && self.is_free_run(&chunks, Ghost(id));
        if !fits {
            return Err(RegistryError::Database("stored document does not fit".to_owned()));
        }
        proof {
            lemma_with_restored_valid(self.state(), record, chunks@);
            lemma_chunk_map_insert(self.chunks@, id, chunks);
        }
        if self.next_doc_id < id + 1 {
            self.next_doc_id = id + 1;
        }
        if chunks.len() > 0 {
            let last: ChunkId = chunks[chunks.len() - 1].chunk_id;
            if self.next_chunk_id < last + 1 {
                self.next_chunk_id = last + 1;
            }
        }
        let key = paths::normalize(record.file_path.as_str());
        self.path_index.insert(key, id);
        self.docs.insert(id, record);
        self.chunks.insert(id, chunks);
        assert(self.state() =~= with_restored(old(self).state(), record, chunks@));
        Ok(())
    }

    /// Makes sure that ids which were given before are not given again.
    pub fn raise_counters(&mut self, next_doc_id: DocId, next_chunk_id: ChunkId)
        requires
            old(self).wf(),
        ensures
            final(self).wf(),
            final(self).state() == (RegistryState {
                next_doc_id: greater(old(self).state().next_doc_id, next_doc_id as int),
                next_chunk_id: greater(old(self).state().next_chunk_id, next_chunk_id as int),
                ..old(self).state()
            }),
    {
        if self.next_doc_id < next_doc_id {
            self.next_doc_id = next_doc_id;
        }
        if self.next_chunk_id < next_chunk_id {
            self.next_chunk_id = next_chunk_id;
        }
        proof {
            let s = old(self).state();
            let t = self.state();
            assert forall|id: DocId| #[trigger]
                t.chunks.dom().contains(id) implies t.docs.dom().contains(id) && is_run(
                t.chunks[id],
                id,
                t.next_chunk_id,
            ) by {
                assert(s.chunks.dom().contains(id));
            }
            assert(valid_state(t));
        }
    }
}

impl Default for InMemoryRegistry {
    fn default() -> (r: Self)
        ensures
            r.wf(),
            r.state() == empty_state(),
    {
        Self::new()
    }
}

proof fn lemma_chunk_map_insert(m: Map<DocId, Vec<ChunkRecord>>, k: DocId, v: Vec<ChunkRecord>)
    ensures
        chunk_map(m.insert(k, v)) == chunk_map(m).insert(k, v@),
{
    assert(chunk_map(m.insert(k, v)) =~= chunk_map(m).insert(k, v@));
}

proof fn lemma_chunk_map_remove(m: Map<DocId, Vec<ChunkRecord>>, k: DocId)
    ensures
        chunk_map(m.remove(k)) == chunk_map(m).remove(k),
{
    assert(chunk_map(m.remove(k)) =~= chunk_map(m).remove(k));
}

/// Registering documents takes one id and one path for each, and touches nothing else.
proof fn lemma_with_docs(s: RegistryState, docs: Seq<NewDoc>, times: Seq<Timestamp>)
    requires
        s.next_doc_id + docs.len() <= u32::MAX,
    ensures
        with_docs(s, docs, times).next_doc_id == s.next_doc_id + docs.len(),
        forall|p: Seq<char>| #[trigger]
            with_docs(s, docs, times).paths.dom().contains(p) <==> s.paths.dom().contains(p)
                || exists|j: int|
                0 <= j < docs.len() && path_key((#[trigger] docs[j]).file_path) == p,
    decreases docs.len(),
{
    if docs.len() > 0 {
        let front = docs.drop_last();
        lemma_with_docs(s, front, times.drop_last());
        assert forall|p: Seq<char>| #[trigger]
            with_docs(s, docs, times).paths.dom().contains(p) <==> s.paths.dom().contains(p)
                || exists|j: int|
                0 <= j < docs.len() && path_key((#[trigger] docs[j]).file_path) == p by {
            let a = with_docs(s, front, times.drop_last());
            assert(with_docs(s, docs, times).paths.dom().contains(p) <==> p == path_key(
                docs.last().file_path,
            ) || a.paths.dom().contains(p));
            if a.paths.dom().contains(p) && !s.paths.dom().contains(p) {
                let j = choose|j: int|
                    0 <= j < front.len() && path_key((#[trigger] front[j]).file_path) == p;
                assert(docs[j] == front[j]);
            }
            if exists|j: int| 0 <= j < docs.len() && path_key((#[trigger] docs[j]).file_path) == p {
                let j = choose|j: int|
                    0 <= j < docs.len() && path_key((#[trigger] docs[j]).file_path) == p;
                if j < front.len() {
                    assert(front[j] == docs[j]);
                }
            }
        }
    }
}

/// The first document whose path occurs before it.
fn first_repeated(docs: &Vec<NewDoc>) -> (r: Option<usize>)
    ensures
        match r {
            Some(k) => k < docs@.len() && is_repeated(docs@, k as int) && forall|j: int|
                0 <= j < k ==> !#[trigger] is_repeated(docs@, j),
            None => forall|j: int| 0 <= j < docs@.len() ==> !#[trigger] is_repeated(docs@, j),
        },
{
    let mut seen: KeyMap<bool> = KeyMap::new();
    let mut i: usize = 0;
    while i < docs.len()
        invariant
            i <= docs@.len(),
            seen.wf(),
            forall|p: Seq<char>| #[trigger]
                seen@.dom().contains(p) <==> exists|j: int|
                    0 <= j < i && path_key((#[trigger] docs@[j]).file_path) == p,
            forall|j: int| 0 <= j < i ==> !#[trigger] is_repeated(docs@, j),
        decreases docs@.len() - i,
    {
        let key = paths::normalize(docs[i].file_path.as_str());
        let ghost before = seen@;
        assert(key@ == path_key(docs@[i as int].file_path));
        if seen.contains_key(key.as_str()) {
            assert(is_repeated(docs@, i as int));
            return Some(i);
        }
        assert(!is_repeated(docs@, i as int));
        seen.insert(key, true);
        proof {
            assert forall|p: Seq<char>| #[trigger]
                seen@.dom().contains(p) <==> exists|j: int|
                    0 <= j < i + 1 && path_key((#[trigger] docs@[j]).file_path) == p by {
                if exists|j: int|
                    0 <= j < i + 1 && path_key((#[trigger] docs@[j]).file_path) == p {
                    let j = choose|j: int|
                        0 <= j < i + 1 && path_key((#[trigger] docs@[j]).file_path) == p;
                    if j < i {
                        assert(before.dom().contains(p));
                    }
                }
                if before.dom().contains(p) {
                    let j = choose|j: int|
                        0 <= j < i && path_key((#[trigger] docs@[j]).file_path) == p;
                    assert(j < i + 1);
                }
                assert(path_key(docs@[i as int].file_path) == key@);
            }
        }
        i += 1;
    }
    None
}

impl Registry for InMemoryRegistry {
    closed spec fn state(&self) -> RegistryState {
        RegistryState {
            next_doc_id: self.next_doc_id,
            next_chunk_id: self.next_chunk_id,
            docs: self.docs@,
            paths: self.path_index@,
            chunks: chunk_map(self.chunks@),
            catalog: self.catalog@,
        }
    }

    closed spec fn wf(&self) -> bool {
        &&& self.docs.wf()
        &&& self.path_index.wf()
        &&& self.chunks.wf()
        &&& self.catalog.wf()
        &&& valid_state(self.state())
    }

    open spec fn infallible(&self) -> bool {
        true
    }

    open spec fn chunks_fail(&self, doc_id: DocId, e: RegistryError) -> bool {
        false
    }

    open spec fn chunks_read(&self, doc_id: DocId) -> bool {
        true
    }

    open spec fn lookup_fails(&self, path: Seq<char>, e: RegistryError) -> bool {
        false
    }

    fn insert_doc(&mut self, doc: NewDoc) -> (r: Result<DocId, RegistryError>)
        ensures
            r matches Err(RegistryError::Database(m)) ==> m@ == out_of_ids() && !is_taken(
                old(self).state(),
                doc,
            ) && old(self).state().next_doc_id == u32::MAX && final(self).state() == old(
                self,
            ).state(),
    {
        let now = clock::now();
        self.insert_doc_at(doc, now)
    }

    fn bulk_insert_docs(&mut self, docs: Vec<NewDoc>) -> (r: Result<Vec<DocId>, RegistryError>)
        ensures
            r matches Err(RegistryError::Database(m)) ==> m@ == out_of_ids() && old(
                self,
            ).state().next_doc_id + docs@.len() > u32::MAX,
    {
        let n = docs.len();
        let mut i: usize = 0;
        while i < n
            invariant
                self.wf(),
                *self == *old(self),
                n == docs@.len(),
                i <= n,
                forall|j: int| 0 <= j < i ==> !is_taken(old(self).state(), #[trigger] docs@[j]),
            decreases n - i,
        {
            let key = paths::normalize(docs[i].file_path.as_str());
            if self.path_index.contains_key(key.as_str()) {
                assert(is_first_taken(old(self).state(), docs@, i as int));
                return Err(RegistryError::DuplicatePath(docs[i].file_path.clone()));
            }
            i += 1;
        }
        match first_repeated(&docs) {
            Some(k) => {
                assert(is_first_repeated(old(self).state(), docs@, k as int));
                return Err(RegistryError::DuplicatePath(docs[k].file_path.clone()));
            },
            None => {},
        }
        if n > (u32::MAX - self.next_doc_id) as usize {
            return Err(RegistryError::Database("out of identifiers".to_owned()));
        }
        let ghost s0 = self.state();
        let ghost all = docs@;
        let ghost mut times: Seq<Timestamp> = Seq::empty();
        let mut ids: Vec<DocId> = Vec::new();
        let mut k: usize = 0;
        while k < n
            invariant
                self.wf(),
                s0 == old(self).state(),
                all == docs@,
                n == docs@.len(),
                k <= n,
                s0.next_doc_id + n <= u32::MAX,
                times.len() == k,
                ids@.len() == k,
                forall|j: int| 0 <= j < n ==> !is_taken(s0, #[trigger] docs@[j]),
                forall|j: int| 0 <= j < n ==> !#[trigger] is_repeated(all, j),
                forall|j: int| 0 <= j < k ==> #[trigger] ids@[j] == s0.next_doc_id + j,
                self.state() == with_docs(s0, all.take(k as int), times),
            decreases n - k,
        {
            let ghost before = self.state();
            let now = clock::now();
            let doc = NewDoc {
                file_path: docs[k].file_path.clone(),
                source_type: docs[k].source_type.clone(),
                blake3_hash: docs[k].blake3_hash,
                auto_type: docs[k].auto_type,
            };
            assert(doc == all[k as int]);
            proof {
                lemma_with_docs(s0, all.take(k as int), times);
                assert(all.take(k + 1).drop_last() =~= all.take(k as int));
                assert(times.push(now).drop_last() =~= times);
                let p = path_key(doc.file_path);
                assert forall|j: int| 0 <= j < k implies all.take(k as int)[j] == all[j] by {}
                if before.paths.dom().contains(p) {
                    let j = choose|j: int|
                        0 <= j < all.take(k as int).len() && path_key(
                            (#[trigger] all.take(k as int)[j]).file_path,
                        ) == p;
                    assert(path_key(all[j].file_path) == p);
                    assert(is_repeated(all, k as int));
                }
            }
            match self.insert_doc_at(doc, now) {
                Ok(id) => {
                    ids.push(id);
                    proof {
                        times = times.push(now);
                    }
                },
                Err(e) => {
                    assert(false);
                    return Err(e);
                },
            }
            k += 1;
        }
        proof {
            assert(all.take(n as int) =~= all);
            assert(became_with_docs(s0, all, self.state()));
            assert(ids@ =~= Seq::new(docs@.len(), |k: int| (s0.next_doc_id + k) as DocId));
        }
        Ok(ids)
    }

    fn lookup_by_path(&self, path: &str) -> (r: Result<Option<DocRecord>, RegistryError>)
        ensures
            r is Ok,
    {
        let key = paths::normalize(path);
        match self.path_index.get(key.as_str()) {
            Some(id) => match self.docs.get(*id) {
                Some(d) => Ok(Some(d.clone())),
                None => Ok(None),
            },
            None => Ok(None),
        }
    }

    fn lookup_by_id(&self, doc_id: DocId) -> (r: Result<Option<DocRecord>, RegistryError>)
        ensures
            r is Ok,
    {
        match self.docs.get(doc_id) {
            Some(d) => Ok(Some(d.clone())),
            None => Ok(None),
        }
    }

    fn lookup_by_ids(&self, doc_ids: &[DocId]) -> (r: Result<Vec<DocRecord>, RegistryError>)
        ensures
            r is Ok,
    {
        let mut out: Vec<DocRecord> = Vec::new();
        let mut i: usize = 0;
        while i < doc_ids.len()
            invariant
                self.wf(),
                i <= doc_ids@.len(),
                out@ + known_docs(self.state(), doc_ids@, i as int) == known_docs(
                    self.state(),
                    doc_ids@,
                    0,
                ),
            decreases doc_ids@.len() - i,
        {
            let ghost rest = known_docs(self.state(), doc_ids@, i + 1);
            match self.docs.get(doc_ids[i]) {
                Some(d) => {
                    proof {
                        assert(out@.push(*d) + rest =~= out@ + (seq![*d] + rest));
                    }
                    out.push(d.clone());
                },
                None => {},
            }
            i += 1;
        }
        assert(out@ + known_docs(self.state(), doc_ids@, i as int) =~= out@);
        Ok(out)
    }

    fn update_doc(&mut self, doc_id: DocId, hash: [u8; 32], auto_type: Option<DocType>) -> (r:
        Result<(), RegistryError>)
        ensures
            !(r matches Err(RegistryError::Database(_))),
    {
        let now = clock::now();
        self.update_doc_at(doc_id, hash, auto_type, now)
    }

    fn update_path(&mut self, doc_id: DocId, new_path: String) -> (r: Result<(), RegistryError>)
        ensures
            !(r matches Err(RegistryError::Database(_))),
    {
        let record = match self.docs.get(doc_id) {
            Some(d) => d.clone(),
            None => {
                return Err(RegistryError::NotFound(doc_id));
            },
        };
        proof {
            lemma_with_path_valid(self.state(), doc_id, new_path);
        }
        let old_key = paths::normalize(record.file_path.as_str());
        self.path_index.remove(old_key.as_str());
        let new_key = paths::normalize(new_path.as_str());
        self.path_index.insert(new_key, doc_id);
        let record = DocRecord {
            doc_id: record.doc_id,
            file_path: new_path,
            source_type: record.source_type,
            blake3_hash: record.blake3_hash,
            last_indexed: record.last_indexed,
            auto_type: record.auto_type,
        };
        self.docs.insert(doc_id, record);
        assert(self.state() =~= with_path(old(self).state(), doc_id, new_path));
        Ok(())
    }

    fn delete_doc(&mut self, doc_id: DocId) -> (r: Result<(), RegistryError>)
        ensures
            !(r matches Err(RegistryError::Database(_))),
    {
        let record = match self.docs.get(doc_id) {
            Some(d) => d.clone(),
            None => {
                return Err(RegistryError::NotFound(doc_id));
            },
        };
        proof {
            lemma_without_doc_valid(self.state(), doc_id);
            lemma_chunk_map_remove(self.chunks@, doc_id);
        }
        let key = paths::normalize(record.file_path.as_str());
        self.path_index.remove(key.as_str());
        self.docs.remove(doc_id);
        self.chunks.remove(doc_id);
        assert(self.state() =~= without_doc(old(self).state(), doc_id));
        Ok(())
    }

    fn replace_chunks(&mut self, doc_id: DocId, chunks: Vec<NewChunk>) -> (r: Result<
        Vec<ChunkId>,
        RegistryError,
    >)
        ensures
            r matches Err(RegistryError::Database(m)) ==> m@ == out_of_ids() && old(
                self,
            ).state().docs.dom().contains(doc_id) && old(self).state().next_chunk_id + chunks@.len()
                > u32::MAX && final(self).state() == old(self).state(),
    {
        if !self.docs.contains_id(doc_id) {
            return Err(RegistryError::NotFound(doc_id));
        }
        let n = chunks.len();
        let first = self.next_chunk_id;
        if n > (u32::MAX - first) as usize {
            return Err(RegistryError::Database("out of identifiers".to_owned()));
        }
        proof {
            lemma_with_chunks_valid(self.state(), doc_id, chunks@);
        }
        let mut ids: Vec<ChunkId> = Vec::new();
        let mut records: Vec<ChunkRecord> = Vec::new();
        let mut i: usize = 0;
        while i < n
            invariant
                n == chunks@.len(),
                first + n <= u32::MAX,
                i <= n,
                ids@.len() == i,
                records@.len() == i,
                forall|k: int| 0 <= k < i ==> #[trigger] ids@[k] == first + k,
                forall|k: int|
                    0 <= k < i ==> #[trigger] records@[k] == chunk_record(
                        chunks@[k],
                        doc_id,
                        (first + k) as ChunkId,
                    ),
            decreases n - i,
        {
            let id: ChunkId = first + i as u32;
            let c = &chunks[i];
            ids.push(id);
            records.push(
                ChunkRecord {
                    chunk_id: id,
                    doc_id,
                    kind: c.kind,
                    byte_start: c.byte_start,
                    byte_end: c.byte_end,
                    label: types::clone_text(&c.label),
                    depth: c.depth,
                    metadata: c.metadata.clone(),
                },
            );
            i += 1;
        }
        proof {
            lemma_chunk_map_insert(self.chunks@, doc_id, records);
            assert(records@ =~= chunk_run(chunks@, doc_id, first));
            assert(ids@ =~= Seq::new(chunks@.len(), |k: int| (first + k) as ChunkId));
        }
        self.next_chunk_id = first + n as u32;
        self.chunks.insert(doc_id, records);
        assert(self.state() =~= with_chunks(old(self).state(), doc_id, chunks@));
        Ok(ids)
    }

    fn get_chunks(&self, doc_id: DocId) -> (r: Result<Vec<ChunkRecord>, RegistryError>)
        ensures
            r is Ok,
    {
        match self.chunks.get(doc_id) {
            Some(v) => Ok(clone_records(v)),
            None => Ok(Vec::new()),
        }
    }

    fn chunk_range(&self, doc_id: DocId) -> (r: Result<Option<(ChunkId, ChunkId)>, RegistryError>)
        ensures
            r is Ok,
    {
        match self.chunks.get(doc_id) {
            Some(v) => if v.len() == 0 {
                Ok(None)
            } else {
                Ok(Some((v[0].chunk_id, v[v.len() - 1].chunk_id)))
            },
            None => Ok(None),
        }
    }

    fn doc_for_chunk(&self, chunk_id: ChunkId) -> (r: Result<Option<DocId>, RegistryError>)
        ensures
            r is Ok,
    {
        proof {
            self.chunks.lemma_ids();
        }
        let n = self.chunks.len();
        let mut i: usize = 0;
        while i < n
            invariant
                self.wf(),
                n == self.chunks.entries_spec().len(),
                i <= n,
                forall|j: int|
                    0 <= j < i ==> !#[trigger] owns_chunk(
                        self.state(),
                        self.chunks.entries_spec()[j].0,
                        chunk_id,
                    ),
            decreases n - i,
        {
            let id = self.chunks.id_at(i);
            let v = self.chunks.value_at(i);
            proof {
                self.chunks.lemma_ids();
                assert(self.chunks.entries_spec()[i as int].0 == id);
                assert(self.state().chunks.dom().contains(id));
                assert(chunks_at(self.state(), id) == v@);
                assert(is_run(v@, id, self.next_chunk_id));
            }
            if v.len() > 0 && v[0].chunk_id <= chunk_id && chunk_id <= v[v.len() - 1].chunk_id {
                proof {
                    let k = chunk_id - v@[0].chunk_id;
                    assert(v@[v@.len() - 1].chunk_id == v@[0].chunk_id + v@.len() - 1);
                    assert(v@[k].chunk_id == v@[0].chunk_id + k);
                    assert(chunks_at(self.state(), id)[k].chunk_id == chunk_id);
                    assert(owns_chunk(self.state(), id, chunk_id));
                }
                return Ok(Some(id));
            }
            proof {
                if owns_chunk(self.state(), id, chunk_id) {
                    let k = choose|k: int|
                        0 <= k < chunks_at(self.state(), id).len() && (#[trigger] chunks_at(
                            self.state(),
                            id,
                        )[k]).chunk_id == chunk_id;
                    assert(v@[k].chunk_id == v@[0].chunk_id + k);
                    assert(v@[v@.len() - 1].chunk_id == v@[0].chunk_id + v@.len() - 1);
                    assert(false);
                }
            }
            i += 1;
        }
        proof {
            assert forall|id: DocId| !#[trigger] owns_chunk(self.state(), id, chunk_id) by {
                if owns_chunk(self.state(), id, chunk_id) {
                    assert(self.chunks@.dom().contains(id));
                    assert(self.chunks.ids_spec().contains(id));
                    let j = self.chunks.ids_spec().index_of(id);
                    assert(self.chunks.ids_spec()[j] == id);
                    assert(self.chunks.entries_spec()[j].0 == id);
                }
            }
        }
        Ok(None)
    }

    fn upsert_catalog_entry(&mut self, entry: BitmapCatalogEntry) -> (r: Result<(), RegistryError>)
        ensures
            r is Ok,
    {
        let key = entry.bitmap_key.clone();
        self.catalog.insert(key, entry);
        assert(self.state() =~= with_entry(old(self).state(), entry));
        Ok(())
    }

    fn bulk_upsert_catalog(&mut self, entries: Vec<BitmapCatalogEntry>) -> (r: Result<
        (),
        RegistryError,
    >)
        ensures
            r is Ok,
    {
        let n = entries.len();
        let mut i: usize = 0;
        while i < n
            invariant
                self.wf(),
                n == entries@.len(),
                i <= n,
                with_entries(self.state(), entries@, i as int) == with_entries(
                    old(self).state(),
                    entries@,
                    0,
                ),
            decreases n - i,
        {
            let r = self.upsert_catalog_entry(entries[i].clone());
            i += 1;
        }
        Ok(())
    }

    fn get_catalog_entry(&self, key: &str) -> (r: Result<
        Option<BitmapCatalogEntry>,
        RegistryError,
    >)
        ensures
            r is Ok,
    {
        match self.catalog.get(key) {
            Some(e) => Ok(Some(e.clone())),
            None => Ok(None),
        }
    }

    fn list_catalog(&self, category: Option<BitmapCategory>) -> (r: Result<
        Vec<BitmapCatalogEntry>,
        RegistryError,
    >)
        ensures
            r is Ok,
    {
        let mut out: Vec<BitmapCatalogEntry> = Vec::new();
        let n = self.catalog.len();
        let mut i: usize = 0;
        while i < n
            invariant
                self.wf(),
                n == self.catalog.entries_spec().len(),
                i <= n,
                out@ == selected(self.catalog.entries_spec().take(i as int), category),
            decreases n - i,
        {
            let e = self.catalog.value_at(i);
            let keep = match category {
                Some(c) => c == e.category,
                None => true,
            };
            proof {
                let t = self.catalog.entries_spec();
                assert(t.take(i + 1).drop_last() =~= t.take(i as int));
                assert(t.take(i + 1).last() == t[i as int]);
            }
            if keep {
                out.push(e.clone());
            }
            i += 1;
        }
        proof {
            let t = self.catalog.entries_spec();
            assert(t.take(n as int) =~= t);
            self.catalog.lemma_keys();
            lemma_selected(t, category);
        }
        Ok(out)
    }

    fn list_all_docs(&self) -> (r: Result<Vec<DocRecord>, RegistryError>)
        ensures
            r matches Ok(v) && v@.len() == self.state().docs.dom().len() && forall|i: int, j: int|
                0 <= i < j < v@.len() ==> (#[trigger] v@[i]).doc_id < (#[trigger] v@[j]).doc_id,
    {
        let mut out: Vec<DocRecord> = Vec::new();
        let n = self.docs.len();
        let mut i: usize = 0;
        while i < n
            invariant
                self.wf(),
                n == self.docs.entries_spec().len(),
                i <= n,
                out@.len() == i,
                forall|j: int| 0 <= j < i ==> #[trigger] out@[j] == self.docs.entries_spec()[j].1,
            decreases n - i,
        {
            out.push(self.docs.value_at(i).clone());
            i += 1;
        }
        proof {
            self.docs.lemma_ids();
            self.docs.lemma_len();
            let t = self.docs.entries_spec();
            let ids = self.docs.ids_spec();
            assert forall|j: int| 0 <= j < n implies (#[trigger] out@[j]).doc_id == ids[j]
                && self.docs@.dom().contains(ids[j]) && self.docs@[ids[j]] == out@[j] by {
                assert(t[j].0 == ids[j]);
                assert(self.state().docs.dom().contains(ids[j]));
            }
            assert forall|i: int, j: int| 0 <= i < j < out@.len() implies (#[trigger] out@[i]).doc_id
                < (#[trigger] out@[j]).doc_id by {
                assert(ids[i] < ids[j]);
            }
            assert forall|d: DocRecord| #[trigger]
                out@.contains(d) <==> self.state().docs.dom().contains(d.doc_id)
                    && self.state().docs[d.doc_id] == d by {
                if out@.contains(d) {
                    let j = out@.index_of(d);
                    assert(out@[j] == d);
                }
                if self.state().docs.dom().contains(d.doc_id) && self.state().docs[d.doc_id] == d {
                    assert(ids.contains(d.doc_id));
                    let j = ids.index_of(d.doc_id);
                    assert(ids[j] == d.doc_id);
                    assert(out@[j] == d);
                }
            }
        }
        Ok(out)
    }

    fn get_global_state(&self) -> (r: Result<GlobalState, RegistryError>)
        ensures
            r is Ok,
    {
        proof {
            self.docs.lemma_ids();
            self.docs.lemma_len();
            let ids = self.docs.ids_spec();
            assert forall|i: int| 0 <= i < ids.len() implies 1 <= #[trigger] ids[i]
                < self.next_doc_id by {
                assert(ids.contains(ids[i]));
                assert(self.state().docs.dom().contains(ids[i]));
            }
            crate::idmap::lemma_ascending_len(ids, 1, self.next_doc_id as int);
        }
        let n = self.docs.len();
        Ok(
            GlobalState {
                next_doc_id: self.next_doc_id,
                next_chunk_id: self.next_chunk_id,
                total_documents: n as u32,
            },
        )
    }
}

/// The catalog entries of a category, or all where none is given.
spec fn selected(s: Seq<(String, BitmapCatalogEntry)>, category: Option<BitmapCategory>) -> Seq<
    BitmapCatalogEntry,
>
    decreases s.len(),
{
    if s.len() == 0 {
        Seq::empty()
    } else if category is None || category == Some(s.last().1.category) {
        selected(s.drop_last(), category).push(s.last().1)
    } else {
        selected(s.drop_last(), category)
    }
}

proof fn lemma_selected(s: Seq<(String, BitmapCatalogEntry)>, category: Option<BitmapCategory>)
    requires
        forall|i: int| 0 <= i < s.len() ==> (#[trigger] s[i]).1.bitmap_key@ == s[i].0@,
        crate::keymap::ascending(crate::keymap::keys_of(s)),
    ensures
        selected(s, category).no_duplicates(),
        forall|e: BitmapCatalogEntry| #[trigger]
            selected(s, category).contains(e) <==> (exists|i: int|
                0 <= i < s.len() && (#[trigger] s[i]).1 == e) && (category is None || category
                == Some(e.category)),
    decreases s.len(),
{
    if s.len() > 0 {
        let t = s.drop_last();
        let n = s.len() - 1;
        let ks = crate::keymap::keys_of(s);
        let kt = crate::keymap::keys_of(t);
        assert forall|i: int, j: int| 0 <= i < j < kt.len() implies crate::keymap::lex_lt(
            #[trigger] kt[i],
            #[trigger] kt[j],
        ) by {
            assert(kt[i] == ks[i] && kt[j] == ks[j]);
        }
        lemma_selected(t, category);
        let a = selected(t, category);
        let b = selected(s, category);
        assert(!a.contains(s[n].1)) by {
            if a.contains(s[n].1) {
                let i = choose|i: int| 0 <= i < t.len() && (#[trigger] t[i]).1 == s[n].1;
                assert(t[i] == s[i]);
                assert(s[i].1.bitmap_key@ == s[i].0@ && s[n].1.bitmap_key@ == s[n].0@);
                assert(ks[i] == s[i].0@ && ks[n] == s[n].0@);
                assert(crate::keymap::lex_lt(ks[i], ks[n]));
                crate::keymap::lemma_lex_irreflexive(ks[i]);
            }
        }
        assert forall|e: BitmapCatalogEntry| #[trigger]
            b.contains(e) <==> (exists|i: int| 0 <= i < s.len() && (#[trigger] s[i]).1 == e) && (
            category is None || category == Some(e.category)) by {
            if b.contains(e) {
                let j = b.index_of(e);
                assert(b[j] == e);
                if j < a.len() {
                    assert(a[j] == e);
                    assert(a.contains(e));
                    let i = choose|i: int| 0 <= i < t.len() && (#[trigger] t[i]).1 == e;
                    assert(s[i].1 == e);
                } else {
                    assert(s[n].1 == e);
                }
            }
            if (exists|i: int| 0 <= i < s.len() && (#[trigger] s[i]).1 == e) && (category is None
                || category == Some(e.category)) {
                let i = choose|i: int| 0 <= i < s.len() && (#[trigger] s[i]).1 == e;
                if i < n {
                    assert(t[i].1 == e);
                    assert(a.contains(e));
                    let j = a.index_of(e);
                    assert(a[j] == e && b[j] == e);
                } else {
                    assert(b[b.len() - 1] == e);
                }
            }
        }
    }
}

// ── Laws ────────────────────────────────────────────────────────────────────

/// A document that was just registered is found by its path and by its id, and all others stay as
/// they were.
pub proof fn law_insert_then_lookup(s: RegistryState, doc: NewDoc, now: Timestamp)
    requires
        valid_state(s),
        s.next_doc_id < u32::MAX,
        !is_taken(s, doc),
    ensures
        ({
            let t = with_doc(s, doc, now);
            &&& valid_state(t)
            &&& t.paths.dom().contains(path_key(doc.file_path))
            &&& t.docs[t.paths[path_key(doc.file_path)]] == doc_record(doc, s.next_doc_id, now)
            &&& !s.docs.dom().contains(s.next_doc_id)
            &&& forall|id: DocId| #[trigger]
                s.docs.dom().contains(id) ==> t.docs.dom().contains(id) && t.docs[id] == s.docs[id]
            &&& forall|p: Seq<char>| #[trigger]
                s.paths.dom().contains(p) ==> t.paths.dom().contains(p) && t.paths[p] == s.paths[p]
        }),
{
    lemma_with_doc_valid(s, doc, now);
}

/// The id of a deleted document is never given out again: whatever is registered later gets a
/// greater one.
pub proof fn law_doc_ids_ascend(s: RegistryState, id: DocId, docs: Seq<NewDoc>, times: Seq<Timestamp>)
    requires
        valid_state(s),
        s.docs.dom().contains(id),
        s.next_doc_id + docs.len() <= u32::MAX,
    ensures
        !without_doc(s, id).docs.dom().contains(id),
        !with_docs(without_doc(s, id), docs, times).docs.dom().contains(id),
        id < with_docs(without_doc(s, id), docs, times).next_doc_id,
    decreases docs.len(),
{
    if docs.len() > 0 {
        law_doc_ids_ascend(s, id, docs.drop_last(), times.drop_last());
        lemma_with_docs(without_doc(s, id), docs.drop_last(), times.drop_last());
    }
}

/// A chunk id belongs to at most one document.
pub proof fn law_chunk_owner(s: RegistryState, a: DocId, b: DocId, chunk: ChunkId)
    requires
        valid_state(s),
        owns_chunk(s, a, chunk),
        owns_chunk(s, b, chunk),
    ensures
        a == b,
{
    if a != b {
        let i = choose|k: int|
            0 <= k < chunks_at(s, a).len() && (#[trigger] chunks_at(s, a)[k]).chunk_id == chunk;
        let j = choose|k: int|
            0 <= k < chunks_at(s, b).len() && (#[trigger] chunks_at(s, b)[k]).chunk_id == chunk;
        assert(s.chunks.dom().contains(a) && s.chunks.dom().contains(b));
        assert(s.chunks[a][i].chunk_id == s.chunks[b][j].chunk_id);
        assert(runs_meet(s.chunks[a], s.chunks[b]));
    }
}

/// A document owns exactly the chunk ids from its first to its last.
pub proof fn law_chunk_range(s: RegistryState, id: DocId, chunk: ChunkId)
    requires
        valid_state(s),
        chunks_at(s, id).len() > 0,
    ensures
        owns_chunk(s, id, chunk) <==> chunks_at(s, id)[0].chunk_id <= chunk <= chunks_at(
            s,
            id,
        ).last().chunk_id,
{
    let v = chunks_at(s, id);
    assert(s.chunks.dom().contains(id));
    assert(is_run(v, id, s.next_chunk_id));
    assert(v[v.len() - 1].chunk_id == v[0].chunk_id + (v.len() - 1));
    if owns_chunk(s, id, chunk) {
        let k = choose|k: int|
            0 <= k < chunks_at(s, id).len() && (#[trigger] chunks_at(s, id)[k]).chunk_id == chunk;
        assert(v[k].chunk_id == v[0].chunk_id + k);
    }
    if v[0].chunk_id <= chunk <= v.last().chunk_id {
        let k = chunk - v[0].chunk_id;
        assert(v[k].chunk_id == v[0].chunk_id + k);
        assert(chunks_at(s, id)[k].chunk_id == chunk);
    }
}

/// Replacing the chunks of a document gives out ids that no chunk had before, and its former
/// ids then belong to no document.
pub proof fn law_replace_chunks(s: RegistryState, id: DocId, chunks: Seq<NewChunk>)
    requires
        valid_state(s),
        s.docs.dom().contains(id),
        s.next_chunk_id + chunks.len() <= u32::MAX,
    ensures
        ({
            let t = with_chunks(s, id, chunks);
            &&& valid_state(t)
            &&& forall|c: ChunkId, d: DocId| #[trigger]
                owns_chunk(s, d, c) && d != id ==> owns_chunk(t, d, c)
            &&& forall|c: ChunkId, d: DocId| owns_chunk(s, id, c) ==> !#[trigger] owns_chunk(t, d, c)
            &&& forall|c: ChunkId| #[trigger]
                owns_chunk(t, id, c) <==> s.next_chunk_id <= c < s.next_chunk_id + chunks.len()
        }),
{
    lemma_with_chunks_valid(s, id, chunks);
    let t = with_chunks(s, id, chunks);
    let run = chunk_run(chunks, id, s.next_chunk_id);
    assert(chunks_at(t, id) == run);
    assert forall|c: ChunkId, d: DocId| #[trigger] owns_chunk(s, d, c) && d != id implies owns_chunk(
        t,
        d,
        c,
    ) by {
        assert(chunks_at(t, d) == chunks_at(s, d));
    }
    assert forall|c: ChunkId| #[trigger]
        owns_chunk(t, id, c) <==> s.next_chunk_id <= c < s.next_chunk_id + chunks.len() by {
        if s.next_chunk_id <= c < s.next_chunk_id + chunks.len() {
            let k = c - s.next_chunk_id;
            assert(chunks_at(t, id)[k].chunk_id == c);
        }
    }
    assert forall|c: ChunkId, d: DocId| owns_chunk(s, id, c) implies !#[trigger] owns_chunk(
        t,
        d,
        c,
    ) by {
        let i = choose|k: int|
            0 <= k < chunks_at(s, id).len() && (#[trigger] chunks_at(s, id)[k]).chunk_id == c;
        assert(s.chunks.dom().contains(id));
        assert(s.chunks[id][i].chunk_id < s.next_chunk_id);
        if d != id && owns_chunk(t, d, c) {
            assert(chunks_at(t, d) == chunks_at(s, d));
            assert(owns_chunk(s, d, c));
            law_chunk_owner(s, id, d, c);
        }
    }
}

/// After a move a document is found under its new path, and no longer under its old one.
pub proof fn law_update_path(s: RegistryState, id: DocId, path: String)
    requires
        valid_state(s),
        s.docs.dom().contains(id),
    ensures
        ({
            let t = with_path(s, id, path);
            let old_key = path_key(s.docs[id].file_path);
            &&& valid_state(t)
            &&& t.paths.dom().contains(path_key(path))
            &&& t.paths[path_key(path)] == id
            &&& t.docs[id].file_path == path
            &&& old_key != path_key(path) ==> !t.paths.dom().contains(old_key)
            &&& chunks_at(t, id) == chunks_at(s, id)
        }),
{
    lemma_with_path_valid(s, id, path);
}

/// A deleted document is found neither by its id nor by its path, and owns no chunk.
pub proof fn law_delete(s: RegistryState, id: DocId)
    requires
        valid_state(s),
        s.docs.dom().contains(id),
    ensures
        ({
            let t = without_doc(s, id);
            &&& valid_state(t)
            &&& !t.docs.dom().contains(id)
            &&& !t.paths.dom().contains(path_key(s.docs[id].file_path))
            &&& chunks_at(t, id).len() == 0
            &&& forall|d: DocId| #[trigger]
                s.docs.dom().contains(d) && d != id ==> t.docs.dom().contains(d) && t.docs[d]
                    == s.docs[d] && chunks_at(t, d) == chunks_at(s, d)
        }),
{
    lemma_without_doc_valid(s, id);
}

/// A call that changes a registry.
pub enum RegistryCall {
    Insert { doc: NewDoc, now: Timestamp },
    Update { id: DocId, hash: [u8; 32], auto_type: Option<DocType>, now: Timestamp },
    Move { id: DocId, path: String },
    Delete { id: DocId },
    ReplaceChunks { id: DocId, chunks: Seq<NewChunk> },
    Catalog { entry: BitmapCatalogEntry },
}

/// Whether a call succeeds on a state. A document is moved only to a path that no other document
/// has.
pub open spec fn can_call(s: RegistryState, c: RegistryCall) -> bool {
    match c {
        RegistryCall::Insert { doc, .. } => s.next_doc_id < u32::MAX && !is_taken(s, doc),
        RegistryCall::Update { id, .. } => s.docs.dom().contains(id),
        RegistryCall::Move { id, path } => s.docs.dom().contains(id) && (s.paths.dom().contains(
            path_key(path),
        ) ==> s.paths[path_key(path)] == id),
        RegistryCall::Delete { id } => s.docs.dom().contains(id),
        RegistryCall::ReplaceChunks { id, chunks } => s.docs.dom().contains(id) && s.next_chunk_id
            + chunks.len() <= u32::MAX,
        RegistryCall::Catalog { .. } => true,
    }
}

/// The state after a call.
pub open spec fn called(s: RegistryState, c: RegistryCall) -> RegistryState {
    match c {
        RegistryCall::Insert { doc, now } => with_doc(s, doc, now),
        RegistryCall::Update { id, hash, auto_type, now } => with_update(
            s,
            id,
            hash,
            auto_type,
            now,
        ),
        RegistryCall::Move { id, path } => with_path(s, id, path),
        RegistryCall::Delete { id } => without_doc(s, id),
        RegistryCall::ReplaceChunks { id, chunks } => with_chunks(s, id, chunks),
        RegistryCall::Catalog { entry } => with_entry(s, entry),
    }
}

/// The state that an empty registry is in after some calls.
pub open spec fn after_calls(calls: Seq<RegistryCall>) -> RegistryState
    decreases calls.len(),
{
    if calls.len() == 0 {
        empty_state()
    } else {
        called(after_calls(calls.drop_last()), calls.last())
    }
}

/// Whether each of some calls succeeds in its turn.
pub open spec fn can_call_all(calls: Seq<RegistryCall>) -> bool
    decreases calls.len(),
{
    calls.len() > 0 ==> can_call_all(calls.drop_last()) && can_call(
        after_calls(calls.drop_last()),
        calls.last(),
    )
}

/// Whether the lookup by path and the lookup by id tell the same: a path leads to a document if
/// and only if the document has that path.
pub open spec fn lookups_agree(s: RegistryState) -> bool {
    forall|p: Seq<char>, id: DocId|
        #![trigger s.paths.dom().contains(p), s.docs.dom().contains(id)]
        (s.paths.dom().contains(p) && s.paths[p] == id) <==> (s.docs.dom().contains(id) && path_key(
            s.docs[id].file_path,
        ) == p)
}

/// In every state that a registry reaches, the lookup by path and the lookup by id agree, no two
/// documents share a path, and ids lie between one and the next that is given.
pub proof fn law_lookups_agree(calls: Seq<RegistryCall>)
    requires
        can_call_all(calls),
    ensures
        valid_state(after_calls(calls)),
        lookups_agree(after_calls(calls)),
        forall|a: DocId, b: DocId|
            #![trigger after_calls(calls).docs.dom().contains(a), after_calls(calls).docs.dom().contains(b)]
            after_calls(calls).docs.dom().contains(a) && after_calls(calls).docs.dom().contains(b)
                && path_key(after_calls(calls).docs[a].file_path) == path_key(
                after_calls(calls).docs[b].file_path,
            ) ==> a == b,
        forall|id: DocId| #[trigger]
            after_calls(calls).docs.dom().contains(id) ==> after_calls(calls).docs[id].doc_id == id
                && 1 <= id < after_calls(calls).next_doc_id,
    decreases calls.len(),
{
    let t = after_calls(calls);
    if calls.len() > 0 {
        law_lookups_agree(calls.drop_last());
        lemma_call_agrees(after_calls(calls.drop_last()), calls.last());
    }
    assert forall|a: DocId, b: DocId|
        #![trigger t.docs.dom().contains(a), t.docs.dom().contains(b)]
        t.docs.dom().contains(a) && t.docs.dom().contains(b) && path_key(t.docs[a].file_path)
            == path_key(t.docs[b].file_path) implies a == b by {
        let p = path_key(t.docs[a].file_path);
        assert(t.paths.dom().contains(p) && t.paths[p] == a);
        assert(t.paths.dom().contains(p) && t.paths[p] == b);
    }
}

proof fn lemma_call_agrees(s: RegistryState, c: RegistryCall)
    requires
        valid_state(s),
        lookups_agree(s),
        can_call(s, c),
    ensures
        valid_state(called(s, c)),
        lookups_agree(called(s, c)),
{
    let t = called(s, c);
    match c {
        RegistryCall::Insert { doc, now } => {
            lemma_with_doc_valid(s, doc, now);
            assert(!s.docs.dom().contains(s.next_doc_id));
        },
        RegistryCall::Update { id, hash, auto_type, now } => {
            lemma_with_update_valid(s, id, hash, auto_type, now);
        },
        RegistryCall::Move { id, path } => {
            lemma_with_path_valid(s, id, path);
        },
        RegistryCall::Delete { id } => {
            lemma_without_doc_valid(s, id);
        },
        RegistryCall::ReplaceChunks { id, chunks } => {
            lemma_with_chunks_valid(s, id, chunks);
        },
        RegistryCall::Catalog { entry } => {},
    }
    assert forall|p: Seq<char>, id: DocId|
        #![trigger t.paths.dom().contains(p), t.docs.dom().contains(id)]
        (t.paths.dom().contains(p) && t.paths[p] == id) <==> (t.docs.dom().contains(id) && path_key(
            t.docs[id].file_path,
        ) == p) by {
        assert((s.paths.dom().contains(p) && s.paths[p] == id) <==> (s.docs.dom().contains(id)
            && path_key(s.docs[id].file_path) == p));
        match c {
            RegistryCall::Move { id: moved, path } => {
                let old_key = path_key(s.docs[moved].file_path);
                assert(s.paths.dom().contains(old_key) <==> s.docs.dom().contains(moved));
                assert(s.paths.dom().contains(p) ==> s.docs.dom().contains(s.paths[p]));
            },
            RegistryCall::Delete { id: gone } => {
                assert(s.paths.dom().contains(p) ==> s.docs.dom().contains(s.paths[p]));
                assert(s.paths.dom().contains(path_key(s.docs[gone].file_path)) <==> s.docs.dom().contains(gone));
            },
            RegistryCall::Update { id: changed, .. } => {
                assert(s.docs.dom().contains(changed));
            },
            _ => {
                assert(s.paths.dom().contains(p) ==> s.docs.dom().contains(s.paths[p]));
            },
        }
    }
}

} // verus!
