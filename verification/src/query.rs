//! Queries: filter expressions over bitmaps, and the pointers they select.

use std::time::Instant;

use roaring::RoaringBitmap;
use vstd::prelude::*;

use crate::bitmap;
use crate::bitmap::{BitmapError, BitmapStore};
use crate::clock;
use crate::hash;
use crate::nest;
use crate::nest::{ChunkPointer, PointerView};
use crate::paths;
use crate::registry;
use crate::registry::{
    BitmapCatalogEntry, ChunkRecord, Registry, RegistryError, RegistryState,
};
use crate::text;
use crate::types;
use crate::types::{
    BitmapCategory, BitmapKey, ChunkId, ChunkKind, DocId, DocType, SourceType, SourceTypeView,
    Timestamp,
};

verus! {

// ── Filters ─────────────────────────────────────────────────────────────────

/// A filter expression in a query.
#[derive(Debug)]
pub enum Filter {
    /// The documents under one bitmap key, e.g. `tag:work`.
    Key(BitmapKey),
    /// The documents that a filter does not select.
    Not(Box<Filter>),
    /// The documents that all filters select.
    And(Vec<Filter>),
    /// The documents that some filter selects.
    Or(Vec<Filter>),
}

/// The documents that are in every one of a list of sets; none where the list is empty.
pub open spec fn in_all(sets: Seq<Set<u32>>) -> Set<u32> {
    Set::new(
        |x: u32|
            sets.len() > 0 && forall|i: int|
                0 <= i < sets.len() ==> (#[trigger] sets[i]).contains(x),
    )
}

/// The documents that are in some one of a list of sets.
pub open spec fn in_some(sets: Seq<Set<u32>>) -> Set<u32> {
    Set::new(
        |x: u32| exists|i: int| 0 <= i < sets.len() && (#[trigger] sets[i]).contains(x),
    )
}

/// The documents that are deleted.
pub open spec fn tombstones(m: Map<Seq<char>, Set<u32>>) -> Set<u32> {
    bitmap::bitmap_at(m, bitmap::tombstone_key())
}

/// The documents under any key, without those that are deleted.
pub open spec fn universe(m: Map<Seq<char>, Set<u32>>) -> Set<u32> {
    Set::new(
        |x: u32|
            exists|k: Seq<char>|
                m.dom().contains(k) && #[trigger] bitmap::is_listed(k, None) && m[k].contains(x),
    ).difference(tombstones(m))
}

/// The documents that a filter selects.
pub open spec fn selected(m: Map<Seq<char>, Set<u32>>, f: Filter) -> Set<u32>
    decreases f,
{
    match f {
        Filter::Key(k) => bitmap::bitmap_at(m, k@).difference(tombstones(m)),
        Filter::Not(inner) => universe(m).difference(selected(m, *inner)),
        Filter::And(v) => in_all(selected_each(m, v)),
        Filter::Or(v) => in_some(selected_each(m, v)),
    }
}

/// What each of a list of filters selects.
pub open spec fn selected_each(m: Map<Seq<char>, Set<u32>>, v: Vec<Filter>) -> Seq<Set<u32>>
    decreases v,
{
    Seq::new(
        v@.len(),
        |i: int|
            if 0 <= i < v@.len() {
                selected(m, v@[i])
            } else {
                Set::empty()
            },
    )
}

/// Texts one list after the other.
pub open spec fn flattened(s: Seq<Seq<Seq<char>>>) -> Seq<Seq<char>>
    decreases s.len(),
{
    if s.len() == 0 {
        Seq::empty()
    } else {
        flattened(s.drop_last()) + s.last()
    }
}

/// The bitmap keys of a filter, in the order in which they stand in it.
pub open spec fn leaf_keys(f: Filter) -> Seq<Seq<char>>
    decreases f,
{
    match f {
        Filter::Key(k) => seq![k@],
        Filter::Not(inner) => leaf_keys(*inner),
        Filter::And(v) => flattened(leaf_keys_each(v)),
        Filter::Or(v) => flattened(leaf_keys_each(v)),
    }
}

/// The bitmap keys of each of a list of filters.
pub open spec fn leaf_keys_each(v: Vec<Filter>) -> Seq<Seq<Seq<char>>>
    decreases v,
{
    Seq::new(
        v@.len(),
        |i: int|
            if 0 <= i < v@.len() {
                leaf_keys(v@[i])
            } else {
                Seq::empty()
            },
    )
}

/// The bitmap keys of a filter, for reporting which filters were applied.
pub fn collect_leaf_keys(filter: &Filter) -> (r: Vec<String>)
    ensures
        r.deep_view() == leaf_keys(*filter),
    decreases *filter,
{
    match filter {
        Filter::Key(k) => {
            let mut out: Vec<String> = Vec::new();
            out.push(k.clone());
            assert(out.deep_view() =~= seq![k@]);
            out
        },
        Filter::Not(inner) => collect_leaf_keys(inner),
        Filter::And(children) => collect_each(children),
        Filter::Or(children) => collect_each(children),
    }
}

fn collect_each(children: &Vec<Filter>) -> (r: Vec<String>)
    ensures
        r.deep_view() == flattened(leaf_keys_each(*children)),
    decreases *children,
{
    let mut out: Vec<String> = Vec::new();
    let mut i: usize = 0;
    assert(out.deep_view() =~= flattened(leaf_keys_each(*children).take(0)));
    while i < children.len()
        invariant
            i <= children@.len(),
            out.deep_view() == flattened(leaf_keys_each(*children).take(i as int)),
        decreases children@.len() - i,
    {
        let mut own = collect_leaf_keys(&children[i]);
        proof {
            let e = leaf_keys_each(*children);
            assert(e.take(i + 1).drop_last() =~= e.take(i as int));
            assert(e.take(i + 1).last() == leaf_keys(children@[i as int]));
        }
        let ghost before = out.deep_view();
        let ghost mine = own.deep_view();
        out.append(&mut own);
        assert(out.deep_view() =~= before + mine);
        i += 1;
    }
    assert(leaf_keys_each(*children).take(i as int) =~= leaf_keys_each(*children));
    out
}

// ── Requests and results ────────────────────────────────────────────────────

/// A query request.
#[derive(Debug)]
pub struct QueryRequest {
    /// The filter expression to resolve.
    pub filter: Filter,
    /// Maximum number of results to return.
    pub limit: Option<u32>,
    /// How many results to pass over first.
    pub offset: Option<u32>,
}

/// A match: a pointer to relevant content.
#[derive(Debug)]
pub struct MatchPointer {
    pub doc_id: DocId,
    pub file_path: String,
    pub source_type: String,
    pub chunks: Vec<ChunkPointer>,
    pub matched_filters: Vec<BitmapKey>,
    pub auto_type: Option<String>,
    /// The bits of a single-precision score, where the match was ranked.
    pub score: Option<u32>,
    pub last_modified: Timestamp,
}

/// A match with its strings taken as texts.
#[verifier::ext_equal]
pub struct MatchView {
    pub doc_id: DocId,
    pub file_path: Seq<char>,
    pub source_type: Seq<char>,
    pub chunks: Seq<PointerView>,
    pub matched_filters: Seq<Seq<char>>,
    pub auto_type: Option<Seq<char>>,
    pub score: Option<u32>,
    pub last_modified: Timestamp,
}

impl View for MatchPointer {
    type V = MatchView;

    open spec fn view(&self) -> MatchView {
        MatchView {
            doc_id: self.doc_id,
            file_path: self.file_path@,
            source_type: self.source_type@,
            chunks: nest::models(self.chunks@),
            matched_filters: self.matched_filters.deep_view(),
            auto_type: types::text_of(self.auto_type),
            score: self.score,
            last_modified: self.last_modified,
        }
    }
}

/// The result of a query.
#[derive(Debug)]
pub struct QueryResult {
    pub matches: Vec<MatchPointer>,
    /// Number of matching documents before limit and offset.
    pub total_matching: u32,
    /// Query duration in microseconds.
    pub query_time_us: u64,
}

/// What the index knows of a document.
#[derive(Debug)]
pub struct InspectResult {
    pub doc_id: DocId,
    pub file_path: String,
    pub source_type: String,
    pub auto_type: Option<String>,
    /// The content hash in hexadecimal.
    pub blake3_hash: String,
    pub last_indexed: Timestamp,
    pub chunks: Vec<ChunkPointer>,
    pub bitmap_keys: Vec<BitmapKey>,
}

/// Summary of the index.
#[derive(Clone, Copy, Debug, PartialEq, Eq, Structural)]
pub struct IndexStatus {
    pub total_documents: u32,
    pub total_bitmaps: usize,
    pub tombstoned: u64,
    pub next_doc_id: DocId,
    pub next_chunk_id: ChunkId,
}

/// A bitmap key and the number of documents under it.
#[derive(Debug)]
pub struct FilterEntry {
    pub key: BitmapKey,
    pub cardinality: u32,
}

/// Errors from queries.
#[derive(Debug)]
pub enum QueryError {
    UnknownFilter(BitmapKey),
    Bitmap(BitmapError),
    Registry(RegistryError),
    Semantic(String),
}

/// The message of a query error.
pub open spec fn query_error_message(e: QueryError) -> Seq<char> {
    match e {
        QueryError::UnknownFilter(k) => "unknown bitmap key: "@ + k@,
        QueryError::Bitmap(e) => bitmap::bitmap_error_message(e),
        QueryError::Registry(e) => registry::registry_error_message(e),
        QueryError::Semantic(m) => "semantic error: "@ + m@,
    }
}

impl QueryError {
    /// The message of the error.
    pub fn message(&self) -> (r: String)
        ensures
            r@ == query_error_message(*self),
    {
        match self {
            QueryError::UnknownFilter(k) => text::concat("unknown bitmap key: ", k.as_str()),
            QueryError::Bitmap(e) => e.message(),
            QueryError::Registry(e) => e.message(),
            QueryError::Semantic(m) => text::concat("semantic error: ", m.as_str()),
        }
    }
}

// ── Names ───────────────────────────────────────────────────────────────────

/// The name of a chunk kind.
pub open spec fn kind_name_spec(k: ChunkKind) -> Seq<char> {
    match k {
        ChunkKind::Section => "Section"@,
        ChunkKind::Frontmatter => "Frontmatter"@,
        ChunkKind::Body => "Body"@,
        ChunkKind::Function => "Function"@,
        ChunkKind::Method => "Method"@,
        ChunkKind::Class => "Class"@,
        ChunkKind::Module => "Module"@,
        ChunkKind::Import => "Import"@,
        ChunkKind::Constant => "Constant"@,
    }
}

/// The name of a chunk kind.
pub fn kind_name(k: ChunkKind) -> (r: String)
    ensures
        r@ == kind_name_spec(k),
{
    match k {
        ChunkKind::Section => "Section".to_owned(),
        ChunkKind::Frontmatter => "Frontmatter".to_owned(),
        ChunkKind::Body => "Body".to_owned(),
        ChunkKind::Function => "Function".to_owned(),
        ChunkKind::Method => "Method".to_owned(),
        ChunkKind::Class => "Class".to_owned(),
        ChunkKind::Module => "Module".to_owned(),
        ChunkKind::Import => "Import".to_owned(),
        ChunkKind::Constant => "Constant".to_owned(),
    }
}

/// The name of a document type.
pub open spec fn doc_type_name_spec(t: DocType) -> Seq<char> {
    match t {
        DocType::Note => "Note"@,
        DocType::Task => "Task"@,
        DocType::Moc => "Moc"@,
        DocType::Reference => "Reference"@,
        DocType::SourceFile => "SourceFile"@,
        DocType::TestFile => "TestFile"@,
        DocType::ConfigFile => "ConfigFile"@,
    }
}

/// The name of a document type.
pub fn doc_type_name(t: DocType) -> (r: String)
    ensures
        r@ == doc_type_name_spec(t),
{
    match t {
        DocType::Note => "Note".to_owned(),
        DocType::Task => "Task".to_owned(),
        DocType::Moc => "Moc".to_owned(),
        DocType::Reference => "Reference".to_owned(),
        DocType::SourceFile => "SourceFile".to_owned(),
        DocType::TestFile => "TestFile".to_owned(),
        DocType::ConfigFile => "ConfigFile".to_owned(),
    }
}

/// A text between double quotes, with the escapes of a Rust string literal.
pub uninterp spec fn quoted(s: Seq<char>) -> Seq<char>;

/// Calls the `Debug` formatting of a `str`: the text between double quotes, escaped. It depends on
/// the text alone.
#[verifier::external_body]
fn quote(s: &str) -> (r: String)
    ensures
        r@ == quoted(s@),
{
    format!("{:?}", s)
}

/// The name of a source type.
pub open spec fn source_name_spec(s: SourceTypeView) -> Seq<char> {
    match s {
        SourceTypeView::Obsidian => "Obsidian"@,
        SourceTypeView::Code => "Code"@,
        SourceTypeView::Custom(t) => "Custom("@ + quoted(t) + ")"@,
    }
}

/// The name of a source type.
pub fn source_name(s: &SourceType) -> (r: String)
    ensures
        r@ == source_name_spec(s@),
{
    match s {
        SourceType::Obsidian => "Obsidian".to_owned(),
        SourceType::Code => "Code".to_owned(),
        SourceType::Custom(t) => {
            let q = quote(t.as_str());
            let head = text::concat("Custom(", q.as_str());
            text::concat(head.as_str(), ")")
        },
    }
}

// ── Pointers ────────────────────────────────────────────────────────────────

/// The pointer to a chunk.
pub open spec fn pointer_spec(c: ChunkRecord) -> PointerView {
    PointerView {
        chunk_id: c.chunk_id,
        kind: kind_name_spec(c.kind),
        byte_start: c.byte_start,
        byte_end: c.byte_end,
        label: types::text_of(c.label),
        depth: c.depth,
        children: Seq::empty(),
    }
}

/// The pointers to chunks.
pub open spec fn pointers_spec(s: Seq<ChunkRecord>) -> Seq<PointerView> {
    Seq::new(s.len(), |i: int| pointer_spec(s[i]))
}

/// The pointers to chunks.
pub fn chunk_pointers(chunks: &Vec<ChunkRecord>) -> (r: Vec<ChunkPointer>)
    ensures
        nest::models(r@) == pointers_spec(chunks@),
{
    let mut out: Vec<ChunkPointer> = Vec::new();
    let mut i: usize = 0;
    while i < chunks.len()
        invariant
            i <= chunks@.len(),
            out@.len() == i,
            forall|j: int| 0 <= j < i ==> (#[trigger] out@[j]).model() == pointer_spec(chunks@[j]),
        decreases chunks@.len() - i,
    {
        let c = &chunks[i];
        let p = ChunkPointer {
            chunk_id: c.chunk_id,
            kind: kind_name(c.kind),
            byte_start: c.byte_start,
            byte_end: c.byte_end,
            label: types::clone_text(&c.label),
            depth: c.depth,
            children: Vec::new(),
        };
        assert(p.model().children =~= Seq::empty());
        assert(p.model() =~= pointer_spec(chunks@[i as int]));
        out.push(p);
        i += 1;
    }
    assert(nest::models(out@) =~= pointers_spec(chunks@));
    out
}

/// The name of an optional document type.
pub open spec fn opt_type_name(t: Option<DocType>) -> Option<Seq<char>> {
    match t {
        Some(t) => Some(doc_type_name_spec(t)),
        None => None,
    }
}

fn type_name_of(t: Option<DocType>) -> (r: Option<String>)
    ensures
        types::text_of(r) == opt_type_name(t),
{
    match t {
        Some(t) => Some(doc_type_name(t)),
        None => None,
    }
}

/// The match of a document.
pub open spec fn match_spec(s: RegistryState, id: DocId, keys: Seq<Seq<char>>) -> MatchView {
    MatchView {
        doc_id: id,
        file_path: s.docs[id].file_path@,
        source_type: source_name_spec(s.docs[id].source_type@),
        chunks: pointers_spec(registry::chunks_at(s, id)),
        matched_filters: keys,
        auto_type: opt_type_name(s.docs[id].auto_type),
        score: None,
        last_modified: s.docs[id].last_indexed,
    }
}

/// The matches of those documents, from `i` on, that are registered.
pub open spec fn matches_spec(
    s: RegistryState,
    ids: Seq<DocId>,
    keys: Seq<Seq<char>>,
    i: int,
) -> Seq<MatchView>
    decreases ids.len() - i,
{
    if i < 0 || i >= ids.len() {
        Seq::empty()
    } else if s.docs.dom().contains(ids[i]) {
        seq![match_spec(s, ids[i], keys)] + matches_spec(s, ids, keys, i + 1)
    } else {
        matches_spec(s, ids, keys, i + 1)
    }
}

/// Whether a sequence lists a set in ascending order.
pub open spec fn is_listing(v: Seq<u32>, s: Set<u32>) -> bool {
    &&& v.to_set() == s
    &&& forall|i: int, j: int| 0 <= i < j < v.len() ==> #[trigger] v[i] < #[trigger] v[j]
}

/// A set in ascending order.
pub open spec fn listing(s: Set<u32>) -> Seq<u32> {
    choose|v: Seq<u32>| is_listing(v, s)
}

/// A set has one listing.
pub proof fn lemma_listing(v: Seq<u32>, w: Seq<u32>, s: Set<u32>)
    requires
        is_listing(v, s),
        is_listing(w, s),
    ensures
        v == w,
    decreases v.len(),
{
    assert forall|x: u32| v.contains(x) <==> w.contains(x) by {
        assert(v.to_set().contains(x) <==> s.contains(x));
        assert(w.to_set().contains(x) <==> s.contains(x));
    }
    if v.len() == 0 {
        if w.len() > 0 {
            assert(w.contains(w[0]));
        }
        assert(v =~= w);
    } else {
        assert(v.contains(v.last()));
        assert(w.contains(v.last()));
        let m = w.len() - 1;
        assert(w.contains(w[m]));
        assert(v.contains(w[m]));
        let a = v.index_of(w[m]);
        let b = w.index_of(v.last());
        assert(v[a] == w[m] && w[b] == v.last());
        assert(v.last() == w.last()) by {
            if a < v.len() - 1 {
                assert(v[a] < v[v.len() - 1]);
            }
            if b < m {
                assert(w[b] < w[m]);
            }
        }
        let x = v.last();
        let v1 = v.drop_last();
        let w1 = w.drop_last();
        lemma_listing_front(v, s);
        lemma_listing_front(w, s);
        lemma_listing(v1, w1, s.remove(x));
        assert(v =~= v1.push(x));
        assert(w =~= w1.push(x));
    }
}

proof fn lemma_listing_front(v: Seq<u32>, s: Set<u32>)
    requires
        is_listing(v, s),
        v.len() > 0,
    ensures
        is_listing(v.drop_last(), s.remove(v.last())),
{
    let t = v.drop_last();
    assert forall|i: int, j: int| 0 <= i < j < t.len() implies #[trigger] t[i] < #[trigger] t[j] by {
        assert(v[i] < v[j]);
    }
    assert forall|x: u32| t.to_set().contains(x) <==> s.remove(v.last()).contains(x) by {
        if t.contains(x) {
            let i = t.index_of(x);
            assert(t[i] == v[i]);
            assert(v[i] < v[v.len() - 1]);
            assert(v.contains(x));
            assert(v.to_set().contains(x));
        }
        if s.remove(v.last()).contains(x) {
            assert(v.to_set().contains(x));
            let i = v.index_of(x);
            assert(v[i] == x);
            assert(t[i] == x);
        }
    }
    assert(t.to_set() =~= s.remove(v.last()));
}

/// The part of a list that is left after `offset` items, at most `limit` of them.
pub open spec fn page(v: Seq<u32>, offset: Option<u32>, limit: Option<u32>) -> Seq<u32> {
    let start = match offset {
        Some(n) => if n <= v.len() {
            n as int
        } else {
            v.len() as int
        },
        None => 0,
    };
    let end = match limit {
        Some(n) => if start + n <= v.len() {
            start + n
        } else {
            v.len() as int
        },
        None => if start + u32::MAX <= v.len() {
            start + u32::MAX
        } else {
            v.len() as int
        },
    };
    v.subrange(start, end)
}

// ── The engine ──────────────────────────────────────────────────────────────

/// Whether keys are those of a store that hold a document, each once.
pub open spec fn are_keys_of(keys: Seq<Seq<char>>, m: Map<Seq<char>, Set<u32>>, id: DocId) -> bool {
    &&& keys.no_duplicates()
    &&& forall|k: Seq<char>| #[trigger]
        keys.contains(k) <==> m.dom().contains(k) && bitmap::is_listed(k, None) && m[k].contains(id)
}

/// Whether a result tells of the document with an id what a registry and a store hold.
pub open spec fn inspected(
    r: InspectResult,
    s: RegistryState,
    m: Map<Seq<char>, Set<u32>>,
    id: DocId,
) -> bool {
    &&& r.doc_id == id
    &&& r.file_path@ == s.docs[id].file_path@
    &&& r.source_type@ == source_name_spec(s.docs[id].source_type@)
    &&& types::text_of(r.auto_type) == opt_type_name(s.docs[id].auto_type)
    &&& r.blake3_hash@ == hash::hex_spec(s.docs[id].blake3_hash@)
    &&& r.last_indexed == s.docs[id].last_indexed
    &&& nest::models(r.chunks@) == pointers_spec(registry::chunks_at(s, id))
    &&& are_keys_of(r.bitmap_keys.deep_view(), m, id)
}

/// The prefix of the keys of a category.
pub open spec fn category_prefix(category: Option<Seq<char>>) -> Option<Seq<char>> {
    match category {
        Some(c) => Some(c + ":"@),
        None => None,
    }
}

/// The keys of filter entries.
pub open spec fn entry_keys(v: Seq<FilterEntry>) -> Seq<Seq<char>> {
    Seq::new(v.len(), |i: int| v[i].key@)
}

/// Resolves filters over bitmaps, and returns structural pointers.
pub trait QueryEngine: Send + Sync {
    /// The documents under each key.
    spec fn bitmaps(&self) -> Map<Seq<char>, Set<u32>>;

    /// The registered documents.
    spec fn records(&self) -> RegistryState;

    /// What holds of the engine between operations.
    spec fn wf(&self) -> bool;

    /// Whether the backends of this engine always succeed.
    spec fn infallible(&self) -> bool;

    /// The documents that a filter selects, in ascending order of their ids.
    fn query(&self, request: QueryRequest) -> (r: Result<QueryResult, QueryError>)
        requires
            self.wf(),
        ensures
            self.infallible() ==> r is Ok,
            match r {
                Ok(q) => {
                    let docs = selected(self.bitmaps(), request.filter);
                    &&& q.total_matching == docs.len() % 0x1_0000_0000
                    &&& types::views(q.matches@) == matches_spec(
                        self.records(),
                        page(listing(docs), request.offset, request.limit),
                        leaf_keys(request.filter),
                        0,
                    )
                },
                Err(e) => e is Bitmap || e is Registry,
            },
    ;

    /// The catalog entries, optionally those of a category.
    fn list_filters(&self, category: Option<BitmapCategory>) -> (r: Result<
        Vec<BitmapCatalogEntry>,
        QueryError,
    >)
        requires
            self.wf(),
        ensures
            self.infallible() ==> r is Ok,
            match r {
                Ok(v) => registry::lists_catalog(v@, self.records().catalog, category),
                Err(e) => e is Registry,
            },
    ;

    /// What the index knows of the document at a path.
    fn inspect(&self, path: &str) -> (r: Result<Option<InspectResult>, QueryError>)
        requires
            self.wf(),
        ensures
            self.infallible() ==> r is Ok,
            match r {
                Ok(Some(i)) => self.records().paths.dom().contains(paths::normal_spec(path@))
                    && inspected(
                    i,
                    self.records(),
                    self.bitmaps(),
                    self.records().paths[paths::normal_spec(path@)],
                ),
                Ok(None) => !self.records().paths.dom().contains(paths::normal_spec(path@)),
                Err(e) => e is Bitmap || e is Registry,
            },
    ;

    /// Summary of the index.
    fn status(&self) -> (r: Result<IndexStatus, QueryError>)
        requires
            self.wf(),
        ensures
            self.infallible() ==> r is Ok,
            match r {
                Ok(i) => {
                    &&& self.records().docs.dom().finite()
                    &&& i.total_documents == self.records().docs.dom().len()
                    &&& i.total_bitmaps == listed_keys(self.bitmaps(), None).len()
                    &&& i.tombstoned == tombstones(self.bitmaps()).len()
                    &&& i.next_doc_id == self.records().next_doc_id
                    &&& i.next_chunk_id == self.records().next_chunk_id
                },
                Err(e) => e is Bitmap || e is Registry,
            },
    ;

    /// The filter keys with their number of documents, optionally those whose key begins with a
    /// category and a colon.
    fn list_filter_keys(&self, category: Option<&str>) -> (r: Result<Vec<FilterEntry>, QueryError>)
        requires
            self.wf(),
        ensures
            self.infallible() ==> r is Ok,
            match r {
                Ok(v) => {
                    &&& entry_keys(v@).no_duplicates()
                    &&& entry_keys(v@).to_set() == listed_keys(
                        self.bitmaps(),
                        category_prefix(bitmap::opt_str(category)),
                    )
                    &&& forall|i: int|
                        0 <= i < v@.len() ==> (#[trigger] v@[i]).cardinality
                            == self.bitmaps()[v@[i].key@].len() % 0x1_0000_0000
                },
                Err(e) => e is Bitmap,
            },
    ;
}

/// The keys of a store that begin with a prefix. That of the tombstones is not among them.
pub open spec fn listed_keys(m: Map<Seq<char>, Set<u32>>, prefix: Option<Seq<char>>) -> Set<
    Seq<char>,
> {
    m.dom().filter(|k: Seq<char>| bitmap::is_listed(k, prefix))
}

/// The query engine over a bitmap store and a registry.
pub struct BitmapQueryEngine {
    stores: (Box<dyn BitmapStore>, Box<dyn Registry>),
}

impl BitmapQueryEngine {
    /// An engine over a store and a registry.
    pub fn new(bitmap_store: Box<dyn BitmapStore>, registry: Box<dyn Registry>) -> (r: Self)
        requires
            bitmap_store.wf(),
            registry.wf(),
        ensures
            r.wf(),
            r.bitmaps() == bitmap_store.bitmaps(),
            r.records() == registry.state(),
            r.infallible() == (bitmap_store.infallible() && registry.infallible()),
    {
        let stores = (bitmap_store, registry);
        BitmapQueryEngine { stores }
    }

    /// An engine over a store and a registry that are kept together.
    pub fn over(stores: (Box<dyn BitmapStore>, Box<dyn Registry>)) -> (r: Self)
        requires
            stores.0.wf(),
            stores.1.wf(),
        ensures
            r.wf(),
            r.bitmaps() == stores.0.bitmaps(),
            r.records() == stores.1.state(),
            r.infallible() == (stores.0.infallible() && stores.1.infallible()),
    {
        BitmapQueryEngine { stores }
    }

    /// Hands the store and the registry back.
    pub fn into_stores(self) -> (r: (Box<dyn BitmapStore>, Box<dyn Registry>))
        requires
            self.wf(),
        ensures
            r.0.wf(),
            r.1.wf(),
            r.0.bitmaps() == self.bitmaps(),
            r.1.state() == self.records(),
            (r.0.infallible() && r.1.infallible()) == self.infallible(),
    {
        self.stores
    }

    /// The documents under any key, without those that are deleted.
    fn resolve_universe(&self) -> (r: Result<RoaringBitmap, QueryError>)
        requires
            self.wf(),
        ensures
            self.infallible() ==> r is Ok,
            match r {
                Ok(b) => bitmap::ids(b) == universe(self.bitmaps()),
                Err(e) => e is Bitmap,
            },
    {
        let keys = match self.stores.0.list_keys(None) {
            Ok(k) => k,
            Err(e) => {
                return Err(QueryError::Bitmap(e));
            },
        };
        let ghost m = self.bitmaps();
        let ghost ks = keys.deep_view();
        let mut all = RoaringBitmap::new();
        let mut i: usize = 0;
        while i < keys.len()
            invariant
                self.wf(),
                m == self.bitmaps(),
                ks == keys.deep_view(),
                i <= keys@.len(),
                forall|k: Seq<char>| #[trigger]
                    ks.contains(k) <==> m.dom().contains(k) && bitmap::is_listed(k, None),
                forall|x: u32| #[trigger]
                    bitmap::ids(all).contains(x) <==> exists|j: int|
                        0 <= j < i && m[#[trigger] ks[j]].contains(x),
            decreases keys@.len() - i,
        {
            let b = match self.stores.0.get(keys[i].as_str()) {
                Ok(b) => b,
                Err(e) => {
                    return Err(QueryError::Bitmap(e));
                },
            };
            let ghost before = all;
            all = bitmap::bitmap_or(&all, &b);
            proof {
                assert(ks[i as int] == keys@[i as int]@);
                assert(ks.contains(ks[i as int]));
                assert(bitmap::ids(b) == m[ks[i as int]]);
                assert forall|x: u32| #[trigger]
                    bitmap::ids(all).contains(x) <==> exists|j: int|
                        0 <= j < i + 1 && m[#[trigger] ks[j]].contains(x) by {
                    if bitmap::ids(before).contains(x) {
                        let j = choose|j: int| 0 <= j < i && m[#[trigger] ks[j]].contains(x);
                        assert(0 <= j < i + 1 && m[ks[j]].contains(x));
                    }
                    if exists|j: int| 0 <= j < i + 1 && m[#[trigger] ks[j]].contains(x) {
                        let j = choose|j: int| 0 <= j < i + 1 && m[#[trigger] ks[j]].contains(x);
                        if j < i {
                            assert(bitmap::ids(before).contains(x));
                        }
                    }
                }
            }
            i += 1;
        }
        let dead = match self.stores.0.get_tombstone() {
            Ok(b) => b,
            Err(e) => {
                return Err(QueryError::Bitmap(e));
            },
        };
        let r = bitmap::bitmap_minus(&all, &dead);
        proof {
            assert forall|x: u32| bitmap::ids(r).contains(x) <==> universe(m).contains(x) by {
                if bitmap::ids(all).contains(x) {
                    let j = choose|j: int| 0 <= j < i && m[#[trigger] ks[j]].contains(x);
                    assert(ks.contains(ks[j]));
                    assert(bitmap::is_listed(ks[j], None));
                }
                if universe(m).contains(x) {
                    let k = choose|k: Seq<char>|
                        m.dom().contains(k) && #[trigger] bitmap::is_listed(k, None)
                            && m[k].contains(x);
                    assert(ks.contains(k));
                    let j = ks.index_of(k);
                    assert(m[ks[j]].contains(x));
                }
            }
            assert(bitmap::ids(r) =~= universe(m));
        }
        Ok(r)
    }

    /// The documents that a filter selects.
    pub fn resolve_filter(&self, filter: &Filter) -> (r: Result<RoaringBitmap, QueryError>)
        requires
            self.wf(),
        ensures
            self.infallible() ==> r is Ok,
            match r {
                Ok(b) => bitmap::ids(b) == selected(self.bitmaps(), *filter),
                Err(e) => e is Bitmap,
            },
        decreases *filter,
    {
        match filter {
            Filter::Key(key) => {
                let b = match self.stores.0.get(key.as_str()) {
                    Ok(b) => b,
                    Err(e) => {
                        return Err(QueryError::Bitmap(e));
                    },
                };
                let dead = match self.stores.0.get_tombstone() {
                    Ok(b) => b,
                    Err(e) => {
                        return Err(QueryError::Bitmap(e));
                    },
                };
                Ok(bitmap::bitmap_minus(&b, &dead))
            },
            Filter::Not(inner) => {
                let all = self.resolve_universe()?;
                let b = self.resolve_filter(inner)?;
                Ok(bitmap::bitmap_minus(&all, &b))
            },
            Filter::And(children) => self.resolve_and(children),
            Filter::Or(children) => self.resolve_or(children),
        }
    }

    fn resolve_and(&self, children: &Vec<Filter>) -> (r: Result<RoaringBitmap, QueryError>)
        requires
            self.wf(),
        ensures
            self.infallible() ==> r is Ok,
            match r {
                Ok(b) => bitmap::ids(b) == in_all(selected_each(self.bitmaps(), *children)),
                Err(e) => e is Bitmap,
            },
        decreases *children,
    {
        let ghost each = selected_each(self.bitmaps(), *children);
        let mut acc: Option<RoaringBitmap> = None;
        let mut i: usize = 0;
        while i < children.len()
            invariant
                self.wf(),
                each == selected_each(self.bitmaps(), *children),
                i <= children@.len(),
                acc is None <==> i == 0,
                acc matches Some(b) ==> bitmap::ids(b) == in_all(each.take(i as int)),
            decreases children@.len() - i,
        {
            let b = self.resolve_filter(&children[i])?;
            let ghost earlier = acc;
            let next = match acc {
                Some(a) => bitmap::bitmap_and(&a, &b),
                None => b,
            };
            proof {
                let t = each.take(i as int);
                let u = each.take(i + 1);
                assert(each[i as int] == bitmap::ids(b));
                assert forall|x: u32| bitmap::ids(next).contains(x) <==> in_all(u).contains(x) by {
                    if in_all(u).contains(x) {
                        assert(u[i as int].contains(x));
                        assert forall|j: int| 0 <= j < t.len() implies (#[trigger] t[j]).contains(
                            x,
                        ) by {
                            assert(u[j].contains(x));
                        }
                    }
                    if bitmap::ids(next).contains(x) {
                        assert forall|j: int| 0 <= j < u.len() implies (#[trigger] u[j]).contains(
                            x,
                        ) by {
                            if j < i {
                                assert(t[j].contains(x));
                            }
                        }
                    }
                }
                assert(bitmap::ids(next) =~= in_all(u));
            }
            acc = Some(next);
            i += 1;
        }
        proof {
            assert(each.take(i as int) =~= each);
        }
        match acc {
            Some(b) => Ok(b),
            None => {
                let b = RoaringBitmap::new();
                assert(bitmap::ids(b) =~= in_all(each));
                Ok(b)
            },
        }
    }

    fn resolve_or(&self, children: &Vec<Filter>) -> (r: Result<RoaringBitmap, QueryError>)
        requires
            self.wf(),
        ensures
            self.infallible() ==> r is Ok,
            match r {
                Ok(b) => bitmap::ids(b) == in_some(selected_each(self.bitmaps(), *children)),
                Err(e) => e is Bitmap,
            },
        decreases *children,
    {
        let ghost each = selected_each(self.bitmaps(), *children);
        let mut acc = RoaringBitmap::new();
        let mut i: usize = 0;
        assert(bitmap::ids(acc) =~= in_some(each.take(0)));
        while i < children.len()
            invariant
                self.wf(),
                each == selected_each(self.bitmaps(), *children),
                i <= children@.len(),
                bitmap::ids(acc) == in_some(each.take(i as int)),
            decreases children@.len() - i,
        {
            let b = self.resolve_filter(&children[i])?;
            let ghost before = acc;
            acc = bitmap::bitmap_or(&acc, &b);
            proof {
                let t = each.take(i as int);
                let u = each.take(i + 1);
                assert(each[i as int] == bitmap::ids(b));
                assert forall|x: u32| bitmap::ids(acc).contains(x) <==> in_some(u).contains(x) by {
                    if in_some(u).contains(x) {
                        let j = choose|j: int| 0 <= j < u.len() && (#[trigger] u[j]).contains(x);
                        if j < i {
                            assert(t[j].contains(x));
                            assert(in_some(t).contains(x));
                        }
                    }
                    if in_some(t).contains(x) {
                        let j = choose|j: int| 0 <= j < t.len() && (#[trigger] t[j]).contains(x);
                        assert(u[j].contains(x));
                    }
                    if bitmap::ids(b).contains(x) {
                        assert(u[i as int].contains(x));
                    }
                }
                assert(bitmap::ids(acc) =~= in_some(u));
            }
            i += 1;
        }
        proof {
            assert(each.take(i as int) =~= each);
        }
        Ok(acc)
    }

    /// The match of a document, where it is registered.
    pub fn hydrate(&self, doc_id: DocId, matched_filters: Vec<String>) -> (r: Result<
        Option<MatchPointer>,
        QueryError,
    >)
        requires
            self.wf(),
        ensures
            self.infallible() ==> r is Ok,
            match r {
                Ok(Some(p)) => self.records().docs.dom().contains(doc_id) && p@ == match_spec(
                    self.records(),
                    doc_id,
                    matched_filters.deep_view(),
                ),
                Ok(None) => !self.records().docs.dom().contains(doc_id),
                Err(e) => e is Registry,
            },
    {
        let doc = match self.stores.1.lookup_by_id(doc_id) {
            Ok(Some(d)) => d,
            Ok(None) => {
                return Ok(None);
            },
            Err(e) => {
                return Err(QueryError::Registry(e));
            },
        };
        let chunks = match self.stores.1.get_chunks(doc_id) {
            Ok(c) => c,
            Err(e) => {
                return Err(QueryError::Registry(e));
            },
        };
        let chunks = chunk_pointers(&chunks);
        let auto_type = type_name_of(doc.auto_type);
        let source_type = source_name(&doc.source_type);
        let p = MatchPointer {
            doc_id,
            file_path: doc.file_path,
            source_type,
            chunks,
            matched_filters,
            auto_type,
            score: None,
            last_modified: doc.last_indexed,
        };
        assert(p@ =~= match_spec(self.records(), doc_id, matched_filters.deep_view()));
        Ok(Some(p))
    }

    /// The ids of the documents that a filter selects, in ascending order.
    pub fn matching_docs(&self, filter: &Filter) -> (r: Result<Vec<DocId>, QueryError>)
        requires
            self.wf(),
        ensures
            self.infallible() ==> r is Ok,
            match r {
                Ok(v) => is_listing(v@, selected(self.bitmaps(), *filter)),
                Err(e) => e is Bitmap,
            },
    {
        let b = self.resolve_filter(filter)?;
        Ok(bitmap::bitmap_values(&b))
    }

    /// The chunks of documents, in ascending order of their id.
    pub fn chunks_of(&self, docs: &Vec<DocId>) -> (r: Result<Vec<ChunkRecord>, QueryError>)
        requires
            self.wf(),
        ensures
            self.infallible() ==> r is Ok,
            match r {
                Ok(v) => v@ == registry::by_id(registry::chunks_of_docs(self.records(), docs@)),
                Err(e) => e is Registry,
            },
    {
        match self.stores.1.get_chunks_for_docs(docs.as_slice()) {
            Ok(v) => Ok(v),
            Err(e) => Err(QueryError::Registry(e)),
        }
    }

    /// The document that a chunk belongs to.
    pub fn owner_of(&self, chunk: ChunkId) -> (r: Result<Option<DocId>, QueryError>)
        requires
            self.wf(),
        ensures
            self.infallible() ==> r is Ok,
            match r {
                Ok(Some(id)) => registry::owns_chunk(self.records(), id, chunk),
                Ok(None) => forall|id: DocId| !#[trigger]
                    registry::owns_chunk(self.records(), id, chunk),
                Err(e) => e is Registry,
            },
    {
        match self.stores.1.doc_for_chunk(chunk) {
            Ok(o) => Ok(o),
            Err(e) => Err(QueryError::Registry(e)),
        }
    }

    /// The keys under which a document stands.
    fn keys_holding(&self, doc_id: DocId) -> (r: Result<Vec<BitmapKey>, QueryError>)
        requires
            self.wf(),
        ensures
            self.infallible() ==> r is Ok,
            match r {
                Ok(v) => are_keys_of(v.deep_view(), self.bitmaps(), doc_id),
                Err(e) => e is Bitmap,
            },
    {
        let keys = match self.stores.0.list_keys(None) {
            Ok(k) => k,
            Err(e) => {
                return Err(QueryError::Bitmap(e));
            },
        };
        let ghost m = self.bitmaps();
        let ghost ks = keys.deep_view();
        let mut out: Vec<BitmapKey> = Vec::new();
        let mut i: usize = 0;
        while i < keys.len()
            invariant
                self.wf(),
                m == self.bitmaps(),
                ks == keys.deep_view(),
                i <= keys@.len(),
                ks.no_duplicates(),
                forall|k: Seq<char>| #[trigger]
                    ks.contains(k) <==> m.dom().contains(k) && bitmap::is_listed(k, None),
                out.deep_view().no_duplicates(),
                forall|k: Seq<char>| #[trigger]
                    out.deep_view().contains(k) <==> ks.take(i as int).contains(k)
                        && m[k].contains(doc_id),
            decreases keys@.len() - i,
        {
            let b = match self.stores.0.get(keys[i].as_str()) {
                Ok(b) => b,
                Err(e) => {
                    return Err(QueryError::Bitmap(e));
                },
            };
            let ghost before = out.deep_view();
            let ghost k0 = ks[i as int];
            proof {
                assert(k0 == keys@[i as int]@);
                assert(ks.contains(k0));
                let t = ks.take(i as int);
                assert(ks.take(i + 1) =~= t.push(k0));
                if t.contains(k0) {
                    let j = t.index_of(k0);
                    assert(ks[j] == ks[i as int]);
                }
                assert forall|k: Seq<char>|
                    #[trigger] ks.take(i + 1).contains(k) <==> t.contains(k) || k == k0 by {
                    bitmap::lemma_push_contains(t, k0, k);
                }
            }
            if b.contains(doc_id) {
                out.push(keys[i].clone());
                proof {
                    assert(out.deep_view() =~= before.push(k0));
                    assert(!before.contains(k0));
                    assert forall|k: Seq<char>| #[trigger]
                        out.deep_view().contains(k) <==> before.contains(k) || k == k0 by {
                        bitmap::lemma_push_contains(before, k0, k);
                    }
                }
            }
            i += 1;
        }
        proof {
            assert(ks.take(i as int) =~= ks);
        }
        Ok(out)
    }
}

impl QueryEngine for BitmapQueryEngine {
    closed spec fn bitmaps(&self) -> Map<Seq<char>, Set<u32>> {
        self.stores.0.bitmaps()
    }

    closed spec fn records(&self) -> RegistryState {
        self.stores.1.state()
    }

    closed spec fn wf(&self) -> bool {
        self.stores.0.wf() && self.stores.1.wf()
    }

    closed spec fn infallible(&self) -> bool {
        self.stores.0.infallible() && self.stores.1.infallible()
    }

    fn query(&self, request: QueryRequest) -> (r: Result<QueryResult, QueryError>) {
        let start = Instant::now();
        let matching = self.resolve_filter(&request.filter)?;
        let total_matching: u32 = (matching.len() % 0x1_0000_0000) as u32;
        let keys = collect_leaf_keys(&request.filter);
        let all = bitmap::bitmap_values(&matching);
        let n = all.len();
        let from: usize = match request.offset {
            Some(o) => if (o as usize) < n {
                o as usize
            } else {
                n
            },
            None => 0,
        };
        let limit: usize = match request.limit {
            Some(l) => l as usize,
            None => u32::MAX as usize,
        };
        let to: usize = if limit <= n - from {
            from + limit
        } else {
            n
        };
        let ghost docs = selected(self.bitmaps(), request.filter);
        let ghost ids = page(listing(docs), request.offset, request.limit);
        let ghost state = self.records();
        let ghost kv = leaf_keys(request.filter);
        proof {
            assert(is_listing(all@, docs));
            lemma_listing(all@, listing(docs), docs);
            assert(ids =~= all@.subrange(from as int, to as int));
        }
        let mut matches: Vec<MatchPointer> = Vec::new();
        let mut i: usize = from;
        assert(types::views(matches@) + matches_spec(state, ids, kv, 0) =~= matches_spec(
            state,
            ids,
            kv,
            0,
        ));
        while i < to
            invariant
                self.wf(),
                state == self.records(),
                from <= i <= to <= all@.len(),
                ids == all@.subrange(from as int, to as int),
                keys.deep_view() == kv,
                types::views(matches@) + matches_spec(state, ids, kv, i - from) == matches_spec(
                    state,
                    ids,
                    kv,
                    0,
                ),
            decreases to - i,
        {
            let id = all[i];
            let own = clone_keys(&keys);
            assert(ids[i - from] == id);
            let ghost before = matches@;
            let ghost rest = matches_spec(state, ids, kv, i - from + 1);
            match self.hydrate(id, own)? {
                Some(p) => {
                    matches.push(p);
                    proof {
                        types::lemma_views_push(before, p);
                        assert(types::views(before).push(p@) + rest =~= types::views(before) + (
                        seq![p@] + rest));
                    }
                },
                None => {},
            }
            i += 1;
        }
        assert(types::views(matches@) + Seq::<MatchView>::empty() =~= types::views(matches@));
        let query_time_us = clock::micros_since(start);
        Ok(QueryResult { matches, total_matching, query_time_us })
    }

    fn list_filters(&self, category: Option<BitmapCategory>) -> (r: Result<
        Vec<BitmapCatalogEntry>,
        QueryError,
    >) {
        match self.stores.1.list_catalog(category) {
            Ok(v) => Ok(v),
            Err(e) => Err(QueryError::Registry(e)),
        }
    }

    fn inspect(&self, path: &str) -> (r: Result<Option<InspectResult>, QueryError>) {
        let doc = match self.stores.1.lookup_by_path(path) {
            Ok(Some(d)) => d,
            Ok(None) => {
                return Ok(None);
            },
            Err(e) => {
                return Err(QueryError::Registry(e));
            },
        };
        let chunks = match self.stores.1.get_chunks(doc.doc_id) {
            Ok(c) => c,
            Err(e) => {
                return Err(QueryError::Registry(e));
            },
        };
        let bitmap_keys = self.keys_holding(doc.doc_id)?;
        let chunks = chunk_pointers(&chunks);
        let auto_type = type_name_of(doc.auto_type);
        let source_type = source_name(&doc.source_type);
        let blake3_hash = hash::to_hex(&doc.blake3_hash);
        Ok(
            Some(
                InspectResult {
                    doc_id: doc.doc_id,
                    file_path: doc.file_path,
                    source_type,
                    auto_type,
                    blake3_hash,
                    last_indexed: doc.last_indexed,
                    chunks,
                    bitmap_keys,
                },
            ),
        )
    }

    fn status(&self) -> (r: Result<IndexStatus, QueryError>) {
        let g = match self.stores.1.get_global_state() {
            Ok(g) => g,
            Err(e) => {
                return Err(QueryError::Registry(e));
            },
        };
        let keys = match self.stores.0.list_keys(None) {
            Ok(k) => k,
            Err(e) => {
                return Err(QueryError::Bitmap(e));
            },
        };
        let dead = match self.stores.0.get_tombstone() {
            Ok(b) => b,
            Err(e) => {
                return Err(QueryError::Bitmap(e));
            },
        };
        proof {
            keys.deep_view().unique_seq_to_set();
            assert(keys.deep_view().to_set() =~= listed_keys(self.bitmaps(), None));
        }
        Ok(
            IndexStatus {
                total_documents: g.total_documents,
                total_bitmaps: keys.len(),
                tombstoned: dead.len(),
                next_doc_id: g.next_doc_id,
                next_chunk_id: g.next_chunk_id,
            },
        )
    }

    fn list_filter_keys(&self, category: Option<&str>) -> (r: Result<
        Vec<FilterEntry>,
        QueryError,
    >) {
        let listed = match category {
            Some(c) => {
                let prefix = text::concat(c, ":");
                self.stores.0.list_keys(Some(prefix.as_str()))
            },
            None => self.stores.0.list_keys(None),
        };
        let keys = match listed {
            Ok(k) => k,
            Err(e) => {
                return Err(QueryError::Bitmap(e));
            },
        };
        let ghost ks = keys.deep_view();
        let ghost m = self.bitmaps();
        proof {
            assert forall|j: int| 0 <= j < ks.len() implies m.dom().contains(#[trigger] ks[j]) by {
                assert(ks.contains(ks[j]));
            }
        }
        let mut out: Vec<FilterEntry> = Vec::new();
        let mut i: usize = 0;
        while i < keys.len()
            invariant
                self.wf(),
                m == self.bitmaps(),
                ks == keys.deep_view(),
                i <= keys@.len(),
                out@.len() == i,
                forall|j: int| 0 <= j < ks.len() ==> m.dom().contains(#[trigger] ks[j]),
                forall|j: int|
                    0 <= j < i ==> (#[trigger] out@[j]).key@ == ks[j] && out@[j].cardinality
                        == m[ks[j]].len() % 0x1_0000_0000,
            decreases keys@.len() - i,
        {
            let n = match self.stores.0.cardinality(keys[i].as_str()) {
                Ok(n) => n,
                Err(e) => {
                    return Err(QueryError::Bitmap(e));
                },
            };
            assert(ks[i as int] == keys@[i as int]@);
            out.push(FilterEntry { key: keys[i].clone(), cardinality: n });
            i += 1;
        }
        proof {
            assert(entry_keys(out@) =~= ks);
            assert(ks.to_set() =~= listed_keys(m, category_prefix(bitmap::opt_str(category))));
        }
        Ok(out)
    }
}

pub fn clone_keys(v: &Vec<String>) -> (r: Vec<String>)
    ensures
        r.deep_view() == v.deep_view(),
{
    let mut out: Vec<String> = Vec::new();
    let mut i: usize = 0;
    while i < v.len()
        invariant
            i <= v@.len(),
            out@.len() == i,
            forall|j: int| 0 <= j < i ==> (#[trigger] out@[j])@ == v@[j]@,
        decreases v@.len() - i,
    {
        out.push(v[i].clone());
        i += 1;
    }
    assert(out.deep_view() =~= v.deep_view());
    out
}

// ── Laws ────────────────────────────────────────────────────────────────────

/// No filter selects a deleted document.
pub proof fn law_tombstones_never_match(m: Map<Seq<char>, Set<u32>>, f: Filter, id: DocId)
    requires
        tombstones(m).contains(id),
    ensures
        !selected(m, f).contains(id),
    decreases f,
{
    match f {
        Filter::And(v) => {
            let e = selected_each(m, v);
            if in_all(e).contains(id) {
                assert(e[0].contains(id));
                law_tombstones_never_match(m, v@[0], id);
            }
        },
        Filter::Or(v) => {
            let e = selected_each(m, v);
            if in_some(e).contains(id) {
                let i = choose|i: int| 0 <= i < e.len() && (#[trigger] e[i]).contains(id);
                law_tombstones_never_match(m, v@[i], id);
            }
        },
        _ => {},
    }
}

/// A filter selects from the universe.
pub proof fn law_selected_in_universe(m: Map<Seq<char>, Set<u32>>, f: Filter)
    ensures
        selected(m, f).subset_of(universe(m)),
    decreases f,
{
    match f {
        Filter::Key(k) => {
            assert forall|x: u32| #[trigger] selected(m, f).contains(x) implies universe(m).contains(
                x,
            ) by {
                assert(m.dom().contains(k@));
                assert(k@ != bitmap::tombstone_key());
                assert(bitmap::is_listed(k@, None));
            }
        },
        Filter::Not(inner) => {},
        Filter::And(v) => {
            let e = selected_each(m, v);
            assert forall|x: u32| #[trigger] in_all(e).contains(x) implies universe(m).contains(x) by {
                assert(e[0].contains(x));
                law_selected_in_universe(m, v@[0]);
            }
        },
        Filter::Or(v) => {
            let e = selected_each(m, v);
            assert forall|x: u32| #[trigger] in_some(e).contains(x) implies universe(m).contains(
                x,
            ) by {
                let i = choose|i: int| 0 <= i < e.len() && (#[trigger] e[i]).contains(x);
                law_selected_in_universe(m, v@[i]);
            }
        },
    }
}

/// Negating twice changes nothing, and a filter and its negation part the universe.
pub proof fn law_double_negation(m: Map<Seq<char>, Set<u32>>, f: Filter)
    ensures
        selected(m, Filter::Not(Box::new(Filter::Not(Box::new(f))))) == selected(m, f),
        selected(m, Filter::Not(Box::new(f))).disjoint(selected(m, f)),
        selected(m, Filter::Not(Box::new(f))).union(selected(m, f)) == universe(m),
{
    law_selected_in_universe(m, f);
    let n = Filter::Not(Box::new(f));
    assert(selected(m, n) == universe(m).difference(selected(m, f)));
    let nn = Filter::Not(Box::new(n));
    assert(selected(m, nn) == universe(m).difference(selected(m, n)));
    assert(selected(m, nn) =~= selected(m, f));
    assert(selected(m, n).union(selected(m, f)) =~= universe(m));
}

/// The negation of a disjunction selects what no part selects, and that of a conjunction of at
/// least one part what some part does not.
pub proof fn law_de_morgan(m: Map<Seq<char>, Set<u32>>, v: Vec<Filter>, id: DocId)
    ensures
        selected(m, Filter::Not(Box::new(Filter::Or(v)))).contains(id) <==> universe(m).contains(id)
            && forall|i: int| 0 <= i < v@.len() ==> !selected(m, #[trigger] v@[i]).contains(id),
        v@.len() > 0 ==> (selected(m, Filter::Not(Box::new(Filter::And(v)))).contains(id)
            <==> universe(m).contains(id) && exists|i: int|
            0 <= i < v@.len() && !selected(m, #[trigger] v@[i]).contains(id)),
{
    let e = selected_each(m, v);
    let o = Filter::Or(v);
    let a = Filter::And(v);
    assert(selected(m, o) == in_some(e));
    assert(selected(m, a) == in_all(e));
    assert(selected(m, Filter::Not(Box::new(o))) == universe(m).difference(in_some(e)));
    assert(selected(m, Filter::Not(Box::new(a))) == universe(m).difference(in_all(e)));
    if in_some(e).contains(id) {
        let i = choose|i: int| 0 <= i < e.len() && (#[trigger] e[i]).contains(id);
        assert(selected(m, v@[i]).contains(id));
    } else {
        assert forall|i: int| 0 <= i < v@.len() implies !selected(m, #[trigger] v@[i]).contains(id) by {
            assert(!e[i].contains(id));
        }
    }
    if v@.len() > 0 {
        if in_all(e).contains(id) {
            assert forall|i: int| 0 <= i < v@.len() implies selected(m, #[trigger] v@[i]).contains(
                id,
            ) by {
                assert(e[i].contains(id));
            }
        } else {
            let i = choose|i: int| 0 <= i < e.len() && !(#[trigger] e[i]).contains(id);
            assert(!selected(m, v@[i]).contains(id));
        }
    }
}

/// Pages that follow each other part the results: each one starts where the one before it ends.
pub proof fn law_pages(v: Seq<u32>, offset: u32, limit: u32)
    requires
        offset + limit <= u32::MAX,
        v.len() <= u32::MAX,
    ensures
        page(v, Some(offset), Some(limit)) + page(v, Some((offset + limit) as u32), None) == page(
            v,
            Some(offset),
            None,
        ),
        page(v, Some(offset), Some(limit)).len() <= limit,
{
    assert(page(v, Some(offset), Some(limit)) + page(v, Some((offset + limit) as u32), None)
        =~= page(v, Some(offset), None));
}

/// There are fewer documents than identifiers, so that a registry never holds more than a query can
/// count.
pub proof fn law_documents_are_countable(s: RegistryState)
    requires
        registry::valid_state(s),
    ensures
        s.docs.dom().finite(),
        s.docs.dom().len() < u32::MAX,
{
    let all = vstd::set_lib::set_int_range(1, s.next_doc_id as int);
    vstd::set_lib::lemma_int_range(1, s.next_doc_id as int);
    let ids = s.docs.dom().map(|id: DocId| id as int);
    assert(ids.subset_of(all)) by {
        assert forall|x: int| ids.contains(x) implies all.contains(x) by {
            let id = choose|id: DocId| s.docs.dom().contains(id) && id as int == x;
            assert(s.docs[id].doc_id == id);
        }
    }
    vstd::set_lib::lemma_len_subset(ids, all);
    let back = ids.map(|x: int| x as DocId);
    assert(back =~= s.docs.dom()) by {
        assert forall|id: DocId| s.docs.dom().contains(id) implies back.contains(id) by {
            assert(ids.contains(id as int));
        }
    }
    vstd::set_lib::lemma_map_size_bound(ids, back, |x: int| x as DocId);
}

/// The numbers of a set below a bound, in ascending order.
proof fn lemma_listing_below(s: Set<u32>, bound: int) -> (v: Seq<u32>)
    requires
        0 <= bound <= 0x1_0000_0000,
    ensures
        is_listing(v, s.filter(|x: u32| x < bound)),
    decreases bound,
{
    let below = s.filter(|x: u32| x < bound);
    if bound == 0 {
        let v = Seq::<u32>::empty();
        assert(v.to_set() =~= below);
        v
    } else {
        let less = s.filter(|x: u32| x < bound - 1);
        let w = lemma_listing_below(s, bound - 1);
        let top = (bound - 1) as u32;
        assert forall|i: int| 0 <= i < w.len() implies #[trigger] w[i] < top by {
            assert(w.to_set().contains(w[i]));
        }
        if s.contains(top) {
            let v = w.push(top);
            assert forall|x: u32| v.to_set().contains(x) <==> below.contains(x) by {
                bitmap::lemma_push_contains(w, top, x);
                assert(w.to_set().contains(x) <==> less.contains(x));
            }
            assert(v.to_set() =~= below);
            v
        } else {
            assert forall|x: u32| less.contains(x) <==> below.contains(x) by {
                if below.contains(x) {
                    assert(x != top);
                }
            }
            assert(less =~= below);
            w
        }
    }
}

/// Every set of documents can be listed in ascending order.
pub proof fn law_listing(s: Set<u32>)
    ensures
        is_listing(listing(s), s),
{
    let v = lemma_listing_below(s, 0x1_0000_0000);
    assert(s.filter(|x: u32| x < 0x1_0000_0000) =~= s);
}

proof fn lemma_all_matched(s: RegistryState, v: Seq<u32>, keys: Seq<Seq<char>>, i: int)
    requires
        0 <= i <= v.len(),
        forall|j: int| 0 <= j < v.len() ==> s.docs.dom().contains(#[trigger] v[j]),
    ensures
        matches_spec(s, v, keys, i) == v.skip(i).map_values(|id: u32| match_spec(s, id, keys)),
    decreases v.len() - i,
{
    let all = v.skip(i).map_values(|id: u32| match_spec(s, id, keys));
    if i < v.len() {
        lemma_all_matched(s, v, keys, i + 1);
        assert(all =~= seq![match_spec(s, v[i], keys)] + v.skip(i + 1).map_values(
            |id: u32| match_spec(s, id, keys),
        ));
    } else {
        assert(all =~= Seq::empty());
    }
}

/// The matches of the first `n` pages of `limit` documents, one after the other.
pub open spec fn matches_of_pages(
    s: RegistryState,
    v: Seq<u32>,
    keys: Seq<Seq<char>>,
    limit: u32,
    n: nat,
) -> Seq<MatchView>
    decreases n,
{
    if n == 0 {
        Seq::empty()
    } else {
        matches_of_pages(s, v, keys, limit, (n - 1) as nat) + matches_spec(
            s,
            page(v, Some(((n - 1) * limit) as u32), Some(limit)),
            keys,
            0,
        )
    }
}

proof fn lemma_matches_from(
    s: RegistryState,
    a: Seq<u32>,
    b: Seq<u32>,
    keys: Seq<Seq<char>>,
    i: int,
    j: int,
)
    requires
        0 <= i <= a.len(),
        0 <= j <= b.len(),
        a.skip(i) == b.skip(j),
    ensures
        matches_spec(s, a, keys, i) == matches_spec(s, b, keys, j),
    decreases a.len() - i,
{
    assert(a.skip(i).len() == a.len() - i);
    assert(b.skip(j).len() == b.len() - j);
    if i < a.len() {
        assert(a[i] == a.skip(i)[0]);
        assert(b[j] == b.skip(j)[0]);
        assert(a.skip(i + 1) =~= a.skip(i).skip(1));
        assert(b.skip(j + 1) =~= b.skip(j).skip(1));
        lemma_matches_from(s, a, b, keys, i + 1, j + 1);
    }
}

proof fn lemma_matches_concat(
    s: RegistryState,
    a: Seq<u32>,
    b: Seq<u32>,
    keys: Seq<Seq<char>>,
    i: int,
)
    requires
        0 <= i <= a.len(),
    ensures
        matches_spec(s, a + b, keys, i) == matches_spec(s, a, keys, i) + matches_spec(
            s,
            b,
            keys,
            0,
        ),
    decreases a.len() - i,
{
    let both = a + b;
    if i < a.len() {
        lemma_matches_concat(s, a, b, keys, i + 1);
        assert(both[i] == a[i]);
        assert(matches_spec(s, both, keys, i) =~= matches_spec(s, a, keys, i) + matches_spec(
            s,
            b,
            keys,
            0,
        ));
    } else {
        assert(both.skip(i) =~= b.skip(0));
        lemma_matches_from(s, both, b, keys, i, 0);
        assert(matches_spec(s, a, keys, i) + matches_spec(s, b, keys, 0) =~= matches_spec(
            s,
            b,
            keys,
            0,
        ));
    }
}

proof fn lemma_first_pages(
    s: RegistryState,
    v: Seq<u32>,
    keys: Seq<Seq<char>>,
    limit: u32,
    n: nat,
)
    requires
        n > 0 ==> (n - 1) * limit <= u32::MAX,
    ensures
        matches_of_pages(s, v, keys, limit, n) == matches_spec(
            s,
            v.take(
                if n * limit <= v.len() {
                    n * limit
                } else {
                    v.len() as int
                },
            ),
            keys,
            0,
        ),
    decreases n,
{
    if n == 0 {
        assert(v.take(0).len() == 0);
    } else {
        let m = (n - 1) as nat;
        let from = m * limit;
        assert(n * limit == from + limit) by (nonlinear_arith)
            requires
                n == m + 1,
                from == m * limit,
        ;
        if m > 0 {
            assert((m - 1) * limit <= from) by (nonlinear_arith)
                requires
                    from == m * limit,
                    m > 0,
            ;
        }
        assert(0 <= from) by (nonlinear_arith)
            requires
                from == m * limit,
        ;
        lemma_first_pages(s, v, keys, limit, m);
        let start = if from <= v.len() {
            from
        } else {
            v.len() as int
        };
        let end = if from + limit <= v.len() {
            from + limit
        } else {
            v.len() as int
        };
        let p = page(v, Some(from as u32), Some(limit));
        assert(p =~= v.subrange(start, end));
        assert(v.take(start) + p =~= v.take(end));
        lemma_matches_concat(s, v.take(start), p, keys, 0);
    }
}

/// The pages at offsets 0, `limit`, twice `limit` and so on, as many as it takes, hold together what
/// a query without a limit gives, in the same order.
pub proof fn law_pages_make_the_whole(
    s: RegistryState,
    v: Seq<u32>,
    keys: Seq<Seq<char>>,
    limit: u32,
    n: nat,
)
    requires
        limit >= 1,
        v.len() <= u32::MAX,
        v.len() <= n * limit,
        n > 0 ==> (n - 1) * limit <= u32::MAX,
    ensures
        matches_of_pages(s, v, keys, limit, n) == matches_spec(s, page(v, None, None), keys, 0),
{
    lemma_first_pages(s, v, keys, limit, n);
    assert(v.take(v.len() as int) =~= v);
    assert(page(v, None, None) =~= v);
}

/// Where the selected documents are all registered, the number that a query gives is theirs, and the
/// pages at offsets 0, `limit`, twice `limit` and so on are together the matches of all of them, in
/// ascending order, as a query without a limit gives them.
pub proof fn law_pages_of_registered(
    s: RegistryState,
    docs: Set<u32>,
    keys: Seq<Seq<char>>,
    limit: u32,
    n: nat,
)
    requires
        registry::valid_state(s),
        docs.subset_of(s.docs.dom()),
        limit >= 1,
        docs.len() <= n * limit,
        n > 0 ==> (n - 1) * limit <= u32::MAX,
    ensures
        docs.len() % 0x1_0000_0000 == docs.len(),
        is_listing(listing(docs), docs),
        matches_spec(s, page(listing(docs), None, None), keys, 0) == listing(docs).map_values(
            |id: u32| match_spec(s, id, keys),
        ),
        matches_of_pages(s, listing(docs), keys, limit, n) == matches_spec(
            s,
            page(listing(docs), None, None),
            keys,
            0,
        ),
{
    law_documents_are_countable(s);
    law_listing(docs);
    let v = listing(docs);
    vstd::set_lib::lemma_len_subset(docs, s.docs.dom());
    assert(v.no_duplicates()) by {
        assert forall|i: int, j: int| 0 <= i < v.len() && 0 <= j < v.len() && i != j implies v[i]
            != v[j] by {
            if i < j {
                assert(v[i] < v[j]);
            } else {
                assert(v[j] < v[i]);
            }
        }
    }
    v.unique_seq_to_set();
    law_pages_make_the_whole(s, v, keys, limit, n);
    assert(page(v, None, None) =~= v);
    assert forall|j: int| 0 <= j < v.len() implies s.docs.dom().contains(#[trigger] v[j]) by {
        assert(v.to_set().contains(v[j]));
    }
    lemma_all_matched(s, v, keys, 0);
    assert(v.skip(0) =~= v);
}

} // verus!
