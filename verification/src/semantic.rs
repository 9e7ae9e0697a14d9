//! Semantic search: which chunks are searched, and what is returned for those that rank highest.
//!
//! Vectors and scores are single-precision numbers. They are carried as their bits; comparing them
//! is left to the embedding backend.

use std::time::Instant;

use vstd::prelude::*;

use crate::clock;
use crate::idmap::IdMap;
use crate::ingest;
use crate::query;
use crate::query::{BitmapQueryEngine, Filter, MatchPointer, MatchView, QueryEngine, QueryError};
use crate::registry;
use crate::registry::{ChunkRecord, RegistryState};
use crate::text;
use crate::types;
use crate::types::{ChunkId, DocId};

verus! {

broadcast use crate::types::lemma_views_push;

// ── Types ───────────────────────────────────────────────────────────────────

/// An embedding: the bits of single-precision numbers.
pub type EmbeddingVector = Vec<u32>;

/// How a score was computed.
#[derive(Debug)]
pub enum ScoreSource {
    CosineSimilarity,
    /// By a model with a name.
    Reranker(String),
}

impl Clone for ScoreSource {
    fn clone(&self) -> (r: Self)
        ensures
            r == *self,
    {
        match self {
            ScoreSource::CosineSimilarity => ScoreSource::CosineSimilarity,
            ScoreSource::Reranker(m) => ScoreSource::Reranker(m.clone()),
        }
    }
}

/// A chunk with its score.
#[derive(Debug)]
pub struct ScoredPointer {
    pub pointer: MatchPointer,
    pub chunk_id: ChunkId,
    /// The bits of a single-precision score.
    pub score: u32,
    pub score_source: ScoreSource,
}

/// A scored chunk with its strings taken as texts.
pub struct ScoredView {
    pub pointer: MatchView,
    pub chunk_id: ChunkId,
    pub score: u32,
    pub score_source: ScoreSource,
}

impl View for ScoredPointer {
    type V = ScoredView;

    open spec fn view(&self) -> ScoredView {
        ScoredView {
            pointer: self.pointer@,
            chunk_id: self.chunk_id,
            score: self.score,
            score_source: self.score_source,
        }
    }
}

/// A semantic query. The filter is mandatory: vectors are never searched as a whole.
#[derive(Debug)]
pub struct SemanticQueryRequest {
    pub filter: Filter,
    pub query_text: String,
    /// Maximum number of chunks.
    pub top_k: usize,
    /// Whether results are to be ranked again by a reranker. It changes nothing where there is none,
    /// as in [`BitmapQueryEngine::semantic_query`].
    pub rerank: bool,
}

/// Result of a semantic query.
#[derive(Debug)]
pub struct SemanticQueryResult {
    pub pointers: Vec<ScoredPointer>,
    /// How many documents the filter selected.
    pub bitmap_candidates: u32,
    /// How many chunks were searched.
    pub vector_searched: u32,
    pub elapsed_bitmap_us: u64,
    pub elapsed_vector_us: u64,
    pub elapsed_rerank_us: u64,
}

/// Errors of embedding.
#[derive(Debug)]
pub enum EmbedError {
    Model(String),
    Io(String),
}

/// Errors of vector stores.
#[derive(Debug)]
pub enum VectorError {
    Store(String),
    Io(String),
}

/// Errors of rerankers.
#[derive(Debug)]
pub enum RerankError {
    Model(String),
}

impl EmbedError {
    /// The message of the error.
    pub fn message(&self) -> (r: String)
        ensures
            r@ == match self {
                EmbedError::Model(m) => "embedding model error: "@ + m@,
                EmbedError::Io(m) => "I/O error: "@ + m@,
            },
    {
        match self {
            EmbedError::Model(m) => text::concat("embedding model error: ", m.as_str()),
            EmbedError::Io(m) => text::concat("I/O error: ", m.as_str()),
        }
    }
}

impl VectorError {
    /// The message of the error.
    pub fn message(&self) -> (r: String)
        ensures
            r@ == match self {
                VectorError::Store(m) => "vector store error: "@ + m@,
                VectorError::Io(m) => "I/O error: "@ + m@,
            },
    {
        match self {
            VectorError::Store(m) => text::concat("vector store error: ", m.as_str()),
            VectorError::Io(m) => text::concat("I/O error: ", m.as_str()),
        }
    }
}

impl RerankError {
    /// The message of the error.
    pub fn message(&self) -> (r: String)
        ensures
            r@ == match self {
                RerankError::Model(m) => "reranker error: "@ + m@,
            },
    {
        match self {
            RerankError::Model(m) => text::concat("reranker error: ", m.as_str()),
        }
    }
}

// ── Queries ─────────────────────────────────────────────────────────────────

/// What a semantic query searches.
#[derive(Debug)]
pub struct Candidates {
    /// The documents that the filter selects, in ascending order.
    pub docs: Vec<DocId>,
    /// Their chunks, in ascending order.
    pub chunks: Vec<ChunkId>,
}

/// The ids of chunks.
pub open spec fn chunk_ids(s: Seq<ChunkRecord>) -> Seq<ChunkId> {
    Seq::new(s.len(), |i: int| s[i].chunk_id)
}

/// The scored pointers of ranked chunks, from `i` on. Chunks that no document owns are passed over.
pub open spec fn pointers_from(
    s: RegistryState,
    ranked: Seq<(ChunkId, u32)>,
    owners: Seq<Option<DocId>>,
    keys: Seq<Seq<char>>,
    source: ScoreSource,
    i: int,
) -> Seq<ScoredView>
    decreases ranked.len() - i,
{
    if i < 0 || i >= ranked.len() {
        Seq::empty()
    } else {
        let rest = pointers_from(s, ranked, owners, keys, source, i + 1);
        match owners[i] {
            Some(id) => if s.docs.dom().contains(id) {
                seq![
                    ScoredView {
                        pointer: query::match_spec(s, id, keys),
                        chunk_id: ranked[i].0,
                        score: ranked[i].1,
                        score_source: source,
                    },
                ] + rest
            } else {
                rest
            },
            None => rest,
        }
    }
}

/// Whether each owner is that of a ranked chunk.
pub open spec fn are_owners(
    owners: Seq<Option<DocId>>,
    s: RegistryState,
    ranked: Seq<(ChunkId, u32)>,
) -> bool {
    &&& owners.len() == ranked.len()
    &&& forall|i: int|
        0 <= i < ranked.len() ==> is_owner(s, ranked[i].0, #[trigger] owners[i])
}

/// Whether a document is the owner of a chunk; none where no document owns it.
pub open spec fn is_owner(s: RegistryState, chunk: ChunkId, owner: Option<DocId>) -> bool {
    match owner {
        Some(id) => registry::owns_chunk(s, id, chunk),
        None => forall|id: DocId| !#[trigger] registry::owns_chunk(s, id, chunk),
    }
}

impl BitmapQueryEngine {
    /// What a semantic query searches: the chunks of the documents that its filter selects.
    pub fn semantic_candidates(&self, request: &SemanticQueryRequest) -> (r: Result<
        Candidates,
        QueryError,
    >)
        requires
            self.wf(),
        ensures
            self.infallible() ==> r is Ok,
            match r {
                Ok(c) => {
                    &&& query::is_listing(
                        c.docs@,
                        query::selected(self.bitmaps(), request.filter),
                    )
                    &&& c.chunks@ == candidates_of(self.records(), c.docs@)
                },
                Err(e) => e is Bitmap || e is Registry,
            },
    {
        let docs = self.matching_docs(&request.filter)?;
        let records = self.chunks_of(&docs)?;
        let mut chunks: Vec<ChunkId> = Vec::new();
        let mut i: usize = 0;
        while i < records.len()
            invariant
                i <= records@.len(),
                chunks@.len() == i,
                forall|j: int| 0 <= j < i ==> #[trigger] chunks@[j] == records@[j].chunk_id,
            decreases records@.len() - i,
        {
            chunks.push(records[i].chunk_id);
            i += 1;
        }
        assert(chunks@ =~= chunk_ids(records@));
        Ok(Candidates { docs, chunks })
    }

    /// What a semantic query returns for chunks that were ranked.
    pub fn semantic_pointers(
        &self,
        request: &SemanticQueryRequest,
        ranked: &Vec<(ChunkId, u32)>,
        source: &ScoreSource,
    ) -> (r: Result<Vec<ScoredPointer>, QueryError>)
        requires
            self.wf(),
        ensures
            self.infallible() ==> r is Ok,
            match r {
                Ok(v) => exists|owners: Seq<Option<DocId>>| #[trigger]
                    are_owners(owners, self.records(), ranked@) && types::views(v@)
                        == pointers_from(
                        self.records(),
                        ranked@,
                        owners,
                        query::leaf_keys(request.filter),
                        *source,
                        0,
                    ),
                Err(e) => e is Bitmap || e is Registry,
            },
    {
        let ghost s = self.records();
        let keys = query::collect_leaf_keys(&request.filter);
        let mut owners: Vec<Option<DocId>> = Vec::new();
        let n = ranked.len();
        let mut i: usize = 0;
        while i < n
            invariant
                self.wf(),
                s == self.records(),
                n == ranked@.len(),
                i <= n,
                owners@.len() == i,
                forall|j: int|
                    0 <= j < i ==> is_owner(s, ranked@[j].0, #[trigger] owners@[j]),
            decreases n - i,
        {
            let owner = self.owner_of(ranked[i].0)?;
            owners.push(owner);
            i += 1;
        }
        let ghost ow = owners@;
        assert(are_owners(ow, s, ranked@));
        let ghost kv = query::leaf_keys(request.filter);
        let mut out: Vec<ScoredPointer> = Vec::new();
        let mut k: usize = 0;
        assert(types::views(out@) + pointers_from(s, ranked@, ow, kv, *source, 0)
            =~= pointers_from(s, ranked@, ow, kv, *source, 0));
        while k < n
            invariant
                self.wf(),
                s == self.records(),
                n == ranked@.len(),
                ow == owners@,
                owners@.len() == n,
                kv == query::leaf_keys(request.filter),
                keys.deep_view() == kv,
                k <= n,
                types::views(out@) + pointers_from(s, ranked@, ow, kv, *source, k as int)
                    == pointers_from(s, ranked@, ow, kv, *source, 0),
            decreases n - k,
        {
            let ghost rest = pointers_from(s, ranked@, ow, kv, *source, k + 1);
            let ghost before = out@;
            if let Some(id) = owners[k] {
                let own = query::clone_keys(&keys);
                if let Some(pointer) = self.hydrate(id, own)? {
                    let p = ScoredPointer {
                        pointer,
                        chunk_id: ranked[k].0,
                        score: ranked[k].1,
                        score_source: source.clone(),
                    };
                    out.push(p);
                    proof {
                        assert(types::views(before).push(p@) + rest =~= types::views(before) + (
                        seq![p@] + rest));
                    }
                }
            }
            k += 1;
        }
        assert(types::views(out@) + Seq::<ScoredView>::empty() =~= types::views(out@));
        let r: Result<Vec<ScoredPointer>, QueryError> = Ok(out);
        assert(are_owners(ow, self.records(), ranked@) && types::views((r->Ok_0)@)
            == pointers_from(self.records(), ranked@, ow, kv, *source, 0));
        r
    }
}

// ── Backends ────────────────────────────────────────────────────────────────

/// Whether there are so many vectors, all of one length.
pub open spec fn are_vectors(vectors: Seq<EmbeddingVector>, count: nat, width: usize) -> bool {
    &&& vectors.len() == count
    &&& forall|i: int| 0 <= i < vectors.len() ==> (#[trigger] vectors[i])@.len() == width
}

/// Generates embeddings for texts.
pub trait Embedder: Send + Sync {
    /// The dimensionality of the vectors.
    spec fn width(&self) -> usize;

    /// Whether vectors are the embeddings of texts. An embedder that says nothing of its model
    /// accepts all.
    open spec fn embeds(&self, texts: Seq<Seq<char>>, vectors: Seq<Seq<u32>>) -> bool {
        true
    }

    /// Embeds one or more texts: one vector for each, as long as the dimensionality says.
    fn embed(&self, texts: &Vec<String>) -> (r: Result<Vec<EmbeddingVector>, EmbedError>)
        ensures
            match r {
                Ok(v) => are_vectors(v@, texts@.len(), self.width()) && self.embeds(
                    texts.deep_view(),
                    v.deep_view(),
                ),
                Err(_) => true,
            },
    ;

    /// The dimensionality of the vectors.
    fn dimension(&self) -> (r: usize)
        ensures
            r == self.width(),
    ;
}

/// Whether the best scores come first. Nothing is said where a score is no number.
pub open spec fn best_first(found: Seq<(ChunkId, u32)>) -> bool {
    (forall|i: int| 0 <= i < found.len() ==> is_number((#[trigger] found[i]).1)) ==> descending(
        found,
    )
}

/// Whether what was found is among the candidates, no more than was asked for, and best first.
pub open spec fn is_scoped(
    found: Seq<(ChunkId, u32)>,
    candidates: Seq<ChunkId>,
    top_k: nat,
) -> bool {
    &&& found.len() <= top_k
    &&& forall|i: int| 0 <= i < found.len() ==> candidates.contains((#[trigger] found[i]).0)
    &&& best_first(found)
}

/// Stores and searches vectors by chunk.
pub trait VectorStore: Send + Sync {
    /// Whether a search for a vector among candidates may find these chunks with these scores. A
    /// store that says nothing of its measure accepts all.
    open spec fn finds(
        &self,
        query: Seq<u32>,
        candidates: Seq<ChunkId>,
        top_k: usize,
        found: Seq<(ChunkId, u32)>,
    ) -> bool {
        true
    }

    /// Inserts or updates the vector of a chunk.
    fn upsert(&mut self, chunk_id: ChunkId, vector: &EmbeddingVector) -> Result<(), VectorError>;

    /// Removes the vector of a chunk.
    fn delete(&mut self, chunk_id: ChunkId) -> Result<(), VectorError>;

    /// The candidates that are most similar to a vector, with their scores, best first.
    fn search_within(
        &self,
        query: &EmbeddingVector,
        candidate_chunk_ids: &Vec<ChunkId>,
        top_k: usize,
    ) -> (r: Result<Vec<(ChunkId, u32)>, VectorError>)
        ensures
            match r {
                Ok(found) => {
                    &&& is_scoped(found@, candidate_chunk_ids@, top_k as nat)
                    &&& self.finds(query@, candidate_chunk_ids@, top_k, found@)
                },
                Err(_) => true,
            },
    ;
}

/// The chunks of some texts.
pub open spec fn chunks_of_texts(candidates: Seq<(ChunkId, String)>) -> Seq<ChunkId> {
    Seq::new(candidates.len(), |i: int| candidates[i].0)
}

/// Scores pairs of a query and a text.
pub trait Reranker: Send + Sync {
    /// Scores texts against a query: chunks with their scores, best first.
    fn rerank(&self, query: &str, candidates: &Vec<(ChunkId, String)>) -> (r: Result<
        Vec<(ChunkId, u32)>,
        RerankError,
    >)
        ensures
            match r {
                Ok(ranked) => is_scoped(ranked@, chunks_of_texts(candidates@), candidates@.len()),
                Err(_) => true,
            },
    ;
}

/// The chunks of documents, in ascending order.
pub open spec fn candidates_of(s: RegistryState, docs: Seq<DocId>) -> Seq<ChunkId> {
    chunk_ids(registry::by_id(registry::chunks_of_docs(s, docs)))
}

/// Whether a result answers a semantic query, where `docs` are the documents that its filter
/// selects and `ranked` is what the vector store found among their chunks.
pub open spec fn is_semantic_answer(
    m: Map<Seq<char>, Set<u32>>,
    s: RegistryState,
    request: SemanticQueryRequest,
    q: SemanticQueryResult,
    docs: Seq<DocId>,
    ranked: Seq<(ChunkId, u32)>,
) -> bool {
    &&& query::is_listing(docs, query::selected(m, request.filter))
    &&& q.bitmap_candidates == ingest::count_of(docs.len())
    &&& q.vector_searched == ingest::count_of(candidates_of(s, docs).len())
    &&& is_scoped(ranked, candidates_of(s, docs), request.top_k as nat)
    &&& shows(s, ranked, query::leaf_keys(request.filter), types::views(q.pointers@))
}

/// Whether scored pointers are those of ranked chunks.
pub open spec fn shows(
    s: RegistryState,
    ranked: Seq<(ChunkId, u32)>,
    keys: Seq<Seq<char>>,
    pointers: Seq<ScoredView>,
) -> bool {
    exists|owners: Seq<Option<DocId>>| #[trigger]
        are_owners(owners, s, ranked) && pointers == pointers_from(
            s,
            ranked,
            owners,
            keys,
            ScoreSource::CosineSimilarity,
            0,
        )
}

fn count(n: usize) -> (r: u32)
    ensures
        r == ingest::count_of(n as nat),
{
    (n as u64 % 0x1_0000_0000) as u32
}

impl BitmapQueryEngine {
    /// Answers a semantic query: the filter narrows the chunks, the vector store ranks them. No
    /// vector is computed where there is nothing to search.
    pub fn semantic_query(
        &self,
        request: &SemanticQueryRequest,
        embedder: &dyn Embedder,
        vectors: &dyn VectorStore,
    ) -> (r: Result<SemanticQueryResult, QueryError>)
        requires
            self.wf(),
        ensures
            match r {
                Ok(q) => exists|docs: Seq<DocId>, ranked: Seq<(ChunkId, u32)>| #[trigger]
                    is_semantic_answer(self.bitmaps(), self.records(), *request, q, docs, ranked)
                        && (candidates_of(self.records(), docs).len() > 0 ==> exists|
                        v: Seq<Seq<u32>>,
                    |
                        v.len() == 1 && #[trigger] embedder.embeds(seq![request.query_text@], v)
                            && vectors.finds(
                            v[0],
                            candidates_of(self.records(), docs),
                            request.top_k,
                            ranked,
                        )),
                Err(QueryError::Bitmap(_)) => !self.infallible(),
                Err(QueryError::Registry(_)) => !self.infallible(),
                Err(QueryError::Semantic(_)) => exists|docs: Seq<DocId>| #[trigger]
                    query::is_listing(docs, query::selected(self.bitmaps(), request.filter))
                        && candidates_of(self.records(), docs).len() > 0,
                Err(QueryError::UnknownFilter(_)) => false,
            },
    {
        let start = Instant::now();
        let found = self.semantic_candidates(request)?;
        let elapsed_bitmap_us = clock::micros_since(start);
        let start = Instant::now();
        let mut ranked: Vec<(ChunkId, u32)> = Vec::new();
        let ghost docs = found.docs@;
        let ghost mut embedded: Seq<Seq<u32>> = Seq::empty();
        if found.chunks.len() > 0 {
            let mut texts: Vec<String> = Vec::new();
            texts.push(request.query_text.clone());
            assert(texts.deep_view() =~= seq![request.query_text@]);
            match embedder.embed(&texts) {
                Ok(v) => {
                    match vectors.search_within(&v[0], &found.chunks, request.top_k) {
                        Ok(best) => {
                            proof {
                                embedded = v.deep_view();
                                assert(embedded[0] =~= v@[0]@);
                            }
                            ranked = best;
                        },
                        Err(e) => {
                            return Err(QueryError::Semantic(e.message()));
                        },
                    }
                },
                Err(e) => {
                    return Err(QueryError::Semantic(e.message()));
                },
            }
        }
        let pointers = self.semantic_pointers(request, &ranked, &ScoreSource::CosineSimilarity)?;
        let q = SemanticQueryResult {
            pointers,
            bitmap_candidates: count(found.docs.len()),
            vector_searched: count(found.chunks.len()),
            elapsed_bitmap_us,
            elapsed_vector_us: clock::micros_since(start),
            elapsed_rerank_us: 0,
        };
        let r: Result<SemanticQueryResult, QueryError> = Ok(q);
        assert(candidates_of(self.records(), docs).len() > 0 ==> embedded.len() == 1
            && embedder.embeds(seq![request.query_text@], embedded) && vectors.finds(
            embedded[0],
            candidates_of(self.records(), docs),
            request.top_k,
            ranked@,
        ));
        assert(shows(
            self.records(),
            ranked@,
            query::leaf_keys(request.filter),
            types::views((r->Ok_0).pointers@),
        ));
        assert(is_semantic_answer(
            self.bitmaps(),
            self.records(),
            *request,
            (r->Ok_0),
            docs,
            ranked@,
        ));
        r
    }
}

proof fn lemma_pointer_of_owner(
    s: RegistryState,
    ranked: Seq<(ChunkId, u32)>,
    owners: Seq<Option<DocId>>,
    keys: Seq<Seq<char>>,
    source: ScoreSource,
    i: int,
    k: int,
)
    requires
        0 <= i,
        owners.len() == ranked.len(),
        0 <= k < pointers_from(s, ranked, owners, keys, source, i).len(),
    ensures
        exists|j: int|
            i <= j < ranked.len() && #[trigger] owners[j] == Some(
                pointers_from(s, ranked, owners, keys, source, i)[k].pointer.doc_id,
            ) && ranked[j].0 == pointers_from(s, ranked, owners, keys, source, i)[k].chunk_id
                && pointers_from(s, ranked, owners, keys, source, i)[k].pointer
                == query::match_spec(
                s,
                pointers_from(s, ranked, owners, keys, source, i)[k].pointer.doc_id,
                keys,
            ),
    decreases ranked.len() - i,
{
    let rest = pointers_from(s, ranked, owners, keys, source, i + 1);
    let all = pointers_from(s, ranked, owners, keys, source, i);
    let shown = owners[i] is Some && s.docs.dom().contains(owners[i]->0);
    if shown && k == 0 {
        assert(owners[i] == Some(all[k].pointer.doc_id));
    } else {
        let at = if shown {
            k - 1
        } else {
            k
        };
        assert(all[k] == rest[at]);
        lemma_pointer_of_owner(s, ranked, owners, keys, source, i + 1, at);
    }
}

/// A semantic query stays within its filter: every pointer it returns is that of a document which
/// the filter selects, and the chunk belongs to that document.
pub proof fn law_pointers_are_selected(
    m: Map<Seq<char>, Set<u32>>,
    s: RegistryState,
    request: SemanticQueryRequest,
    q: SemanticQueryResult,
    docs: Seq<DocId>,
    ranked: Seq<(ChunkId, u32)>,
    k: int,
)
    requires
        registry::valid_state(s),
        is_semantic_answer(m, s, request, q, docs, ranked),
        0 <= k < q.pointers@.len(),
    ensures
        query::selected(m, request.filter).contains(q.pointers@[k].pointer.doc_id),
        q.pointers@[k].pointer@ == query::match_spec(
            s,
            q.pointers@[k].pointer.doc_id,
            query::leaf_keys(request.filter),
        ),
        registry::owns_chunk(s, q.pointers@[k].pointer.doc_id, q.pointers@[k].chunk_id),
        q.pointers@.len() <= request.top_k,
{
    let keys = query::leaf_keys(request.filter);
    let source = ScoreSource::CosineSimilarity;
    let views = types::views(q.pointers@);
    let owners = choose|owners: Seq<Option<DocId>>| #[trigger]
        are_owners(owners, s, ranked) && views == pointers_from(
            s,
            ranked,
            owners,
            keys,
            source,
            0,
        );
    lemma_pointers_len(s, ranked, owners, keys, source, 0);
    lemma_pointer_of_owner(s, ranked, owners, keys, source, 0, k);
    assert(views[k] == q.pointers@[k]@);
    let id = views[k].pointer.doc_id;
    let j = choose|j: int|
        0 <= j < ranked.len() && #[trigger] owners[j] == Some(id) && ranked[j].0
            == views[k].chunk_id && views[k].pointer == query::match_spec(s, id, keys);
    let c = ranked[j].0;
    assert(is_owner(s, c, owners[j]));
    law_candidates_are_scoped(s, docs, c);
    assert(candidates_of(s, docs).contains(ranked[j].0));
    let d = choose|d: int| 0 <= d < docs.len() && registry::owns_chunk(s, #[trigger] docs[d], c);
    lemma_one_owner(s, id, docs[d], c);
    assert(docs.contains(docs[d]));
    assert(docs.to_set().contains(docs[d]));
}

proof fn lemma_pointers_len(
    s: RegistryState,
    ranked: Seq<(ChunkId, u32)>,
    owners: Seq<Option<DocId>>,
    keys: Seq<Seq<char>>,
    source: ScoreSource,
    i: int,
)
    requires
        0 <= i <= ranked.len(),
    ensures
        pointers_from(s, ranked, owners, keys, source, i).len() <= ranked.len() - i,
    decreases ranked.len() - i,
{
    if i < ranked.len() {
        lemma_pointers_len(s, ranked, owners, keys, source, i + 1);
    }
}

proof fn lemma_one_owner(s: RegistryState, a: DocId, b: DocId, c: ChunkId)
    requires
        registry::valid_state(s),
        registry::owns_chunk(s, a, c),
        registry::owns_chunk(s, b, c),
    ensures
        a == b,
{
    let x = registry::chunks_at(s, a);
    let y = registry::chunks_at(s, b);
    let i = choose|i: int| 0 <= i < x.len() && (#[trigger] x[i]).chunk_id == c;
    let j = choose|j: int| 0 <= j < y.len() && (#[trigger] y[j]).chunk_id == c;
    assert(s.chunks.dom().contains(a) && s.chunks.dom().contains(b));
    if a != b {
        assert(!registry::runs_meet(s.chunks[a], s.chunks[b]));
        assert(x[i].chunk_id == y[j].chunk_id);
    }
}

proof fn lemma_chunks_of_docs(s: RegistryState, docs: Seq<DocId>, c: ChunkId)
    ensures
        (exists|k: int|
            0 <= k < registry::chunks_of_docs(s, docs).len() && (
            #[trigger] registry::chunks_of_docs(s, docs)[k]).chunk_id == c) <==> (exists|i: int|
            0 <= i < docs.len() && registry::owns_chunk(s, #[trigger] docs[i], c)),
    decreases docs.len(),
{
    if docs.len() > 0 {
        let less = docs.drop_last();
        lemma_chunks_of_docs(s, less, c);
        let before = registry::chunks_of_docs(s, less);
        let own = registry::chunks_at(s, docs.last());
        let all = registry::chunks_of_docs(s, docs);
        assert(all == before + own);
        if exists|k: int| 0 <= k < all.len() && (#[trigger] all[k]).chunk_id == c {
            let k = choose|k: int| 0 <= k < all.len() && (#[trigger] all[k]).chunk_id == c;
            if k < before.len() {
                assert(before[k] == all[k]);
                let i = choose|i: int|
                    0 <= i < less.len() && registry::owns_chunk(s, #[trigger] less[i], c);
                assert(docs[i] == less[i]);
            } else {
                assert(own[k - before.len()] == all[k]);
                assert(registry::owns_chunk(s, docs[docs.len() - 1], c));
            }
        }
        if exists|i: int| 0 <= i < docs.len() && registry::owns_chunk(s, #[trigger] docs[i], c) {
            let i = choose|i: int|
                0 <= i < docs.len() && registry::owns_chunk(s, #[trigger] docs[i], c);
            if i < less.len() {
                assert(less[i] == docs[i]);
                let k = choose|k: int|
                    0 <= k < before.len() && (#[trigger] before[k]).chunk_id == c;
                assert(all[k] == before[k]);
            } else {
                let k = choose|k: int| 0 <= k < own.len() && (#[trigger] own[k]).chunk_id == c;
                assert(all[before.len() + k] == own[k]);
            }
        }
    }
}

/// A search is scoped by its filter: the candidates ascend, and they are exactly the chunks of
/// the documents that the filter selects.
pub proof fn law_candidates_are_scoped(s: RegistryState, docs: Seq<DocId>, c: ChunkId)
    ensures
        candidates_of(s, docs).contains(c) <==> exists|i: int|
            0 <= i < docs.len() && registry::owns_chunk(s, #[trigger] docs[i], c),
        forall|i: int, j: int|
            0 <= i < j < candidates_of(s, docs).len() ==> #[trigger] candidates_of(s, docs)[i]
                <= #[trigger] candidates_of(s, docs)[j],
{
    broadcast use vstd::seq_lib::group_to_multiset_ensures;

    let all = registry::chunks_of_docs(s, docs);
    let r = registry::by_id(all);
    let found = chunk_ids(r);
    registry::law_by_id(all);
    lemma_chunks_of_docs(s, docs, c);
    if found.contains(c) {
        let k = found.index_of(c);
        assert(r[k].chunk_id == c);
        assert(r.contains(r[k]));
        assert(r.to_multiset().count(r[k]) > 0);
        assert(all.contains(r[k]));
        let j = all.index_of(r[k]);
        assert(all[j].chunk_id == c);
    }
    if exists|k: int| 0 <= k < all.len() && (#[trigger] all[k]).chunk_id == c {
        let k = choose|k: int| 0 <= k < all.len() && (#[trigger] all[k]).chunk_id == c;
        assert(all.contains(all[k]));
        assert(all.to_multiset().count(all[k]) > 0);
        assert(r.contains(all[k]));
        let j = r.index_of(all[k]);
        assert(found[j] == c);
    }
    assert forall|i: int, j: int| 0 <= i < j < found.len() implies #[trigger] found[i]
        <= #[trigger] found[j] by {
        assert(r[i].chunk_id <= r[j].chunk_id);
    }
}

// ── Vectors ─────────────────────────────────────────────────────────────────

/// The vectors of chunks, in memory.
#[derive(Debug)]
pub struct InMemoryVectorStore {
    vectors: IdMap<EmbeddingVector>,
}

/// Vectors taken as sequences of bits.
pub open spec fn vector_map(m: Map<ChunkId, EmbeddingVector>) -> Map<ChunkId, Seq<u32>> {
    m.map_values(|v: EmbeddingVector| v@)
}

impl InMemoryVectorStore {
    /// The vector of each chunk.
    pub closed spec fn vectors(&self) -> Map<ChunkId, Seq<u32>> {
        vector_map(self.vectors@)
    }

    /// What holds of the store between operations.
    pub closed spec fn wf(&self) -> bool {
        self.vectors.wf()
    }

    /// A store without vectors.
    pub fn new() -> (r: Self)
        ensures
            r.wf(),
            r.vectors() == Map::<ChunkId, Seq<u32>>::empty(),
    {
        let r = InMemoryVectorStore { vectors: IdMap::new() };
        assert(r.vectors() =~= Map::<ChunkId, Seq<u32>>::empty());
        r
    }

    /// Sets the vector of a chunk.
    pub fn upsert(&mut self, chunk_id: ChunkId, vector: EmbeddingVector)
        requires
            old(self).wf(),
        ensures
            final(self).wf(),
            final(self).vectors() == old(self).vectors().insert(chunk_id, vector@),
    {
        self.vectors.insert(chunk_id, vector);
        assert(self.vectors() =~= old(self).vectors().insert(chunk_id, vector@));
    }

    /// Removes the vector of a chunk. Nothing happens where it has none.
    pub fn delete(&mut self, chunk_id: ChunkId)
        requires
            old(self).wf(),
        ensures
            final(self).wf(),
            final(self).vectors() == old(self).vectors().remove(chunk_id),
    {
        self.vectors.remove(chunk_id);
        assert(self.vectors() =~= old(self).vectors().remove(chunk_id));
    }

    /// The vector of a chunk.
    pub fn vector_of(&self, chunk_id: ChunkId) -> (r: Option<&EmbeddingVector>)
        requires
            self.wf(),
        ensures
            match r {
                Some(v) => self.vectors().dom().contains(chunk_id) && v@ == self.vectors()[chunk_id],
                None => !self.vectors().dom().contains(chunk_id),
            },
    {
        self.vectors.get(chunk_id)
    }

    /// The number of vectors.
    pub fn size(&self) -> (r: usize)
        requires
            self.wf(),
        ensures
            self.vectors().dom().finite(),
            r == self.vectors().dom().len(),
    {
        proof {
            self.vectors.lemma_len();
            assert(self.vectors().dom() =~= self.vectors@.dom());
        }
        self.vectors.len()
    }
}

impl Default for InMemoryVectorStore {
    fn default() -> (r: Self)
        ensures
            r.wf(),
            r.vectors() == Map::<ChunkId, Seq<u32>>::empty(),
    {
        InMemoryVectorStore::new()
    }
}

/// The candidates, from `i` on, that have a vector.
pub open spec fn searched_from(
    m: Map<ChunkId, Seq<u32>>,
    candidates: Seq<ChunkId>,
    i: int,
) -> Seq<ChunkId>
    decreases candidates.len() - i,
{
    if i < 0 || i >= candidates.len() {
        Seq::empty()
    } else if m.dom().contains(candidates[i]) {
        seq![candidates[i]] + searched_from(m, candidates, i + 1)
    } else {
        searched_from(m, candidates, i + 1)
    }
}

impl InMemoryVectorStore {
    /// The candidates that have a vector, in order: those that a search scores.
    pub fn searched(&self, candidates: &Vec<ChunkId>) -> (r: Vec<ChunkId>)
        requires
            self.wf(),
        ensures
            r@ == searched_from(self.vectors(), candidates@, 0),
    {
        let ghost m = self.vectors();
        let mut out: Vec<ChunkId> = Vec::new();
        let mut i: usize = 0;
        assert(out@ + searched_from(m, candidates@, 0) =~= searched_from(m, candidates@, 0));
        while i < candidates.len()
            invariant
                self.wf(),
                m == self.vectors(),
                i <= candidates@.len(),
                out@ + searched_from(m, candidates@, i as int) == searched_from(
                    m,
                    candidates@,
                    0,
                ),
            decreases candidates@.len() - i,
        {
            let ghost rest = searched_from(m, candidates@, i + 1);
            let ghost before = out@;
            if self.vectors.contains_id(candidates[i]) {
                out.push(candidates[i]);
                assert(out@ + rest =~= before + (seq![candidates@[i as int]] + rest));
            }
            i += 1;
        }
        assert(out@ + Seq::<ChunkId>::empty() =~= out@);
        out
    }
}

// ── Ranking ─────────────────────────────────────────────────────────────────

/// The place of a score among all scores, from its bits: the magnitude, negative where the
/// sign bit is set. Both zeros have the same place.
pub open spec fn score_place(bits: u32) -> int {
    if bits < 0x8000_0000 {
        bits as int
    } else {
        0x8000_0000 - bits
    }
}

/// Whether bits stand for a number.
pub open spec fn is_number(bits: u32) -> bool {
    -0x7f80_0000 <= score_place(bits) <= 0x7f80_0000
}

/// The best first; among equals, the one that came first.
pub open spec fn ranked(s: Seq<(ChunkId, u32)>) -> Seq<(ChunkId, u32)>
    decreases s.len(),
{
    if s.len() == 0 {
        Seq::empty()
    } else {
        let rest = ranked(s.drop_last());
        let at = rank_of(rest, s.last().1, 0);
        rest.insert(at, s.last())
    }
}

/// The first position, from `i` on, of a lower score.
pub open spec fn rank_of(s: Seq<(ChunkId, u32)>, score: u32, i: int) -> int
    decreases s.len() - i,
{
    if i < 0 || i >= s.len() || score_place(s[i].1) < score_place(score) {
        i
    } else {
        rank_of(s, score, i + 1)
    }
}

/// Whether scores do not rise.
pub open spec fn descending(s: Seq<(ChunkId, u32)>) -> bool {
    forall|i: int, j: int|
        0 <= i < j < s.len() ==> score_place((#[trigger] s[i]).1) >= score_place(
            (#[trigger] s[j]).1,
        )
}

/// The entries with a score of one place, in order.
pub open spec fn at_place(s: Seq<(ChunkId, u32)>, place: int) -> Seq<(ChunkId, u32)> {
    s.filter(|e: (ChunkId, u32)| score_place(e.1) == place)
}

proof fn lemma_rank_of(s: Seq<(ChunkId, u32)>, score: u32, i: int)
    requires
        0 <= i <= s.len(),
        descending(s),
        forall|j: int| 0 <= j < i ==> score_place((#[trigger] s[j]).1) >= score_place(score),
    ensures
        i <= rank_of(s, score, i) <= s.len(),
        forall|j: int|
            0 <= j < rank_of(s, score, i) ==> score_place((#[trigger] s[j]).1) >= score_place(
                score,
            ),
        forall|j: int|
            rank_of(s, score, i) <= j < s.len() ==> score_place((#[trigger] s[j]).1)
                < score_place(score),
    decreases s.len() - i,
{
    if i < s.len() && score_place(s[i].1) >= score_place(score) {
        lemma_rank_of(s, score, i + 1);
    }
}

proof fn lemma_no_match<A>(s: Seq<A>, p: spec_fn(A) -> bool)
    requires
        forall|i: int| 0 <= i < s.len() ==> !p(#[trigger] s[i]),
    ensures
        s.filter(p) == Seq::<A>::empty(),
    decreases s.len(),
{
    reveal(Seq::filter);
    if s.len() > 0 {
        assert forall|i: int| 0 <= i < s.drop_last().len() implies !p(
            #[trigger] s.drop_last()[i],
        ) by {
            assert(s.drop_last()[i] == s[i]);
        }
        assert(!p(s[s.len() - 1]));
        lemma_no_match(s.drop_last(), p);
    }
}

proof fn lemma_insert_descends(s: Seq<(ChunkId, u32)>, x: (ChunkId, u32))
    requires
        descending(s),
    ensures
        0 <= rank_of(s, x.1, 0) <= s.len(),
        descending(s.insert(rank_of(s, x.1, 0), x)),
{
    let at = rank_of(s, x.1, 0);
    lemma_rank_of(s, x.1, 0);
    let r = s.insert(at, x);
    assert forall|i: int, j: int| 0 <= i < j < r.len() implies score_place((#[trigger] r[i]).1)
        >= score_place((#[trigger] r[j]).1) by {
        let a = if i < at { s[i] } else if i == at { x } else { s[i - 1] };
        let b = if j < at { s[j] } else if j == at { x } else { s[j - 1] };
        assert(r[i] == a && r[j] == b);
    }
}

proof fn lemma_insert_at_place(s: Seq<(ChunkId, u32)>, x: (ChunkId, u32), place: int)
    requires
        descending(s),
    ensures
        at_place(s.insert(rank_of(s, x.1, 0), x), place) == at_place(s, place) + at_place(
            seq![x],
            place,
        ),
{
    let at = rank_of(s, x.1, 0);
    lemma_rank_of(s, x.1, 0);
    let r = s.insert(at, x);
    let left = s.take(at);
    let right = s.skip(at);
    let p = |e: (ChunkId, u32)| score_place(e.1) == place;
    assert(r =~= left + (seq![x] + right));
    assert(s =~= left + right);
    Seq::filter_distributes_over_add(left, seq![x] + right, p);
    Seq::filter_distributes_over_add(seq![x], right, p);
    Seq::filter_distributes_over_add(left, right, p);
    if p(x) {
        assert forall|i: int| 0 <= i < right.len() implies !p(#[trigger] right[i]) by {
            assert(right[i] == s[at + i]);
        }
        lemma_no_match(right, p);
    } else {
        lemma_no_match(seq![x], p);
    }
    assert(r.filter(p) =~= s.filter(p) + seq![x].filter(p));
}

/// The best scores come first, nothing is lost, added or counted twice, and entries of equal
/// score stay in the order in which they came.
pub proof fn law_ranking_is_stable(s: Seq<(ChunkId, u32)>)
    ensures
        descending(ranked(s)),
        ranked(s).len() == s.len(),
        ranked(s).to_multiset() == s.to_multiset(),
        forall|place: int| #[trigger] at_place(ranked(s), place) == at_place(s, place),
    decreases s.len(),
{
    if s.len() > 0 {
        let less = s.drop_last();
        let x = s.last();
        law_ranking_is_stable(less);
        let rest = ranked(less);
        let at = rank_of(rest, x.1, 0);
        lemma_insert_descends(rest, x);
        assert(ranked(s) == rest.insert(at, x));
        assert(s =~= less.push(x));
        assert(ranked(s).to_multiset() == s.to_multiset()) by {
            broadcast use vstd::seq_lib::group_to_multiset_ensures;

        }
        assert forall|place: int| #[trigger] at_place(ranked(s), place) == at_place(s, place) by {
            let p = |e: (ChunkId, u32)| score_place(e.1) == place;
            lemma_insert_at_place(rest, x, place);
            assert(at_place(rest, place) == at_place(less, place));
            Seq::filter_distributes_over_add(less, seq![x], p);
            assert(s =~= less + seq![x]);
        }
    } else {
        assert(ranked(s) =~= s);
    }
}

/// Whether the first of two scores is lower.
fn is_lower(a: u32, b: u32) -> (r: bool)
    ensures
        r == (score_place(a) < score_place(b)),
{
    if a < 0x8000_0000 {
        b < 0x8000_0000 && a < b
    } else if b < 0x8000_0000 {
        a > 0x8000_0000 || b > 0
    } else {
        a > b
    }
}

/// The `top_k` best of some scored chunks, best first; among equals, those that came first.
pub fn best(scored: &Vec<(ChunkId, u32)>, top_k: usize) -> (r: Vec<(ChunkId, u32)>)
    requires
        forall|i: int| 0 <= i < scored@.len() ==> is_number((#[trigger] scored@[i]).1),
    ensures
        r@ == ranked(scored@).take(
            if top_k < scored@.len() {
                top_k as int
            } else {
                scored@.len() as int
            },
        ),
{
    let mut out: Vec<(ChunkId, u32)> = Vec::new();
    let mut i: usize = 0;
    assert(out@ =~= ranked(scored@.take(0)));
    while i < scored.len()
        invariant
            i <= scored@.len(),
            out@ == ranked(scored@.take(i as int)),
            out@.len() == i,
        decreases scored@.len() - i,
    {
        let x: (ChunkId, u32) = scored[i];
        let mut at: usize = 0;
        while at < out.len() && !is_lower(out[at].1, x.1)
            invariant
                at <= out@.len(),
                rank_of(out@, x.1, at as int) == rank_of(out@, x.1, 0),
            decreases out@.len() - at,
        {
            at = at + 1;
        }
        out.insert(at, x);
        proof {
            assert(scored@.take(i + 1).drop_last() =~= scored@.take(i as int));
            assert(scored@.take(i + 1).last() == x);
        }
        i = i + 1;
    }
    assert(scored@.take(i as int) =~= scored@);
    if top_k < out.len() {
        out.truncate(top_k);
    }
    assert(out@ =~= ranked(scored@).take(
        if top_k < scored@.len() {
            top_k as int
        } else {
            scored@.len() as int
        },
    ));
    out
}

// ── Persistent vectors ──────────────────────────────────────────────────────

/// What is to be done to a vector index on disk.
#[derive(Clone, Copy, Debug, PartialEq, Eq, Structural)]
pub enum IndexAction {
    /// Remove the vector of the chunk.
    Remove,
    /// Make room for so many vectors.
    Reserve(usize),
    /// Add the vector of the chunk.
    Insert,
}

/// A vector index on disk: where it is, and how many vectors of which length it holds.
#[derive(Debug)]
pub struct UsearchVectorStore {
    path: String,
    dimensions: usize,
    size: usize,
}

impl UsearchVectorStore {
    /// Where the index is.
    pub closed spec fn path_spec(&self) -> Seq<char> {
        self.path@
    }

    /// The length of the vectors.
    pub closed spec fn dimensions_spec(&self) -> usize {
        self.dimensions
    }

    /// The number of vectors.
    pub closed spec fn size_spec(&self) -> usize {
        self.size
    }

    /// Whether the index is what another becomes when the vector of a chunk is set.
    pub open spec fn is_after_upsert(&self, before: UsearchVectorStore, known: bool) -> bool {
        &&& self.path_spec() == before.path_spec()
        &&& self.dimensions_spec() == before.dimensions_spec()
        &&& self.size_spec() == if known {
            before.size_spec() as int
        } else {
            before.size_spec() + 1
        }
    }

    /// Whether the index is what another becomes when the vector of a chunk is removed.
    pub open spec fn is_after_delete(&self, before: UsearchVectorStore, known: bool) -> bool {
        &&& self.path_spec() == before.path_spec()
        &&& self.dimensions_spec() == before.dimensions_spec()
        &&& self.size_spec() == if known {
            before.size_spec() - 1
        } else {
            before.size_spec() as int
        }
    }

    /// The room that a new index is given.
    pub fn initial_capacity() -> (r: usize)
        ensures
            r == 10_000,
    {
        10_000
    }

    /// The index at a path, with the number of vectors that were stored there.
    pub fn new(path: &str, dimensions: usize, stored: usize) -> (r: Self)
        ensures
            r.path_spec() == path@,
            r.dimensions_spec() == dimensions,
            r.size_spec() == stored,
    {
        UsearchVectorStore { path: path.to_owned(), dimensions, size: stored }
    }

    /// Where the index is.
    pub fn path(&self) -> (r: &str)
        ensures
            r@ == self.path_spec(),
    {
        self.path.as_str()
    }

    /// Number of vectors in the index.
    pub fn size(&self) -> (r: usize)
        ensures
            r == self.size_spec(),
    {
        self.size
    }

    /// The dimensionality of stored vectors.
    pub fn dimensions(&self) -> (r: usize)
        ensures
            r == self.dimensions_spec(),
    {
        self.dimensions
    }

    /// How the vector of a chunk is set: an earlier one is removed, the room is doubled where
    /// it is used up, and the vector is added. `known` tells whether the chunk has a vector,
    /// `capacity` for how many there is room.
    pub fn upsert(&mut self, known: bool, capacity: usize) -> (r: Vec<IndexAction>)
        requires
            known ==> old(self).size_spec() > 0,
            old(self).size_spec() < usize::MAX,
            capacity < usize::MAX / 2,
        ensures
            final(self).is_after_upsert(*old(self), known),
            r@ == (if known {
                seq![IndexAction::Remove]
            } else {
                Seq::empty()
            }) + (if final(self).size_spec() >= capacity {
                seq![IndexAction::Reserve((capacity * 2 + 1) as usize)]
            } else {
                Seq::empty()
            }) + seq![IndexAction::Insert],
    {
        let mut out: Vec<IndexAction> = Vec::new();
        if known {
            out.push(IndexAction::Remove);
            self.size = self.size - 1;
        }
        if self.size + 1 >= capacity {
            out.push(IndexAction::Reserve(capacity * 2 + 1));
        }
        out.push(IndexAction::Insert);
        self.size = self.size + 1;
        assert(out@ =~= (if known {
            seq![IndexAction::Remove]
        } else {
            Seq::empty()
        }) + (if self.size >= capacity {
            seq![IndexAction::Reserve((capacity * 2 + 1) as usize)]
        } else {
            Seq::empty()
        }) + seq![IndexAction::Insert]);
        out
    }

    /// How the vector of a chunk is removed: nothing is done where it has none.
    pub fn delete(&mut self, known: bool) -> (r: Option<IndexAction>)
        requires
            known ==> old(self).size_spec() > 0,
        ensures
            final(self).is_after_delete(*old(self), known),
            r == if known {
                Some(IndexAction::Remove)
            } else {
                None
            },
    {
        if known {
            self.size = self.size - 1;
            Some(IndexAction::Remove)
        } else {
            None
        }
    }

    /// Whether a search among candidates can find anything: there are candidates, and there
    /// are vectors.
    pub fn is_searchable(&self, candidates: &Vec<ChunkId>) -> (r: bool)
        ensures
            r == (candidates@.len() > 0 && self.size_spec() > 0),
    {
        candidates.len() > 0 && self.size > 0
    }
}

/// A change of an index.
pub enum VectorStep {
    /// The vector of a chunk is set.
    Upsert(ChunkId),
    /// The vector of a chunk is removed.
    Delete(ChunkId),
}

/// The chunks that have a vector after a run of changes of an index without vectors.
pub open spec fn held_after(steps: Seq<VectorStep>) -> Set<ChunkId>
    decreases steps.len(),
{
    if steps.len() == 0 {
        Set::empty()
    } else {
        match steps.last() {
            VectorStep::Upsert(c) => held_after(steps.drop_last()).insert(c),
            VectorStep::Delete(c) => held_after(steps.drop_last()).remove(c),
        }
    }
}

/// Whether a chunk was given a vector that was not removed since.
pub open spec fn is_held(steps: Seq<VectorStep>, c: ChunkId) -> bool {
    exists|i: int|
        0 <= i < steps.len() && #[trigger] steps[i] == VectorStep::Upsert(c) && forall|j: int|
            i < j < steps.len() ==> #[trigger] steps[j] != VectorStep::Delete(c)
}

/// Whether indexes follow one another, each by a change of the one before.
pub open spec fn is_run(stores: Seq<UsearchVectorStore>, steps: Seq<VectorStep>) -> bool {
    &&& stores.len() == steps.len() + 1
    &&& forall|i: int|
        0 <= i < steps.len() ==> match #[trigger] steps[i] {
            VectorStep::Upsert(c) => stores[i + 1].is_after_upsert(
                stores[i],
                held_after(steps.take(i)).contains(c),
            ),
            VectorStep::Delete(c) => stores[i + 1].is_after_delete(
                stores[i],
                held_after(steps.take(i)).contains(c),
            ),
        }
}

proof fn lemma_held(steps: Seq<VectorStep>, c: ChunkId)
    ensures
        held_after(steps).contains(c) <==> is_held(steps, c),
    decreases steps.len(),
{
    if steps.len() > 0 {
        let n = steps.len() - 1;
        let less = steps.drop_last();
        lemma_held(less, c);
        if steps[n] == VectorStep::Upsert(c) {
            assert(is_held(steps, c));
        } else if steps[n] == VectorStep::Delete(c) {
            assert(!is_held(steps, c));
        } else {
            assert(held_after(steps).contains(c) <==> held_after(less).contains(c));
            if is_held(less, c) {
                let i = choose|i: int|
                    0 <= i < less.len() && #[trigger] less[i] == VectorStep::Upsert(c) && forall|
                        j: int,
                    |
                        i < j < less.len() ==> #[trigger] less[j] != VectorStep::Delete(c);
                assert forall|j: int| i < j < steps.len() implies #[trigger] steps[j]
                    != VectorStep::Delete(c) by {
                    if j < n {
                        assert(less[j] == steps[j]);
                    }
                }
                assert(steps[i] == VectorStep::Upsert(c));
            }
            if is_held(steps, c) {
                let i = choose|i: int|
                    0 <= i < steps.len() && #[trigger] steps[i] == VectorStep::Upsert(c) && forall|
                        j: int,
                    |
                        i < j < steps.len() ==> #[trigger] steps[j] != VectorStep::Delete(c);
                assert forall|j: int| i < j < less.len() implies #[trigger] less[j]
                    != VectorStep::Delete(c) by {
                    assert(less[j] == steps[j]);
                }
                assert(less[i] == VectorStep::Upsert(c));
            }
        }
    }
}

proof fn lemma_shorter_run(stores: Seq<UsearchVectorStore>, steps: Seq<VectorStep>)
    requires
        is_run(stores, steps),
        steps.len() > 0,
    ensures
        is_run(stores.drop_last(), steps.drop_last()),
{
    let less = steps.drop_last();
    let fewer = stores.drop_last();
    assert forall|i: int| 0 <= i < less.len() implies match #[trigger] less[i] {
        VectorStep::Upsert(c) => fewer[i + 1].is_after_upsert(
            fewer[i],
            held_after(less.take(i)).contains(c),
        ),
        VectorStep::Delete(c) => fewer[i + 1].is_after_delete(
            fewer[i],
            held_after(less.take(i)).contains(c),
        ),
    } by {
        assert(steps[i] == less[i]);
        assert(steps.take(i) =~= less.take(i));
        assert(fewer[i] == stores[i] && fewer[i + 1] == stores[i + 1]);
    }
}

proof fn lemma_size_counts(stores: Seq<UsearchVectorStore>, steps: Seq<VectorStep>)
    requires
        is_run(stores, steps),
        stores[0].size_spec() == 0,
    ensures
        held_after(steps).finite(),
        stores.last().size_spec() == held_after(steps).len(),
        stores.last().dimensions_spec() == stores[0].dimensions_spec(),
    decreases steps.len(),
{
    if steps.len() > 0 {
        let n = steps.len() - 1;
        lemma_shorter_run(stores, steps);
        lemma_size_counts(stores.drop_last(), steps.drop_last());
        assert(steps.take(n) =~= steps.drop_last());
        assert(steps[n] == steps.last());
        assert(stores[n + 1] == stores.last());
        assert(stores[n] == stores.drop_last().last());
    }
}

/// Over any run of changes the size of an index is the number of distinct chunks that were given
/// a vector which was not removed since, and the length of the vectors stays.
pub proof fn law_size_counts_chunks(stores: Seq<UsearchVectorStore>, steps: Seq<VectorStep>)
    requires
        is_run(stores, steps),
        stores[0].size_spec() == 0,
    ensures
        stores.last().size_spec() == held_after(steps).len(),
        held_after(steps).finite(),
        stores.last().dimensions_spec() == stores[0].dimensions_spec(),
        forall|c: ChunkId| #[trigger] held_after(steps).contains(c) <==> is_held(steps, c),
{
    lemma_size_counts(stores, steps);
    assert forall|c: ChunkId| #[trigger] held_after(steps).contains(c) <==> is_held(steps, c) by {
        lemma_held(steps, c);
    }
}

// ── Models ──────────────────────────────────────────────────────────────────

/// Embedding models.
#[derive(Debug, PartialEq, Eq)]
pub enum EmbeddingModel {
    BGESmallENV15,
    AllMiniLML6V2,
    BGEBaseENV15,
    /// Any other model: its name, and the number of dimensions of its vectors.
    Other { name: String, dimension: usize },
}

/// The number of dimensions of a model.
pub open spec fn model_dimension(m: EmbeddingModel) -> usize {
    match m {
        EmbeddingModel::BGESmallENV15 => 384,
        EmbeddingModel::AllMiniLML6V2 => 384,
        EmbeddingModel::BGEBaseENV15 => 768,
        EmbeddingModel::Other { name, dimension } => dimension,
    }
}

/// The embedder that is to be loaded: its model, and the number of dimensions it gives.
#[derive(Debug, PartialEq, Eq)]
pub struct FastEmbedEmbedder {
    pub model: EmbeddingModel,
    pub dimension: usize,
}

impl FastEmbedEmbedder {
    /// The embedder with the default model.
    pub fn new() -> (r: Result<Self, EmbedError>)
        ensures
            r matches Ok(e) && e == (FastEmbedEmbedder {
                model: EmbeddingModel::BGESmallENV15,
                dimension: 384,
            }),
    {
        FastEmbedEmbedder::with_model(EmbeddingModel::BGESmallENV15)
    }

    /// The embedder with a model.
    pub fn with_model(model: EmbeddingModel) -> (r: Result<Self, EmbedError>)
        ensures
            r matches Ok(e) && e == (FastEmbedEmbedder { model, dimension: model_dimension(model) }),
    {
        let dimension: usize = match &model {
            EmbeddingModel::BGESmallENV15 => 384,
            EmbeddingModel::AllMiniLML6V2 => 384,
            EmbeddingModel::BGEBaseENV15 => 768,
            EmbeddingModel::Other { name: _, dimension } => *dimension,
        };
        Ok(FastEmbedEmbedder { model, dimension })
    }

    /// The vectors that the model gave for some texts. They are refused where there is not one for
    /// each text, or where one is not as long as the dimension says.
    pub fn embedded(&self, texts: &Vec<String>, vectors: Vec<EmbeddingVector>) -> (r: Result<
        Vec<EmbeddingVector>,
        EmbedError,
    >)
        ensures
            match r {
                Ok(v) => v == vectors && are_vectors(v@, texts@.len(), self.dimension),
                Err(EmbedError::Model(m)) => !are_vectors(
                    vectors@,
                    texts@.len(),
                    self.dimension,
                ) && m@ == "the vectors are not those of the model"@,
                Err(_) => false,
            },
    {
        let mut fits = vectors.len() == texts.len();
        let mut i: usize = 0;
        while fits && i < vectors.len()
            invariant
                i <= vectors@.len(),
                fits ==> vectors@.len() == texts@.len() && forall|j: int|
                    0 <= j < i ==> (#[trigger] vectors@[j])@.len() == self.dimension,
                !fits ==> !are_vectors(vectors@, texts@.len(), self.dimension),
            decreases vectors@.len() - i,
        {
            if vectors[i].len() != self.dimension {
                fits = false;
            }
            i += 1;
        }
        if fits {
            Ok(vectors)
        } else {
            Err(EmbedError::Model("the vectors are not those of the model".to_owned()))
        }
    }
}

/// Models of rerankers.
#[derive(Clone, Copy, Debug, PartialEq, Eq, Structural)]
pub enum RerankerModel {
    BGERerankerBase,
    BGERerankerV2M3,
    JINARerankerV1TurboEn,
    JINARerankerV2BaseMultiligual,
}

/// The name of a reranker model.
pub open spec fn reranker_name(m: RerankerModel) -> Seq<char> {
    match m {
        RerankerModel::BGERerankerBase => "BGERerankerBase"@,
        RerankerModel::BGERerankerV2M3 => "BGERerankerV2M3"@,
        RerankerModel::JINARerankerV1TurboEn => "JINARerankerV1TurboEn"@,
        RerankerModel::JINARerankerV2BaseMultiligual => "JINARerankerV2BaseMultiligual"@,
    }
}

/// The reranker that is to be loaded.
#[derive(Debug)]
pub struct FastEmbedReranker {
    model_name: String,
}

impl FastEmbedReranker {
    /// The name of the model.
    pub closed spec fn name_spec(&self) -> Seq<char> {
        self.model_name@
    }

    /// The reranker with the default model.
    pub fn new() -> (r: Result<Self, RerankError>)
        ensures
            r matches Ok(e) && e.name_spec() == "BGERerankerBase"@,
    {
        FastEmbedReranker::with_model(RerankerModel::BGERerankerBase)
    }

    /// The reranker with a model.
    pub fn with_model(model: RerankerModel) -> (r: Result<Self, RerankError>)
        ensures
            r matches Ok(e) && e.name_spec() == reranker_name(model),
    {
        let model_name = match model {
            RerankerModel::BGERerankerBase => "BGERerankerBase".to_owned(),
            RerankerModel::BGERerankerV2M3 => "BGERerankerV2M3".to_owned(),
            RerankerModel::JINARerankerV1TurboEn => "JINARerankerV1TurboEn".to_owned(),
            RerankerModel::JINARerankerV2BaseMultiligual => "JINARerankerV2BaseMultiligual".to_owned(),
        };
        Ok(FastEmbedReranker { model_name })
    }

    /// The name of the model.
    pub fn model_name(&self) -> (r: &str)
        ensures
            r@ == self.name_spec(),
    {
        self.model_name.as_str()
    }
}

} // verus!
