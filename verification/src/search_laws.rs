//! What a search returns: which documents, and where their chunks are.

use vstd::prelude::*;

use crate::bitmap;
use crate::ingest;
use crate::ingest::{IngestResult, PipelineView};
use crate::query;
use crate::query::{Filter, MatchView, QueryResult};
use crate::registry;
use crate::registry::{NewChunk, NewDoc, RegistryState};
use crate::types;
use crate::types::{
    ChunkKind, ChunkView, DocId, DocType, ParseView, SourceTypeView, Timestamp, Visibility,
};

verus! {

// ── Filters ─────────────────────────────────────────────────────────────────

/// Whether a document is deleted: it stands under the key of the tombstones.
pub open spec fn is_deleted(m: Map<Seq<char>, Set<u32>>, id: DocId) -> bool {
    stands_under(m, "__tombstone__"@, id)
}

/// Whether a document stands under a key.
pub open spec fn stands_under(m: Map<Seq<char>, Set<u32>>, k: Seq<char>, id: DocId) -> bool {
    m.dom().contains(k) && m[k].contains(id)
}

/// Whether a document stands under some key but that of the tombstones.
pub open spec fn is_indexed(m: Map<Seq<char>, Set<u32>>, id: DocId) -> bool {
    exists|k: Seq<char>| k != "__tombstone__"@ && #[trigger] stands_under(m, k, id)
}

/// Which documents a key selects, and which its negation: those that stand under it, and those that
/// stand under others alone. Deleted ones are in neither.
pub proof fn law_keys_select(m: Map<Seq<char>, Set<u32>>, key: String, id: DocId)
    ensures
        query::selected(m, Filter::Key(key)).contains(id) <==> stands_under(m, key@, id)
            && !is_deleted(m, id),
{
}

/// A negation selects what is indexed, not deleted and not selected.
pub proof fn law_not_selects(m: Map<Seq<char>, Set<u32>>, f: Box<Filter>, id: DocId)
    ensures
        query::selected(m, Filter::Not(f)).contains(id) <==> is_indexed(m, id) && !is_deleted(m, id)
            && !query::selected(m, *f).contains(id),
{
    if is_indexed(m, id) {
        let k = choose|k: Seq<char>| k != "__tombstone__"@ && #[trigger] stands_under(m, k, id);
        assert(bitmap::is_listed(k, None));
    }
    if query::universe(m).contains(id) {
        let k = choose|k: Seq<char>|
            m.dom().contains(k) && #[trigger] bitmap::is_listed(k, None) && m[k].contains(id);
        assert(stands_under(m, k, id));
    }
}

/// A conjunction selects what each of its parts selects, and nothing where it has none. A
/// disjunction selects what one of its parts selects.
pub proof fn law_compounds_select(m: Map<Seq<char>, Set<u32>>, v: Vec<Filter>, id: DocId)
    ensures
        query::selected(m, Filter::And(v)).contains(id) <==> v@.len() > 0 && forall|i: int|
            0 <= i < v@.len() ==> query::selected(m, #[trigger] v@[i]).contains(id),
        query::selected(m, Filter::Or(v)).contains(id) <==> exists|i: int|
            0 <= i < v@.len() && query::selected(m, #[trigger] v@[i]).contains(id),
{
    let e = query::selected_each(m, v);
    assert forall|i: int| 0 <= i < v@.len() implies #[trigger] e[i] == query::selected(m, v@[i]) by {}
    if query::selected(m, Filter::And(v)).contains(id) {
        assert forall|i: int| 0 <= i < v@.len() implies query::selected(
            m,
            #[trigger] v@[i],
        ).contains(id) by {
            assert(e[i].contains(id));
        }
    }
    if query::selected(m, Filter::Or(v)).contains(id) {
        let i = choose|i: int| 0 <= i < e.len() && (#[trigger] e[i]).contains(id);
        assert(query::selected(m, v@[i]).contains(id));
    }
    if exists|i: int| 0 <= i < v@.len() && query::selected(m, #[trigger] v@[i]).contains(id) {
        let i = choose|i: int|
            0 <= i < v@.len() && query::selected(m, #[trigger] v@[i]).contains(id);
        assert(e[i].contains(id));
    }
}

// ── Pointers ────────────────────────────────────────────────────────────────

/// The word for a kind of chunk.
pub open spec fn is_kind_word(k: ChunkKind, w: Seq<char>) -> bool {
    &&& k == ChunkKind::Section ==> w == "Section"@
    &&& k == ChunkKind::Frontmatter ==> w == "Frontmatter"@
    &&& k == ChunkKind::Body ==> w == "Body"@
    &&& k == ChunkKind::Function ==> w == "Function"@
    &&& k == ChunkKind::Method ==> w == "Method"@
    &&& k == ChunkKind::Class ==> w == "Class"@
    &&& k == ChunkKind::Module ==> w == "Module"@
    &&& k == ChunkKind::Import ==> w == "Import"@
    &&& k == ChunkKind::Constant ==> w == "Constant"@
}

/// The word for a type of document.
pub open spec fn is_type_word(t: DocType, w: Seq<char>) -> bool {
    &&& t == DocType::Note ==> w == "Note"@
    &&& t == DocType::Task ==> w == "Task"@
    &&& t == DocType::Moc ==> w == "Moc"@
    &&& t == DocType::Reference ==> w == "Reference"@
    &&& t == DocType::SourceFile ==> w == "SourceFile"@
    &&& t == DocType::TestFile ==> w == "TestFile"@
    &&& t == DocType::ConfigFile ==> w == "ConfigFile"@
}

/// Where a match comes from among the documents that are listed.
proof fn lemma_match_of(
    s: RegistryState,
    ids: Seq<DocId>,
    keys: Seq<Seq<char>>,
    i: int,
    k: int,
) -> (j: int)
    requires
        0 <= i,
        0 <= k < query::matches_spec(s, ids, keys, i).len(),
    ensures
        i <= j < ids.len(),
        s.docs.dom().contains(ids[j]),
        query::matches_spec(s, ids, keys, i)[k] == query::match_spec(s, ids[j], keys),
    decreases ids.len() - i,
{
    let rest = query::matches_spec(s, ids, keys, i + 1);
    if s.docs.dom().contains(ids[i]) {
        if k == 0 {
            i
        } else {
            assert(query::matches_spec(s, ids, keys, i)[k] == rest[k - 1]);
            lemma_match_of(s, ids, keys, i + 1, k - 1)
        }
    } else {
        lemma_match_of(s, ids, keys, i + 1, k)
    }
}

/// Every match of a query points at a registered document that was listed for it, and at all of its
/// chunks: the bytes, the kind, the label and the depth are those that were registered.
pub proof fn law_matches_point_at_chunks(
    s: RegistryState,
    ids: Seq<DocId>,
    keys: Seq<Seq<char>>,
    q: QueryResult,
    k: int,
    j: int,
)
    requires
        types::views(q.matches@) == query::matches_spec(s, ids, keys, 0),
        0 <= k < q.matches@.len(),
    ensures
        ({
            let m = q.matches@[k];
            let d = s.docs[m.doc_id];
            &&& ids.contains(m.doc_id)
            &&& s.docs.dom().contains(m.doc_id)
            &&& m.file_path@ == d.file_path@
            &&& m.last_modified == d.last_indexed
            &&& m.score is None
            &&& m.matched_filters.deep_view() == keys
            &&& d.source_type@ == SourceTypeView::Obsidian ==> m.source_type@ == "Obsidian"@
            &&& d.source_type@ == SourceTypeView::Code ==> m.source_type@ == "Code"@
            &&& d.auto_type is None ==> m.auto_type is None
            &&& d.auto_type matches Some(t) ==> (m.auto_type matches Some(w) && is_type_word(t, w@))
            &&& s.chunks.dom().contains(m.doc_id) ==> m.chunks@.len() == s.chunks[m.doc_id].len()
            &&& !s.chunks.dom().contains(m.doc_id) ==> m.chunks@.len() == 0
            &&& 0 <= j < m.chunks@.len() ==> {
                let p = m.chunks@[j];
                let c = s.chunks[m.doc_id][j];
                &&& p.chunk_id == c.chunk_id
                &&& p.byte_start == c.byte_start
                &&& p.byte_end == c.byte_end
                &&& is_kind_word(c.kind, p.kind@)
                &&& types::text_of(p.label) == types::text_of(c.label)
                &&& p.depth == c.depth
                &&& p.children@.len() == 0
            }
        }),
{
    let m = q.matches@[k];
    let views = types::views(q.matches@);
    assert(views[k] == m@);
    let n = lemma_match_of(s, ids, keys, 0, k);
    let id = ids[n];
    let v = query::match_spec(s, id, keys);
    assert(m@ == v);
    assert(m@.doc_id == m.doc_id);
    assert(m@.chunks.len() == m.chunks@.len());
    if 0 <= j < m.chunks@.len() {
        let p = m.chunks@[j];
        assert(m@.chunks[j] == p.model());
        assert(v.chunks[j] == query::pointer_spec(registry::chunks_at(s, id)[j]));
        assert(p.model().children.len() == p.children@.len());
    }
}

/// Every registered document that is listed for a query has a match.
pub proof fn law_listed_documents_match(
    s: RegistryState,
    ids: Seq<DocId>,
    keys: Seq<Seq<char>>,
    i: int,
    n: int,
)
    requires
        0 <= i <= n < ids.len(),
        s.docs.dom().contains(ids[n]),
    ensures
        exists|k: int|
            0 <= k < query::matches_spec(s, ids, keys, i).len() && (#[trigger] query::matches_spec(
                s,
                ids,
                keys,
                i,
            )[k]).doc_id == ids[n],
    decreases n - i,
{
    let rest = query::matches_spec(s, ids, keys, i + 1);
    let all = query::matches_spec(s, ids, keys, i);
    if i == n {
        assert(all[0].doc_id == ids[n]);
    } else {
        law_listed_documents_match(s, ids, keys, i + 1, n);
        let k = choose|k: int| 0 <= k < rest.len() && (#[trigger] rest[k]).doc_id == ids[n];
        if s.docs.dom().contains(ids[i]) {
            assert(all[k + 1] == rest[k]);
        } else {
            assert(all[k] == rest[k]);
        }
    }
}

// ── From the file to the pointer ────────────────────────────────────────────

/// Whether the pointers of a document are those of parsed chunks: as many, each with the bytes, the
/// label and the depth that were parsed.
pub open spec fn points_into(v: MatchView, parsed: Seq<ChunkView>) -> bool {
    &&& v.chunks.len() == parsed.len()
    &&& forall|j: int|
        #![trigger v.chunks[j]]
        #![trigger parsed[j]]
        0 <= j < parsed.len() && parsed[j].start <= u32::MAX && parsed[j].end <= u32::MAX
            && parsed[j].start >= 0 && parsed[j].end >= 0 ==> {
            &&& v.chunks[j].byte_start == parsed[j].start
            &&& v.chunks[j].byte_end == parsed[j].end
            &&& v.chunks[j].label == parsed[j].label
            &&& v.chunks[j].depth == parsed[j].depth
            &&& is_kind_word(parsed[j].kind, v.chunks[j].kind)
        }
}

pub proof fn lemma_points_into(
    s: RegistryState,
    id: DocId,
    cs: Seq<NewChunk>,
    next: u32,
    parsed: Seq<ChunkView>,
    keys: Seq<Seq<char>>,
)
    requires
        s.chunks.dom().contains(id),
        s.chunks[id] == registry::chunk_run(cs, id, next),
        ingest::are_new_chunks(cs, id, parsed),
    ensures
        points_into(query::match_spec(s, id, keys), parsed),
{
    let v = query::match_spec(s, id, keys);
    assert forall|j: int|
        #![trigger v.chunks[j]]
        #![trigger parsed[j]]
        0 <= j < parsed.len() && parsed[j].start <= u32::MAX && parsed[j].end <= u32::MAX
            && parsed[j].start >= 0 && parsed[j].end >= 0 implies {
        &&& v.chunks[j].byte_start == parsed[j].start
        &&& v.chunks[j].byte_end == parsed[j].end
        &&& v.chunks[j].label == parsed[j].label
        &&& v.chunks[j].depth == parsed[j].depth
        &&& is_kind_word(parsed[j].kind, v.chunks[j].kind)
    } by {
        assert(ingest::is_new_chunk(cs[j], id, parsed[j]));
        assert(v.chunks[j] == query::pointer_spec(s.chunks[id][j]));
    }
}

/// A file that was created is found with pointers to what was parsed of it: their bytes are those of
/// the chunks, so that a chunk with text never has an empty pointer.
pub proof fn law_created_points_into(
    before: PipelineView,
    after: PipelineView,
    path: Seq<char>,
    content: Seq<u8>,
    i: IngestResult,
    keys: Seq<Seq<char>>,
)
    requires
        ingest::on_created(before, after, path, Ok(content), Ok(i)),
    ensures
        ({
            let id = before.records.next_doc_id;
            let v = query::match_spec(after.records, id, keys);
            &&& after.records.docs.dom().contains(id)
            &&& v.file_path == path
            &&& v.source_type == "Obsidian"@
            &&& points_into(v, ingest::parsed_as(before.parsers, path, content)->Ok_0.chunks)
        }),
{
    let id = before.records.next_doc_id;
    let parsed = ingest::parsed_as(before.parsers, path, content)->Ok_0;
    let (doc, now, cs) = choose|doc: NewDoc, now: Timestamp, cs: Seq<NewChunk>|
        ingest::is_new_doc(doc, path, content, parsed.auto_type) && ingest::are_new_chunks(
            cs,
            id,
            parsed.chunks,
        ) && after.records == #[trigger] ingest::with_new(before.records, doc, now, cs);
    lemma_points_into(
        after.records,
        id,
        cs,
        before.records.next_chunk_id,
        parsed.chunks,
        keys,
    );
}

/// The same holds of a file that was indexed with others, new or changed.
pub proof fn law_indexed_points_into(
    before: PipelineView,
    after: PipelineView,
    path: Seq<char>,
    content: Seq<u8>,
    own: Seq<Seq<char>>,
    action: ingest::IngestAction,
    keys: Seq<Seq<char>>,
)
    requires
        registry::valid_state(before.records),
        ingest::file_step(before, after, path, content, own, action),
        action != ingest::IngestAction::Skipped,
    ensures
        ({
            let id = if ingest::is_known(before.records, path) {
                ingest::id_at(before.records, path)
            } else {
                before.records.next_doc_id
            };
            &&& after.records.docs.dom().contains(id)
            &&& points_into(
                query::match_spec(after.records, id, keys),
                ingest::parsed_as(before.parsers, path, content)->Ok_0.chunks,
            )
        }),
{
    let parsed = ingest::parsed_as(before.parsers, path, content)->Ok_0;
    if ingest::is_known(before.records, path) {
        let id = ingest::id_at(before.records, path);
        let (digest, now, cs) = choose|digest: [u8; 32], now: Timestamp, cs: Seq<NewChunk>|
            digest@ == crate::hash::blake3_digest(content) && ingest::are_new_chunks(
                cs,
                id,
                parsed.chunks,
            ) && after.records == #[trigger] ingest::with_changed(
                before.records,
                id,
                digest,
                parsed.auto_type,
                now,
                cs,
            );
        assert(before.records.docs.dom().contains(id));
        lemma_points_into(
            after.records,
            id,
            cs,
            before.records.next_chunk_id,
            parsed.chunks,
            keys,
        );
    } else {
        let id = before.records.next_doc_id;
        let (doc, now, cs) = choose|doc: NewDoc, now: Timestamp, cs: Seq<NewChunk>|
            ingest::is_new_doc(doc, path, content, parsed.auto_type) && ingest::are_new_chunks(
                cs,
                id,
                parsed.chunks,
            ) && after.records == #[trigger] ingest::with_new(before.records, doc, now, cs);
        lemma_points_into(
            after.records,
            id,
            cs,
            before.records.next_chunk_id,
            parsed.chunks,
            keys,
        );
    }
}

// ── Keys ────────────────────────────────────────────────────────────────────

/// Whether no chunk of a document is in a programming language.
pub open spec fn is_note(parsed: ParseView) -> bool {
    forall|i: int|
        0 <= i < parsed.chunks.len() ==> (#[trigger] parsed.chunks[i]).metadata.language is None
}

pub proof fn lemma_keys(path: Seq<char>, source: SourceTypeView, parsed: ParseView, i: int, j: int)
    ensures
        ({
            let keys = ingest::keys_spec(path, source, parsed);
            let code = ingest::is_code(parsed.chunks);
            &&& 0 <= i < parsed.tags.len() ==> keys.contains(
                ingest::tag_key_spec(parsed.tags[i], code),
            )
            &&& 0 <= j < parsed.links.len() ==> keys.contains(
                ingest::link_key_spec(parsed.links[j].target, code),
            )
            &&& keys.contains(ingest::folder_key_spec(path))
            &&& keys.contains(ingest::source_key_spec(source))
            &&& parsed.auto_type matches Some(t) ==> keys.contains(ingest::type_key_spec(t))
        }),
{
    let keys = ingest::keys_spec(path, source, parsed);
    let code = ingest::is_code(parsed.chunks);
    let a = ingest::tag_keys(parsed.tags, code);
    let b = ingest::link_keys(parsed.links, code);
    let n = a.len() + b.len();
    if 0 <= i < parsed.tags.len() {
        assert(keys[i] == a[i]);
    }
    if 0 <= j < parsed.links.len() {
        assert(keys[a.len() + j] == b[j]);
    }
    assert(keys[n as int] == ingest::folder_key_spec(path));
    assert(keys[n as int + 1] == ingest::source_key_spec(source));
    if parsed.auto_type is Some {
        assert(keys[n as int + 2] == ingest::type_key_spec(parsed.auto_type->Some_0));
    }
}

/// The keys under which a note is found: one for each tag, one for each link, one for its source and
/// one for its type.
pub proof fn law_note_keys(path: Seq<char>, parsed: ParseView, i: int, j: int)
    requires
        is_note(parsed),
    ensures
        ({
            let keys = ingest::keys_spec(path, SourceTypeView::Obsidian, parsed);
            &&& 0 <= i < parsed.tags.len() ==> keys.contains("tag:"@ + parsed.tags[i])
            &&& 0 <= j < parsed.links.len() ==> keys.contains("link:"@ + parsed.links[j].target)
            &&& keys.contains("source:obsidian"@)
            &&& parsed.auto_type == Some(DocType::Note) ==> keys.contains("type:note"@)
            &&& parsed.auto_type == Some(DocType::Task) ==> keys.contains("type:task"@)
            &&& parsed.auto_type == Some(DocType::Moc) ==> keys.contains("type:moc"@)
            &&& parsed.auto_type == Some(DocType::Reference) ==> keys.contains("type:reference"@)
        }),
{
    lemma_keys(path, SourceTypeView::Obsidian, parsed, i, j);
}

/// The keys under which source code is found: the tags that describe it as they are, one for each
/// package it imports, and one for each visibility among its items.
pub proof fn law_code_keys(
    path: Seq<char>,
    source: SourceTypeView,
    parsed: ParseView,
    rest: Seq<char>,
    i: int,
    j: int,
    k: int,
)
    requires
        !is_note(parsed),
    ensures
        ({
            let keys = ingest::keys_spec(path, source, parsed);
            let x = parsed.tags[i];
            &&& 0 <= i < parsed.tags.len() && (x == "lang:"@ + rest || x == "kind:"@ + rest || x
                == "async:"@ + rest || x == "convention:"@ + rest) ==> keys.contains(x)
            &&& 0 <= j < parsed.links.len() ==> keys.contains("import:"@ + parsed.links[j].target)
            &&& parsed.auto_type == Some(DocType::SourceFile) ==> keys.contains("type:source_file"@)
            &&& parsed.auto_type == Some(DocType::TestFile) ==> keys.contains("type:test_file"@)
            &&& parsed.auto_type == Some(DocType::ConfigFile) ==> keys.contains("type:config_file"@)
            &&& 0 <= k < parsed.chunks.len() && parsed.chunks[k].metadata.visibility == Some(
                Visibility::Public,
            ) ==> keys.contains("visibility:public"@)
            &&& 0 <= k < parsed.chunks.len() && parsed.chunks[k].metadata.visibility == Some(
                Visibility::Private,
            ) ==> keys.contains("visibility:private"@)
            &&& 0 <= k < parsed.chunks.len() && parsed.chunks[k].metadata.visibility == Some(
                Visibility::Internal,
            ) ==> keys.contains("visibility:internal"@)
            &&& source == SourceTypeView::Code ==> keys.contains("source:code"@)
        }),
{
    lemma_keys(path, source, parsed, i, j);
    assert(ingest::is_code(parsed.chunks)) by {
        let n = choose|n: int|
            0 <= n < parsed.chunks.len() && !((
            #[trigger] parsed.chunks[n]).metadata.language is None);
        assert(parsed.chunks[n].metadata.language is Some);
    }
    if 0 <= i < parsed.tags.len() {
        crate::text_laws::law_starts_with("lang:"@, rest);
        crate::text_laws::law_starts_with("kind:"@, rest);
        crate::text_laws::law_starts_with("async:"@, rest);
        crate::text_laws::law_starts_with("convention:"@, rest);
    }
    if 0 <= k < parsed.chunks.len() && parsed.chunks[k].metadata.visibility is Some {
        let v = parsed.chunks[k].metadata.visibility->Some_0;
        let n = parsed.chunks.len() as int;
        lemma_visibility(parsed.chunks, n, k);
        let own = ingest::visibility_keys(parsed.chunks, n);
        let keys = ingest::keys_spec(path, source, parsed);
        let p = own.index_of(ingest::visibility_key_spec(v));
        assert(keys[keys.len() - own.len() + p] == own[p]);
    }
}

proof fn lemma_visibility(chunks: Seq<ChunkView>, n: int, k: int)
    requires
        0 <= k < n <= chunks.len(),
        chunks[k].metadata.visibility is Some,
    ensures
        ingest::visibility_keys(chunks, n).contains(
            ingest::visibility_key_spec(chunks[k].metadata.visibility->Some_0),
        ),
    decreases n,
{
    if chunks[n - 1].metadata.visibility is Some {
        crate::text::lemma_add_once(
            ingest::visibility_keys(chunks, n - 1),
            ingest::visibility_key_spec(chunks[n - 1].metadata.visibility->Some_0),
        );
    }
    if k < n - 1 {
        lemma_visibility(chunks, n - 1, k);
    }
}

} // verus!
