//! What changes of files do to the answers of a search.

use vstd::prelude::*;

use crate::hash;
use crate::ingest;
use crate::ingest::{IngestAction, IngestResult, PipelineView};
use crate::paths;
use crate::query;
use crate::query::{Filter, InspectResult};
use crate::registry;
use crate::registry::{NewChunk, NewDoc};
use crate::search_laws::{
    is_deleted, is_kind_word, is_type_word, lemma_keys, lemma_points_into, points_into,
    stands_under,
};
use crate::text;
use crate::types;
use crate::types::{ChunkView, DocId, DocType, ParseView, SourceTypeView, Timestamp, Visibility};

verus! {

// ── Filters ─────────────────────────────────────────────────────────────────

proof fn lemma_flattened(s: Seq<Seq<Seq<char>>>, k: Seq<char>)
    ensures
        query::flattened(s).contains(k) <==> exists|i: int|
            0 <= i < s.len() && (#[trigger] s[i]).contains(k),
    decreases s.len(),
{
    if s.len() > 0 {
        let front = s.drop_last();
        let a = query::flattened(front);
        let b = s.last();
        let all = query::flattened(s);
        lemma_flattened(front, k);
        if all.contains(k) {
            let j = all.index_of(k);
            if j < a.len() {
                assert(a[j] == k);
                let i = choose|i: int| 0 <= i < front.len() && (#[trigger] front[i]).contains(k);
                assert(s[i].contains(k));
            } else {
                assert(b[j - a.len()] == k);
                assert(s[s.len() - 1].contains(k));
            }
        }
        if exists|i: int| 0 <= i < s.len() && (#[trigger] s[i]).contains(k) {
            let i = choose|i: int| 0 <= i < s.len() && (#[trigger] s[i]).contains(k);
            if i < front.len() {
                assert(front[i].contains(k));
                let j = a.index_of(k);
                assert(all[j] == k);
            } else {
                let j = b.index_of(k);
                assert(all[a.len() + j] == k);
            }
        }
    }
}

/// A match names the keys of its filter: each key of each part, and no others.
pub proof fn law_filter_keys(key: String, inner: Box<Filter>, v: Vec<Filter>, k: Seq<char>)
    ensures
        query::leaf_keys(Filter::Key(key)).contains(k) <==> k == key@,
        query::leaf_keys(Filter::Not(inner)).contains(k) <==> query::leaf_keys(*inner).contains(k),
        query::leaf_keys(Filter::And(v)).contains(k) <==> exists|i: int|
            0 <= i < v@.len() && query::leaf_keys(#[trigger] v@[i]).contains(k),
        query::leaf_keys(Filter::Or(v)).contains(k) <==> exists|i: int|
            0 <= i < v@.len() && query::leaf_keys(#[trigger] v@[i]).contains(k),
{
    assert(query::leaf_keys(Filter::Key(key))[0] == key@);
    let each = query::leaf_keys_each(v);
    lemma_flattened(each, k);
    if exists|i: int| 0 <= i < each.len() && (#[trigger] each[i]).contains(k) {
        let i = choose|i: int| 0 <= i < each.len() && (#[trigger] each[i]).contains(k);
        assert(query::leaf_keys(v@[i]).contains(k));
    }
    if exists|i: int| 0 <= i < v@.len() && query::leaf_keys(#[trigger] v@[i]).contains(k) {
        let i = choose|i: int| 0 <= i < v@.len() && query::leaf_keys(#[trigger] v@[i]).contains(k);
        assert(each[i].contains(k));
    }
}

// ── Keys ────────────────────────────────────────────────────────────────────

/// Every document is found by its folder and by its source.
pub proof fn law_folder_and_source(path: Seq<char>, source: SourceTypeView, parsed: ParseView)
    ensures
        ({
            let keys = ingest::keys_spec(path, source, parsed);
            &&& paths::parent_spec(path) matches Some(p) ==> keys.contains("folder:"@ + p)
            &&& source == SourceTypeView::Obsidian ==> keys.contains("source:obsidian"@)
            &&& source == SourceTypeView::Code ==> keys.contains("source:code"@)
            &&& source matches SourceTypeView::Custom(name) ==> keys.contains("source:"@ + name)
        }),
{
    lemma_keys(path, source, parsed, 0, 0);
}

/// Whether a key tells something of a document.
pub open spec fn tells(
    path: Seq<char>,
    source: SourceTypeView,
    parsed: ParseView,
    k: Seq<char>,
) -> bool {
    let code = exists|i: int|
        0 <= i < parsed.chunks.len() && (#[trigger] parsed.chunks[i]).metadata.language is Some;
    ||| exists|i: int|
        0 <= i < parsed.tags.len() && (k == "tag:"@ + #[trigger] parsed.tags[i] || code && k
            == parsed.tags[i])
    ||| exists|j: int|
        0 <= j < parsed.links.len() && k == if code {
            "import:"@
        } else {
            "link:"@
        } + (#[trigger] parsed.links[j]).target
    ||| k == "folder:"@ + match paths::parent_spec(path) {
        Some(p) => p,
        None => Seq::empty(),
    }
    ||| source == SourceTypeView::Obsidian && k == "source:obsidian"@
    ||| source == SourceTypeView::Code && k == "source:code"@
    ||| source matches SourceTypeView::Custom(name) && k == "source:"@ + name
    ||| parsed.auto_type matches Some(t) && is_type_key(t, k)
    ||| exists|i: int|
        0 <= i < parsed.chunks.len() && ((#[trigger] parsed.chunks[i]).metadata.visibility matches Some(
            v,
        ) && is_visibility_key(v, k))
}

/// The key of a type of document.
pub open spec fn is_type_key(t: DocType, k: Seq<char>) -> bool {
    &&& t == DocType::Note ==> k == "type:note"@
    &&& t == DocType::Task ==> k == "type:task"@
    &&& t == DocType::Moc ==> k == "type:moc"@
    &&& t == DocType::Reference ==> k == "type:reference"@
    &&& t == DocType::SourceFile ==> k == "type:source_file"@
    &&& t == DocType::TestFile ==> k == "type:test_file"@
    &&& t == DocType::ConfigFile ==> k == "type:config_file"@
}

/// The key of a visibility.
pub open spec fn is_visibility_key(v: Visibility, k: Seq<char>) -> bool {
    &&& v == Visibility::Public ==> k == "visibility:public"@
    &&& v == Visibility::Private ==> k == "visibility:private"@
    &&& v == Visibility::Internal ==> k == "visibility:internal"@
}

proof fn lemma_visibility_keys(chunks: Seq<ChunkView>, n: int, k: Seq<char>)
    requires
        0 <= n <= chunks.len(),
        ingest::visibility_keys(chunks, n).contains(k),
    ensures
        exists|i: int|
            0 <= i < n && ((#[trigger] chunks[i]).metadata.visibility matches Some(v)
                && is_visibility_key(v, k)),
    decreases n,
{
    if n > 0 {
        match chunks[n - 1].metadata.visibility {
            Some(v) => {
                text::lemma_add_once(
                    ingest::visibility_keys(chunks, n - 1),
                    ingest::visibility_key_spec(v),
                );
                if k == ingest::visibility_key_spec(v) {
                    assert(is_visibility_key(v, k));
                    assert(chunks[n - 1].metadata.visibility matches Some(w) && is_visibility_key(
                        w,
                        k,
                    ));
                } else {
                    lemma_visibility_keys(chunks, n - 1, k);
                }
            },
            None => {
                lemma_visibility_keys(chunks, n - 1, k);
            },
        }
    }
}

/// A document is found by nothing but what its keys tell of it: its tags, its links, its folder, its
/// source, its type and the visibilities of its items.
pub proof fn law_keys_tell(
    path: Seq<char>,
    source: SourceTypeView,
    parsed: ParseView,
    k: Seq<char>,
)
    requires
        ingest::keys_spec(path, source, parsed).contains(k),
    ensures
        tells(path, source, parsed, k),
{
    let code = ingest::is_code(parsed.chunks);
    let a = ingest::tag_keys(parsed.tags, code);
    let b = ingest::link_keys(parsed.links, code);
    let c = seq![ingest::folder_key_spec(path), ingest::source_key_spec(source)];
    let d = ingest::opt_type_key(parsed.auto_type);
    let e = ingest::visibility_keys(parsed.chunks, parsed.chunks.len() as int);
    let keys = ingest::keys_spec(path, source, parsed);
    assert(keys == a + b + c + d + e);
    let j = keys.index_of(k);
    let n = a.len() as int;
    let m = n + b.len();
    if j < n {
        assert(a[j] == k);
        assert(parsed.tags[j] == parsed.tags[j]);
    } else if j < m {
        assert(b[j - n] == k);
        assert(parsed.links[j - n] == parsed.links[j - n]);
    } else if j < m + 2 {
        assert(c[j - m] == k);
        assert("folder:"@ + Seq::<char>::empty() =~= "folder:"@);
    } else if j < m + 2 + d.len() {
        assert(d[j - m - 2] == k);
    } else {
        assert(e[j - m - 2 - d.len()] == k);
        lemma_visibility_keys(parsed.chunks, parsed.chunks.len() as int, k);
    }
}

// ── Changes ─────────────────────────────────────────────────────────────────

/// The word for the type of a document in its match.
pub open spec fn is_typed(word: Option<Seq<char>>, t: Option<DocType>) -> bool {
    match t {
        Some(t) => word matches Some(w) && is_type_word(t, w),
        None => word is None,
    }
}

/// What is found of a new file has the type that was parsed, and the registry holds the hash of its
/// content.
pub proof fn law_created_is_recorded(
    before: PipelineView,
    after: PipelineView,
    path: Seq<char>,
    content: Seq<u8>,
    i: IngestResult,
    keys: Seq<Seq<char>>,
    other: DocId,
)
    requires
        ingest::on_created(before, after, path, Ok(content), Ok(i)),
    ensures
        ({
            let id = before.records.next_doc_id;
            let v = query::match_spec(after.records, id, keys);
            &&& i.action == IngestAction::Indexed
            &&& is_typed(
                v.auto_type,
                ingest::parsed_as(before.parsers, path, content)->Ok_0.auto_type,
            )
            &&& after.records.docs[id].blake3_hash@ == hash::blake3_digest(content)
            &&& after.records.next_doc_id == id + 1
            &&& other != id ==> query::match_spec(after.records, other, keys) == query::match_spec(
                before.records,
                other,
                keys,
            )
        }),
{
    let id = before.records.next_doc_id;
    let parsed = ingest::parsed_as(before.parsers, path, content)->Ok_0;
    let (doc, now, cs) = choose|doc: NewDoc, now: Timestamp, cs: Seq<NewChunk>|
        ingest::is_new_doc(doc, path, content, parsed.auto_type) && ingest::are_new_chunks(
            cs,
            id,
            parsed.chunks,
        ) && after.records == #[trigger] ingest::with_new(before.records, doc, now, cs);
}

/// A file that was changed is found with pointers to what is parsed of its new content, under the
/// path and the id that it had. It stands under its new keys, and other files stand where they stood.
pub proof fn law_modified_points_into(
    before: PipelineView,
    after: PipelineView,
    path: Seq<char>,
    content: Seq<u8>,
    i: IngestResult,
    keys: Seq<Seq<char>>,
    key: Seq<char>,
    other: DocId,
)
    requires
        registry::valid_state(before.records),
        before.tagger is None,
        before.infallible,
        ingest::is_known(before.records, path),
        !ingest::has_content(before.records, ingest::id_at(before.records, path), content),
        ingest::on_modified(before, after, path, Ok(content), Ok(i)),
    ensures
        ({
            let id = ingest::id_at(before.records, path);
            let parsed = ingest::parsed_as(before.parsers, path, content)->Ok_0;
            let v = query::match_spec(after.records, id, keys);
            let own = ingest::keys_spec(path, SourceTypeView::Obsidian, parsed);
            &&& i.action == IngestAction::Updated
            &&& after.records.docs.dom().contains(id)
            &&& after.records.paths == before.records.paths
            &&& v.file_path == before.records.docs[id].file_path@
            &&& is_typed(v.auto_type, parsed.auto_type)
            &&& points_into(v, parsed.chunks)
            &&& after.records.docs[id].blake3_hash@ == hash::blake3_digest(content)
            &&& key != "__tombstone__"@ ==> (stands_under(after.bitmaps, key, id) <==> own.contains(
                key,
            ))
            &&& other != id ==> (stands_under(after.bitmaps, key, other) <==> stands_under(
                before.bitmaps,
                key,
                other,
            ))
        }),
{
    let id = ingest::id_at(before.records, path);
    let parsed = ingest::parsed_as(before.parsers, path, content)->Ok_0;
    let (digest, now, cs) = choose|digest: [u8; 32], now: Timestamp, cs: Seq<NewChunk>|
        digest@ == hash::blake3_digest(content) && ingest::are_new_chunks(cs, id, parsed.chunks)
            && after.records == #[trigger] ingest::with_changed(
            before.records,
            id,
            digest,
            parsed.auto_type,
            now,
            cs,
        );
    assert(before.records.docs.dom().contains(id));
    lemma_points_into(
        after.records,
        id,
        cs,
        before.records.next_chunk_id,
        parsed.chunks,
        keys,
    );
    let (own, seen) = choose|own: Seq<Seq<char>>, seen: Set<Seq<char>>|
        #![trigger ingest::with_seen_keys(before.bitmaps, own, seen, id)]
        ingest::keys_follow(
            before.tagger,
            path,
            content,
            SourceTypeView::Obsidian,
            parsed,
            own,
        ) && ingest::is_seen(before, id, seen) && i.bitmaps_updated == ingest::count_of(
            seen.difference(own.to_set()).len() + own.to_set().difference(seen).len(),
        ) && after.bitmaps == ingest::with_seen_keys(before.bitmaps, own, seen, id);
    assert(ingest::keys_holding(before.bitmaps, id).contains(key) <==> key != "__tombstone__"@
        && stands_under(before.bitmaps, key, id));
}

/// A file that was deleted is selected by no filter. What a key selects of other files stays.
pub proof fn law_deleted_leaves(
    before: PipelineView,
    after: PipelineView,
    path: Seq<char>,
    i: IngestResult,
    f: Filter,
    key: String,
    other: DocId,
)
    requires
        ingest::on_deleted(before, after, path, Ok(i)),
        other != ingest::id_at(before.records, path),
        key@ != "__tombstone__"@,
    ensures
        i.action == IngestAction::Tombstoned,
        is_deleted(after.bitmaps, ingest::id_at(before.records, path)),
        !query::selected(after.bitmaps, f).contains(ingest::id_at(before.records, path)),
        query::selected(after.bitmaps, Filter::Key(key)).contains(other) <==> query::selected(
            before.bitmaps,
            Filter::Key(key),
        ).contains(other),
{
    let id = ingest::id_at(before.records, path);
    ingest::law_deleted_is_not_found(before.bitmaps, id, f);
    crate::search_laws::law_keys_select(after.bitmaps, key, other);
    crate::search_laws::law_keys_select(before.bitmaps, key, other);
}

/// A file that was moved is known by its new path, with the id, the chunks and the type that it had.
/// It stands under its new folder, and no longer under the old one. Its other keys stay.
pub proof fn law_renamed_moves(
    before: PipelineView,
    after: PipelineView,
    from: Seq<char>,
    to: Seq<char>,
    i: IngestResult,
    keys: Seq<Seq<char>>,
    key: Seq<char>,
    a: Seq<char>,
    b: Seq<char>,
)
    requires
        registry::valid_state(before.records),
        ingest::on_renamed(before, after, from, to, Ok(i)),
        paths::parent_spec(from) == Some(a),
        paths::parent_spec(to) == Some(b),
        a != b,
        key != "folder:"@ + a,
        key != "folder:"@ + b,
    ensures
        ({
            let id = ingest::id_at(before.records, from);
            let u = query::match_spec(before.records, id, keys);
            let v = query::match_spec(after.records, id, keys);
            &&& i.action == IngestAction::Moved
            &&& ingest::is_known(after.records, to)
            &&& ingest::id_at(after.records, to) == id
            &&& v.file_path == to
            &&& v.chunks == u.chunks
            &&& v.auto_type == u.auto_type
            &&& stands_under(after.bitmaps, "folder:"@ + b, id)
            &&& !stands_under(after.bitmaps, "folder:"@ + a, id)
            &&& stands_under(after.bitmaps, key, id) <==> stands_under(before.bitmaps, key, id)
        }),
{
    let id = ingest::id_at(before.records, from);
    let path = choose|path: String|
        path@ == to && after.records == #[trigger] registry::with_path(before.records, id, path);
    assert(before.records.docs.dom().contains(id));
    registry::law_update_path(before.records, id, path);
    let x = "folder:"@ + a;
    let y = "folder:"@ + b;
    assert(x != y) by {
        if x == y {
            let n = "folder:"@.len() as int;
            assert(x.skip(n) =~= a);
            assert(y.skip(n) =~= b);
        }
    }
    assert(query::match_spec(after.records, id, keys).chunks =~= query::match_spec(
        before.records,
        id,
        keys,
    ).chunks);
}

/// What is told of a document is what is registered of it: its path, its hash in hexadecimal digits,
/// pointers to its chunks, and the keys under which it stands.
pub proof fn law_inspected(
    r: InspectResult,
    s: registry::RegistryState,
    m: Map<Seq<char>, Set<u32>>,
    id: DocId,
    j: int,
    key: Seq<char>,
)
    requires
        query::inspected(r, s, m, id),
        s.chunks.dom().contains(id),
        0 <= j < s.chunks[id].len(),
        key != "__tombstone__"@,
    ensures
        r.doc_id == id,
        r.file_path@ == s.docs[id].file_path@,
        is_typed(types::text_of(r.auto_type), s.docs[id].auto_type),
        r.blake3_hash@ == hash::hex_spec(s.docs[id].blake3_hash@),
        r.last_indexed == s.docs[id].last_indexed,
        r.bitmap_keys.deep_view().contains(key) <==> stands_under(m, key, id),
        r.bitmap_keys.deep_view().no_duplicates(),
        ({
            let p = r.chunks@[j];
            let c = s.chunks[id][j];
            &&& r.chunks@.len() == s.chunks[id].len()
            &&& p.chunk_id == c.chunk_id
            &&& p.byte_start == c.byte_start
            &&& p.byte_end == c.byte_end
            &&& is_kind_word(c.kind, p.kind@)
            &&& types::text_of(p.label) == types::text_of(c.label)
            &&& p.depth == c.depth
        }),
{
    let a = crate::nest::models(r.chunks@);
    assert(a.len() == r.chunks@.len());
    assert(a[j] == r.chunks@[j].model());
    assert(a[j] == query::pointer_spec(s.chunks[id][j]));
}

} // verus!
