//! Ingestion: parsers, registry and bitmap store kept in step with the files of a source.

use std::time::Instant;

use roaring::RoaringBitmap;
use vstd::prelude::*;

use crate::bitmap;
use crate::bitmap::{BitmapError, BitmapStore};
use crate::clock;
use crate::enrich;
use crate::enrich::{EnrichError, EnrichmentCache, TagPipeline};
use crate::hash;
use crate::ignore;
use crate::ignore::IgnoreRules;
use crate::keymap::KeyMap;
use crate::parser::Parser;
use crate::paths;
use crate::query;
use crate::query::Filter;
use crate::registry;
use crate::registry::{DocRecord, NewChunk, NewDoc, Registry, RegistryError, RegistryState};
use crate::text;
use crate::types;
use crate::types::{
    BitmapKey, ChangeEvent, ChangeKind, ChunkView, DocId, DocType, LinkView, ParseError,
    ParseErrorView, ParseResult, ParseView, SourceType, SourceTypeView, Timestamp, Visibility,
};

verus! {

// ── Bitmap keys ─────────────────────────────────────────────────────────────

/// Whether a tag names its own bitmap: it is one of those that describe code.
pub open spec fn is_code_tag(tag: Seq<char>) -> bool {
    text::starts_with_spec(tag, "lang:"@) || text::starts_with_spec(tag, "kind:"@)
        || text::starts_with_spec(tag, "async:"@) || text::starts_with_spec(tag, "convention:"@)
}

/// The bitmap key of a tag: a tag that describes code is its own key where the document is code.
pub open spec fn tag_key_spec(tag: Seq<char>, code: bool) -> Seq<char> {
    if code && is_code_tag(tag) {
        tag
    } else {
        "tag:"@ + tag
    }
}

/// The bitmap key of a tag.
pub fn tag_key(tag: &str, code: bool) -> (r: BitmapKey)
    ensures
        r@ == tag_key_spec(tag@, code),
{
    let v = text::chars_of(tag);
    if code && (text::starts_with(&v, "lang:") || text::starts_with(&v, "kind:")
        || text::starts_with(&v, "async:") || text::starts_with(&v, "convention:")) {
        tag.to_owned()
    } else {
        text::concat("tag:", tag)
    }
}

/// The bitmap key of the folder of a path.
pub open spec fn folder_key_spec(path: Seq<char>) -> Seq<char> {
    match paths::parent_spec(path) {
        Some(p) => "folder:"@ + p,
        None => "folder:"@,
    }
}

/// The bitmap key of the folder of a path.
pub fn folder_key(path: &str) -> (r: BitmapKey)
    ensures
        r@ == folder_key_spec(path@),
{
    match paths::parent(path) {
        Some(p) => text::concat("folder:", p.as_str()),
        None => "folder:".to_owned(),
    }
}

/// The bitmap key of a link: an import where the document is code.
pub open spec fn link_key_spec(target: Seq<char>, code: bool) -> Seq<char> {
    if code {
        "import:"@ + target
    } else {
        "link:"@ + target
    }
}

/// The bitmap key of a link.
pub fn link_key(target: &str, code: bool) -> (r: BitmapKey)
    ensures
        r@ == link_key_spec(target@, code),
{
    if code {
        text::concat("import:", target)
    } else {
        text::concat("link:", target)
    }
}

/// The bitmap key of a document type.
pub open spec fn type_key_spec(t: DocType) -> Seq<char> {
    match t {
        DocType::Note => "type:note"@,
        DocType::Task => "type:task"@,
        DocType::Moc => "type:moc"@,
        DocType::Reference => "type:reference"@,
        DocType::SourceFile => "type:source_file"@,
        DocType::TestFile => "type:test_file"@,
        DocType::ConfigFile => "type:config_file"@,
    }
}

/// The bitmap key of a document type.
pub fn type_key(t: DocType) -> (r: BitmapKey)
    ensures
        r@ == type_key_spec(t),
{
    match t {
        DocType::Note => "type:note".to_owned(),
        DocType::Task => "type:task".to_owned(),
        DocType::Moc => "type:moc".to_owned(),
        DocType::Reference => "type:reference".to_owned(),
        DocType::SourceFile => "type:source_file".to_owned(),
        DocType::TestFile => "type:test_file".to_owned(),
        DocType::ConfigFile => "type:config_file".to_owned(),
    }
}

/// The bitmap key of a source type.
pub open spec fn source_key_spec(s: SourceTypeView) -> Seq<char> {
    match s {
        SourceTypeView::Obsidian => "source:obsidian"@,
        SourceTypeView::Code => "source:code"@,
        SourceTypeView::Custom(name) => "source:"@ + name,
    }
}

/// The bitmap key of a source type.
pub fn source_key(s: &SourceType) -> (r: BitmapKey)
    ensures
        r@ == source_key_spec(s@),
{
    match s {
        SourceType::Obsidian => "source:obsidian".to_owned(),
        SourceType::Code => "source:code".to_owned(),
        SourceType::Custom(name) => text::concat("source:", name.as_str()),
    }
}

/// The bitmap key of a visibility.
pub open spec fn visibility_key_spec(v: Visibility) -> Seq<char> {
    match v {
        Visibility::Public => "visibility:public"@,
        Visibility::Private => "visibility:private"@,
        Visibility::Internal => "visibility:internal"@,
    }
}

/// The bitmap key of a visibility.
pub fn visibility_key(v: Visibility) -> (r: BitmapKey)
    ensures
        r@ == visibility_key_spec(v),
{
    match v {
        Visibility::Public => "visibility:public".to_owned(),
        Visibility::Private => "visibility:private".to_owned(),
        Visibility::Internal => "visibility:internal".to_owned(),
    }
}

/// Whether a document is code: a chunk is in a programming language.
pub open spec fn is_code(chunks: Seq<ChunkView>) -> bool {
    exists|i: int| 0 <= i < chunks.len() && (#[trigger] chunks[i]).metadata.language is Some
}

fn has_language(result: &ParseResult) -> (r: bool)
    ensures
        r == is_code(result@.chunks),
{
    let mut i: usize = 0;
    while i < result.chunks.len()
        invariant
            i <= result.chunks@.len(),
            forall|j: int|
                0 <= j < i ==> (#[trigger] result@.chunks[j]).metadata.language is None,
        decreases result.chunks@.len() - i,
    {
        assert(result@.chunks[i as int] == result.chunks@[i as int]@);
        if result.chunks[i].metadata.language.is_some() {
            return true;
        }
        i += 1;
    }
    false
}

/// The keys of tags.
pub open spec fn tag_keys(tags: Seq<Seq<char>>, code: bool) -> Seq<Seq<char>> {
    Seq::new(tags.len(), |i: int| tag_key_spec(tags[i], code))
}

/// The keys of links.
pub open spec fn link_keys(links: Seq<LinkView>, code: bool) -> Seq<Seq<char>> {
    Seq::new(links.len(), |i: int| link_key_spec(links[i].target, code))
}

/// The keys of the visibilities of the first `n` chunks, each once.
pub open spec fn visibility_keys(chunks: Seq<ChunkView>, n: int) -> Seq<Seq<char>>
    decreases n,
{
    if n <= 0 {
        Seq::empty()
    } else {
        match chunks[n - 1].metadata.visibility {
            Some(v) => text::add_once(visibility_keys(chunks, n - 1), visibility_key_spec(v)),
            None => visibility_keys(chunks, n - 1),
        }
    }
}

/// The key of an optional document type.
pub open spec fn opt_type_key(t: Option<DocType>) -> Seq<Seq<char>> {
    match t {
        Some(t) => seq![type_key_spec(t)],
        None => Seq::empty(),
    }
}

/// The bitmap keys of a parsed document: tags, links, folder, source, type and visibilities.
pub open spec fn keys_spec(path: Seq<char>, source: SourceTypeView, parsed: ParseView) -> Seq<
    Seq<char>,
> {
    tag_keys(parsed.tags, is_code(parsed.chunks)) + link_keys(
        parsed.links,
        is_code(parsed.chunks),
    ) + seq![folder_key_spec(path), source_key_spec(source)] + opt_type_key(parsed.auto_type) + visibility_keys(
        parsed.chunks,
        parsed.chunks.len() as int,
    )
}

/// The bitmap keys of a parsed document.
pub fn bitmap_keys_for(path: &str, source: &SourceType, result: &ParseResult) -> (r: Vec<BitmapKey>)
    ensures
        r.deep_view() == keys_spec(path@, source@, result@),
{
    let ghost parsed = result@;
    let code = has_language(result);
    let mut keys: Vec<BitmapKey> = Vec::new();
    let mut i: usize = 0;
    while i < result.tags.len()
        invariant
            parsed == result@,
            i <= result.tags@.len(),
            keys.deep_view() =~= tag_keys(parsed.tags, code).take(i as int),
        decreases result.tags@.len() - i,
    {
        assert(parsed.tags[i as int] == result.tags@[i as int]@);
        let ghost before = keys.deep_view();
        keys.push(tag_key(result.tags[i].as_str(), code));
        assert(keys.deep_view() =~= before.push(tag_key_spec(parsed.tags[i as int], code)));
        i += 1;
    }
    let ghost a = tag_keys(parsed.tags, code);
    assert(keys.deep_view() =~= a);
    let mut j: usize = 0;
    while j < result.links.len()
        invariant
            parsed == result@,
            code == is_code(parsed.chunks),
            j <= result.links@.len(),
            keys.deep_view() =~= a + link_keys(parsed.links, code).take(j as int),
        decreases result.links@.len() - j,
    {
        assert(parsed.links[j as int] == result.links@[j as int]@);
        let ghost before = keys.deep_view();
        keys.push(link_key(result.links[j].target.as_str(), code));
        assert(keys.deep_view() =~= before.push(
            link_key_spec(parsed.links[j as int].target, code),
        ));
        j += 1;
    }
    let ghost b = a + link_keys(parsed.links, code);
    assert(keys.deep_view() =~= b);
    keys.push(folder_key(path));
    keys.push(source_key(source));
    let ghost c = b + seq![folder_key_spec(path@), source_key_spec(source@)];
    assert(keys.deep_view() =~= c);
    if let Some(t) = result.auto_type {
        keys.push(type_key(t));
    }
    let ghost d = c + opt_type_key(parsed.auto_type);
    assert(keys.deep_view() =~= d);
    let mut seen: Vec<String> = Vec::new();
    let mut k: usize = 0;
    assert(seen.deep_view() =~= visibility_keys(parsed.chunks, 0));
    while k < result.chunks.len()
        invariant
            parsed == result@,
            k <= result.chunks@.len(),
            seen.deep_view() == visibility_keys(parsed.chunks, k as int),
        decreases result.chunks@.len() - k,
    {
        assert(parsed.chunks[k as int] == result.chunks@[k as int]@);
        if let Some(v) = result.chunks[k].metadata.visibility {
            text::push_once(&mut seen, visibility_key(v));
        }
        k += 1;
    }
    let ghost e = seen.deep_view();
    keys.append(&mut seen);
    assert(keys.deep_view() =~= d + e);
    keys
}

// ── Results ─────────────────────────────────────────────────────────────────

/// Errors during ingestion.
#[derive(Debug)]
pub enum IngestError {
    Parse(ParseError),
    Registry(RegistryError),
    Bitmap(BitmapError),
    /// The file could not be read.
    Io(String),
    /// No parser handles the path.
    NoParser(String),
}

/// The message of an ingestion error.
pub open spec fn ingest_error_message(e: IngestError) -> Seq<char> {
    match e {
        IngestError::Parse(e) => types::parse_error_message(e@),
        IngestError::Registry(e) => registry::registry_error_message(e),
        IngestError::Bitmap(e) => bitmap::bitmap_error_message(e),
        IngestError::Io(m) => "I/O error: "@ + m@,
        IngestError::NoParser(p) => "no parser found for: "@ + p@,
    }
}

impl IngestError {
    /// The message of the error.
    pub fn message(&self) -> (r: String)
        ensures
            r@ == ingest_error_message(*self),
    {
        match self {
            IngestError::Parse(e) => e.message(),
            IngestError::Registry(e) => e.message(),
            IngestError::Bitmap(e) => e.message(),
            IngestError::Io(m) => text::concat("I/O error: ", m.as_str()),
            IngestError::NoParser(p) => text::concat("no parser found for: ", p.as_str()),
        }
    }
}

/// What was done for a file.
#[derive(Clone, Copy, Debug, PartialEq, Eq, Structural)]
pub enum IngestAction {
    Indexed,
    Updated,
    Skipped,
    Tombstoned,
    Moved,
}

/// Result of a change event.
#[derive(Clone, Copy, Debug, PartialEq, Eq, Structural)]
pub struct IngestResult {
    pub action: IngestAction,
    pub bitmaps_updated: u32,
}

/// Result of indexing a directory.
#[derive(Clone, Copy, Debug, PartialEq, Eq, Structural)]
pub struct BulkIndexResult {
    pub docs_indexed: u32,
    pub docs_updated: u32,
    pub docs_skipped: u32,
    pub docs_tombstoned: u32,
    pub bitmaps_created: u32,
    pub duration_ms: u64,
}

/// Result of a compaction.
#[derive(Clone, Copy, Debug, PartialEq, Eq, Structural)]
pub struct CompactResult {
    pub docs_removed: u32,
    pub bitmaps_cleaned: u32,
    pub duration_ms: u64,
}

/// A count in 32 bits.
pub open spec fn count_of(n: nat) -> u32 {
    (n % 0x1_0000_0000) as u32
}

fn count(n: usize) -> (r: u32)
    ensures
        r == count_of(n as nat),
{
    (n as u64 % 0x1_0000_0000) as u32
}

// ── The index and its changes ───────────────────────────────────────────────

/// What a pipeline holds.
pub struct PipelineView {
    pub parsers: Seq<Box<dyn Parser>>,
    pub records: RegistryState,
    pub bitmaps: Map<Seq<char>, Set<u32>>,
    pub tagger: Option<TagPipeline>,
    /// Whether registry and store fail for no reason of their own.
    pub infallible: bool,
}

/// The first parser, from `i` on, that handles a path.
pub open spec fn parser_from(parsers: Seq<Box<dyn Parser>>, path: Seq<char>, i: int) -> Option<int>
    decreases parsers.len() - i,
{
    if i < 0 || i >= parsers.len() {
        None
    } else if parsers[i].handles(path) {
        Some(i)
    } else {
        parser_from(parsers, path, i + 1)
    }
}

/// The first parser that handles a path.
pub open spec fn parser_for(parsers: Seq<Box<dyn Parser>>, path: Seq<char>) -> Option<int> {
    parser_from(parsers, path, 0)
}

/// What the parser of a path makes of a content.
pub open spec fn parsed_as(
    parsers: Seq<Box<dyn Parser>>,
    path: Seq<char>,
    content: Seq<u8>,
) -> Result<ParseView, ParseErrorView> {
    parsers[parser_for(parsers, path)->Some_0].outcome(path, content)
}

/// Whether keys are those of a document, with what the taggers infer. Where their cache cannot be
/// read, nothing is inferred.
pub open spec fn keys_follow(
    tagger: Option<TagPipeline>,
    path: Seq<char>,
    content: Seq<u8>,
    source: SourceTypeView,
    parsed: ParseView,
    keys: Seq<Seq<char>>,
) -> bool {
    match tagger {
        None => keys == keys_spec(path, source, parsed),
        Some(p) => keys == keys_spec(path, source, parsed) + p.enriched(
            path,
            content,
            parsed,
            source,
        ) || (keys == keys_spec(path, source, parsed) && !p.infallible() && !p.forced() && exists|
            e: EnrichError,
        | #[trigger]
            p.read_fails(hash::hex_spec(hash::blake3_digest(content)), e)),
    }
}

/// What the taggers become when they were asked about a file: their cache holds what they infer. A
/// cache that fails stays as it is.
pub open spec fn tagged(
    before: Option<TagPipeline>,
    after: Option<TagPipeline>,
    path: Seq<char>,
    content: Seq<u8>,
    source: SourceTypeView,
    parsed: ParseView,
) -> bool {
    match (before, after) {
        (None, None) => true,
        (Some(p), Some(q)) => {
            &&& q.taggers() == p.taggers()
            &&& q.forced() == p.forced()
            &&& q.infallible() == p.infallible()
            &&& p.hits(content) ==> q.cached() == p.cached()
            &&& !p.hits(content) ==> enrich::stored(
                p.cached(),
                q.cached(),
                hash::hex_spec(hash::blake3_digest(content)),
                p.own_hash(),
                p.fresh_results(path, content, parsed, source),
            ) || !p.infallible() && q.cached() == p.cached()
        },
        _ => false,
    }
}

/// A document is added to the bitmaps of keys.
pub open spec fn with_keys(m: Map<Seq<char>, Set<u32>>, keys: Seq<Seq<char>>, id: DocId) -> Map<
    Seq<char>,
    Set<u32>,
> {
    Map::new(
        |k: Seq<char>| m.dom().contains(k) || keys.contains(k),
        |k: Seq<char>|
            if keys.contains(k) {
                bitmap::bitmap_at(m, k).insert(id)
            } else {
                m[k]
            },
    )
}

/// A document stands in the bitmaps of keys, and in no other but the tombstones.
pub open spec fn with_exact_keys(
    m: Map<Seq<char>, Set<u32>>,
    keys: Seq<Seq<char>>,
    id: DocId,
) -> Map<Seq<char>, Set<u32>> {
    Map::new(
        |k: Seq<char>| m.dom().contains(k) || keys.contains(k),
        |k: Seq<char>|
            if keys.contains(k) {
                bitmap::bitmap_at(m, k).insert(id)
            } else if bitmap::is_listed(k, None) {
                m[k].remove(id)
            } else {
                m[k]
            },
    )
}

/// A document stands in the bitmaps of keys, and leaves those among the ones seen to hold it.
pub open spec fn with_seen_keys(
    m: Map<Seq<char>, Set<u32>>,
    keys: Seq<Seq<char>>,
    seen: Set<Seq<char>>,
    id: DocId,
) -> Map<Seq<char>, Set<u32>> {
    Map::new(
        |k: Seq<char>| m.dom().contains(k) || keys.contains(k),
        |k: Seq<char>|
            if keys.contains(k) {
                bitmap::bitmap_at(m, k).insert(id)
            } else if seen.contains(k) {
                m[k].remove(id)
            } else {
                m[k]
            },
    )
}

/// Whether keys are those that are seen to hold a document. A bitmap that cannot be read is passed
/// over, which happens on a backend that may fail only.
pub open spec fn is_seen(before: PipelineView, id: DocId, seen: Set<Seq<char>>) -> bool {
    &&& seen.subset_of(keys_holding(before.bitmaps, id))
    &&& before.infallible ==> seen == keys_holding(before.bitmaps, id)
}

/// The listed keys under which a document stands.
pub open spec fn keys_holding(m: Map<Seq<char>, Set<u32>>, id: DocId) -> Set<Seq<char>> {
    m.dom().filter(|k: Seq<char>| bitmap::is_listed(k, None) && m[k].contains(id))
}

/// A document is deleted: it joins the tombstones, and leaves all other bitmaps.
pub open spec fn buried(m: Map<Seq<char>, Set<u32>>, id: DocId) -> Map<Seq<char>, Set<u32>> {
    Map::new(
        |k: Seq<char>| m.dom().contains(k) || k == bitmap::tombstone_key(),
        |k: Seq<char>|
            if k == bitmap::tombstone_key() {
                bitmap::bitmap_at(m, k).insert(id)
            } else {
                m[k].remove(id)
            },
    )
}

/// Whether a document to register is that of a path and a content.
pub open spec fn is_new_doc(
    doc: NewDoc,
    path: Seq<char>,
    content: Seq<u8>,
    auto_type: Option<DocType>,
) -> bool {
    &&& doc.file_path@ == path
    &&& doc.source_type@ == SourceTypeView::Obsidian
    &&& doc.blake3_hash@ == hash::blake3_digest(content)
    &&& doc.auto_type == auto_type
}

/// Whether a chunk to register is a parsed one. Byte offsets are taken in 32 bits.
pub open spec fn is_new_chunk(c: NewChunk, id: DocId, parsed: ChunkView) -> bool {
    &&& c.doc_id == id
    &&& c.kind == parsed.kind
    &&& c.byte_start == count_of(parsed.start as nat)
    &&& c.byte_end == count_of(parsed.end as nat)
    &&& types::text_of(c.label) == parsed.label
    &&& c.depth == parsed.depth
    &&& c.metadata@ == parsed.metadata
}

/// Whether chunks to register are the parsed ones.
pub open spec fn are_new_chunks(cs: Seq<NewChunk>, id: DocId, parsed: Seq<ChunkView>) -> bool {
    &&& cs.len() == parsed.len()
    &&& forall|i: int| 0 <= i < cs.len() ==> is_new_chunk(#[trigger] cs[i], id, parsed[i])
}

/// The records with a new document and its chunks.
pub open spec fn with_new(
    s: RegistryState,
    doc: NewDoc,
    now: Timestamp,
    cs: Seq<NewChunk>,
) -> RegistryState {
    registry::with_chunks(registry::with_doc(s, doc, now), s.next_doc_id, cs)
}

/// Whether records come of others by registering a parsed document.
pub open spec fn registered(
    s: RegistryState,
    t: RegistryState,
    path: Seq<char>,
    content: Seq<u8>,
    parsed: ParseView,
) -> bool {
    &&& s.next_doc_id < u32::MAX
    &&& s.next_chunk_id + parsed.chunks.len() <= u32::MAX
    &&& exists|doc: NewDoc, now: Timestamp, cs: Seq<NewChunk>|
        is_new_doc(doc, path, content, parsed.auto_type) && are_new_chunks(
            cs,
            s.next_doc_id,
            parsed.chunks,
        ) && t == #[trigger] with_new(s, doc, now, cs)
}

/// The records with a document and its chunks replaced.
pub open spec fn with_changed(
    s: RegistryState,
    id: DocId,
    digest: [u8; 32],
    auto_type: Option<DocType>,
    now: Timestamp,
    cs: Seq<NewChunk>,
) -> RegistryState {
    registry::with_chunks(registry::with_update(s, id, digest, auto_type, now), id, cs)
}

/// Whether records come of others by replacing a document by a parsed one.
pub open spec fn reregistered(
    s: RegistryState,
    t: RegistryState,
    id: DocId,
    content: Seq<u8>,
    parsed: ParseView,
) -> bool {
    &&& s.next_chunk_id + parsed.chunks.len() <= u32::MAX
    &&& exists|digest: [u8; 32], now: Timestamp, cs: Seq<NewChunk>|
        digest@ == hash::blake3_digest(content) && are_new_chunks(cs, id, parsed.chunks) && t
            == #[trigger] with_changed(s, id, digest, parsed.auto_type, now, cs)
}

/// Whether nothing changed.
pub open spec fn unchanged(before: PipelineView, after: PipelineView) -> bool {
    before.records == after.records && before.bitmaps == after.bitmaps
}

/// Whether a document is registered under a path.
pub open spec fn is_known(s: RegistryState, path: Seq<char>) -> bool {
    s.paths.dom().contains(paths::normal_spec(path))
}

/// The document under a path.
pub open spec fn id_at(s: RegistryState, path: Seq<char>) -> DocId {
    s.paths[paths::normal_spec(path)]
}

/// Whether a document has a content, as far as its digest tells.
pub open spec fn has_content(s: RegistryState, id: DocId, content: Seq<u8>) -> bool {
    s.docs[id].blake3_hash@ == hash::blake3_digest(content)
}

/// What reading a file gave, with strings taken as texts.
pub open spec fn read_view(content: Result<Vec<u8>, String>) -> Result<Seq<u8>, Seq<char>> {
    match content {
        Ok(v) => Ok(v@),
        Err(e) => Err(e@),
    }
}

/// What comes of a file that cannot be parsed: there is no parser, it was not read, or its content
/// does not parse.
pub open spec fn refused(
    before: PipelineView,
    path: Seq<char>,
    content: Result<Seq<u8>, Seq<char>>,
    e: IngestError,
) -> bool {
    match e {
        IngestError::NoParser(p) => p@ == path && parser_for(before.parsers, path) is None,
        IngestError::Io(m) => parser_for(before.parsers, path) is Some && content == Err::<
            Seq<u8>,
            Seq<char>,
        >(m@),
        IngestError::Parse(e) => parser_for(before.parsers, path) is Some && content is Ok
            && parsed_as(before.parsers, path, content->Ok_0) == Err::<ParseView, ParseErrorView>(
            e@,
        ),
        _ => false,
    }
}

/// Whether a file has a parser, was read and parses.
pub open spec fn is_parsed(
    before: PipelineView,
    path: Seq<char>,
    content: Result<Seq<u8>, Seq<char>>,
) -> bool {
    parser_for(before.parsers, path) is Some && content is Ok && parsed_as(
        before.parsers,
        path,
        content->Ok_0,
    ) is Ok
}

/// What a created file brings about. A document is registered with its chunks, and added to the
/// bitmaps of its keys.
pub open spec fn on_created(
    before: PipelineView,
    after: PipelineView,
    path: Seq<char>,
    content: Result<Seq<u8>, Seq<char>>,
    r: Result<IngestResult, IngestError>,
) -> bool {
    match r {
        Ok(i) => {
            let c = content->Ok_0;
            let parsed = parsed_as(before.parsers, path, c)->Ok_0;
            &&& is_parsed(before, path, content)
            &&& !is_known(before.records, path)
            &&& i.action == IngestAction::Indexed
            &&& registered(before.records, after.records, path, c, parsed)
            &&& tagged(
                before.tagger,
                after.tagger,
                path,
                c,
                SourceTypeView::Obsidian,
                parsed,
            )
            &&& exists|keys: Seq<Seq<char>>|
                #![trigger with_keys(before.bitmaps, keys, before.records.next_doc_id)]
                keys_follow(before.tagger, path, c, SourceTypeView::Obsidian, parsed, keys)
                    && i.bitmaps_updated == count_of(keys.len()) && after.bitmaps == with_keys(
                    before.bitmaps,
                    keys,
                    before.records.next_doc_id,
                )
        },
        Err(IngestError::Registry(RegistryError::DuplicatePath(p))) => is_parsed(
            before,
            path,
            content,
        ) && is_known(before.records, path) && p@ == path && unchanged(before, after),
        Err(IngestError::Registry(RegistryError::NotFound(_))) => false,
        Err(IngestError::Registry(RegistryError::Database(_))) => is_parsed(before, path, content)
            && (before.infallible ==> lacks_ids(
            before.records,
            parsed_as(before.parsers, path, content->Ok_0)->Ok_0.chunks.len(),
        )) && half_registered(
            before.records,
            after.records,
            path,
            content->Ok_0,
            parsed_as(before.parsers, path, content->Ok_0)->Ok_0,
        ) && after.bitmaps == before.bitmaps && after.tagger == before.tagger,
        Err(IngestError::Bitmap(_)) => !before.infallible && is_parsed(before, path, content)
            && !is_known(before.records, path) && registered(
            before.records,
            after.records,
            path,
            content->Ok_0,
            parsed_as(before.parsers, path, content->Ok_0)->Ok_0,
        ) && partly_added(
            before,
            after,
            path,
            content->Ok_0,
            parsed_as(before.parsers, path, content->Ok_0)->Ok_0,
            before.records.next_doc_id,
        ),
        Err(e) => refused(before, path, content, e) && unchanged(before, after) && after.tagger
            == before.tagger,
    }
}

/// Whether bitmaps are on the way from some to others: each document is in each bitmap as before, or
/// as in the end.
pub open spec fn is_between(
    from: Map<Seq<char>, Set<u32>>,
    to: Map<Seq<char>, Set<u32>>,
    m: Map<Seq<char>, Set<u32>>,
) -> bool {
    forall|k: Seq<char>, x: DocId|
        #![trigger bitmap::bitmap_at(m, k).contains(x)]
        bitmap::bitmap_at(m, k).contains(x) == bitmap::bitmap_at(from, k).contains(x)
            || bitmap::bitmap_at(m, k).contains(x) == bitmap::bitmap_at(to, k).contains(x)
}

/// Whether records come of others by registering a parsed document without its chunks, or are the
/// same.
pub open spec fn half_registered(
    s: RegistryState,
    t: RegistryState,
    path: Seq<char>,
    content: Seq<u8>,
    parsed: ParseView,
) -> bool {
    t == s || exists|doc: NewDoc, now: Timestamp|
        is_new_doc(doc, path, content, parsed.auto_type) && t == #[trigger] registry::with_doc(
            s,
            doc,
            now,
        )
}

/// Whether records come of others by replacing a document, but not its chunks, or are the same.
pub open spec fn half_changed(
    s: RegistryState,
    t: RegistryState,
    id: DocId,
    content: Seq<u8>,
    parsed: ParseView,
) -> bool {
    t == s || exists|digest: [u8; 32], now: Timestamp|
        digest@ == hash::blake3_digest(content) && t == #[trigger] registry::with_update(
            s,
            id,
            digest,
            parsed.auto_type,
            now,
        )
}

/// Whether a document is on the way into the bitmaps of its keys.
pub open spec fn partly_added(
    before: PipelineView,
    after: PipelineView,
    path: Seq<char>,
    content: Seq<u8>,
    parsed: ParseView,
    id: DocId,
) -> bool {
    &&& tagged(
        before.tagger,
        after.tagger,
        path,
        content,
        SourceTypeView::Obsidian,
        parsed,
    )
    &&& exists|keys: Seq<Seq<char>>|
        #![trigger with_keys(before.bitmaps, keys, id)]
        keys_follow(before.tagger, path, content, SourceTypeView::Obsidian, parsed, keys)
            && is_between(before.bitmaps, with_keys(before.bitmaps, keys, id), after.bitmaps)
}

/// Whether a document is on the way from the bitmaps that hold it to those of its keys, or is there
/// where `done` says so.
pub open spec fn partly_moved(
    before: PipelineView,
    after: PipelineView,
    path: Seq<char>,
    content: Seq<u8>,
    parsed: ParseView,
    id: DocId,
    done: bool,
) -> bool {
    &&& tagged(
        before.tagger,
        after.tagger,
        path,
        content,
        SourceTypeView::Obsidian,
        parsed,
    )
    &&& exists|keys: Seq<Seq<char>>, seen: Set<Seq<char>>|
        #![trigger with_seen_keys(before.bitmaps, keys, seen, id)]
        keys_follow(before.tagger, path, content, SourceTypeView::Obsidian, parsed, keys)
            && is_seen(before, id, seen) && is_between(
            before.bitmaps,
            with_seen_keys(before.bitmaps, keys, seen, id),
            after.bitmaps,
        ) && (done ==> after.bitmaps == with_seen_keys(before.bitmaps, keys, seen, id))
}

/// Whether the registry did not answer, and its error is handed on.
pub open spec fn lookup_failed(
    before: PipelineView,
    after: PipelineView,
    r: Result<IngestResult, IngestError>,
) -> bool {
    &&& !before.infallible
    &&& r matches Err(IngestError::Registry(_))
    &&& unchanged(before, after)
    &&& after.tagger == before.tagger
}

/// Whether there are not enough ids for a new document, or for its chunks.
pub open spec fn lacks_ids(s: RegistryState, chunks: nat) -> bool {
    s.next_doc_id == u32::MAX || s.next_chunk_id + chunks > u32::MAX
}

/// What a modified file brings about. An unknown file counts as created, and an unchanged one is
/// skipped. Otherwise the document is replaced, and stands in the bitmaps of its keys alone.
pub open spec fn on_modified(
    before: PipelineView,
    after: PipelineView,
    path: Seq<char>,
    content: Result<Seq<u8>, Seq<char>>,
    r: Result<IngestResult, IngestError>,
) -> bool {
    if parser_for(before.parsers, path) is None || content is Err || !is_known(
        before.records,
        path,
    ) {
        on_created(before, after, path, content, r) || lookup_failed(before, after, r) && parser_for(
            before.parsers,
            path,
        ) is Some && content is Ok
    } else {
        let id = id_at(before.records, path);
        let c = content->Ok_0;
        match r {
            Ok(i) => if has_content(before.records, id, c) {
                i == (IngestResult { action: IngestAction::Skipped, bitmaps_updated: 0 })
                    && unchanged(before, after) && after.tagger == before.tagger
            } else {
                let parsed = parsed_as(before.parsers, path, c)->Ok_0;
                &&& is_parsed(before, path, content)
                &&& i.action == IngestAction::Updated
                &&& reregistered(before.records, after.records, id, c, parsed)
                &&& tagged(
                    before.tagger,
                    after.tagger,
                    path,
                    c,
                    SourceTypeView::Obsidian,
                    parsed,
                )
                &&& exists|keys: Seq<Seq<char>>, seen: Set<Seq<char>>|
                    #![trigger with_seen_keys(before.bitmaps, keys, seen, id)]
                    keys_follow(before.tagger, path, c, SourceTypeView::Obsidian, parsed, keys)
                        && is_seen(before, id, seen) && i.bitmaps_updated == count_of(
                        seen.difference(keys.to_set()).len() + keys.to_set().difference(seen).len(),
                    ) && after.bitmaps == with_seen_keys(before.bitmaps, keys, seen, id)
            },
            Err(IngestError::Parse(e)) => !has_content(before.records, id, c) && refused(
                before,
                path,
                content,
                IngestError::Parse(e),
            ) && unchanged(before, after),
            Err(IngestError::Registry(e)) => lookup_failed(before, after, r) || {
                &&& e is Database
                &&& !has_content(before.records, id, c)
                &&& is_parsed(before, path, content)
                &&& before.infallible ==> before.records.next_chunk_id + parsed_as(
                    before.parsers,
                    path,
                    c,
                )->Ok_0.chunks.len() > u32::MAX
                &&& half_changed(
                    before.records,
                    after.records,
                    id,
                    c,
                    parsed_as(before.parsers, path, c)->Ok_0,
                )
                &&& partly_moved(
                    before,
                    after,
                    path,
                    c,
                    parsed_as(before.parsers, path, c)->Ok_0,
                    id,
                    true,
                )
            },
            Err(IngestError::Bitmap(_)) => !before.infallible && !has_content(
                before.records,
                id,
                c,
            ) && is_parsed(before, path, content) && after.records == before.records
                && partly_moved(
                before,
                after,
                path,
                c,
                parsed_as(before.parsers, path, c)->Ok_0,
                id,
                false,
            ),
            Err(_) => false,
        }
    }
}

/// What a deleted file brings about. Its document joins the tombstones.
pub open spec fn on_deleted(
    before: PipelineView,
    after: PipelineView,
    path: Seq<char>,
    r: Result<IngestResult, IngestError>,
) -> bool {
    match r {
        Ok(i) => {
            let id = id_at(before.records, path);
            &&& is_known(before.records, path)
            &&& i.action == IngestAction::Tombstoned
            &&& i.bitmaps_updated == count_of(keys_holding(before.bitmaps, id).len())
            &&& after.records == before.records
            &&& after.bitmaps == buried(before.bitmaps, id)
            &&& after.tagger == before.tagger
        },
        Err(IngestError::Registry(e)) => lookup_failed(before, after, r) || {
            &&& e == RegistryError::NotFound(0)
            &&& !is_known(before.records, path)
            &&& unchanged(before, after)
        },
        Err(IngestError::Bitmap(_)) => !before.infallible && is_known(before.records, path)
            && after.records == before.records && after.tagger == before.tagger && is_between(
            before.bitmaps,
            buried(before.bitmaps, id_at(before.records, path)),
            after.bitmaps,
        ),
        Err(_) => false,
    }
}

/// What a renamed file brings about. Its document keeps its id, and moves to the bitmap of its new
/// folder.
pub open spec fn on_renamed(
    before: PipelineView,
    after: PipelineView,
    from: Seq<char>,
    to: Seq<char>,
    r: Result<IngestResult, IngestError>,
) -> bool {
    match r {
        Ok(i) => {
            let id = id_at(before.records, from);
            &&& is_known(before.records, from)
            &&& i.action == IngestAction::Moved
            &&& after.tagger == before.tagger
            &&& exists|path: String|
                path@ == to && after.records == #[trigger] registry::with_path(
                    before.records,
                    id,
                    path,
                )
            &&& if folder_key_spec(from) == folder_key_spec(to) {
                i.bitmaps_updated == 0 && after.bitmaps == before.bitmaps
            } else {
                i.bitmaps_updated == 2 && after.bitmaps == with_folder(
                    before.bitmaps,
                    folder_key_spec(from),
                    folder_key_spec(to),
                    id,
                )
            }
        },
        Err(IngestError::Registry(e)) => lookup_failed(before, after, r) || {
            &&& e == RegistryError::NotFound(0)
            &&& !is_known(before.records, from)
            &&& unchanged(before, after)
        },
        Err(IngestError::Bitmap(_)) => !before.infallible && is_known(before.records, from)
            && folder_key_spec(from) != folder_key_spec(to) && after.tagger == before.tagger
            && exists|path: String|
            path@ == to && after.records == #[trigger] registry::with_path(
                before.records,
                id_at(before.records, from),
                path,
            ) && is_between(
                before.bitmaps,
                with_folder(
                    before.bitmaps,
                    folder_key_spec(from),
                    folder_key_spec(to),
                    id_at(before.records, from),
                ),
                after.bitmaps,
            ),
        Err(_) => false,
    }
}

/// A document moves from one bitmap to another.
pub open spec fn with_folder(
    m: Map<Seq<char>, Set<u32>>,
    from: Seq<char>,
    to: Seq<char>,
    id: DocId,
) -> Map<Seq<char>, Set<u32>> {
    let left = if m.dom().contains(from) {
        m.insert(from, m[from].remove(id))
    } else {
        m
    };
    left.insert(to, bitmap::bitmap_at(left, to).insert(id))
}

// ── The pipeline ────────────────────────────────────────────────────────────

/// Keeps registry and bitmap store in step with files, by means of parsers and taggers.
pub struct IngestionPipeline {
    parts: (Vec<Box<dyn Parser>>, Box<dyn Registry>, Box<dyn BitmapStore>),
    tag_pipeline: Option<TagPipeline>,
}

impl View for IngestionPipeline {
    type V = PipelineView;

    closed spec fn view(&self) -> PipelineView {
        PipelineView {
            parsers: self.parts.0@,
            records: self.parts.1.state(),
            bitmaps: self.parts.2.bitmaps(),
            tagger: self.tag_pipeline,
            infallible: self.parts.1.infallible() && self.parts.2.infallible(),
        }
    }
}

/// The chunks of a parse result, to be registered for a document.
pub fn chunks_to_new(doc_id: DocId, result: &ParseResult) -> (r: Vec<NewChunk>)
    ensures
        are_new_chunks(r@, doc_id, result@.chunks),
{
    let mut out: Vec<NewChunk> = Vec::new();
    let mut i: usize = 0;
    while i < result.chunks.len()
        invariant
            i <= result.chunks@.len(),
            out@.len() == i,
            forall|j: int|
                0 <= j < i ==> is_new_chunk(#[trigger] out@[j], doc_id, result@.chunks[j]),
        decreases result.chunks@.len() - i,
    {
        let c = &result.chunks[i];
        assert(result@.chunks[i as int] == c@);
        let n = NewChunk {
            doc_id,
            kind: c.kind,
            byte_start: count(c.byte_range.start),
            byte_end: count(c.byte_range.end),
            label: types::clone_text(&c.label),
            depth: c.depth,
            metadata: c.metadata.clone(),
        };
        assert(is_new_chunk(n, doc_id, result@.chunks[i as int]));
        out.push(n);
        i += 1;
    }
    out
}

impl IngestionPipeline {
    /// What holds of the pipeline between operations.
    pub closed spec fn wf(&self) -> bool {
        &&& self.parts.1.wf()
        &&& registry::valid_state(self.parts.1.state())
        &&& self.parts.2.wf()
        &&& (self.tag_pipeline matches Some(p) ==> p.wf())
    }

    /// A pipeline over parsers, a registry and a bitmap store.
    pub fn new(
        parsers: Vec<Box<dyn Parser>>,
        registry: Box<dyn Registry>,
        bitmap_store: Box<dyn BitmapStore>,
    ) -> (r: Self)
        requires
            registry.wf(),
            registry::valid_state(registry.state()),
            bitmap_store.wf(),
        ensures
            r.wf(),
            r@.parsers == parsers@,
            r@.records == registry.state(),
            r@.bitmaps == bitmap_store.bitmaps(),
            r@.infallible == (registry.infallible() && bitmap_store.infallible()),
            r@.tagger is None,
    {
        let parts = (parsers, registry, bitmap_store);
        IngestionPipeline { parts, tag_pipeline: None }
    }

    /// A pipeline over parts that are kept together, as they are handed back.
    pub fn over(parts: (Vec<Box<dyn Parser>>, Box<dyn Registry>, Box<dyn BitmapStore>)) -> (r: Self)
        requires
            parts.1.wf(),
            registry::valid_state(parts.1.state()),
            parts.2.wf(),
        ensures
            r.wf(),
            r@.parsers == parts.0@,
            r@.records == parts.1.state(),
            r@.bitmaps == parts.2.bitmaps(),
            r@.infallible == (parts.1.infallible() && parts.2.infallible()),
            r@.tagger is None,
    {
        IngestionPipeline { parts, tag_pipeline: None }
    }

    /// Sets the enrichment pipeline, whose tags are added to the bitmap keys.
    pub fn with_tag_pipeline(self, pipeline: TagPipeline) -> (r: Self)
        requires
            self.wf(),
            pipeline.wf(),
        ensures
            r.wf(),
            r@ == (PipelineView { tagger: Some(pipeline), ..self@ }),
    {
        IngestionPipeline { parts: self.parts, tag_pipeline: Some(pipeline) }
    }

    /// Hands the parts back, as for a query engine.
    pub fn into_parts(self) -> (r: (Vec<Box<dyn Parser>>, Box<dyn Registry>, Box<dyn BitmapStore>))
        requires
            self.wf(),
        ensures
            r.0@ == self@.parsers,
            r.1.wf(),
            r.1.state() == self@.records,
            r.2.wf(),
            r.2.bitmaps() == self@.bitmaps,
            (r.1.infallible() && r.2.infallible()) == self@.infallible,
    {
        self.parts
    }

    /// What the taggers' cache holds for a content.
    pub fn cached_tags(&self, content: &[u8]) -> (r: Result<Option<EnrichmentCache>, EnrichError>)
        requires
            self.wf(),
        ensures
            match self@.tagger {
                Some(p) => enrich::is_cached(p, hash::hex_spec(hash::blake3_digest(content@)), r),
                None => r == Ok::<Option<EnrichmentCache>, EnrichError>(None),
            },
    {
        match &self.tag_pipeline {
            Some(p) => {
                let digest = hash::blake3_of(content);
                let content_hash = hash::to_hex(&digest);
                p.cached_entry(content_hash.as_str())
            },
            None => Ok(None),
        }
    }

    /// The first parser that handles a path.
    fn find_parser(&self, path: &str) -> (r: Option<usize>)
        ensures
            match r {
                Some(i) => parser_for(self@.parsers, path@) == Some(i as int) && i
                    < self@.parsers.len(),
                None => parser_for(self@.parsers, path@) is None,
            },
    {
        let mut i: usize = 0;
        while i < self.parts.0.len()
            invariant
                i <= self.parts.0@.len(),
                parser_from(self.parts.0@, path@, 0) == parser_from(
                    self.parts.0@,
                    path@,
                    i as int,
                ),
            decreases self.parts.0@.len() - i,
        {
            if self.parts.0[i].can_parse(path) {
                return Some(i);
            }
            i += 1;
        }
        None
    }

    /// The bitmap keys of a document, with what the taggers infer.
    fn enriched_bitmap_keys(
        &mut self,
        path: &str,
        content: &[u8],
        source: &SourceType,
        result: &ParseResult,
    ) -> (r: Vec<BitmapKey>)
        requires
            old(self).wf(),
        ensures
            final(self).wf(),
            final(self)@.parsers == old(self)@.parsers,
            unchanged(old(self)@, final(self)@),
            final(self)@.infallible == old(self)@.infallible,
            tagged(
                old(self)@.tagger,
                final(self)@.tagger,
                path@,
                content@,
                source@,
                result@,
            ),
            keys_follow(
                old(self)@.tagger,
                path@,
                content@,
                source@,
                result@,
                r.deep_view(),
            ),
    {
        let mut keys = bitmap_keys_for(path, source, result);
        let ghost base = keys.deep_view();
        match &mut self.tag_pipeline {
            Some(p) => {
                match p.enrich(path, content, result, source) {
                    Ok(mut inferred) => {
                        let ghost extra = inferred.deep_view();
                        keys.append(&mut inferred);
                        assert(keys.deep_view() =~= base + extra);
                    },
                    Err(_) => {},
                }
            },
            None => {},
        }
        keys
    }

    /// Adds a document to the bitmaps of keys.
    fn add_to_keys(&mut self, keys: &Vec<BitmapKey>, id: DocId) -> (r: Result<(), IngestError>)
        requires
            old(self).wf(),
        ensures
            final(self).wf(),
            final(self)@.parsers == old(self)@.parsers,
            final(self)@.records == old(self)@.records,
            final(self)@.tagger == old(self)@.tagger,
            final(self)@.infallible == old(self)@.infallible,
            old(self)@.infallible ==> r is Ok,
            match r {
                Ok(()) => final(self)@.bitmaps == with_keys(
                    old(self)@.bitmaps,
                    keys.deep_view(),
                    id,
                ),
                Err(e) => e is Bitmap && is_between(
                    old(self)@.bitmaps,
                    with_keys(old(self)@.bitmaps, keys.deep_view(), id),
                    final(self)@.bitmaps,
                ),
            },
    {
        let ghost m0 = self@.bitmaps;
        let ghost ks = keys.deep_view();
        let mut i: usize = 0;
        proof {
            assert(ks.take(0) =~= Seq::<Seq<char>>::empty());
            assert(with_keys(m0, ks.take(0), id) =~= m0);
        }
        while i < keys.len()
            invariant
                self.wf(),
                self@.parsers == old(self)@.parsers,
                self@.records == old(self)@.records,
                self@.tagger == old(self)@.tagger,
                self@.infallible == old(self)@.infallible,
                m0 == old(self)@.bitmaps,
                ks == keys.deep_view(),
                i <= keys@.len(),
                self@.bitmaps == with_keys(m0, ks.take(i as int), id),
            decreases keys@.len() - i,
        {
            let ghost before = self@.bitmaps;
            match self.parts.2.insert_id(keys[i].as_str(), id) {
                Ok(()) => {},
                Err(e) => {
                    proof {
                        lemma_partly_added(m0, ks, id, i as int);
                    }
                    return Err(IngestError::Bitmap(e));
                },
            }
            proof {
                let k0 = ks[i as int];
                assert(k0 == keys@[i as int]@);
                let t = ks.take(i as int);
                assert(ks.take(i + 1) =~= t.push(k0));
                assert forall|k: Seq<char>| #[trigger]
                    ks.take(i + 1).contains(k) <==> t.contains(k) || k == k0 by {
                    bitmap::lemma_push_contains(t, k0, k);
                }
                assert(bitmap::bitmap_at(before, k0).insert(id) =~= bitmap::bitmap_at(
                    m0,
                    k0,
                ).insert(id));
                assert(self@.bitmaps =~= with_keys(m0, ks.take(i + 1), id));
            }
            i += 1;
        }
        assert(ks.take(i as int) =~= ks);
        Ok(())
    }

    /// Registers a parsed document, and adds it to the bitmaps of its keys.
    fn index_new(&mut self, path: &str, content: &[u8], result: &ParseResult) -> (r: Result<
        Vec<BitmapKey>,
        IngestError,
    >)
        requires
            old(self).wf(),
        ensures
            final(self).wf(),
            final(self)@.parsers == old(self)@.parsers,
            final(self)@.infallible == old(self)@.infallible,
            final(self)@.tagger is Some == old(self)@.tagger is Some,
            match r {
                Ok(keys) => {
                    &&& !is_known(old(self)@.records, path@)
                    &&& registered(
                        old(self)@.records,
                        final(self)@.records,
                        path@,
                        content@,
                        result@,
                    )
                    &&& tagged(
                        old(self)@.tagger,
                        final(self)@.tagger,
                        path@,
                        content@,
                        SourceTypeView::Obsidian,
                        result@,
                    )
                    &&& keys_follow(
                        old(self)@.tagger,
                        path@,
                        content@,
                        SourceTypeView::Obsidian,
                        result@,
                        keys.deep_view(),
                    )
                    &&& final(self)@.bitmaps == with_keys(
                        old(self)@.bitmaps,
                        keys.deep_view(),
                        old(self)@.records.next_doc_id,
                    )
                },
                Err(IngestError::Registry(RegistryError::DuplicatePath(p))) => p@ == path@
                    && is_known(old(self)@.records, path@) && unchanged(old(self)@, final(self)@)
                    && final(self)@.tagger == old(self)@.tagger,
                Err(IngestError::Registry(RegistryError::Database(_))) => (old(self)@.infallible
                    ==> lacks_ids(old(self)@.records, result@.chunks.len())) && half_registered(
                    old(self)@.records,
                    final(self)@.records,
                    path@,
                    content@,
                    result@,
                ) && final(self)@.bitmaps == old(self)@.bitmaps && final(self)@.tagger == old(
                    self,
                )@.tagger,
                Err(IngestError::Bitmap(_)) => !old(self)@.infallible && !is_known(
                    old(self)@.records,
                    path@,
                ) && registered(
                    old(self)@.records,
                    final(self)@.records,
                    path@,
                    content@,
                    result@,
                ) && partly_added(
                    old(self)@,
                    final(self)@,
                    path@,
                    content@,
                    result@,
                    old(self)@.records.next_doc_id,
                ),
                Err(_) => false,
            },
    {
        let digest = hash::blake3_of(content);
        let doc = NewDoc {
            file_path: path.to_owned(),
            source_type: SourceType::Obsidian,
            blake3_hash: digest,
            auto_type: result.auto_type,
        };
        let ghost s0 = self@.records;
        let id = match self.parts.1.insert_doc(doc) {
            Ok(id) => id,
            Err(e) => {
                return Err(IngestError::Registry(e));
            },
        };
        let ghost s1 = self@.records;
        let ghost now = choose|now: Timestamp| s1 == #[trigger] registry::with_doc(s0, doc, now);
        assert(is_new_doc(doc, path@, content@, result@.auto_type));
        let chunks = chunks_to_new(id, result);
        let ghost cs = chunks@;
        match self.parts.1.replace_chunks(id, chunks) {
            Ok(_) => {},
            Err(e) => {
                return Err(IngestError::Registry(e));
            },
        }
        proof {
            assert(are_new_chunks(cs, s0.next_doc_id, result@.chunks));
            assert(self@.records == with_new(s0, doc, now, cs));
            assert(registered(s0, self@.records, path@, content@, result@));
        }
        let keys = self.enriched_bitmap_keys(path, content, &SourceType::Obsidian, result);
        let ghost ks = keys.deep_view();
        assert(with_keys(old(self)@.bitmaps, ks, id) == with_keys(self@.bitmaps, ks, id));
        match self.add_to_keys(&keys, id) {
            Ok(()) => Ok(keys),
            Err(e) => Err(e),
        }
    }

    /// Handles a created file.
    fn handle_created(&mut self, path: &str, content: &Result<Vec<u8>, String>) -> (r: Result<
        IngestResult,
        IngestError,
    >)
        requires
            old(self).wf(),
        ensures
            final(self).wf(),
            final(self)@.parsers == old(self)@.parsers,
            final(self)@.infallible == old(self)@.infallible,
            on_created(old(self)@, final(self)@, path@, read_view(*content), r),
    {
        let p = match self.find_parser(path) {
            Some(p) => p,
            None => {
                return Err(IngestError::NoParser(path.to_owned()));
            },
        };
        let content = match content {
            Ok(c) => c,
            Err(m) => {
                return Err(IngestError::Io(m.clone()));
            },
        };
        let result = match self.parts.0[p].parse(path, content.as_slice()) {
            Ok(r) => r,
            Err(e) => {
                return Err(IngestError::Parse(e));
            },
        };
        let keys = match self.index_new(path, content.as_slice(), &result) {
            Ok(k) => k,
            Err(e) => {
                return Err(e);
            },
        };
        assert(keys.deep_view().len() == keys@.len());
        Ok(
            IngestResult {
                action: IngestAction::Indexed,
                bitmaps_updated: count(keys.len()),
            },
        )
    }
}

/// A document leaves the bitmaps of keys.
pub open spec fn without_keys(m: Map<Seq<char>, Set<u32>>, keys: Seq<Seq<char>>, id: DocId) -> Map<
    Seq<char>,
    Set<u32>,
> {
    Map::new(
        |k: Seq<char>| m.dom().contains(k),
        |k: Seq<char>|
            if keys.contains(k) {
                m[k].remove(id)
            } else {
                m[k]
            },
    )
}

/// The strings of one list that are not in another, each once.
fn missing_from(a: &Vec<String>, b: &Vec<String>) -> (r: Vec<String>)
    ensures
        r.deep_view().no_duplicates(),
        r.deep_view().to_set() == a.deep_view().to_set().difference(b.deep_view().to_set()),
{
    let ghost av = a.deep_view();
    let ghost bv = b.deep_view();
    let mut out: Vec<String> = Vec::new();
    let mut i: usize = 0;
    while i < a.len()
        invariant
            av == a.deep_view(),
            bv == b.deep_view(),
            i <= a@.len(),
            out.deep_view().no_duplicates(),
            forall|k: Seq<char>| #[trigger]
                out.deep_view().contains(k) <==> av.take(i as int).contains(k) && !bv.contains(k),
        decreases a@.len() - i,
    {
        let ghost k0 = av[i as int];
        let ghost before = out.deep_view();
        proof {
            assert(k0 == a@[i as int]@);
            let t = av.take(i as int);
            assert(av.take(i + 1) =~= t.push(k0));
            assert forall|k: Seq<char>| #[trigger]
                av.take(i + 1).contains(k) <==> t.contains(k) || k == k0 by {
                bitmap::lemma_push_contains(t, k0, k);
            }
        }
        if !text::contains_string(b, a[i].as_str()) {
            text::push_once(&mut out, a[i].clone());
            proof {
                text::lemma_add_once(before, k0);
                assert forall|k: Seq<char>| #[trigger] out.deep_view().contains(k) <==> before.contains(
                    k,
                ) || k == k0 by {
                    if before.contains(k) {
                        assert(text::add_once(before, k0).contains(k));
                    }
                    if out.deep_view().contains(k) {
                        assert(text::add_once(before, k0).contains(k));
                    }
                }
            }
        }
        i += 1;
    }
    proof {
        assert(av.take(i as int) =~= av);
        assert(out.deep_view().to_set() =~= av.to_set().difference(bv.to_set()));
    }
    out
}

proof fn lemma_partly_added(m: Map<Seq<char>, Set<u32>>, keys: Seq<Seq<char>>, id: DocId, n: int)
    requires
        0 <= n <= keys.len(),
    ensures
        is_between(m, with_keys(m, keys, id), with_keys(m, keys.take(n), id)),
{
    assert forall|k: Seq<char>| keys.take(n).contains(k) implies #[trigger] keys.contains(k) by {
        let i = keys.take(n).index_of(k);
        assert(keys[i] == k);
    }
}

proof fn lemma_partly_removed(m: Map<Seq<char>, Set<u32>>, keys: Seq<Seq<char>>, id: DocId, n: int)
    requires
        0 <= n <= keys.len(),
    ensures
        is_between(m, without_keys(m, keys, id), without_keys(m, keys.take(n), id)),
{
    assert forall|k: Seq<char>| keys.take(n).contains(k) implies #[trigger] keys.contains(k) by {
        let i = keys.take(n).index_of(k);
        assert(keys[i] == k);
    }
}

/// A document that joins the tombstones and leaves all other bitmaps is buried.
proof fn lemma_buried(
    m: Map<Seq<char>, Set<u32>>,
    marked: Map<Seq<char>, Set<u32>>,
    keys: Seq<Seq<char>>,
    id: DocId,
)
    requires
        marked == m.insert(
            bitmap::tombstone_key(),
            bitmap::bitmap_at(m, bitmap::tombstone_key()).insert(id),
        ),
        keys.to_set() == keys_holding(marked, id),
    ensures
        keys_holding(marked, id) == keys_holding(m, id),
        without_keys(marked, keys, id) == buried(m, id),
{
    assert(keys_holding(marked, id) =~= keys_holding(m, id));
    let a = without_keys(marked, keys, id);
    let b = buried(m, id);
    assert forall|k: Seq<char>| #[trigger] b.dom().contains(k) implies a[k] == b[k] by {
        assert(keys.to_set().contains(k) <==> keys.contains(k));
        assert(keys_holding(marked, id).contains(k) <==> keys.contains(k));
        assert(a[k] =~= b[k]);
    }
    assert(a =~= b);
}

proof fn lemma_partly_buried(
    m: Map<Seq<char>, Set<u32>>,
    marked: Map<Seq<char>, Set<u32>>,
    keys: Seq<Seq<char>>,
    id: DocId,
    p: Map<Seq<char>, Set<u32>>,
)
    requires
        marked == m.insert(
            bitmap::tombstone_key(),
            bitmap::bitmap_at(m, bitmap::tombstone_key()).insert(id),
        ),
        keys.to_set() == keys_holding(marked, id),
        is_between(marked, without_keys(marked, keys, id), p),
    ensures
        is_between(m, buried(m, id), p),
{
    lemma_buried(m, marked, keys, id);
    let to = buried(m, id);
    assert forall|k: Seq<char>, x: DocId|
        #![trigger bitmap::bitmap_at(p, k).contains(x)]
        bitmap::bitmap_at(p, k).contains(x) == bitmap::bitmap_at(m, k).contains(x)
            || bitmap::bitmap_at(p, k).contains(x) == bitmap::bitmap_at(to, k).contains(x) by {
        if k == bitmap::tombstone_key() {
            assert(bitmap::bitmap_at(marked, k).contains(x) == bitmap::bitmap_at(to, k).contains(x));
        } else {
            assert(bitmap::bitmap_at(marked, k) == bitmap::bitmap_at(m, k));
        }
    }
}

/// A document that is on the way out of bitmaps, or then on the way into others, is on the way to
/// where it is to stand.
proof fn lemma_partly_moved(
    m: Map<Seq<char>, Set<u32>>,
    keys: Seq<Seq<char>>,
    old_keys: Seq<Seq<char>>,
    removed: Seq<Seq<char>>,
    added: Seq<Seq<char>>,
    id: DocId,
    p: Map<Seq<char>, Set<u32>>,
)
    requires
        old_keys.to_set().subset_of(keys_holding(m, id)),
        removed.to_set() == old_keys.to_set().difference(keys.to_set()),
        added.to_set() == keys.to_set().difference(old_keys.to_set()),
        is_between(m, without_keys(m, removed, id), p) || is_between(
            without_keys(m, removed, id),
            with_keys(without_keys(m, removed, id), added, id),
            p,
        ),
    ensures
        is_between(m, with_seen_keys(m, keys, old_keys.to_set(), id), p),
{
    let w = without_keys(m, removed, id);
    let to = with_seen_keys(m, keys, old_keys.to_set(), id);
    lemma_seen_keys(m, keys, old_keys, removed, added, id);
    assert forall|k: Seq<char>, x: DocId|
        #![trigger bitmap::bitmap_at(p, k).contains(x)]
        bitmap::bitmap_at(p, k).contains(x) == bitmap::bitmap_at(m, k).contains(x)
            || bitmap::bitmap_at(p, k).contains(x) == bitmap::bitmap_at(to, k).contains(x) by {
        assert(added.to_set().contains(k) <==> added.contains(k));
        assert(removed.to_set().contains(k) <==> removed.contains(k));
        assert(keys.to_set().contains(k) <==> keys.contains(k));
        assert(old_keys.to_set().contains(k) <==> old_keys.contains(k));
        if old_keys.to_set().contains(k) {
            assert(keys_holding(m, id).contains(k));
        }
    }
}

proof fn lemma_seen_keys(
    m: Map<Seq<char>, Set<u32>>,
    keys: Seq<Seq<char>>,
    old_keys: Seq<Seq<char>>,
    removed: Seq<Seq<char>>,
    added: Seq<Seq<char>>,
    id: DocId,
)
    requires
        old_keys.to_set().subset_of(keys_holding(m, id)),
        removed.to_set() == old_keys.to_set().difference(keys.to_set()),
        added.to_set() == keys.to_set().difference(old_keys.to_set()),
    ensures
        with_keys(without_keys(m, removed, id), added, id) == with_seen_keys(
            m,
            keys,
            old_keys.to_set(),
            id,
        ),
{
    let a = with_keys(without_keys(m, removed, id), added, id);
    let b = with_seen_keys(m, keys, old_keys.to_set(), id);
    assert forall|k: Seq<char>| a.dom().contains(k) <==> b.dom().contains(k) by {
        assert(added.to_set().contains(k) <==> added.contains(k));
        assert(keys.to_set().contains(k) <==> keys.contains(k));
        if old_keys.to_set().contains(k) {
            assert(keys_holding(m, id).contains(k));
        }
    }
    assert forall|k: Seq<char>| a.dom().contains(k) implies a[k] == b[k] by {
        assert(added.to_set().contains(k) <==> added.contains(k));
        assert(removed.to_set().contains(k) <==> removed.contains(k));
        assert(keys.to_set().contains(k) <==> keys.contains(k));
        if old_keys.to_set().contains(k) {
            assert(keys_holding(m, id).contains(k));
        }
        assert(a[k] =~= b[k]);
    }
    assert(a =~= b);
}

/// Where every bitmap can be read, a document leaves all bitmaps but those of its keys.
pub proof fn law_all_seen(m: Map<Seq<char>, Set<u32>>, keys: Seq<Seq<char>>, id: DocId)
    ensures
        with_seen_keys(m, keys, keys_holding(m, id), id) == with_exact_keys(m, keys, id),
{
    let a = with_seen_keys(m, keys, keys_holding(m, id), id);
    let b = with_exact_keys(m, keys, id);
    assert forall|k: Seq<char>| a.dom().contains(k) implies a[k] == b[k] by {
        assert(a[k] =~= b[k]);
    }
    assert(a =~= b);
}

impl IngestionPipeline {
    /// The keys under which a document stands.
    fn keys_of(&self, id: DocId) -> (r: Result<Vec<BitmapKey>, IngestError>)
        requires
            self.wf(),
        ensures
            self@.infallible ==> r is Ok,
            match r {
                Ok(v) => v.deep_view().no_duplicates() && v.deep_view().to_set() == keys_holding(
                    self@.bitmaps,
                    id,
                ),
                Err(e) => e is Bitmap,
            },
    {
        let keys = match self.parts.2.list_keys(None) {
            Ok(k) => k,
            Err(e) => {
                return Err(IngestError::Bitmap(e));
            },
        };
        let ghost m = self@.bitmaps;
        let ghost ks = keys.deep_view();
        let mut out: Vec<BitmapKey> = Vec::new();
        let mut i: usize = 0;
        while i < keys.len()
            invariant
                self.wf(),
                m == self@.bitmaps,
                ks == keys.deep_view(),
                i <= keys@.len(),
                ks.no_duplicates(),
                forall|k: Seq<char>| #[trigger]
                    ks.contains(k) <==> m.dom().contains(k) && bitmap::is_listed(k, None),
                out.deep_view().no_duplicates(),
                forall|k: Seq<char>| #[trigger]
                    out.deep_view().contains(k) <==> ks.take(i as int).contains(k)
                        && m[k].contains(id),
            decreases keys@.len() - i,
        {
            let holds = match self.parts.2.get(keys[i].as_str()) {
                Ok(b) => b.contains(id),
                Err(e) => {
                    return Err(IngestError::Bitmap(e));
                },
            };
            let ghost before = out.deep_view();
            let ghost k0 = ks[i as int];
            proof {
                assert(k0 == keys@[i as int]@);
                assert(ks.contains(k0));
                let t = ks.take(i as int);
                assert(ks.take(i + 1) =~= t.push(k0));
                if t.contains(k0) {
                    let j = t.index_of(k0);
                    assert(ks[j] == ks[i as int]);
                }
                assert forall|k: Seq<char>| #[trigger]
                    ks.take(i + 1).contains(k) <==> t.contains(k) || k == k0 by {
                    bitmap::lemma_push_contains(t, k0, k);
                }
            }
            if holds {
                out.push(keys[i].clone());
                proof {
                    assert(out.deep_view() =~= before.push(k0));
                    assert(!before.contains(k0));
                    assert forall|k: Seq<char>| #[trigger]
                        out.deep_view().contains(k) <==> before.contains(k) || k == k0 by {
                        bitmap::lemma_push_contains(before, k0, k);
                    }
                }
            }
            i += 1;
        }
        proof {
            assert(ks.take(i as int) =~= ks);
            assert(out.deep_view().to_set() =~= keys_holding(m, id));
        }
        Ok(out)
    }

    /// The keys under which a document is seen to stand. A bitmap that cannot be read is passed over.
    fn seen_keys(&self, id: DocId) -> (r: Result<Vec<BitmapKey>, IngestError>)
        requires
            self.wf(),
        ensures
            self@.infallible ==> r is Ok,
            match r {
                Ok(v) => v.deep_view().no_duplicates() && is_seen(self@, id, v.deep_view().to_set()),
                Err(e) => e is Bitmap,
            },
    {
        let keys = match self.parts.2.list_keys(None) {
            Ok(k) => k,
            Err(e) => {
                return Err(IngestError::Bitmap(e));
            },
        };
        let ghost m = self@.bitmaps;
        let ghost ks = keys.deep_view();
        let mut out: Vec<BitmapKey> = Vec::new();
        let mut i: usize = 0;
        while i < keys.len()
            invariant
                self.wf(),
                m == self@.bitmaps,
                ks == keys.deep_view(),
                i <= keys@.len(),
                ks.no_duplicates(),
                forall|k: Seq<char>| #[trigger]
                    ks.contains(k) <==> m.dom().contains(k) && bitmap::is_listed(k, None),
                out.deep_view().no_duplicates(),
                forall|k: Seq<char>| #[trigger]
                    out.deep_view().contains(k) ==> ks.take(i as int).contains(k)
                        && m[k].contains(id),
                self@.infallible ==> forall|k: Seq<char>| #[trigger]
                    out.deep_view().contains(k) <==> ks.take(i as int).contains(k)
                        && m[k].contains(id),
            decreases keys@.len() - i,
        {
            let holds = match self.parts.2.get(keys[i].as_str()) {
                Ok(b) => b.contains(id),
                Err(_) => false,
            };
            let ghost before = out.deep_view();
            let ghost k0 = ks[i as int];
            proof {
                assert(k0 == keys@[i as int]@);
                assert(ks.contains(k0));
                let t = ks.take(i as int);
                assert(ks.take(i + 1) =~= t.push(k0));
                if t.contains(k0) {
                    let j = t.index_of(k0);
                    assert(ks[j] == ks[i as int]);
                }
                assert forall|k: Seq<char>| #[trigger]
                    ks.take(i + 1).contains(k) <==> t.contains(k) || k == k0 by {
                    bitmap::lemma_push_contains(t, k0, k);
                }
            }
            if holds {
                out.push(keys[i].clone());
                proof {
                    assert(out.deep_view() =~= before.push(k0));
                    assert(!before.contains(k0));
                    assert forall|k: Seq<char>| #[trigger]
                        out.deep_view().contains(k) <==> before.contains(k) || k == k0 by {
                        bitmap::lemma_push_contains(before, k0, k);
                    }
                }
            }
            i += 1;
        }
        proof {
            assert(ks.take(i as int) =~= ks);
            assert(out.deep_view().to_set().subset_of(keys_holding(m, id)));
            if self@.infallible {
                assert(out.deep_view().to_set() =~= keys_holding(m, id));
            }
        }
        Ok(out)
    }

    /// Takes a document out of the bitmaps of keys.
    fn remove_from_keys(&mut self, keys: &Vec<BitmapKey>, id: DocId) -> (r: Result<(), IngestError>)
        requires
            old(self).wf(),
        ensures
            final(self).wf(),
            final(self)@.parsers == old(self)@.parsers,
            final(self)@.records == old(self)@.records,
            final(self)@.tagger == old(self)@.tagger,
            final(self)@.infallible == old(self)@.infallible,
            old(self)@.infallible ==> r is Ok,
            match r {
                Ok(()) => final(self)@.bitmaps == without_keys(
                    old(self)@.bitmaps,
                    keys.deep_view(),
                    id,
                ),
                Err(e) => e is Bitmap && is_between(
                    old(self)@.bitmaps,
                    without_keys(old(self)@.bitmaps, keys.deep_view(), id),
                    final(self)@.bitmaps,
                ),
            },
    {
        let ghost m0 = self@.bitmaps;
        let ghost ks = keys.deep_view();
        let mut i: usize = 0;
        proof {
            assert(ks.take(0) =~= Seq::<Seq<char>>::empty());
            assert(without_keys(m0, ks.take(0), id) =~= m0);
        }
        while i < keys.len()
            invariant
                self.wf(),
                self@.parsers == old(self)@.parsers,
                self@.records == old(self)@.records,
                self@.tagger == old(self)@.tagger,
                self@.infallible == old(self)@.infallible,
                m0 == old(self)@.bitmaps,
                ks == keys.deep_view(),
                i <= keys@.len(),
                self@.bitmaps == without_keys(m0, ks.take(i as int), id),
            decreases keys@.len() - i,
        {
            let ghost before = self@.bitmaps;
            match self.parts.2.remove_id(keys[i].as_str(), id) {
                Ok(()) => {},
                Err(e) => {
                    proof {
                        lemma_partly_removed(m0, ks, id, i as int);
                    }
                    return Err(IngestError::Bitmap(e));
                },
            }
            proof {
                let k0 = ks[i as int];
                assert(k0 == keys@[i as int]@);
                let t = ks.take(i as int);
                assert(ks.take(i + 1) =~= t.push(k0));
                assert forall|k: Seq<char>| #[trigger]
                    ks.take(i + 1).contains(k) <==> t.contains(k) || k == k0 by {
                    bitmap::lemma_push_contains(t, k0, k);
                }
                if m0.dom().contains(k0) {
                    assert(before[k0].remove(id) =~= m0[k0].remove(id));
                }
                assert(self@.bitmaps =~= without_keys(m0, ks.take(i + 1), id));
            }
            i += 1;
        }
        assert(ks.take(i as int) =~= ks);
        Ok(())
    }

    /// Replaces a registered document by a parsed one, and moves it from the bitmaps that hold it to
    /// those of its keys. The number of bitmaps that changed is handed back.
    fn index_changed(
        &mut self,
        id: DocId,
        content: &[u8],
        result: &ParseResult,
        keys: &Vec<BitmapKey>,
        old_keys: &Vec<BitmapKey>,
    ) -> (r: Result<u32, IngestError>)
        requires
            old(self).wf(),
            old(self)@.records.docs.dom().contains(id),
            old_keys.deep_view().to_set().subset_of(keys_holding(old(self)@.bitmaps, id)),
        ensures
            final(self).wf(),
            final(self)@.parsers == old(self)@.parsers,
            final(self)@.infallible == old(self)@.infallible,
            final(self)@.tagger == old(self)@.tagger,
            match r {
                Ok(n) => {
                    let ks = keys.deep_view();
                    let seen = old_keys.deep_view().to_set();
                    &&& reregistered(
                        old(self)@.records,
                        final(self)@.records,
                        id,
                        content@,
                        result@,
                    )
                    &&& n == count_of(
                        seen.difference(ks.to_set()).len() + ks.to_set().difference(seen).len(),
                    )
                    &&& final(self)@.bitmaps == with_seen_keys(old(self)@.bitmaps, ks, seen, id)
                },
                Err(IngestError::Registry(e)) => e is Database && (old(self)@.infallible ==> old(
                    self,
                )@.records.next_chunk_id + result@.chunks.len() > u32::MAX) && half_changed(
                    old(self)@.records,
                    final(self)@.records,
                    id,
                    content@,
                    result@,
                ) && final(self)@.bitmaps == with_seen_keys(
                    old(self)@.bitmaps,
                    keys.deep_view(),
                    old_keys.deep_view().to_set(),
                    id,
                ),
                Err(e) => e is Bitmap && !old(self)@.infallible && final(self)@.records == old(
                    self,
                )@.records && is_between(
                    old(self)@.bitmaps,
                    with_seen_keys(
                        old(self)@.bitmaps,
                        keys.deep_view(),
                        old_keys.deep_view().to_set(),
                        id,
                    ),
                    final(self)@.bitmaps,
                ),
            },
    {
        let digest = hash::blake3_of(content);
        let ghost m0 = self@.bitmaps;
        let ghost s0 = self@.records;
        let removed = missing_from(old_keys, keys);
        let added = missing_from(keys, old_keys);
        match self.remove_from_keys(&removed, id) {
            Ok(()) => {},
            Err(e) => {
                proof {
                    lemma_partly_moved(
                        m0,
                        keys.deep_view(),
                        old_keys.deep_view(),
                        removed.deep_view(),
                        added.deep_view(),
                        id,
                        self@.bitmaps,
                    );
                }
                return Err(e);
            },
        }
        match self.add_to_keys(&added, id) {
            Ok(()) => {},
            Err(e) => {
                proof {
                    lemma_partly_moved(
                        m0,
                        keys.deep_view(),
                        old_keys.deep_view(),
                        removed.deep_view(),
                        added.deep_view(),
                        id,
                        self@.bitmaps,
                    );
                }
                return Err(e);
            },
        }
        proof {
            lemma_seen_keys(
                m0,
                keys.deep_view(),
                old_keys.deep_view(),
                removed.deep_view(),
                added.deep_view(),
                id,
            );
            removed.deep_view().unique_seq_to_set();
            added.deep_view().unique_seq_to_set();
        }
        match self.parts.1.update_doc(id, digest, result.auto_type) {
            Ok(()) => {},
            Err(e) => {
                return Err(IngestError::Registry(e));
            },
        }
        let ghost s1 = self@.records;
        let ghost now = choose|now: Timestamp|
            s1 == #[trigger] registry::with_update(s0, id, digest, result.auto_type, now);
        let chunks = chunks_to_new(id, result);
        let ghost cs = chunks@;
        match self.parts.1.replace_chunks(id, chunks) {
            Ok(_) => {},
            Err(e) => {
                return Err(IngestError::Registry(e));
            },
        }
        proof {
            assert(self@.records == with_changed(s0, id, digest, result@.auto_type, now, cs));
            assert(reregistered(s0, self@.records, id, content@, result@));
        }
        Ok(count_both(removed.len(), added.len()))
    }

    /// Handles a modified file.
    fn handle_modified(&mut self, path: &str, content: &Result<Vec<u8>, String>) -> (r: Result<
        IngestResult,
        IngestError,
    >)
        requires
            old(self).wf(),
        ensures
            final(self).wf(),
            final(self)@.parsers == old(self)@.parsers,
            final(self)@.infallible == old(self)@.infallible,
            on_modified(old(self)@, final(self)@, path@, read_view(*content), r),
    {
        let p = match self.find_parser(path) {
            Some(p) => p,
            None => {
                return Err(IngestError::NoParser(path.to_owned()));
            },
        };
        let bytes = match content {
            Ok(c) => c,
            Err(m) => {
                return Err(IngestError::Io(m.clone()));
            },
        };
        let record = match self.parts.1.lookup_by_path(path) {
            Ok(Some(d)) => d,
            Ok(None) => {
                return self.handle_created(path, content);
            },
            Err(e) => {
                return Err(IngestError::Registry(e));
            },
        };
        let digest = hash::blake3_of(bytes.as_slice());
        if hash::same_hash(&record.blake3_hash, &digest) {
            return Ok(IngestResult { action: IngestAction::Skipped, bitmaps_updated: 0 });
        }
        let result = match self.parts.0[p].parse(path, bytes.as_slice()) {
            Ok(r) => r,
            Err(e) => {
                return Err(IngestError::Parse(e));
            },
        };
        let id = record.doc_id;
        let keys = self.enriched_bitmap_keys(
            path,
            bytes.as_slice(),
            &SourceType::Obsidian,
            &result,
        );
        let ghost ks = keys.deep_view();
        let old_keys = match self.seen_keys(id) {
            Ok(k) => k,
            Err(e) => {
                proof {
                    let all = keys_holding(old(self)@.bitmaps, id);
                    assert(is_seen(old(self)@, id, all));
                    assert(is_between(
                        old(self)@.bitmaps,
                        with_seen_keys(old(self)@.bitmaps, ks, all, id),
                        self@.bitmaps,
                    ));
                }
                return Err(e);
            },
        };
        let ghost seen = old_keys.deep_view().to_set();
        match self.index_changed(id, bytes.as_slice(), &result, &keys, &old_keys) {
            Ok(n) => {
                proof {
                    assert(self@.bitmaps == with_seen_keys(old(self)@.bitmaps, ks, seen, id));
                    assert(is_seen(old(self)@, id, seen));
                }
                Ok(IngestResult { action: IngestAction::Updated, bitmaps_updated: n })
            },
            Err(e) => {
                proof {
                    assert(is_seen(old(self)@, id, seen));
                    assert(is_between(
                        old(self)@.bitmaps,
                        with_seen_keys(old(self)@.bitmaps, ks, seen, id),
                        self@.bitmaps,
                    ));
                }
                Err(e)
            },
        }
    }

    /// Handles a deleted file.
    fn handle_deleted(&mut self, path: &str) -> (r: Result<IngestResult, IngestError>)
        requires
            old(self).wf(),
        ensures
            final(self).wf(),
            final(self)@.parsers == old(self)@.parsers,
            final(self)@.infallible == old(self)@.infallible,
            on_deleted(old(self)@, final(self)@, path@, r),
    {
        let record = match self.parts.1.lookup_by_path(path) {
            Ok(Some(d)) => d,
            Ok(None) => {
                return Err(IngestError::Registry(RegistryError::NotFound(0)));
            },
            Err(e) => {
                return Err(IngestError::Registry(e));
            },
        };
        match self.bury(record.doc_id) {
            Ok(n) => Ok(
                IngestResult { action: IngestAction::Tombstoned, bitmaps_updated: count(n) },
            ),
            Err(e) => Err(e),
        }
    }

    /// Adds a document to the tombstones, and takes it out of all other bitmaps. The number of
    /// bitmaps that it left is handed back.
    fn bury(&mut self, id: DocId) -> (r: Result<usize, IngestError>)
        requires
            old(self).wf(),
        ensures
            final(self).wf(),
            final(self)@.parsers == old(self)@.parsers,
            final(self)@.records == old(self)@.records,
            final(self)@.tagger == old(self)@.tagger,
            final(self)@.infallible == old(self)@.infallible,
            old(self)@.infallible ==> r is Ok,
            match r {
                Ok(n) => n == keys_holding(old(self)@.bitmaps, id).len() && final(self)@.bitmaps
                    == buried(old(self)@.bitmaps, id),
                Err(e) => e is Bitmap && is_between(
                    old(self)@.bitmaps,
                    buried(old(self)@.bitmaps, id),
                    final(self)@.bitmaps,
                ),
            },
    {
        let ghost m0 = self@.bitmaps;
        match self.parts.2.tombstone(id) {
            Ok(()) => {},
            Err(e) => {
                return Err(IngestError::Bitmap(e));
            },
        }
        let ghost m1 = self@.bitmaps;
        let keys = match self.keys_of(id) {
            Ok(k) => k,
            Err(e) => {
                return Err(e);
            },
        };
        let ghost ks = keys.deep_view();
        proof {
            lemma_buried(m0, m1, ks, id);
        }
        match self.remove_from_keys(&keys, id) {
            Ok(()) => {},
            Err(e) => {
                proof {
                    lemma_partly_buried(m0, m1, ks, id, self@.bitmaps);
                }
                return Err(e);
            },
        }
        proof {
            ks.unique_seq_to_set();
        }
        Ok(keys.len())
    }

    /// Handles a renamed file.
    fn handle_renamed(&mut self, from: &str, to: &str) -> (r: Result<IngestResult, IngestError>)
        requires
            old(self).wf(),
        ensures
            final(self).wf(),
            final(self)@.parsers == old(self)@.parsers,
            final(self)@.infallible == old(self)@.infallible,
            on_renamed(old(self)@, final(self)@, from@, to@, r),
    {
        let record = match self.parts.1.lookup_by_path(from) {
            Ok(Some(d)) => d,
            Ok(None) => {
                return Err(IngestError::Registry(RegistryError::NotFound(0)));
            },
            Err(e) => {
                return Err(IngestError::Registry(e));
            },
        };
        let id = record.doc_id;
        let path = to.to_owned();
        match self.parts.1.update_path(id, path) {
            Ok(()) => {},
            Err(e) => {
                return Err(IngestError::Registry(e));
            },
        }
        proof {
            let before = old(self)@.records;
            assert(before.docs.dom().contains(id_at(before, from@)));
            assert(id == id_at(before, from@));
            assert(path@ == to@ && self@.records == registry::with_path(before, id, path));
        }
        let old_folder = folder_key(from);
        let new_folder = folder_key(to);
        if text::str_eq(old_folder.as_str(), new_folder.as_str()) {
            return Ok(IngestResult { action: IngestAction::Moved, bitmaps_updated: 0 });
        }
        match self.parts.2.remove_id(old_folder.as_str(), id) {
            Ok(()) => {},
            Err(e) => {
                return Err(IngestError::Bitmap(e));
            },
        }
        match self.parts.2.insert_id(new_folder.as_str(), id) {
            Ok(()) => {},
            Err(e) => {
                return Err(IngestError::Bitmap(e));
            },
        }
        Ok(IngestResult { action: IngestAction::Moved, bitmaps_updated: 2 })
    }
}

/// The sum of two counts in 32 bits.
fn count_both(a: usize, b: usize) -> (r: u32)
    ensures
        r == count_of((a + b) as nat),
{
    let sum: u128 = a as u128 + b as u128;
    (sum % 0x1_0000_0000) as u32
}

// ── Events ──────────────────────────────────────────────────────────────────

/// The path under which the document of an event is registered, if it is.
pub open spec fn subject(event: ChangeEvent) -> Seq<char> {
    match event.kind {
        ChangeKind::Renamed { from } => from@,
        _ => event.path@,
    }
}

/// What a change event brings about. In directories that are never indexed, events of documents that
/// are not registered are skipped.
pub open spec fn on_event(
    before: PipelineView,
    after: PipelineView,
    event: ChangeEvent,
    content: Result<Seq<u8>, Seq<char>>,
    r: Result<IngestResult, IngestError>,
) -> bool {
    if ignore::in_ignored_dir_spec(event.path@) && lookup_failed(before, after, r) {
        true
    } else if ignore::in_ignored_dir_spec(event.path@) && !is_known(
        before.records,
        subject(event),
    ) {
        r == Ok::<IngestResult, IngestError>(
            IngestResult { action: IngestAction::Skipped, bitmaps_updated: 0 },
        ) && unchanged(before, after) && after.tagger == before.tagger
    } else {
        match event.kind {
            ChangeKind::Created => on_created(before, after, event.path@, content, r),
            ChangeKind::Modified => on_modified(before, after, event.path@, content, r),
            ChangeKind::Deleted => on_deleted(before, after, event.path@, r),
            ChangeKind::Renamed { from } => on_renamed(before, after, from@, event.path@, r),
        }
    }
}

impl IngestionPipeline {
    /// Processes a change event. For a created or modified file, `content` is what reading it gave.
    pub fn process_event(&mut self, event: &ChangeEvent, content: &Result<Vec<u8>, String>) -> (r:
        Result<IngestResult, IngestError>)
        requires
            old(self).wf(),
        ensures
            final(self).wf(),
            final(self)@.parsers == old(self)@.parsers,
            final(self)@.infallible == old(self)@.infallible,
            on_event(old(self)@, final(self)@, *event, read_view(*content), r),
    {
        if ignore::in_ignored_dir(event.path.as_str()) {
            let path = match &event.kind {
                ChangeKind::Renamed { from } => from.as_str(),
                _ => event.path.as_str(),
            };
            match self.parts.1.lookup_by_path(path) {
                Ok(Some(_)) => {},
                Ok(None) => {
                    return Ok(IngestResult { action: IngestAction::Skipped, bitmaps_updated: 0 });
                },
                Err(e) => {
                    return Err(IngestError::Registry(e));
                },
            }
        }
        match &event.kind {
            ChangeKind::Created => self.handle_created(event.path.as_str(), content),
            ChangeKind::Modified => self.handle_modified(event.path.as_str(), content),
            ChangeKind::Deleted => self.handle_deleted(event.path.as_str()),
            ChangeKind::Renamed { from } => self.handle_renamed(from.as_str(), event.path.as_str()),
        }
    }
}

impl IngestionPipeline {
    /// Indexes a document that was handed over with its content: it is registered, replaced or
    /// skipped.
    pub fn upsert_document(&mut self, path: &str, content: Vec<u8>) -> (r: Result<
        IngestResult,
        IngestError,
    >)
        requires
            old(self).wf(),
        ensures
            final(self).wf(),
            final(self)@.parsers == old(self)@.parsers,
            final(self)@.infallible == old(self)@.infallible,
            on_modified(old(self)@, final(self)@, path@, Ok(content@), r),
    {
        let read: Result<Vec<u8>, String> = Ok(content);
        self.handle_modified(path, &read)
    }
}

// ── Compaction ──────────────────────────────────────────────────────────────

/// Whether a listed bitmap holds a deleted document.
pub open spec fn is_dirty(m: Map<Seq<char>, Set<u32>>, dead: Set<u32>, k: Seq<char>) -> bool {
    bitmap::is_listed(k, None) && exists|x: u32| #[trigger] m[k].contains(x) && dead.contains(x)
}

/// The bitmaps without deleted documents, as far as `done` goes. A bitmap that loses its last
/// document is deleted.
pub open spec fn cleaned(m: Map<Seq<char>, Set<u32>>, dead: Set<u32>, done: Set<Seq<char>>) -> Map<
    Seq<char>,
    Set<u32>,
> {
    Map::new(
        |k: Seq<char>|
            m.dom().contains(k) && !(done.contains(k) && is_dirty(m, dead, k) && m[k].difference(
                dead,
            ) == Set::<u32>::empty()),
        |k: Seq<char>|
            if done.contains(k) {
                m[k].difference(dead)
            } else {
                m[k]
            },
    )
}

/// The bitmaps after compaction: without deleted documents, and without tombstones.
pub open spec fn compacted(m: Map<Seq<char>, Set<u32>>) -> Map<Seq<char>, Set<u32>> {
    cleaned(m, query::tombstones(m), query::listed_keys(m, None)).remove(bitmap::tombstone_key())
}

/// The bitmaps that compaction changes.
pub open spec fn dirty_keys(m: Map<Seq<char>, Set<u32>>) -> Set<Seq<char>> {
    m.dom().filter(|k: Seq<char>| is_dirty(m, query::tombstones(m), k))
}

/// The records without the first `n` of some documents, of which some may be gone.
pub open spec fn without_docs(s: RegistryState, ids: Seq<DocId>, n: int) -> RegistryState
    decreases n,
{
    if n <= 0 {
        s
    } else {
        let t = without_docs(s, ids, n - 1);
        if t.docs.dom().contains(ids[n - 1]) {
            registry::without_doc(t, ids[n - 1])
        } else {
            t
        }
    }
}

/// What compaction brings about.
pub open spec fn on_compacted(
    before: PipelineView,
    after: PipelineView,
    r: CompactResult,
) -> bool {
    let dead = query::listing(query::tombstones(before.bitmaps));
    if dead.len() == 0 {
        r.docs_removed == 0 && r.bitmaps_cleaned == 0 && unchanged(before, after)
    } else {
        &&& r.docs_removed == count_of(dead.len())
        &&& r.bitmaps_cleaned == count_of(dirty_keys(before.bitmaps).len())
        &&& after.bitmaps == compacted(before.bitmaps)
        &&& after.records == without_docs(before.records, dead, dead.len() as int)
        &&& after.tagger == before.tagger
    }
}

/// Whether compaction stopped when the bitmaps of some keys were cleaned and `n` deleted documents were
/// forgotten. All bitmaps are cleaned first, and the tombstones are still there.
pub open spec fn compaction_stopped(
    before: PipelineView,
    after: PipelineView,
    done: Set<Seq<char>>,
    n: int,
) -> bool {
    let dead = query::listing(query::tombstones(before.bitmaps));
    &&& done.subset_of(query::listed_keys(before.bitmaps, None))
    &&& 0 <= n <= dead.len()
    &&& n > 0 ==> done == query::listed_keys(before.bitmaps, None)
    &&& after.bitmaps == cleaned(before.bitmaps, query::tombstones(before.bitmaps), done)
    &&& after.records == without_docs(before.records, dead, n)
    &&& after.tagger == before.tagger
}

impl IngestionPipeline {
    /// Cleans one bitmap of deleted documents, and returns whether it held one.
    fn clean_key(&mut self, key: &str, dead: &RoaringBitmap, ids: &Vec<u32>) -> (r: Result<
        bool,
        IngestError,
    >)
        requires
            old(self).wf(),
            bitmap::is_listed(key@, None),
            ids@.to_set() == bitmap::ids(*dead),
            old(self)@.bitmaps.dom().contains(key@),
        ensures
            final(self).wf(),
            final(self)@.parsers == old(self)@.parsers,
            final(self)@.records == old(self)@.records,
            final(self)@.tagger == old(self)@.tagger,
            final(self)@.infallible == old(self)@.infallible,
            old(self)@.infallible ==> r is Ok,
            match r {
                Ok(dirty) => {
                    let m = old(self)@.bitmaps;
                    let rest = m[key@].difference(bitmap::ids(*dead));
                    &&& dirty == is_dirty(m, bitmap::ids(*dead), key@)
                    &&& final(self)@.bitmaps == if !dirty {
                        m
                    } else if rest == Set::<u32>::empty() {
                        m.remove(key@)
                    } else {
                        m.insert(key@, rest)
                    }
                },
                Err(e) => e is Bitmap && final(self)@.bitmaps == old(self)@.bitmaps,
            },
    {
        let ghost m = self@.bitmaps;
        let ghost d = bitmap::ids(*dead);
        let b = match self.parts.2.get(key) {
            Ok(b) => b,
            Err(e) => {
                return Err(IngestError::Bitmap(e));
            },
        };
        let mut dirty = false;
        let mut i: usize = 0;
        while i < ids.len()
            invariant
                i <= ids@.len(),
                bitmap::ids(b) == m[key@],
                dirty <==> exists|j: int| 0 <= j < i && m[key@].contains(#[trigger] ids@[j]),
            decreases ids@.len() - i,
        {
            if b.contains(ids[i]) {
                assert(m[key@].contains(ids@[i as int]));
                dirty = true;
            }
            i += 1;
        }
        proof {
            if dirty {
                let j = choose|j: int| 0 <= j < i && m[key@].contains(#[trigger] ids@[j]);
                assert(ids@.to_set().contains(ids@[j]));
                assert(m[key@].contains(ids@[j]) && d.contains(ids@[j]));
            } else if is_dirty(m, d, key@) {
                let x = choose|x: u32| #[trigger] m[key@].contains(x) && d.contains(x);
                assert(ids@.to_set().contains(x));
                let j = ids@.index_of(x);
                assert(m[key@].contains(ids@[j]));
            }
        }
        if !dirty {
            return Ok(false);
        }
        let rest = bitmap::bitmap_minus(&b, dead);
        if rest.is_empty() {
            assert(bitmap::ids(rest) =~= Set::<u32>::empty());
            match self.parts.2.delete(key) {
                Ok(()) => {},
                Err(e) => {
                    return Err(IngestError::Bitmap(e));
                },
            }
        } else {
            match self.parts.2.put(key, &rest) {
                Ok(()) => {},
                Err(e) => {
                    return Err(IngestError::Bitmap(e));
                },
            }
        }
        Ok(true)
    }

    /// Cleans all listed bitmaps of deleted documents, and returns how many held one.
    fn clean_keys(&mut self, dead: &RoaringBitmap, ids: &Vec<u32>) -> (r: Result<
        usize,
        IngestError,
    >)
        requires
            old(self).wf(),
            ids@.to_set() == bitmap::ids(*dead),
            bitmap::ids(*dead) == query::tombstones(old(self)@.bitmaps),
        ensures
            final(self).wf(),
            final(self)@.parsers == old(self)@.parsers,
            final(self)@.records == old(self)@.records,
            final(self)@.tagger == old(self)@.tagger,
            final(self)@.infallible == old(self)@.infallible,
            old(self)@.infallible ==> r is Ok,
            match r {
                Ok(n) => n == dirty_keys(old(self)@.bitmaps).len() && final(self)@.bitmaps
                    == cleaned(
                    old(self)@.bitmaps,
                    bitmap::ids(*dead),
                    query::listed_keys(old(self)@.bitmaps, None),
                ),
                Err(e) => e is Bitmap && exists|done: Set<Seq<char>>|
                    done.subset_of(query::listed_keys(old(self)@.bitmaps, None))
                        && final(self)@.bitmaps == #[trigger] cleaned(
                        old(self)@.bitmaps,
                        bitmap::ids(*dead),
                        done,
                    ),
            },
    {
        let ghost m = self@.bitmaps;
        let ghost d = bitmap::ids(*dead);
        let keys = match self.parts.2.list_keys(None) {
            Ok(k) => k,
            Err(e) => {
                assert(cleaned(m, d, Set::empty()) =~= m);
                return Err(IngestError::Bitmap(e));
            },
        };
        let ghost ks = keys.deep_view();
        let ghost mut hit: Seq<Seq<char>> = Seq::empty();
        let mut n: usize = 0;
        let mut i: usize = 0;
        proof {
            assert(ks.take(0).to_set() =~= Set::<Seq<char>>::empty());
            assert(cleaned(m, d, ks.take(0).to_set()) =~= m);
        }
        while i < keys.len()
            invariant
                self.wf(),
                self@.parsers == old(self)@.parsers,
                self@.records == old(self)@.records,
                self@.tagger == old(self)@.tagger,
                self@.infallible == old(self)@.infallible,
                m == old(self)@.bitmaps,
                ks == keys.deep_view(),
                ids@.to_set() == bitmap::ids(*dead),
                d == bitmap::ids(*dead),
                i <= keys@.len(),
                n == hit.len(),
                n <= i,
                ks.no_duplicates(),
                forall|k: Seq<char>| #[trigger]
                    ks.contains(k) <==> m.dom().contains(k) && bitmap::is_listed(k, None),
                hit.no_duplicates(),
                forall|k: Seq<char>| #[trigger]
                    hit.contains(k) <==> ks.take(i as int).contains(k) && is_dirty(m, d, k),
                self@.bitmaps == cleaned(m, d, ks.take(i as int).to_set()),
            decreases keys@.len() - i,
        {
            let ghost k0 = ks[i as int];
            let ghost t = ks.take(i as int);
            let ghost before = self@.bitmaps;
            proof {
                assert(k0 == keys@[i as int]@);
                assert(ks.contains(k0));
                assert(ks.take(i + 1) =~= t.push(k0));
                if t.contains(k0) {
                    let j = t.index_of(k0);
                    assert(ks[j] == ks[i as int]);
                }
                assert(!t.to_set().contains(k0));
                assert(before.dom().contains(k0));
                assert(before[k0] == m[k0]);
                assert forall|k: Seq<char>| #[trigger]
                    ks.take(i + 1).contains(k) <==> t.contains(k) || k == k0 by {
                    bitmap::lemma_push_contains(t, k0, k);
                }
                assert(is_dirty(before, d, k0) == is_dirty(m, d, k0));
            }
            match self.clean_key(keys[i].as_str(), dead, ids) {
                Ok(dirty) => {
                    if dirty {
                        proof {
                            let h = hit;
                            hit = h.push(k0);
                            assert(!h.contains(k0));
                            assert forall|k: Seq<char>| #[trigger]
                                hit.contains(k) <==> h.contains(k) || k == k0 by {
                                bitmap::lemma_push_contains(h, k0, k);
                            }
                        }
                        n += 1;
                    }
                    proof {
                        let u = ks.take(i + 1).to_set();
                        assert forall|k: Seq<char>| u.contains(k) <==> t.to_set().contains(k) || k
                            == k0 by {
                            assert(u.contains(k) <==> ks.take(i + 1).contains(k));
                        }
                        if !dirty {
                            assert(m[k0].difference(d) =~= m[k0]);
                        }
                        assert(self@.bitmaps =~= cleaned(m, d, u));
                    }
                },
                Err(e) => {
                    proof {
                        let done = t.to_set();
                        assert(done.subset_of(query::listed_keys(m, None))) by {
                            assert forall|k: Seq<char>| done.contains(k) implies query::listed_keys(
                                m,
                                None,
                            ).contains(k) by {
                                let j = t.index_of(k);
                                assert(ks[j] == k);
                                assert(ks.contains(k));
                            }
                        }
                        assert(self@.bitmaps == cleaned(m, d, done));
                    }
                    return Err(e);
                },
            }
            i += 1;
        }
        proof {
            assert(ks.take(i as int) =~= ks);
            assert(ks.to_set() =~= query::listed_keys(m, None));
            hit.unique_seq_to_set();
            assert(hit.to_set() =~= dirty_keys(m));
        }
        Ok(n)
    }

    /// Removes deleted documents from all bitmaps and from the registry, and forgets the
    /// tombstones.
    pub fn compact(&mut self) -> (r: Result<CompactResult, IngestError>)
        requires
            old(self).wf(),
        ensures
            final(self).wf(),
            final(self)@.parsers == old(self)@.parsers,
            final(self)@.infallible == old(self)@.infallible,
            old(self)@.infallible ==> r is Ok,
            match r {
                Ok(c) => on_compacted(old(self)@, final(self)@, c),
                Err(e) => (e is Bitmap || e is Registry) && exists|done: Set<Seq<char>>, n: int| #[trigger]
                    compaction_stopped(old(self)@, final(self)@, done, n),
            },
    {
        let start = Instant::now();
        let ghost listed = query::listed_keys(self@.bitmaps, None);
        let dead = match self.parts.2.get_tombstone() {
            Ok(b) => b,
            Err(e) => {
                proof {
                    let d = query::tombstones(self@.bitmaps);
                    assert(cleaned(self@.bitmaps, d, Set::empty()) =~= self@.bitmaps);
                    assert(compaction_stopped(old(self)@, self@, Set::empty(), 0));
                }
                return Err(IngestError::Bitmap(e));
            },
        };
        let ids = bitmap::bitmap_values(&dead);
        let ghost m0 = self@.bitmaps;
        let ghost s0 = self@.records;
        proof {
            assert(query::is_listing(ids@, bitmap::ids(dead)));
            query::lemma_listing(ids@, query::listing(bitmap::ids(dead)), bitmap::ids(dead));
        }
        if dead.is_empty() {
            proof {
                if ids@.len() > 0 {
                    assert(ids@.to_set().contains(ids@[0]));
                }
            }
            return Ok(
                CompactResult {
                    docs_removed: 0,
                    bitmaps_cleaned: 0,
                    duration_ms: clock::millis_since(start),
                },
            );
        }
        proof {
            if ids@.len() == 0 {
                assert(ids@.to_set() =~= Set::<u32>::empty());
            }
        }
        let n = match self.clean_keys(&dead, &ids) {
            Ok(n) => n,
            Err(e) => {
                proof {
                    let done = choose|done: Set<Seq<char>>|
                        done.subset_of(listed) && self@.bitmaps == #[trigger] cleaned(
                            m0,
                            bitmap::ids(dead),
                            done,
                        );
                    assert(compaction_stopped(old(self)@, self@, done, 0));
                }
                return Err(e);
            },
        };
        let mut i: usize = 0;
        while i < ids.len()
            invariant
                self.wf(),
                self@.parsers == old(self)@.parsers,
                self@.infallible == old(self)@.infallible,
                self@.tagger == old(self)@.tagger,
                m0 == old(self)@.bitmaps,
                s0 == old(self)@.records,
                listed == query::listed_keys(m0, None),
                bitmap::ids(dead) == query::tombstones(m0),
                ids@ == query::listing(bitmap::ids(dead)),
                self@.bitmaps == cleaned(m0, bitmap::ids(dead), query::listed_keys(m0, None)),
                i <= ids@.len(),
                self@.records == without_docs(s0, ids@, i as int),
            decreases ids@.len() - i,
        {
            match self.parts.1.delete_doc(ids[i]) {
                Ok(()) => {},
                Err(RegistryError::NotFound(_)) => {},
                Err(e) => {
                    assert(compaction_stopped(old(self)@, self@, listed, i as int));
                    return Err(IngestError::Registry(e));
                },
            }
            i += 1;
        }
        match self.parts.2.clear_tombstone() {
            Ok(()) => {},
            Err(e) => {
                assert(compaction_stopped(old(self)@, self@, listed, i as int));
                return Err(IngestError::Bitmap(e));
            },
        }
        Ok(
            CompactResult {
                docs_removed: count(ids.len()),
                bitmaps_cleaned: count(n),
                duration_ms: clock::millis_since(start),
            },
        )
    }
}

// ── Indexing a directory ────────────────────────────────────────────────────

/// A file and its content.
#[derive(Debug)]
pub struct SourceFile {
    pub path: String,
    pub content: Vec<u8>,
}

/// Whether a file is indexed: it is not ignored, and a parser handles it.
pub open spec fn is_wanted(
    parsers: Seq<Box<dyn Parser>>,
    root: Seq<char>,
    globs: Seq<Seq<char>>,
    path: Seq<char>,
) -> bool {
    !ignore::is_ignored_spec(path, root, globs) && parser_for(parsers, path) is Some
}

/// What indexing a file brings about. A new file is registered, a changed one replaced. An
/// unchanged one is added to the bitmaps of its keys, in case it is missing there.
pub open spec fn file_step(
    before: PipelineView,
    after: PipelineView,
    path: Seq<char>,
    content: Seq<u8>,
    keys: Seq<Seq<char>>,
    action: IngestAction,
) -> bool {
    let parsed = parsed_as(before.parsers, path, content)->Ok_0;
    let id = id_at(before.records, path);
    &&& parsed_as(before.parsers, path, content) is Ok
    &&& keys_follow(before.tagger, path, content, SourceTypeView::Obsidian, parsed, keys)
    &&& tagged(before.tagger, after.tagger, path, content, SourceTypeView::Obsidian, parsed)
    &&& if !is_known(before.records, path) {
        &&& action == IngestAction::Indexed
        &&& registered(before.records, after.records, path, content, parsed)
        &&& after.bitmaps == with_keys(before.bitmaps, keys, before.records.next_doc_id)
    } else if has_content(before.records, id, content) {
        &&& action == IngestAction::Skipped
        &&& after.records == before.records
        &&& after.bitmaps == with_keys(before.bitmaps, keys, id)
    } else {
        &&& action == IngestAction::Updated
        &&& reregistered(before.records, after.records, id, content, parsed)
        &&& after.bitmaps == with_exact_keys(before.bitmaps, keys, id)
    }
}

/// How the index came about, file by file.
pub struct Trail {
    /// The index before the first file, and after each.
    pub states: Seq<PipelineView>,
    /// What was done for each file; nothing for those that are not wanted.
    pub actions: Seq<Option<IngestAction>>,
    /// The keys of each file.
    pub keys: Seq<Seq<Seq<char>>>,
}

/// Whether a trail leads over files from a state.
pub open spec fn is_trail(
    trail: Trail,
    start: PipelineView,
    root: Seq<char>,
    globs: Seq<Seq<char>>,
    files: Seq<SourceFile>,
) -> bool {
    &&& trail.actions.len() == files.len()
    &&& trail.keys.len() == files.len()
    &&& trail.states.len() == files.len() + 1
    &&& trail.states[0] == start
    &&& forall|k: int|
        #![trigger trail.actions[k]]
        0 <= k < files.len() ==> trail_step(trail, start, root, globs, files, k)
}

/// What one step of a trail does.
pub open spec fn trail_step(
    trail: Trail,
    start: PipelineView,
    root: Seq<char>,
    globs: Seq<Seq<char>>,
    files: Seq<SourceFile>,
    k: int,
) -> bool {
    let a = trail.states[k];
    let b = trail.states[k + 1];
    &&& b.parsers == start.parsers
    &&& b.infallible == start.infallible
    &&& b.tagger is Some == start.tagger is Some
    &&& if is_wanted(start.parsers, root, globs, files[k].path@) {
        trail.actions[k] is Some && file_step(
            a,
            b,
            files[k].path@,
            files[k].content@,
            trail.keys[k],
            trail.actions[k]->Some_0,
        )
    } else {
        trail.actions[k] is None && trail.keys[k].len() == 0 && b == a
    }
}

/// How often an action occurs among the first `n`.
pub open spec fn times_done(actions: Seq<Option<IngestAction>>, action: IngestAction, n: int) -> nat
    decreases n,
{
    if n <= 0 {
        0
    } else {
        times_done(actions, action, n - 1) + if actions[n - 1] == Some(action) {
            1nat
        } else {
            0nat
        }
    }
}

/// The keys that occur in some list.
pub open spec fn used_keys(keys: Seq<Seq<Seq<char>>>) -> Set<Seq<char>> {
    Set::new(|x: Seq<char>| exists|k: int| 0 <= k < keys.len() && (#[trigger] keys[k]).contains(x))
}

/// Whether a path is that of a file which is indexed.
pub open spec fn is_on_disk(
    parsers: Seq<Box<dyn Parser>>,
    root: Seq<char>,
    globs: Seq<Seq<char>>,
    files: Seq<SourceFile>,
    path: Seq<char>,
) -> bool {
    exists|k: int|
        0 <= k < files.len() && is_wanted(parsers, root, globs, (#[trigger] files[k]).path@)
            && paths::normal_spec(files[k].path@) == paths::normal_spec(path)
}

/// The documents at or below `root` whose file is gone.
pub open spec fn gone_docs(
    start: PipelineView,
    root: Seq<char>,
    globs: Seq<Seq<char>>,
    files: Seq<SourceFile>,
) -> Set<DocId> {
    start.records.docs.dom().filter(
        |id: DocId|
            paths::is_within(start.records.docs[id].file_path@, root) && !is_on_disk(
                start.parsers,
                root,
                globs,
                files,
                start.records.docs[id].file_path@,
            ),
    )
}

/// Documents are deleted: they join the tombstones, and leave all other bitmaps.
pub open spec fn buried_all(m: Map<Seq<char>, Set<u32>>, gone: Set<DocId>) -> Map<
    Seq<char>,
    Set<u32>,
> {
    if gone == Set::<DocId>::empty() {
        m
    } else {
        Map::new(
            |k: Seq<char>| m.dom().contains(k) || k == bitmap::tombstone_key(),
            |k: Seq<char>|
                if k == bitmap::tombstone_key() {
                    bitmap::bitmap_at(m, k).union(gone)
                } else {
                    m[k].difference(gone)
                },
        )
    }
}

/// What indexing a directory brings about.
pub open spec fn on_indexed(
    before: PipelineView,
    after: PipelineView,
    root: Seq<char>,
    globs: Seq<Seq<char>>,
    files: Seq<SourceFile>,
    r: BulkIndexResult,
) -> bool {
    let gone = gone_docs(before, root, globs, files);
    exists|trail: Trail|
        {
            let n = files.len() as int;
            &&& #[trigger] is_trail(trail, before, root, globs, files)
            &&& after.records == trail.states[n].records
            &&& after.tagger == trail.states[n].tagger
            &&& after.bitmaps == buried_all(trail.states[n].bitmaps, gone)
            &&& r.docs_indexed == count_of(times_done(trail.actions, IngestAction::Indexed, n))
            &&& r.docs_updated == count_of(times_done(trail.actions, IngestAction::Updated, n))
            &&& r.docs_skipped == count_of(times_done(trail.actions, IngestAction::Skipped, n))
            &&& r.docs_tombstoned == count_of(gone.len())
            &&& r.bitmaps_created == count_of(used_keys(trail.keys).len())
        }
}

proof fn lemma_partly_buried_all(
    m: Map<Seq<char>, Set<u32>>,
    gone: Set<DocId>,
    id: DocId,
    all: Set<DocId>,
    p: Map<Seq<char>, Set<u32>>,
)
    requires
        gone.subset_of(all),
        all.contains(id),
        is_between(buried_all(m, gone), buried(buried_all(m, gone), id), p),
    ensures
        is_between(m, buried_all(m, all), p),
{
    let b = buried_all(m, gone);
    let to = buried_all(m, all);
    assert(all != Set::<DocId>::empty());
    assert forall|k: Seq<char>, x: DocId|
        #![trigger bitmap::bitmap_at(p, k).contains(x)]
        bitmap::bitmap_at(p, k).contains(x) == bitmap::bitmap_at(m, k).contains(x)
            || bitmap::bitmap_at(p, k).contains(x) == bitmap::bitmap_at(to, k).contains(x) by {
        if gone.contains(x) {
            assert(gone != Set::<DocId>::empty());
            assert(bitmap::bitmap_at(b, k).contains(x) == bitmap::bitmap_at(to, k).contains(x));
        } else {
            assert(bitmap::bitmap_at(b, k).contains(x) == bitmap::bitmap_at(m, k).contains(x));
        }
    }
}

proof fn lemma_bury_one(m: Map<Seq<char>, Set<u32>>, gone: Set<DocId>, id: DocId)
    ensures
        buried(buried_all(m, gone), id) == buried_all(m, gone.insert(id)),
{
    let a = buried(buried_all(m, gone), id);
    let b = buried_all(m, gone.insert(id));
    assert(gone.insert(id).contains(id));
    assert(gone.insert(id) != Set::<DocId>::empty());
    assert forall|k: Seq<char>| a.dom().contains(k) implies a[k] == b[k] by {
        assert(a[k] =~= b[k]);
    }
    assert(a =~= b);
}

/// What is left where indexing a file fails. Nothing changes where it does not parse, or where the
/// registry does not answer. Otherwise the document is on the way.
pub open spec fn file_failed(
    before: PipelineView,
    after: PipelineView,
    path: Seq<char>,
    content: Seq<u8>,
    e: IngestError,
) -> bool {
    let parsed = parsed_as(before.parsers, path, content)->Ok_0;
    let id = id_at(before.records, path);
    match e {
        IngestError::Parse(p) => {
            &&& parsed_as(before.parsers, path, content) == Err::<ParseView, ParseErrorView>(p@)
            &&& unchanged(before, after)
            &&& after.tagger == before.tagger
        },
        IngestError::Registry(x) => {
            ||| !before.infallible && unchanged(before, after) && after.tagger == before.tagger
            ||| {
                &&& x is Database
                &&& parsed_as(before.parsers, path, content) is Ok
                &&& before.infallible ==> lacks_ids(before.records, parsed.chunks.len())
                &&& if is_known(before.records, path) {
                    &&& half_changed(before.records, after.records, id, content, parsed)
                    &&& partly_moved(before, after, path, content, parsed, id, true)
                } else {
                    &&& half_registered(before.records, after.records, path, content, parsed)
                    &&& after.bitmaps == before.bitmaps
                    &&& after.tagger == before.tagger
                }
            }
        },
        IngestError::Bitmap(_) => {
            &&& !before.infallible
            &&& parsed_as(before.parsers, path, content) is Ok
            &&& if !is_known(before.records, path) {
                &&& registered(before.records, after.records, path, content, parsed)
                &&& partly_added(
                    before,
                    after,
                    path,
                    content,
                    parsed,
                    before.records.next_doc_id,
                )
            } else {
                &&& after.records == before.records
                &&& if has_content(before.records, id, content) {
                    partly_added(before, after, path, content, parsed, id)
                } else {
                    partly_moved(before, after, path, content, parsed, id, false)
                }
            }
        },
        _ => false,
    }
}

impl IngestionPipeline {
    /// Indexes one file that a parser handles.
    fn index_file(&mut self, path: &str, content: &[u8], p: usize) -> (r: Result<
        (IngestAction, Vec<BitmapKey>),
        IngestError,
    >)
        requires
            old(self).wf(),
            parser_for(old(self)@.parsers, path@) == Some(p as int),
            p < old(self)@.parsers.len(),
        ensures
            final(self).wf(),
            final(self)@.parsers == old(self)@.parsers,
            final(self)@.infallible == old(self)@.infallible,
            match r {
                Ok((action, keys)) => {
                    &&& final(self)@.tagger is Some == old(self)@.tagger is Some
                    &&& file_step(
                        old(self)@,
                        final(self)@,
                        path@,
                        content@,
                        keys.deep_view(),
                        action,
                    )
                },
                Err(e) => file_failed(old(self)@, final(self)@, path@, content@, e),
            },
    {
        let record = match self.parts.1.lookup_by_path(path) {
            Ok(d) => d,
            Err(e) => {
                return Err(IngestError::Registry(e));
            },
        };
        let result = match self.parts.0[p].parse(path, content) {
            Ok(r) => r,
            Err(e) => {
                return Err(IngestError::Parse(e));
            },
        };
        match record {
            None => match self.index_new(path, content, &result) {
                Ok(keys) => Ok((IngestAction::Indexed, keys)),
                Err(e) => Err(e),
            },
            Some(d) => {
                let digest = hash::blake3_of(content);
                if hash::same_hash(&d.blake3_hash, &digest) {
                    let keys = self.enriched_bitmap_keys(
                        path,
                        content,
                        &SourceType::Obsidian,
                        &result,
                    );
                    let ghost ks = keys.deep_view();
                    match self.add_to_keys(&keys, d.doc_id) {
                        Ok(()) => Ok((IngestAction::Skipped, keys)),
                        Err(e) => {
                            assert(is_between(
                                old(self)@.bitmaps,
                                with_keys(old(self)@.bitmaps, ks, d.doc_id),
                                self@.bitmaps,
                            ));
                            Err(e)
                        },
                    }
                } else {
                    let keys = self.enriched_bitmap_keys(
                        path,
                        content,
                        &SourceType::Obsidian,
                        &result,
                    );
                    let ghost ks = keys.deep_view();
                    let ghost seen = keys_holding(old(self)@.bitmaps, d.doc_id);
                    assert(is_seen(old(self)@, d.doc_id, seen));
                    let old_keys = match self.keys_of(d.doc_id) {
                        Ok(k) => k,
                        Err(e) => {
                            assert(is_between(
                                old(self)@.bitmaps,
                                with_seen_keys(old(self)@.bitmaps, ks, seen, d.doc_id),
                                self@.bitmaps,
                            ));
                            return Err(e);
                        },
                    };
                    proof {
                        law_all_seen(self@.bitmaps, ks, d.doc_id);
                    }
                    match self.index_changed(d.doc_id, content, &result, &keys, &old_keys) {
                        Ok(_) => Ok((IngestAction::Updated, keys)),
                        Err(e) => {
                            assert(is_between(
                                old(self)@.bitmaps,
                                with_seen_keys(old(self)@.bitmaps, ks, seen, d.doc_id),
                                self@.bitmaps,
                            ));
                            Err(e)
                        },
                    }
                }
            },
        }
    }
}

/// The number of chunks of the first `n` files, of those that are indexed and parse.
pub open spec fn chunk_total(
    parsers: Seq<Box<dyn Parser>>,
    root: Seq<char>,
    globs: Seq<Seq<char>>,
    files: Seq<SourceFile>,
    n: int,
) -> nat
    decreases n,
{
    if n <= 0 {
        0
    } else {
        let f = files[n - 1];
        let p = parsed_as(parsers, f.path@, f.content@);
        chunk_total(parsers, root, globs, files, n - 1) + if is_wanted(
            parsers,
            root,
            globs,
            f.path@,
        ) && p is Ok {
            p->Ok_0.chunks.len()
        } else {
            0
        }
    }
}

/// Whether the registry may run out of ids over files.
pub open spec fn ids_run_out(
    start: PipelineView,
    root: Seq<char>,
    globs: Seq<Seq<char>>,
    files: Seq<SourceFile>,
) -> bool {
    start.records.next_doc_id + files.len() > u32::MAX || start.records.next_chunk_id + chunk_total(
        start.parsers,
        root,
        globs,
        files,
        files.len() as int,
    ) > u32::MAX
}

/// Whether indexing a directory fails with an error once the first `k` files are indexed, and what is
/// left then: the documents cannot be listed, the next file fails, or those whose file is gone cannot
/// be deleted.
pub open spec fn fails_at(
    trail: Trail,
    k: int,
    before: PipelineView,
    after: PipelineView,
    root: Seq<char>,
    globs: Seq<Seq<char>>,
    files: Seq<SourceFile>,
    e: IngestError,
) -> bool {
    let at = trail.states[k];
    &&& 0 <= k <= files.len()
    &&& is_trail(trail, before, root, globs, files.take(k))
    &&& {
        ||| {
            &&& k == 0
            &&& !before.infallible
            &&& e is Registry
            &&& unchanged(at, after)
            &&& after.tagger == at.tagger
        }
        ||| {
            &&& k < files.len()
            &&& is_wanted(before.parsers, root, globs, files[k].path@)
            &&& file_failed(at, after, files[k].path@, files[k].content@, e)
        }
        ||| {
            &&& k == files.len()
            &&& !before.infallible
            &&& e is Bitmap
            &&& after.records == at.records
            &&& after.tagger == at.tagger
            &&& is_between(
                at.bitmaps,
                buried_all(at.bitmaps, gone_docs(before, root, globs, files)),
                after.bitmaps,
            )
        }
    }
}

/// What indexing a directory fails on: a file that is indexed does not parse, or the ids run out. An
/// error of the registry or of the bitmap store is handed on. The files before are indexed.
pub open spec fn on_index_failed(
    before: PipelineView,
    after: PipelineView,
    root: Seq<char>,
    globs: Seq<Seq<char>>,
    files: Seq<SourceFile>,
    e: IngestError,
) -> bool {
    &&& exists|trail: Trail, k: int| #[trigger]
        fails_at(trail, k, before, after, root, globs, files, e)
    &&& before.infallible ==> match e {
        IngestError::Parse(_) => true,
        IngestError::Registry(x) => x is Database && ids_run_out(before, root, globs, files),
        _ => false,
    }
}

proof fn lemma_trail_front(
    trail: Trail,
    start: PipelineView,
    root: Seq<char>,
    globs: Seq<Seq<char>>,
    files: Seq<SourceFile>,
    k: int,
)
    requires
        0 <= k <= files.len(),
        trail.actions.len() == k,
        trail.keys.len() == k,
        trail.states.len() == k + 1,
        trail.states[0] == start,
        forall|j: int|
            #![trigger trail.actions[j]]
            0 <= j < k ==> trail_step(trail, start, root, globs, files, j),
    ensures
        is_trail(trail, start, root, globs, files.take(k)),
{
    let front = files.take(k);
    assert forall|j: int|
        #![trigger trail.actions[j]]
        0 <= j < front.len() implies trail_step(trail, start, root, globs, front, j) by {
        assert(front[j] == files[j]);
        assert(trail_step(trail, start, root, globs, files, j));
    }
}

proof fn lemma_chunk_total_monotone(
    parsers: Seq<Box<dyn Parser>>,
    root: Seq<char>,
    globs: Seq<Seq<char>>,
    files: Seq<SourceFile>,
    i: int,
    n: int,
)
    requires
        i <= n,
    ensures
        chunk_total(parsers, root, globs, files, i) <= chunk_total(parsers, root, globs, files, n),
    decreases n - i,
{
    if i < n {
        lemma_chunk_total_monotone(parsers, root, globs, files, i, n - 1);
    }
}

impl IngestionPipeline {
    /// The parser of each file that is indexed.
    fn parsers_of(&self, rules: &IgnoreRules, files: &Vec<SourceFile>) -> (r: Vec<Option<usize>>)
        requires
            rules.wf(),
        ensures
            r@.len() == files@.len(),
            forall|k: int|
                0 <= k < files@.len() ==> match #[trigger] r@[k] {
                    Some(p) => is_wanted(
                        self@.parsers,
                        rules.root_spec(),
                        rules.globs(),
                        files@[k].path@,
                    ) && p < self@.parsers.len() && parser_for(self@.parsers, files@[k].path@)
                        == Some(p as int),
                    None => !is_wanted(
                        self@.parsers,
                        rules.root_spec(),
                        rules.globs(),
                        files@[k].path@,
                    ),
                },
    {
        let mut out: Vec<Option<usize>> = Vec::new();
        let mut i: usize = 0;
        while i < files.len()
            invariant
                rules.wf(),
                i <= files@.len(),
                out@.len() == i,
                forall|k: int|
                    0 <= k < i ==> match #[trigger] out@[k] {
                        Some(p) => is_wanted(
                            self@.parsers,
                            rules.root_spec(),
                            rules.globs(),
                            files@[k].path@,
                        ) && p < self@.parsers.len() && parser_for(self@.parsers, files@[k].path@)
                            == Some(p as int),
                        None => !is_wanted(
                            self@.parsers,
                            rules.root_spec(),
                            rules.globs(),
                            files@[k].path@,
                        ),
                    },
            decreases files@.len() - i,
        {
            let path = files[i].path.as_str();
            if rules.ignores(path) {
                out.push(None);
            } else {
                out.push(self.find_parser(path));
            }
            i += 1;
        }
        out
    }

    /// Deletes the documents at or below the root whose file is gone, and returns how many they are.
    fn bury_gone(
        &mut self,
        rules: &IgnoreRules,
        root: &str,
        files: &Vec<SourceFile>,
        parsers: &Vec<Option<usize>>,
        existing: &Vec<DocRecord>,
        Ghost(start): Ghost<PipelineView>,
    ) -> (r: Result<usize, IngestError>)
        requires
            old(self).wf(),
            old(self)@.infallible == start.infallible,
            rules.root_spec() == root@,
            existing@.no_duplicates(),
            forall|d: DocRecord| #[trigger]
                existing@.contains(d) <==> start.records.docs.dom().contains(d.doc_id)
                    && start.records.docs[d.doc_id] == d,
            registry::valid_state(start.records),
            parsers@.len() == files@.len(),
            forall|k: int|
                0 <= k < files@.len() ==> (#[trigger] parsers@[k] is Some <==> is_wanted(
                    start.parsers,
                    rules.root_spec(),
                    rules.globs(),
                    files@[k].path@,
                )),
        ensures
            final(self).wf(),
            final(self)@.parsers == old(self)@.parsers,
            final(self)@.records == old(self)@.records,
            final(self)@.tagger == old(self)@.tagger,
            final(self)@.infallible == old(self)@.infallible,
            old(self)@.infallible ==> r is Ok,
            match r {
                Ok(n) => {
                    let gone = gone_docs(start, root@, rules.globs(), files@);
                    n == gone.len() && final(self)@.bitmaps == buried_all(
                        old(self)@.bitmaps,
                        gone,
                    )
                },
                Err(e) => e is Bitmap && is_between(
                    old(self)@.bitmaps,
                    buried_all(
                        old(self)@.bitmaps,
                        gone_docs(start, root@, rules.globs(), files@),
                    ),
                    final(self)@.bitmaps,
                ),
            },
    {
        let ghost globs = rules.globs();
        let mut there: KeyMap<bool> = KeyMap::new();
        let mut i: usize = 0;
        while i < files.len()
            invariant
                i <= files@.len(),
                parsers@.len() == files@.len(),
                there.wf(),
                rules.root_spec() == root@,
                globs == rules.globs(),
                forall|k: int|
                    0 <= k < files@.len() ==> (#[trigger] parsers@[k] is Some <==> is_wanted(
                        start.parsers,
                        rules.root_spec(),
                        rules.globs(),
                        files@[k].path@,
                    )),
                forall|p: Seq<char>| #[trigger]
                    there@.dom().contains(p) <==> exists|k: int|
                        0 <= k < i && is_wanted(
                            start.parsers,
                            root@,
                            globs,
                            (#[trigger] files@[k]).path@,
                        ) && paths::normal_spec(files@[k].path@) == p,
            decreases files@.len() - i,
        {
            let ghost before = there@;
            let wanted = parsers[i].is_some();
            assert(parsers@[i as int] is Some == wanted);
            if wanted {
                there.insert(paths::normalize(files[i].path.as_str()), true);
            }
            proof {
                assert forall|p: Seq<char>| #[trigger]
                    there@.dom().contains(p) <==> exists|k: int|
                        0 <= k < i + 1 && is_wanted(
                            start.parsers,
                            root@,
                            globs,
                            (#[trigger] files@[k]).path@,
                        ) && paths::normal_spec(files@[k].path@) == p by {
                    if before.dom().contains(p) {
                        let k = choose|k: int|
                            0 <= k < i && is_wanted(
                                start.parsers,
                                root@,
                                globs,
                                (#[trigger] files@[k]).path@,
                            ) && paths::normal_spec(files@[k].path@) == p;
                        assert(0 <= k < i + 1 && is_wanted(
                            start.parsers,
                            root@,
                            globs,
                            files@[k].path@,
                        ));
                    }
                    if wanted && p == paths::normal_spec(files@[i as int].path@) {
                        assert(is_wanted(start.parsers, root@, globs, files@[i as int].path@));
                    }
                    if exists|k: int|
                        0 <= k < i + 1 && is_wanted(
                            start.parsers,
                            root@,
                            globs,
                            (#[trigger] files@[k]).path@,
                        ) && paths::normal_spec(files@[k].path@) == p {
                        let k = choose|k: int|
                            0 <= k < i + 1 && is_wanted(
                                start.parsers,
                                root@,
                                globs,
                                (#[trigger] files@[k]).path@,
                            ) && paths::normal_spec(files@[k].path@) == p;
                        if k < i {
                            assert(before.dom().contains(p));
                        }
                    }
                }
            }
            i += 1;
        }
        let ghost m0 = self@.bitmaps;
        let ghost all = gone_docs(start, root@, globs, files@);
        let ghost mut gone: Seq<DocId> = Seq::empty();
        let mut n: usize = 0;
        let mut j: usize = 0;
        proof {
            assert(gone.to_set() =~= Set::<DocId>::empty());
        }
        while j < existing.len()
            invariant
                self.wf(),
                self@.parsers == old(self)@.parsers,
                self@.records == old(self)@.records,
                self@.tagger == old(self)@.tagger,
                self@.infallible == old(self)@.infallible,
                start.infallible == self@.infallible,
                m0 == old(self)@.bitmaps,
                there.wf(),
                globs == rules.globs(),
                registry::valid_state(start.records),
                all == gone_docs(start, root@, globs, files@),
                existing@.no_duplicates(),
                forall|d: DocRecord| #[trigger]
                    existing@.contains(d) <==> start.records.docs.dom().contains(d.doc_id)
                        && start.records.docs[d.doc_id] == d,
                forall|p: Seq<char>|
                    there@.dom().contains(paths::normal_spec(p)) <==> #[trigger] is_on_disk(
                        start.parsers,
                        root@,
                        globs,
                        files@,
                        p,
                    ),
                j <= existing@.len(),
                n == gone.len(),
                n <= j,
                gone.no_duplicates(),
                forall|id: DocId| #[trigger]
                    gone.contains(id) <==> all.contains(id) && exists|k: int|
                        0 <= k < j && (#[trigger] existing@[k]).doc_id == id,
                self@.bitmaps == buried_all(m0, gone.to_set()),
            decreases existing@.len() - j,
        {
            let d = &existing[j];
            proof {
                assert(existing@.contains(existing@[j as int]));
                assert(start.records.docs.dom().contains(d.doc_id));
                assert(start.records.docs[d.doc_id] == *d);
                assert(is_on_disk(start.parsers, root@, globs, files@, d.file_path@)
                    == there@.dom().contains(paths::normal_spec(d.file_path@)));
            }
            let key = paths::normalize(d.file_path.as_str());
            let is_gone = paths::starts_with(d.file_path.as_str(), root) && !there.contains_key(
                key.as_str(),
            );
            assert(is_gone == all.contains(d.doc_id));
            let ghost before = gone;
            proof {
                if before.contains(d.doc_id) {
                    let k = choose|k: int| 0 <= k < j && (#[trigger] existing@[k]).doc_id == d.doc_id;
                    assert(existing@.contains(existing@[k]));
                    assert(existing@[k] == existing@[j as int]);
                }
            }
            if is_gone {
                match self.bury(d.doc_id) {
                    Ok(_) => {},
                    Err(e) => {
                        proof {
                            assert forall|x: DocId| before.to_set().contains(x) implies all.contains(
                                x,
                            ) by {
                                assert(before.contains(x));
                            }
                            lemma_partly_buried_all(
                                m0,
                                before.to_set(),
                                d.doc_id,
                                all,
                                self@.bitmaps,
                            );
                        }
                        return Err(e);
                    },
                }
                proof {
                    gone = before.push(d.doc_id);
                    lemma_bury_one(m0, before.to_set(), d.doc_id);
                    assert(gone.to_set() =~= before.to_set().insert(d.doc_id)) by {
                        assert forall|x: DocId| gone.to_set().contains(x) <==> before.to_set().insert(
                            d.doc_id,
                        ).contains(x) by {
                            if gone.contains(x) {
                                let k = gone.index_of(x);
                                if k < before.len() {
                                    assert(before[k] == x);
                                }
                            }
                            if before.contains(x) {
                                let k = before.index_of(x);
                                assert(gone[k] == x);
                            }
                            assert(gone[before.len() as int] == d.doc_id);
                        }
                    }
                }
                n += 1;
            }
            proof {
                assert forall|id: DocId| #[trigger]
                    gone.contains(id) <==> all.contains(id) && exists|k: int|
                        0 <= k < j + 1 && (#[trigger] existing@[k]).doc_id == id by {
                    if gone.contains(id) {
                        let k = gone.index_of(id);
                        if k < before.len() {
                            assert(before[k] == id);
                            assert(before.contains(id));
                            let x = choose|x: int| 0 <= x < j && (#[trigger] existing@[x]).doc_id == id;
                            assert(0 <= x < j + 1 && existing@[x].doc_id == id);
                        } else {
                            assert(existing@[j as int].doc_id == id);
                        }
                    }
                    if all.contains(id) && exists|k: int|
                        0 <= k < j + 1 && (#[trigger] existing@[k]).doc_id == id {
                        let k = choose|k: int|
                            0 <= k < j + 1 && (#[trigger] existing@[k]).doc_id == id;
                        if k < j {
                            assert(before.contains(id));
                            let x = before.index_of(id);
                            assert(gone[x] == id);
                        } else {
                            assert(gone[before.len() as int] == id);
                        }
                    }
                }
            }
            j += 1;
        }
        proof {
            gone.unique_seq_to_set();
            assert forall|id: DocId| gone.to_set().contains(id) <==> all.contains(id) by {
                if all.contains(id) {
                    let d = start.records.docs[id];
                    assert(existing@.contains(d));
                    let k = existing@.index_of(d);
                    assert(existing@[k].doc_id == id);
                    assert(gone.contains(id));
                }
            }
            assert(gone.to_set() =~= all);
        }
        Ok(n)
    }
}

impl IngestionPipeline {
    /// Indexes the files of a directory. Those already indexed with the same content are skipped,
    /// changed ones are replaced, new ones are registered, and documents below the root whose file is
    /// not among them are tombstoned. `ignore_file` holds the directory's ignore file, and is empty
    /// where there is none.
    pub fn bulk_index(&mut self, root: &str, files: &Vec<SourceFile>, ignore_file: &str) -> (r:
        Result<BulkIndexResult, IngestError>)
        requires
            old(self).wf(),
        ensures
            final(self).wf(),
            final(self)@.parsers == old(self)@.parsers,
            final(self)@.infallible == old(self)@.infallible,
            match r {
                Ok(b) => on_indexed(
                    old(self)@,
                    final(self)@,
                    root@,
                    ignore::ignore_globs_spec(ignore_file@),
                    files@,
                    b,
                ),
                Err(e) => on_index_failed(
                    old(self)@,
                    final(self)@,
                    root@,
                    ignore::ignore_globs_spec(ignore_file@),
                    files@,
                    e,
                ),
            },
    {
        let started = Instant::now();
        let rules = IgnoreRules::new(root, ignore_file);
        let parsers = self.parsers_of(&rules, files);
        let ghost start = self@;
        let ghost globs = rules.globs();
        let ghost mut trail = Trail {
            states: seq![start],
            actions: Seq::empty(),
            keys: Seq::empty(),
        };
        let existing = match self.parts.1.list_all_docs() {
            Ok(v) => v,
            Err(e) => {
                let failed = IngestError::Registry(e);
                proof {
                    lemma_trail_front(trail, start, root@, globs, files@, 0);
                    assert(fails_at(trail, 0, start, self@, root@, globs, files@, failed));
                }
                return Err(failed);
            },
        };
        let mut used: KeyMap<bool> = KeyMap::new();
        let mut indexed: usize = 0;
        let mut updated: usize = 0;
        let mut skipped: usize = 0;
        let mut i: usize = 0;
        while i < files.len()
            invariant
                self.wf(),
                start == old(self)@,
                self@.parsers == start.parsers,
                self@.infallible == start.infallible,
                globs == ignore::ignore_globs_spec(ignore_file@),
                i <= files@.len(),
                parsers@.len() == files@.len(),
                forall|k: int|
                    0 <= k < files@.len() ==> match #[trigger] parsers@[k] {
                        Some(p) => is_wanted(start.parsers, root@, globs, files@[k].path@) && p
                            < start.parsers.len() && parser_for(start.parsers, files@[k].path@)
                            == Some(p as int),
                        None => !is_wanted(start.parsers, root@, globs, files@[k].path@),
                    },
                used.wf(),
                indexed <= i,
                updated <= i,
                skipped <= i,
                self@.tagger is Some == start.tagger is Some,
                trail.actions.len() == i,
                trail.keys.len() == i,
                trail.states.len() == i + 1,
                trail.states[0] == start,
                trail.states[i as int] == self@,
                forall|k: int|
                    #![trigger trail.actions[k]]
                    0 <= k < i ==> trail_step(trail, start, root@, globs, files@, k),
                indexed == times_done(trail.actions, IngestAction::Indexed, i as int),
                updated == times_done(trail.actions, IngestAction::Updated, i as int),
                skipped == times_done(trail.actions, IngestAction::Skipped, i as int),
                used@.dom() == used_keys(trail.keys),
                self@.records.next_doc_id <= start.records.next_doc_id + i,
                self@.records.next_chunk_id <= start.records.next_chunk_id + chunk_total(
                    start.parsers,
                    root@,
                    globs,
                    files@,
                    i as int,
                ),
            decreases files@.len() - i,
        {
            let f = &files[i];
            let ghost before = self@;
            let ghost t0 = trail;
            let ghost mut action: Option<IngestAction> = None;
            let ghost mut own: Seq<Seq<char>> = Seq::empty();
            match parsers[i] {
                Some(p) => {
                    assert(parsers@[i as int] == Some(p));
                    match self.index_file(f.path.as_str(), f.content.as_slice(), p) {
                        Ok((a, keys)) => {
                            proof {
                                action = Some(a);
                                own = keys.deep_view();
                                lemma_index_ids(before, self@, f.path@, f.content@, own, a);
                            }
                            add_used(&mut used, &keys);
                            match a {
                                IngestAction::Indexed => {
                                    indexed += 1;
                                },
                                IngestAction::Updated => {
                                    updated += 1;
                                },
                                _ => {
                                    skipped += 1;
                                },
                            }
                        },
                        Err(e) => {
                            proof {
                                assert(files@[i as int] == *f);
                                lemma_chunk_total_monotone(
                                    start.parsers,
                                    root@,
                                    globs,
                                    files@,
                                    i + 1,
                                    files@.len() as int,
                                );
                                assert(before == trail.states[i as int]);
                                lemma_trail_front(trail, start, root@, globs, files@, i as int);
                                assert(fails_at(
                                    trail,
                                    i as int,
                                    start,
                                    self@,
                                    root@,
                                    globs,
                                    files@,
                                    e,
                                ));
                                assert(on_index_failed(start, self@, root@, globs, files@, e));
                            }
                            return Err(e);
                        },
                    }
                },
                None => {
                    assert(parsers@[i as int] is None);
                },
            }
            proof {
                trail = Trail {
                    states: t0.states.push(self@),
                    actions: t0.actions.push(action),
                    keys: t0.keys.push(own),
                };
                assert forall|k: int|
                    #![trigger trail.actions[k]]
                    0 <= k < i + 1 implies trail_step(trail, start, root@, globs, files@, k) by {
                    if k < i {
                        assert(t0.actions[k] == trail.actions[k]);
                        assert(trail_step(t0, start, root@, globs, files@, k));
                        assert(t0.states[k] == trail.states[k]);
                        assert(t0.states[k + 1] == trail.states[k + 1]);
                    } else {
                        assert(trail.states[i as int] == before);
                        assert(trail.states[i + 1] == self@);
                    }
                }
                lemma_times_done(t0.actions, action, i as int);
                lemma_used_keys(t0.keys, own);
            }
            i += 1;
        }
        let n = match self.bury_gone(&rules, root, files, &parsers, &existing, Ghost(start)) {
            Ok(n) => n,
            Err(e) => {
                proof {
                    lemma_trail_front(trail, start, root@, globs, files@, i as int);
                    assert(fails_at(trail, i as int, start, self@, root@, globs, files@, e));
                }
                return Err(e);
            },
        };
        proof {
            used.lemma_keys();
            used.keys_spec().unique_seq_to_set();
            assert(used.keys_spec().to_set() =~= used@.dom());
            assert(is_trail(trail, start, root@, globs, files@));
        }
        Ok(
            BulkIndexResult {
                docs_indexed: count(indexed),
                docs_updated: count(updated),
                docs_skipped: count(skipped),
                docs_tombstoned: count(n),
                bitmaps_created: count(used.len()),
                duration_ms: clock::millis_since(started),
            },
        )
    }
}

fn add_used(used: &mut KeyMap<bool>, keys: &Vec<BitmapKey>)
    requires
        old(used).wf(),
    ensures
        final(used).wf(),
        final(used)@.dom() == old(used)@.dom().union(keys.deep_view().to_set()),
{
    let ghost ks = keys.deep_view();
    let mut i: usize = 0;
    assert(used@.dom() =~= used@.dom().union(ks.take(0).to_set()));
    while i < keys.len()
        invariant
            used.wf(),
            ks == keys.deep_view(),
            i <= keys@.len(),
            used@.dom() == old(used)@.dom().union(ks.take(i as int).to_set()),
        decreases keys@.len() - i,
    {
        let ghost before = used@.dom();
        used.insert(keys[i].clone(), true);
        proof {
            let k0 = ks[i as int];
            assert(k0 == keys@[i as int]@);
            let t = ks.take(i as int);
            assert(ks.take(i + 1) =~= t.push(k0));
            assert forall|k: Seq<char>| used@.dom().contains(k) <==> old(used)@.dom().union(
                ks.take(i + 1).to_set(),
            ).contains(k) by {
                bitmap::lemma_push_contains(t, k0, k);
                assert(before.contains(k) <==> old(used)@.dom().contains(k) || t.contains(k));
            }
            assert(used@.dom() =~= old(used)@.dom().union(ks.take(i + 1).to_set()));
        }
        i += 1;
    }
    assert(ks.take(i as int) =~= ks);
}

proof fn lemma_times_done(actions: Seq<Option<IngestAction>>, x: Option<IngestAction>, n: int)
    requires
        n == actions.len(),
    ensures
        forall|a: IngestAction| #[trigger]
            times_done(actions.push(x), a, n + 1) == times_done(actions, a, n) + if x == Some(a) {
                1nat
            } else {
                0nat
            },
{
    assert forall|a: IngestAction| #[trigger]
        times_done(actions.push(x), a, n + 1) == times_done(actions, a, n) + if x == Some(a) {
            1nat
        } else {
            0nat
        } by {
        lemma_times_done_prefix(actions, x, a, n);
    }
}

proof fn lemma_times_done_prefix(
    actions: Seq<Option<IngestAction>>,
    x: Option<IngestAction>,
    a: IngestAction,
    n: int,
)
    requires
        n <= actions.len(),
    ensures
        times_done(actions.push(x), a, n) == times_done(actions, a, n),
    decreases n,
{
    if n > 0 {
        lemma_times_done_prefix(actions, x, a, n - 1);
    }
}

proof fn lemma_used_keys(keys: Seq<Seq<Seq<char>>>, own: Seq<Seq<char>>)
    ensures
        used_keys(keys.push(own)) == used_keys(keys).union(own.to_set()),
{
    let a = used_keys(keys.push(own));
    let b = used_keys(keys).union(own.to_set());
    assert forall|x: Seq<char>| a.contains(x) <==> b.contains(x) by {
        if a.contains(x) {
            let k = choose|k: int|
                0 <= k < keys.push(own).len() && (#[trigger] keys.push(own)[k]).contains(x);
            if k < keys.len() {
                assert(keys[k].contains(x));
            }
        }
        if used_keys(keys).contains(x) {
            let k = choose|k: int| 0 <= k < keys.len() && (#[trigger] keys[k]).contains(x);
            assert(keys.push(own)[k].contains(x));
        }
        if own.contains(x) {
            assert(keys.push(own)[keys.len() as int].contains(x));
        }
    }
    assert(a =~= b);
}

/// Indexing a file takes at most one document id, and one chunk id for each chunk.
proof fn lemma_index_ids(
    before: PipelineView,
    after: PipelineView,
    path: Seq<char>,
    content: Seq<u8>,
    keys: Seq<Seq<char>>,
    action: IngestAction,
)
    requires
        file_step(before, after, path, content, keys, action),
    ensures
        after.records.next_doc_id <= before.records.next_doc_id + 1,
        after.records.next_chunk_id <= before.records.next_chunk_id + parsed_as(
            before.parsers,
            path,
            content,
        )->Ok_0.chunks.len(),
{
}

// ── Laws ────────────────────────────────────────────────────────────────────

/// A document is found by each of the keys that it was added to, unless it is deleted.
pub proof fn law_indexed_is_found(
    m: Map<Seq<char>, Set<u32>>,
    keys: Seq<Seq<char>>,
    id: DocId,
    key: String,
)
    requires
        keys.contains(key@),
        !keys.contains(bitmap::tombstone_key()),
        !query::tombstones(m).contains(id),
    ensures
        query::selected(with_keys(m, keys, id), Filter::Key(key)).contains(id),
        query::selected(with_exact_keys(m, keys, id), Filter::Key(key)).contains(id),
{
}

/// A deleted document is found by no filter.
pub proof fn law_deleted_is_not_found(m: Map<Seq<char>, Set<u32>>, id: DocId, f: Filter)
    ensures
        !query::selected(buried(m, id), f).contains(id),
{
    query::law_tombstones_never_match(buried(m, id), f, id);
}

/// After a change a document stands under its keys and no others, and all other documents stand
/// where they stood.
pub proof fn law_exact_keys(
    m: Map<Seq<char>, Set<u32>>,
    keys: Seq<Seq<char>>,
    id: DocId,
    k: Seq<char>,
    other: DocId,
)
    requires
        bitmap::is_listed(k, None),
        other != id,
    ensures
        bitmap::bitmap_at(with_exact_keys(m, keys, id), k).contains(id) <==> keys.contains(k),
        bitmap::bitmap_at(with_exact_keys(m, keys, id), k).contains(other) <==> bitmap::bitmap_at(
            m,
            k,
        ).contains(other),
{
}

/// A file that was just indexed is skipped when its content has not changed.
pub proof fn law_unchanged_is_skipped(
    a: PipelineView,
    b: PipelineView,
    c: PipelineView,
    path: Seq<char>,
    content: Seq<u8>,
    i: IngestResult,
    r: Result<IngestResult, IngestError>,
)
    requires
        registry::valid_state(a.records),
        a.parsers == b.parsers,
        b.infallible,
        on_created(a, b, path, Ok(content), Ok(i)),
        on_modified(b, c, path, Ok(content), r),
    ensures
        r == Ok::<IngestResult, IngestError>(
            IngestResult { action: IngestAction::Skipped, bitmaps_updated: 0 },
        ),
        unchanged(b, c),
{
    let (doc, now, cs) = choose|doc: NewDoc, now: Timestamp, cs: Seq<NewChunk>|
        is_new_doc(
            doc,
            path,
            content,
            parsed_as(a.parsers, path, content)->Ok_0.auto_type,
        ) && are_new_chunks(
            cs,
            a.records.next_doc_id,
            parsed_as(a.parsers, path, content)->Ok_0.chunks,
        ) && b.records == #[trigger] with_new(a.records, doc, now, cs);
    assert(is_known(b.records, path));
    assert(id_at(b.records, path) == a.records.next_doc_id);
    assert(has_content(b.records, a.records.next_doc_id, content));
}

/// Compaction changes the answer to no query.
pub proof fn law_compaction_keeps_answers(m: Map<Seq<char>, Set<u32>>, f: Filter)
    ensures
        query::selected(compacted(m), f) == query::selected(m, f),
    decreases f,
{
    let c = compacted(m);
    let dead = query::tombstones(m);
    assert(query::tombstones(c) =~= Set::<u32>::empty());
    lemma_compacted_bitmaps(m);
    match f {
        Filter::Key(k) => {
            assert(query::selected(c, f) =~= query::selected(m, f));
        },
        Filter::Not(inner) => {
            law_compaction_keeps_answers(m, *inner);
            assert forall|x: u32| query::universe(c).contains(x) <==> query::universe(m).contains(
                x,
            ) by {
                if query::universe(c).contains(x) {
                    let k = choose|k: Seq<char>|
                        c.dom().contains(k) && #[trigger] bitmap::is_listed(k, None)
                            && c[k].contains(x);
                    assert(bitmap::bitmap_at(c, k).contains(x));
                    assert(m.dom().contains(k) && bitmap::is_listed(k, None) && m[k].contains(x));
                }
                if query::universe(m).contains(x) {
                    let k = choose|k: Seq<char>|
                        m.dom().contains(k) && #[trigger] bitmap::is_listed(k, None)
                            && m[k].contains(x);
                    assert(bitmap::bitmap_at(c, k).contains(x));
                    assert(c.dom().contains(k) && bitmap::is_listed(k, None) && c[k].contains(x));
                }
            }
            assert(query::universe(c) =~= query::universe(m));
        },
        Filter::And(v) => {
            let a = query::selected_each(c, v);
            let b = query::selected_each(m, v);
            assert forall|i: int| 0 <= i < v@.len() implies a[i] == b[i] by {
                law_compaction_keeps_answers(m, v@[i]);
            }
            assert(a =~= b);
        },
        Filter::Or(v) => {
            let a = query::selected_each(c, v);
            let b = query::selected_each(m, v);
            assert forall|i: int| 0 <= i < v@.len() implies a[i] == b[i] by {
                law_compaction_keeps_answers(m, v@[i]);
            }
            assert(a =~= b);
        },
    }
}

proof fn lemma_compacted_bitmaps(m: Map<Seq<char>, Set<u32>>)
    ensures
        forall|k: Seq<char>|
            k != bitmap::tombstone_key() ==> #[trigger] bitmap::bitmap_at(compacted(m), k)
                == bitmap::bitmap_at(m, k).difference(query::tombstones(m)),
{
    let c = compacted(m);
    let dead = query::tombstones(m);
    assert forall|k: Seq<char>| k != bitmap::tombstone_key() implies #[trigger] bitmap::bitmap_at(
        c,
        k,
    ) == bitmap::bitmap_at(m, k).difference(dead) by {
        assert(bitmap::is_listed(k, None));
        assert(query::listed_keys(m, None).contains(k) <==> m.dom().contains(k));
        assert(bitmap::bitmap_at(c, k) =~= bitmap::bitmap_at(m, k).difference(dead));
    }
}

/// After compaction there are no tombstones, and no bitmap holds a document that was deleted.
pub proof fn law_compaction_forgets(m: Map<Seq<char>, Set<u32>>, k: Seq<char>, id: DocId)
    requires
        query::tombstones(m).contains(id),
    ensures
        query::tombstones(compacted(m)) == Set::<u32>::empty(),
        !bitmap::bitmap_at(compacted(m), k).contains(id),
{
    lemma_compacted_bitmaps(m);
    assert(query::tombstones(compacted(m)) =~= Set::<u32>::empty());
}

/// Compaction removes the records of the deleted documents, and keeps all others.
pub proof fn law_compaction_of_records(s: RegistryState, ids: Seq<DocId>, n: int, id: DocId)
    requires
        registry::valid_state(s),
        0 <= n <= ids.len(),
    ensures
        registry::valid_state(without_docs(s, ids, n)),
        without_docs(s, ids, n).docs.dom().contains(id) <==> s.docs.dom().contains(id)
            && !ids.take(n).contains(id),
        without_docs(s, ids, n).docs.dom().contains(id) ==> without_docs(s, ids, n).docs[id]
            == s.docs[id] && registry::chunks_at(without_docs(s, ids, n), id)
            == registry::chunks_at(s, id),
    decreases n,
{
    if n > 0 {
        law_compaction_of_records(s, ids, n - 1, id);
        let t = without_docs(s, ids, n - 1);
        if t.docs.dom().contains(ids[n - 1]) {
            registry::law_delete(t, ids[n - 1]);
        } else {
            law_compaction_of_records(s, ids, n - 1, ids[n - 1]);
        }
        let a = ids.take(n - 1);
        let b = ids.take(n);
        assert(b =~= a.push(ids[n - 1]));
        if a.contains(id) {
            let j = a.index_of(id);
            assert(b[j] == id);
        }
        if b.contains(id) {
            let j = b.index_of(id);
            if j < n - 1 {
                assert(a[j] == id);
            }
        }
        assert(b[n - 1] == ids[n - 1]);
    }
}

/// The keys of a file: those of what was parsed, and those that the taggers infer.
pub open spec fn all_keys(
    tagger: Option<TagPipeline>,
    path: Seq<char>,
    content: Seq<u8>,
    parsed: ParseView,
) -> Seq<Seq<char>> {
    match tagger {
        None => keys_spec(path, SourceTypeView::Obsidian, parsed),
        Some(p) => keys_spec(path, SourceTypeView::Obsidian, parsed) + p.enriched(
            path,
            content,
            parsed,
            SourceTypeView::Obsidian,
        ),
    }
}

/// Whether there are no taggers, or their cache always succeeds.
pub open spec fn reliable(tagger: Option<TagPipeline>) -> bool {
    tagger matches Some(p) ==> p.infallible()
}

/// Whether what the taggers infer from a content no longer changes: it is cached, or the cache is
/// passed over.
pub open spec fn has_answer(tagger: Option<TagPipeline>, content: Seq<u8>) -> bool {
    tagger matches Some(p) ==> p.forced() || p.hits(content)
}

/// Whether a file is registered with its content, and its document stands under all of its keys.
pub open spec fn is_settled(v: PipelineView, path: Seq<char>, content: Seq<u8>) -> bool {
    let parsed = parsed_as(v.parsers, path, content)->Ok_0;
    let id = id_at(v.records, path);
    &&& parsed_as(v.parsers, path, content) is Ok
    &&& is_known(v.records, path)
    &&& has_content(v.records, id, content)
    &&& has_answer(v.tagger, content)
    &&& forall|k: Seq<char>| #[trigger]
        all_keys(v.tagger, path, content, parsed).contains(k) ==> bitmap::bitmap_at(
            v.bitmaps,
            k,
        ).contains(id)
}

/// Once the taggers were asked about a file, they infer the same from it again.
proof fn lemma_tagged_answers(
    a: Option<TagPipeline>,
    b: Option<TagPipeline>,
    path: Seq<char>,
    content: Seq<u8>,
    parsed: ParseView,
)
    requires
        reliable(a),
        tagged(a, b, path, content, SourceTypeView::Obsidian, parsed),
    ensures
        reliable(b),
        has_answer(b, content),
        all_keys(b, path, content, parsed) == all_keys(a, path, content, parsed),
{
}

/// What the taggers infer from other files does not change when they are asked about a file.
proof fn lemma_tagged_keeps(
    a: Option<TagPipeline>,
    b: Option<TagPipeline>,
    path: Seq<char>,
    content: Seq<u8>,
    parsed: ParseView,
    path1: Seq<char>,
    content1: Seq<u8>,
    parsed1: ParseView,
)
    requires
        reliable(a),
        tagged(a, b, path, content, SourceTypeView::Obsidian, parsed),
        has_answer(a, content1),
    ensures
        has_answer(b, content1),
        all_keys(b, path1, content1, parsed1) == all_keys(a, path1, content1, parsed1),
{
}

/// Whether each document of one state is in another under the same path.
pub open spec fn keeps_paths(s: RegistryState, t: RegistryState) -> bool {
    forall|id: DocId| #[trigger]
        s.docs.dom().contains(id) ==> t.docs.dom().contains(id) && t.docs[id].file_path
            == s.docs[id].file_path
}

proof fn lemma_step_settles(
    b: PipelineView,
    a: PipelineView,
    path: Seq<char>,
    content: Seq<u8>,
    keys: Seq<Seq<char>>,
    action: IngestAction,
)
    requires
        registry::valid_state(b.records),
        reliable(b.tagger),
        a.parsers == b.parsers,
        file_step(b, a, path, content, keys, action),
    ensures
        registry::valid_state(a.records),
        reliable(a.tagger),
        is_settled(a, path, content),
        keeps_paths(b.records, a.records),
        forall|id: DocId| #[trigger]
            a.records.docs.dom().contains(id) && !b.records.docs.dom().contains(id)
                ==> a.records.docs[id].file_path@ == path,
        forall|p: Seq<char>|
            #![trigger a.records.paths.dom().contains(p)]
            p != paths::normal_spec(path) && b.records.paths.dom().contains(p)
                ==> a.records.paths.dom().contains(p) && a.records.paths[p] == b.records.paths[p]
                && a.records.docs[b.records.paths[p]] == b.records.docs[b.records.paths[p]],
{
    let parsed = parsed_as(b.parsers, path, content)->Ok_0;
    let s = b.records;
    lemma_tagged_answers(b.tagger, a.tagger, path, content, parsed);
    assert(keys == all_keys(b.tagger, path, content, parsed));
    if !is_known(s, path) {
        let (doc, now, cs) = choose|doc: NewDoc, now: Timestamp, cs: Seq<NewChunk>|
            is_new_doc(doc, path, content, parsed.auto_type) && are_new_chunks(
                cs,
                s.next_doc_id,
                parsed.chunks,
            ) && a.records == #[trigger] with_new(s, doc, now, cs);
        registry::lemma_with_doc_valid(s, doc, now);
        let s1 = registry::with_doc(s, doc, now);
        registry::lemma_with_chunks_valid(s1, s.next_doc_id, cs);
        assert(registry::path_key(doc.file_path) == paths::normal_spec(path));
        assert(id_at(a.records, path) == s.next_doc_id);
        assert(!s.docs.dom().contains(s.next_doc_id));
    } else if !has_content(s, id_at(s, path), content) {
        let id = id_at(s, path);
        let (digest, now, cs) = choose|digest: [u8; 32], now: Timestamp, cs: Seq<NewChunk>|
            digest@ == hash::blake3_digest(content) && are_new_chunks(cs, id, parsed.chunks)
                && a.records == #[trigger] with_changed(s, id, digest, parsed.auto_type, now, cs);
        assert(s.docs.dom().contains(id));
        registry::lemma_with_update_valid(s, id, digest, parsed.auto_type, now);
        let s1 = registry::with_update(s, id, digest, parsed.auto_type, now);
        registry::lemma_with_chunks_valid(s1, id, cs);
        assert forall|p: Seq<char>|
            #![trigger a.records.paths.dom().contains(p)]
            p != paths::normal_spec(path) && s.paths.dom().contains(p)
                implies a.records.paths.dom().contains(p) && a.records.paths[p] == s.paths[p]
            && a.records.docs[s.paths[p]] == s.docs[s.paths[p]] by {
            assert(s.paths.dom().contains(paths::normal_spec(path)));
            assert(s.paths[p] != id);
        }
    }
}

proof fn lemma_step_keeps(
    b: PipelineView,
    a: PipelineView,
    path: Seq<char>,
    content: Seq<u8>,
    keys: Seq<Seq<char>>,
    action: IngestAction,
    path1: Seq<char>,
    content1: Seq<u8>,
)
    requires
        registry::valid_state(b.records),
        reliable(b.tagger),
        a.parsers == b.parsers,
        file_step(b, a, path, content, keys, action),
        is_settled(b, path1, content1),
        paths::normal_spec(path1) != paths::normal_spec(path),
    ensures
        is_settled(a, path1, content1),
{
    lemma_step_settles(b, a, path, content, keys, action);
    let p1 = paths::normal_spec(path1);
    let id1 = id_at(b.records, path1);
    assert(b.records.paths.dom().contains(p1));
    assert(a.records.paths.dom().contains(p1));
    assert(id_at(a.records, path1) == id1);
    assert(b.records.docs.dom().contains(id1));
    let parsed1 = parsed_as(b.parsers, path1, content1)->Ok_0;
    lemma_tagged_keeps(
        b.tagger,
        a.tagger,
        path,
        content,
        parsed_as(b.parsers, path, content)->Ok_0,
        path1,
        content1,
        parsed1,
    );
    let ks = all_keys(b.tagger, path1, content1, parsed1);
    assert forall|k: Seq<char>| #[trigger] ks.contains(k) implies bitmap::bitmap_at(
        a.bitmaps,
        k,
    ).contains(id1) by {
        assert(bitmap::bitmap_at(b.bitmaps, k).contains(id1));
        if is_known(b.records, path) {
            assert(b.records.paths.dom().contains(paths::normal_spec(path)));
            assert(id_at(b.records, path) != id1);
        }
    }
}

proof fn lemma_step_idle(
    b: PipelineView,
    a: PipelineView,
    path: Seq<char>,
    content: Seq<u8>,
    keys: Seq<Seq<char>>,
    action: IngestAction,
)
    requires
        reliable(b.tagger),
        file_step(b, a, path, content, keys, action),
        is_settled(b, path, content),
    ensures
        reliable(a.tagger),
        action == IngestAction::Skipped,
        a.records == b.records,
        a.bitmaps == b.bitmaps,
{
    let id = id_at(b.records, path);
    let parsed = parsed_as(b.parsers, path, content)->Ok_0;
    lemma_tagged_answers(b.tagger, a.tagger, path, content, parsed);
    assert(keys == all_keys(b.tagger, path, content, parsed));
    assert forall|k: Seq<char>| keys.contains(k) implies bitmap::bitmap_at(b.bitmaps, k).insert(id)
        == bitmap::bitmap_at(b.bitmaps, k) && b.bitmaps.dom().contains(k) by {
        assert(bitmap::bitmap_at(b.bitmaps, k).contains(id));
        assert(bitmap::bitmap_at(b.bitmaps, k).insert(id) =~= bitmap::bitmap_at(b.bitmaps, k));
    }
    assert(with_keys(b.bitmaps, keys, id) =~= b.bitmaps);
}

/// Whether no two of the files that are indexed have the same path.
pub open spec fn distinct_files(
    parsers: Seq<Box<dyn Parser>>,
    root: Seq<char>,
    globs: Seq<Seq<char>>,
    files: Seq<SourceFile>,
) -> bool {
    forall|i: int, j: int|
        0 <= i < j < files.len() && is_wanted(parsers, root, globs, (#[trigger] files[i]).path@)
            && is_wanted(parsers, root, globs, (#[trigger] files[j]).path@) ==> paths::normal_spec(
            files[i].path@,
        ) != paths::normal_spec(files[j].path@)
}

proof fn lemma_trail_settles(
    trail: Trail,
    start: PipelineView,
    root: Seq<char>,
    globs: Seq<Seq<char>>,
    files: Seq<SourceFile>,
    n: int,
)
    requires
        registry::valid_state(start.records),
        reliable(start.tagger),
        is_trail(trail, start, root, globs, files),
        distinct_files(start.parsers, root, globs, files),
        0 <= n <= files.len(),
    ensures
        registry::valid_state(trail.states[n].records),
        trail.states[n].parsers == start.parsers,
        reliable(trail.states[n].tagger),
        keeps_paths(start.records, trail.states[n].records),
        forall|id: DocId| #[trigger]
            trail.states[n].records.docs.dom().contains(id) && !start.records.docs.dom().contains(id)
                ==> is_on_disk(
                start.parsers,
                root,
                globs,
                files,
                trail.states[n].records.docs[id].file_path@,
            ),
        forall|k: int|
            0 <= k < n && is_wanted(start.parsers, root, globs, (#[trigger] files[k]).path@)
                ==> is_settled(trail.states[n], files[k].path@, files[k].content@),
    decreases n,
{
    if n > 0 {
        lemma_trail_settles(trail, start, root, globs, files, n - 1);
        let m = n - 1;
        let b = trail.states[m];
        let a = trail.states[n];
        assert(trail.actions[m] == trail.actions[m]);
        assert(trail_step(trail, start, root, globs, files, m));
        let f = files[m];
        if is_wanted(start.parsers, root, globs, f.path@) {
            let act = trail.actions[m]->Some_0;
            lemma_step_settles(b, a, f.path@, f.content@, trail.keys[m], act);
            assert forall|k: int|
                0 <= k < n && is_wanted(start.parsers, root, globs, (#[trigger] files[k]).path@)
                    implies is_settled(a, files[k].path@, files[k].content@) by {
                if k < m {
                    lemma_step_keeps(
                        b,
                        a,
                        f.path@,
                        f.content@,
                        trail.keys[m],
                        act,
                        files[k].path@,
                        files[k].content@,
                    );
                }
            }
            assert forall|id: DocId| #[trigger]
                a.records.docs.dom().contains(id) && !start.records.docs.dom().contains(id)
                    implies is_on_disk(
                start.parsers,
                root,
                globs,
                files,
                a.records.docs[id].file_path@,
            ) by {
                if b.records.docs.dom().contains(id) {
                    assert(a.records.docs[id].file_path == b.records.docs[id].file_path);
                } else {
                    assert(files[m].path@ == a.records.docs[id].file_path@);
                }
            }
        }
    }
}

proof fn lemma_trail_idle(
    trail: Trail,
    start: PipelineView,
    root: Seq<char>,
    globs: Seq<Seq<char>>,
    files: Seq<SourceFile>,
    n: int,
)
    requires
        reliable(start.tagger),
        is_trail(trail, start, root, globs, files),
        0 <= n <= files.len(),
        forall|k: int|
            0 <= k < files.len() && is_wanted(start.parsers, root, globs, (#[trigger] files[k]).path@)
                ==> is_settled(start, files[k].path@, files[k].content@),
    ensures
        trail.states[n].records == start.records,
        trail.states[n].bitmaps == start.bitmaps,
        trail.states[n].parsers == start.parsers,
        reliable(trail.states[n].tagger),
        forall|k: int|
            0 <= k < files.len() && is_wanted(start.parsers, root, globs, (#[trigger] files[k]).path@)
                ==> is_settled(trail.states[n], files[k].path@, files[k].content@),
        times_done(trail.actions, IngestAction::Indexed, n) == 0,
        times_done(trail.actions, IngestAction::Updated, n) == 0,
    decreases n,
{
    if n > 0 {
        lemma_trail_idle(trail, start, root, globs, files, n - 1);
        let m = n - 1;
        assert(trail.actions[m] == trail.actions[m]);
        assert(trail_step(trail, start, root, globs, files, m));
        if is_wanted(start.parsers, root, globs, files[m].path@) {
            let b = trail.states[m];
            let a = trail.states[n];
            assert(is_settled(b, files[m].path@, files[m].content@));
            lemma_step_idle(
                b,
                a,
                files[m].path@,
                files[m].content@,
                trail.keys[m],
                trail.actions[m]->Some_0,
            );
            assert forall|k: int|
                0 <= k < files.len() && is_wanted(
                    start.parsers,
                    root,
                    globs,
                    (#[trigger] files[k]).path@,
                ) implies is_settled(a, files[k].path@, files[k].content@) by {
                let parsed1 = parsed_as(start.parsers, files[k].path@, files[k].content@)->Ok_0;
                assert(is_settled(b, files[k].path@, files[k].content@));
                lemma_tagged_keeps(
                    b.tagger,
                    a.tagger,
                    files[m].path@,
                    files[m].content@,
                    parsed_as(start.parsers, files[m].path@, files[m].content@)->Ok_0,
                    files[k].path@,
                    files[k].content@,
                    parsed1,
                );
            }
        }
    }
}

/// After a directory is indexed, each of its files is registered with its content and stands under
/// all of its keys.
pub proof fn law_bulk_index_settles(
    before: PipelineView,
    after: PipelineView,
    root: Seq<char>,
    globs: Seq<Seq<char>>,
    files: Seq<SourceFile>,
    r: BulkIndexResult,
    k: int,
)
    requires
        registry::valid_state(before.records),
        reliable(before.tagger),
        after.parsers == before.parsers,
        distinct_files(before.parsers, root, globs, files),
        on_indexed(before, after, root, globs, files, r),
        0 <= k < files.len(),
        is_wanted(before.parsers, root, globs, files[k].path@),
    ensures
        is_settled(after, files[k].path@, files[k].content@),
{
    let gone = gone_docs(before, root, globs, files);
    let n = files.len() as int;
    let trail = lemma_trail_of(before, after, root, globs, files, r);
    lemma_trail_settles(trail, before, root, globs, files, n);
    let last = trail.states[n];
    let path = files[k].path@;
    let id = id_at(last.records, path);
    assert(is_settled(last, path, files[k].content@));
    assert(!gone.contains(id)) by {
        if gone.contains(id) {
            assert(last.records.paths.dom().contains(paths::normal_spec(path)));
            assert(last.records.docs[id].file_path == before.records.docs[id].file_path);
            assert(paths::normal_spec(files[k].path@) == paths::normal_spec(
                before.records.docs[id].file_path@,
            ));
        }
    }
    let parsed = parsed_as(before.parsers, path, files[k].content@)->Ok_0;
    let ks = all_keys(after.tagger, path, files[k].content@, parsed);
    assert forall|x: Seq<char>| #[trigger] ks.contains(x) implies bitmap::bitmap_at(
        after.bitmaps,
        x,
    ).contains(id) by {
        assert(bitmap::bitmap_at(last.bitmaps, x).contains(id));
    }
}

/// The trail that indexing a directory followed.
proof fn lemma_trail_of(
    before: PipelineView,
    after: PipelineView,
    root: Seq<char>,
    globs: Seq<Seq<char>>,
    files: Seq<SourceFile>,
    r: BulkIndexResult,
) -> (trail: Trail)
    requires
        on_indexed(before, after, root, globs, files, r),
    ensures
        is_trail(trail, before, root, globs, files),
        after.records == trail.states[files.len() as int].records,
        after.tagger == trail.states[files.len() as int].tagger,
        after.bitmaps == buried_all(
            trail.states[files.len() as int].bitmaps,
            gone_docs(before, root, globs, files),
        ),
        r.docs_indexed == count_of(
            times_done(trail.actions, IngestAction::Indexed, files.len() as int),
        ),
        r.docs_updated == count_of(
            times_done(trail.actions, IngestAction::Updated, files.len() as int),
        ),
{
    let gone = gone_docs(before, root, globs, files);
    let n = files.len() as int;
    choose|trail: Trail|
        {
            &&& #[trigger] is_trail(trail, before, root, globs, files)
            &&& after.records == trail.states[n].records
            &&& after.tagger == trail.states[n].tagger
            &&& after.bitmaps == buried_all(trail.states[n].bitmaps, gone)
            &&& r.docs_indexed == count_of(times_done(trail.actions, IngestAction::Indexed, n))
            &&& r.docs_updated == count_of(times_done(trail.actions, IngestAction::Updated, n))
            &&& r.docs_skipped == count_of(times_done(trail.actions, IngestAction::Skipped, n))
            &&& r.docs_tombstoned == count_of(gone.len())
            &&& r.bitmaps_created == count_of(used_keys(trail.keys).len())
        }
}

/// Indexing the same files again changes nothing: no document is registered or replaced, and all
/// bitmaps stay as they are.
pub proof fn law_bulk_index_idempotent(
    before: PipelineView,
    after: PipelineView,
    again: PipelineView,
    root: Seq<char>,
    globs: Seq<Seq<char>>,
    files: Seq<SourceFile>,
    r: BulkIndexResult,
    s: BulkIndexResult,
)
    requires
        registry::valid_state(before.records),
        reliable(before.tagger),
        after.parsers == before.parsers,
        distinct_files(before.parsers, root, globs, files),
        on_indexed(before, after, root, globs, files, r),
        on_indexed(after, again, root, globs, files, s),
    ensures
        again.records == after.records,
        again.bitmaps == after.bitmaps,
        s.docs_indexed == 0,
        s.docs_updated == 0,
{
    let n = files.len() as int;
    let t1 = lemma_trail_of(before, after, root, globs, files, r);
    let t2 = lemma_trail_of(after, again, root, globs, files, s);
    lemma_trail_settles(t1, before, root, globs, files, n);
    assert forall|k: int|
        0 <= k < n && is_wanted(after.parsers, root, globs, (#[trigger] files[k]).path@)
            implies is_settled(after, files[k].path@, files[k].content@) by {
        law_bulk_index_settles(before, after, root, globs, files, r, k);
    }
    lemma_trail_idle(t2, after, root, globs, files, n);
    let gone = gone_docs(before, root, globs, files);
    let gone2 = gone_docs(after, root, globs, files);
    assert forall|id: DocId| gone.contains(id) <==> gone2.contains(id) by {
        if gone.contains(id) {
            assert(before.records.docs.dom().contains(id));
            assert(after.records.docs[id].file_path == before.records.docs[id].file_path);
        }
        if gone2.contains(id) {
            if before.records.docs.dom().contains(id) {
                assert(after.records.docs[id].file_path == before.records.docs[id].file_path);
            } else {
                assert(is_on_disk(
                    before.parsers,
                    root,
                    globs,
                    files,
                    after.records.docs[id].file_path@,
                ));
            }
        }
    }
    assert(gone =~= gone2);
    let m = t1.states[n].bitmaps;
    let x = buried_all(m, gone);
    if gone != Set::<DocId>::empty() {
        let y = buried_all(x, gone);
        assert forall|k: Seq<char>| #[trigger] x.dom().contains(k) implies x[k] == y[k] by {
            assert(x[k] =~= y[k]);
        }
        assert(x =~= y);
    }
}

/// Whether bitmaps hold none but ids that were given to documents.
pub open spec fn is_sound(v: PipelineView) -> bool {
    forall|k: Seq<char>, id: DocId|
        #![trigger bitmap::bitmap_at(v.bitmaps, k).contains(id)]
        bitmap::bitmap_at(v.bitmaps, k).contains(id) ==> 1 <= id < v.records.next_doc_id
}

/// An index stays sound under every event that succeeds.
pub proof fn law_events_keep_sound(
    before: PipelineView,
    after: PipelineView,
    event: ChangeEvent,
    content: Result<Seq<u8>, Seq<char>>,
    r: Result<IngestResult, IngestError>,
)
    requires
        registry::valid_state(before.records),
        is_sound(before),
        on_event(before, after, event, content, r),
        r is Ok,
    ensures
        is_sound(after),
{
    let path = event.path@;
    if !ignore::in_ignored_dir_spec(path) || is_known(before.records, subject(event)) {
        match event.kind {
            ChangeKind::Created => lemma_created_sound(before, after, path, content, r),
            ChangeKind::Modified => {
                if parser_for(before.parsers, path) is None || content is Err || !is_known(
                    before.records,
                    path,
                ) {
                    lemma_created_sound(before, after, path, content, r);
                } else if !has_content(before.records, id_at(before.records, path), content->Ok_0) {
                    let id = id_at(before.records, path);
                    assert(before.records.paths.dom().contains(paths::normal_spec(path)));
                    assert(before.records.docs.dom().contains(id));
                    assert forall|k: Seq<char>, x: DocId|
                        #![trigger bitmap::bitmap_at(after.bitmaps, k).contains(x)]
                        bitmap::bitmap_at(after.bitmaps, k).contains(x) implies 1 <= x
                        < after.records.next_doc_id by {
                        assert(x == id || bitmap::bitmap_at(before.bitmaps, k).contains(x));
                    }
                }
            },
            ChangeKind::Deleted => {
                let id = id_at(before.records, path);
                assert(before.records.paths.dom().contains(paths::normal_spec(path)));
                assert(before.records.docs.dom().contains(id));
                assert forall|k: Seq<char>, x: DocId|
                    #![trigger bitmap::bitmap_at(after.bitmaps, k).contains(x)]
                    bitmap::bitmap_at(after.bitmaps, k).contains(x) implies 1 <= x
                    < after.records.next_doc_id by {
                    assert(x == id || bitmap::bitmap_at(before.bitmaps, k).contains(x));
                }
            },
            ChangeKind::Renamed { from } => {
                let id = id_at(before.records, from@);
                assert(before.records.paths.dom().contains(paths::normal_spec(from@)));
                assert(before.records.docs.dom().contains(id));
                assert forall|k: Seq<char>, x: DocId|
                    #![trigger bitmap::bitmap_at(after.bitmaps, k).contains(x)]
                    bitmap::bitmap_at(after.bitmaps, k).contains(x) implies 1 <= x
                    < after.records.next_doc_id by {
                    assert(x == id || bitmap::bitmap_at(before.bitmaps, k).contains(x));
                }
            },
        }
    }
}

proof fn lemma_created_sound(
    before: PipelineView,
    after: PipelineView,
    path: Seq<char>,
    content: Result<Seq<u8>, Seq<char>>,
    r: Result<IngestResult, IngestError>,
)
    requires
        registry::valid_state(before.records),
        is_sound(before),
        on_created(before, after, path, content, r),
        r is Ok,
    ensures
        is_sound(after),
{
    assert forall|k: Seq<char>, x: DocId|
        #![trigger bitmap::bitmap_at(after.bitmaps, k).contains(x)]
        bitmap::bitmap_at(after.bitmaps, k).contains(x) implies 1 <= x
        < after.records.next_doc_id by {
        assert(x == before.records.next_doc_id || bitmap::bitmap_at(before.bitmaps, k).contains(x));
    }
}

/// An index stays sound when it is compacted.
pub proof fn law_compaction_keeps_sound(before: PipelineView, after: PipelineView, r: CompactResult)
    requires
        is_sound(before),
        on_compacted(before, after, r),
    ensures
        is_sound(after),
{
    let dead = query::listing(query::tombstones(before.bitmaps));
    if dead.len() > 0 {
        lemma_without_docs_counter(before.records, dead, dead.len() as int);
        assert forall|k: Seq<char>, x: DocId|
            #![trigger bitmap::bitmap_at(after.bitmaps, k).contains(x)]
            bitmap::bitmap_at(after.bitmaps, k).contains(x) implies 1 <= x
            < after.records.next_doc_id by {
            assert(bitmap::bitmap_at(before.bitmaps, k).contains(x));
        }
    }
}

proof fn lemma_without_docs_counter(s: RegistryState, ids: Seq<DocId>, n: int)
    ensures
        without_docs(s, ids, n).next_doc_id == s.next_doc_id,
    decreases n,
{
    if n > 0 {
        lemma_without_docs_counter(s, ids, n - 1);
    }
}

proof fn lemma_trail_sound(
    trail: Trail,
    start: PipelineView,
    root: Seq<char>,
    globs: Seq<Seq<char>>,
    files: Seq<SourceFile>,
    n: int,
)
    requires
        registry::valid_state(start.records),
        is_sound(start),
        is_trail(trail, start, root, globs, files),
        0 <= n <= files.len(),
    ensures
        registry::valid_state(trail.states[n].records),
        trail.states[n].parsers == start.parsers,
        is_sound(trail.states[n]),
        start.records.next_doc_id <= trail.states[n].records.next_doc_id,
    decreases n,
{
    if n > 0 {
        lemma_trail_sound(trail, start, root, globs, files, n - 1);
        let m = n - 1;
        let b = trail.states[m];
        let a = trail.states[n];
        assert(trail.actions[m] == trail.actions[m]);
        assert(trail_step(trail, start, root, globs, files, m));
        let f = files[m];
        if is_wanted(start.parsers, root, globs, f.path@) {
            lemma_step_valid(b, a, f.path@, f.content@, trail.keys[m], trail.actions[m]->Some_0);
            let id = if is_known(b.records, f.path@) {
                id_at(b.records, f.path@)
            } else {
                b.records.next_doc_id
            };
            if is_known(b.records, f.path@) {
                assert(b.records.paths.dom().contains(paths::normal_spec(f.path@)));
                assert(b.records.docs.dom().contains(id));
            }
            assert forall|k: Seq<char>, x: DocId|
                #![trigger bitmap::bitmap_at(a.bitmaps, k).contains(x)]
                bitmap::bitmap_at(a.bitmaps, k).contains(x) implies 1 <= x
                < a.records.next_doc_id by {
                assert(x == id || bitmap::bitmap_at(b.bitmaps, k).contains(x));
            }
        }
    }
}

proof fn lemma_step_valid(
    b: PipelineView,
    a: PipelineView,
    path: Seq<char>,
    content: Seq<u8>,
    keys: Seq<Seq<char>>,
    action: IngestAction,
)
    requires
        registry::valid_state(b.records),
        file_step(b, a, path, content, keys, action),
    ensures
        registry::valid_state(a.records),
        b.records.next_doc_id <= a.records.next_doc_id,
{
    let parsed = parsed_as(b.parsers, path, content)->Ok_0;
    let s = b.records;
    if !is_known(s, path) {
        let (doc, now, cs) = choose|doc: NewDoc, now: Timestamp, cs: Seq<NewChunk>|
            is_new_doc(doc, path, content, parsed.auto_type) && are_new_chunks(
                cs,
                s.next_doc_id,
                parsed.chunks,
            ) && a.records == #[trigger] with_new(s, doc, now, cs);
        registry::lemma_with_doc_valid(s, doc, now);
        registry::lemma_with_chunks_valid(registry::with_doc(s, doc, now), s.next_doc_id, cs);
    } else if !has_content(s, id_at(s, path), content) {
        let id = id_at(s, path);
        let (digest, now, cs) = choose|digest: [u8; 32], now: Timestamp, cs: Seq<NewChunk>|
            digest@ == hash::blake3_digest(content) && are_new_chunks(cs, id, parsed.chunks)
                && a.records == #[trigger] with_changed(s, id, digest, parsed.auto_type, now, cs);
        assert(s.paths.dom().contains(paths::normal_spec(path)));
        assert(s.docs.dom().contains(id));
        registry::lemma_with_update_valid(s, id, digest, parsed.auto_type, now);
        registry::lemma_with_chunks_valid(
            registry::with_update(s, id, digest, parsed.auto_type, now),
            id,
            cs,
        );
    }
}

/// An index stays sound when a directory is indexed.
pub proof fn law_bulk_index_keeps_sound(
    before: PipelineView,
    after: PipelineView,
    root: Seq<char>,
    globs: Seq<Seq<char>>,
    files: Seq<SourceFile>,
    r: BulkIndexResult,
)
    requires
        registry::valid_state(before.records),
        is_sound(before),
        on_indexed(before, after, root, globs, files, r),
    ensures
        is_sound(after),
{
    let n = files.len() as int;
    let gone = gone_docs(before, root, globs, files);
    let trail = lemma_trail_of(before, after, root, globs, files, r);
    lemma_trail_sound(trail, before, root, globs, files, n);
    let last = trail.states[n];
    assert forall|k: Seq<char>, x: DocId|
        #![trigger bitmap::bitmap_at(after.bitmaps, k).contains(x)]
        bitmap::bitmap_at(after.bitmaps, k).contains(x) implies 1 <= x
        < after.records.next_doc_id by {
        if gone.contains(x) {
            assert(before.records.docs.dom().contains(x));
        } else {
            assert(bitmap::bitmap_at(last.bitmaps, k).contains(x));
        }
    }
}

/// A file that was created is found by each of its keys, by what the taggers infer too.
pub proof fn law_created_is_found(
    before: PipelineView,
    after: PipelineView,
    path: Seq<char>,
    content: Seq<u8>,
    i: IngestResult,
    key: String,
)
    requires
        is_sound(before),
        reliable(before.tagger),
        on_created(before, after, path, Ok(content), Ok(i)),
        all_keys(
            before.tagger,
            path,
            content,
            parsed_as(before.parsers, path, content)->Ok_0,
        ).contains(key@),
        !all_keys(
            before.tagger,
            path,
            content,
            parsed_as(before.parsers, path, content)->Ok_0,
        ).contains(bitmap::tombstone_key()),
    ensures
        query::selected(after.bitmaps, Filter::Key(key)).contains(before.records.next_doc_id),
        id_at(after.records, path) == before.records.next_doc_id,
        is_known(after.records, path),
{
    let id = before.records.next_doc_id;
    let parsed = parsed_as(before.parsers, path, content)->Ok_0;
    let keys = choose|keys: Seq<Seq<char>>|
        #![trigger with_keys(before.bitmaps, keys, id)]
        keys_follow(before.tagger, path, content, SourceTypeView::Obsidian, parsed, keys)
            && i.bitmaps_updated == count_of(keys.len()) && after.bitmaps == with_keys(
            before.bitmaps,
            keys,
            id,
        );
    assert(keys == all_keys(before.tagger, path, content, parsed));
    assert(!query::tombstones(before.bitmaps).contains(id)) by {
        if query::tombstones(before.bitmaps).contains(id) {
            assert(bitmap::bitmap_at(before.bitmaps, bitmap::tombstone_key()).contains(id));
        }
    }
    law_indexed_is_found(before.bitmaps, keys, id, key);
    let (doc, now, cs) = choose|doc: NewDoc, now: Timestamp, cs: Seq<NewChunk>|
        is_new_doc(doc, path, content, parsed.auto_type) && are_new_chunks(cs, id, parsed.chunks)
            && after.records == #[trigger] with_new(before.records, doc, now, cs);
    assert(registry::path_key(doc.file_path) == paths::normal_spec(path));
}

} // verus!
