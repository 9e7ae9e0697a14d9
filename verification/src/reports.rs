//! What the commands show to people, line by line.

use vstd::prelude::*;

use crate::config;
use crate::config::{BiemConfig, SourceEntry, StorageMode};
use crate::dates;
use crate::ingest::{BulkIndexResult, CompactResult};
use crate::nest::ChunkPointer;
use crate::query;
use crate::query::{FilterEntry, IndexStatus, InspectResult, MatchPointer, QueryResult};
use crate::semantic::SemanticQueryResult;
use crate::text;
use crate::types::SourceType;

verus! {

// ── Pieces ──────────────────────────────────────────────────────────────────

/// A number in decimal.
pub open spec fn num(n: int) -> Seq<char> {
    if n < 0 {
        "-"@ + dates::decimal_spec((-n) as nat)
    } else {
        dates::decimal_spec(n as nat)
    }
}

fn number(n: u64) -> (r: String)
    ensures
        r@ == num(n as int),
{
    dates::decimal(n)
}

/// A number that may be negative in decimal.
pub fn signed(n: i64) -> (r: String)
    ensures
        r@ == num(n as int),
{
    if n < 0 {
        let m: u64 = (-(n + 1)) as u64 + 1;
        text::concat("-", dates::decimal(m).as_str())
    } else {
        dates::decimal(n as u64)
    }
}

fn cat3(a: &str, b: &str, c: &str) -> (r: String)
    ensures
        r@ == a@ + b@ + c@,
{
    let x = text::concat(a, b);
    text::concat(x.as_str(), c)
}

fn cat5(a: &str, b: &str, c: &str, d: &str, e: &str) -> (r: String)
    ensures
        r@ == a@ + b@ + c@ + d@ + e@,
{
    let x = cat3(a, b, c);
    cat3(x.as_str(), d, e)
}

/// A text, or nothing where there is none.
pub open spec fn text_or_empty(s: Option<String>) -> Seq<char> {
    match s {
        Some(t) => t@,
        None => ""@,
    }
}

fn or_empty(s: &Option<String>) -> (r: &str)
    ensures
        r@ == text_or_empty(*s),
{
    match s {
        Some(t) => t.as_str(),
        None => "",
    }
}

/// The byte range and the label of a chunk.
pub open spec fn place_text(c: ChunkPointer) -> Seq<char> {
    " bytes "@ + num(c.byte_start as int) + ".."@ + num(c.byte_end as int) + " "@ + text_or_empty(
        c.label,
    )
}

fn place(c: &ChunkPointer) -> (r: String)
    ensures
        r@ == place_text(*c),
{
    let a = cat5(
        " bytes ",
        number(c.byte_start as u64).as_str(),
        "..",
        number(c.byte_end as u64).as_str(),
        " ",
    );
    text::concat(a.as_str(), or_empty(&c.label))
}

// ── Search ──────────────────────────────────────────────────────────────────

/// The line of a chunk of a match.
pub open spec fn chunk_line_spec(c: ChunkPointer) -> Seq<char> {
    "    chunk "@ + num(c.chunk_id as int) + " ("@ + c.kind@ + ")"@ + place_text(c)
}

/// The line of the type and the filters of a match.
pub open spec fn detail_line_spec(m: MatchPointer) -> Seq<char> {
    (match m.auto_type {
        Some(t) => "    type: "@ + t@,
        None => Seq::empty(),
    }) + (if m.matched_filters@.len() == 0 {
        Seq::empty()
    } else {
        "    filters: "@ + text::join_spec(m.matched_filters.deep_view(), ", "@)
    })
}

/// The lines of a match: where it is, what it is, and its chunks.
pub open spec fn match_lines_spec(m: MatchPointer) -> Seq<Seq<char>> {
    seq!["  "@ + m.file_path@ + " (doc_id="@ + num(m.doc_id as int) + ")"@, detail_line_spec(m)]
        + Seq::new(m.chunks@.len(), |i: int| chunk_line_spec(m.chunks@[i]))
}

/// The lines of the first `n` matches.
pub open spec fn matches_lines(ms: Seq<MatchPointer>, n: int) -> Seq<Seq<char>>
    decreases n,
{
    if n <= 0 {
        Seq::empty()
    } else {
        matches_lines(ms, n - 1) + match_lines_spec(ms[n - 1])
    }
}

/// The lines of a result.
pub open spec fn search_lines_spec(result: QueryResult) -> Seq<Seq<char>> {
    seq![
        num(result.total_matching as int) + " matches ("@ + num(result.query_time_us as int)
            + "μs)"@,
        ""@,
    ] + matches_lines(result.matches@, result.matches@.len() as int)
}

fn chunk_line(c: &ChunkPointer) -> (r: String)
    ensures
        r@ == chunk_line_spec(*c),
{
    let a = cat5("    chunk ", number(c.chunk_id as u64).as_str(), " (", c.kind.as_str(), ")");
    text::concat(a.as_str(), place(c).as_str())
}

fn push_match(out: &mut Vec<String>, m: &MatchPointer)
    ensures
        final(out).deep_view() == old(out).deep_view() + match_lines_spec(*m),
{
    let ghost base = out.deep_view();
    let ghost rows = Seq::new(m.chunks@.len(), |i: int| chunk_line_spec(m.chunks@[i]));
    out.push(
        cat5("  ", m.file_path.as_str(), " (doc_id=", number(m.doc_id as u64).as_str(), ")"),
    );
    let kind = match &m.auto_type {
        Some(t) => text::concat("    type: ", t.as_str()),
        None => String::new(),
    };
    let filters = if m.matched_filters.len() == 0 {
        String::new()
    } else {
        text::concat("    filters: ", text::join(&m.matched_filters, ", ").as_str())
    };
    out.push(text::concat(kind.as_str(), filters.as_str()));
    let ghost head = match_lines_spec(*m).take(2);
    let ghost start = base + head;
    assert(out.deep_view() =~= start + rows.take(0));
    let mut i: usize = 0;
    while i < m.chunks.len()
        invariant
            rows == Seq::new(m.chunks@.len(), |i: int| chunk_line_spec(m.chunks@[i])),
            i <= m.chunks@.len(),
            out.deep_view() == start + rows.take(i as int),
        decreases m.chunks@.len() - i,
    {
        let ghost before = out.deep_view();
        out.push(chunk_line(&m.chunks[i]));
        assert(out.deep_view() =~= before.push(rows[i as int]));
        assert(start + rows.take(i + 1) =~= before.push(rows[i as int]));
        i += 1;
    }
    assert(rows.take(i as int) =~= rows);
    assert(out.deep_view() =~= base + match_lines_spec(*m));
}

/// The lines of a result: the count, and each match.
pub fn search_lines(result: &QueryResult) -> (r: Vec<String>)
    ensures
        r.deep_view() == search_lines_spec(*result),
{
    let mut out: Vec<String> = Vec::new();
    let count = cat3(
        number(result.total_matching as u64).as_str(),
        " matches (",
        number(result.query_time_us).as_str(),
    );
    out.push(text::concat(count.as_str(), "μs)"));
    out.push("".to_owned());
    let ghost head = search_lines_spec(*result).take(2);
    assert(out.deep_view() =~= head + matches_lines(result.matches@, 0));
    let mut i: usize = 0;
    while i < result.matches.len()
        invariant
            i <= result.matches@.len(),
            out.deep_view() == head + matches_lines(result.matches@, i as int),
        decreases result.matches@.len() - i,
    {
        let ghost before = out.deep_view();
        push_match(&mut out, &result.matches[i]);
        assert(out.deep_view() =~= head + matches_lines(result.matches@, i + 1));
        i += 1;
    }
    assert(out.deep_view() =~= search_lines_spec(*result));
    out
}

/// The first line of a semantic search.
pub fn semantic_line(result: &SemanticQueryResult) -> (r: String)
    ensures
        r@ == num(result.pointers@.len() as int) + " results (bitmap: "@ + num(
            result.bitmap_candidates as int,
        ) + " candidates, vector: "@ + num(result.vector_searched as int) + " searched, "@ + num(
            result.elapsed_bitmap_us as int,
        ) + "μs bitmap + "@ + num(result.elapsed_vector_us as int) + "μs vector)"@,
{
    let a = cat5(
        number(result.pointers.len() as u64).as_str(),
        " results (bitmap: ",
        number(result.bitmap_candidates as u64).as_str(),
        " candidates, vector: ",
        number(result.vector_searched as u64).as_str(),
    );
    let b = cat5(
        a.as_str(),
        " searched, ",
        number(result.elapsed_bitmap_us).as_str(),
        "μs bitmap + ",
        number(result.elapsed_vector_us).as_str(),
    );
    text::concat(b.as_str(), "μs vector)")
}

// ── Inspection and status ───────────────────────────────────────────────────

/// The line of a chunk of a document.
pub open spec fn part_line_spec(c: ChunkPointer) -> Seq<char> {
    "    ["@ + num(c.chunk_id as int) + "] "@ + c.kind@ + place_text(c)
}

/// The lines of what the index knows of a document.
pub open spec fn inspect_lines_spec(d: InspectResult) -> Seq<Seq<char>> {
    seq![
        "Document: "@ + d.file_path@,
        "  doc_id:       "@ + num(d.doc_id as int),
        "  source:       "@ + d.source_type@,
        "  auto_type:    "@ + (match d.auto_type {
            Some(t) => t@,
            None => "none"@,
        }),
        "  blake3:       "@ + d.blake3_hash@,
        "  last_indexed: "@ + num(d.last_indexed as int),
        "  chunks:       "@ + num(d.chunks@.len() as int),
    ] + Seq::new(d.chunks@.len(), |i: int| part_line_spec(d.chunks@[i])) + seq![
        "  bitmaps:      "@ + text::join_spec(d.bitmap_keys.deep_view(), ", "@),
    ]
}

/// The lines of what the index knows of a document.
pub fn inspect_lines(d: &InspectResult) -> (r: Vec<String>)
    ensures
        r.deep_view() == inspect_lines_spec(*d),
{
    let kind: &str = match &d.auto_type {
        Some(t) => t.as_str(),
        None => "none",
    };
    let mut out: Vec<String> = Vec::new();
    out.push(text::concat("Document: ", d.file_path.as_str()));
    out.push(text::concat("  doc_id:       ", number(d.doc_id as u64).as_str()));
    out.push(text::concat("  source:       ", d.source_type.as_str()));
    out.push(text::concat("  auto_type:    ", kind));
    out.push(text::concat("  blake3:       ", d.blake3_hash.as_str()));
    out.push(text::concat("  last_indexed: ", signed(d.last_indexed).as_str()));
    out.push(text::concat("  chunks:       ", number(d.chunks.len() as u64).as_str()));
    let ghost head = inspect_lines_spec(*d).take(7);
    let ghost rows = Seq::new(d.chunks@.len(), |i: int| part_line_spec(d.chunks@[i]));
    assert(out.deep_view() =~= head + rows.take(0));
    let mut i: usize = 0;
    while i < d.chunks.len()
        invariant
            rows == Seq::new(d.chunks@.len(), |i: int| part_line_spec(d.chunks@[i])),
            i <= d.chunks@.len(),
            out.deep_view() == head + rows.take(i as int),
        decreases d.chunks@.len() - i,
    {
        let ghost before = out.deep_view();
        let c = &d.chunks[i];
        out.push(
            cat5(
                "    [",
                number(c.chunk_id as u64).as_str(),
                "] ",
                c.kind.as_str(),
                place(c).as_str(),
            ),
        );
        assert(out.deep_view() =~= before.push(rows[i as int]));
        assert(head + rows.take(i + 1) =~= before.push(rows[i as int]));
        i += 1;
    }
    assert(rows.take(i as int) =~= rows);
    let ghost before = out.deep_view();
    out.push(text::concat("  bitmaps:      ", text::join(&d.bitmap_keys, ", ").as_str()));
    proof {
        let all = inspect_lines_spec(*d);
        assert(head + rows =~= all.drop_last());
        assert(out.deep_view() =~= before.push(all.last()));
    }
    assert(out.deep_view() =~= inspect_lines_spec(*d));
    out
}

/// The lines of the summary of an index.
pub fn status_lines(s: &IndexStatus) -> (r: Vec<String>)
    ensures
        r.deep_view() == seq![
            "Locus Index Status"@,
            "  documents:  "@ + num(s.total_documents as int),
            "  bitmaps:    "@ + num(s.total_bitmaps as int),
            "  tombstoned: "@ + num(s.tombstoned as int),
            "  next_doc:   "@ + num(s.next_doc_id as int),
            "  next_chunk: "@ + num(s.next_chunk_id as int),
        ],
{
    let mut out: Vec<String> = Vec::new();
    out.push("Locus Index Status".to_owned());
    out.push(text::concat("  documents:  ", number(s.total_documents as u64).as_str()));
    out.push(text::concat("  bitmaps:    ", number(s.total_bitmaps as u64).as_str()));
    out.push(text::concat("  tombstoned: ", number(s.tombstoned).as_str()));
    out.push(text::concat("  next_doc:   ", number(s.next_doc_id as u64).as_str()));
    out.push(text::concat("  next_chunk: ", number(s.next_chunk_id as u64).as_str()));
    assert(out.deep_view() =~= seq![
        "Locus Index Status"@,
        "  documents:  "@ + num(s.total_documents as int),
        "  bitmaps:    "@ + num(s.total_bitmaps as int),
        "  tombstoned: "@ + num(s.tombstoned as int),
        "  next_doc:   "@ + num(s.next_doc_id as int),
        "  next_chunk: "@ + num(s.next_chunk_id as int),
    ]);
    out
}

/// The lines of the filter keys of a category, or of all.
pub open spec fn filter_lines_spec(entries: Seq<FilterEntry>, category: Option<Seq<char>>) -> Seq<
    Seq<char>,
> {
    seq![
        num(entries.len() as int) + " filter keys"@ + (match category {
            Some(c) => " (category: "@ + c + ")"@,
            None => Seq::empty(),
        }) + ":"@,
    ] + Seq::new(
        entries.len(),
        |i: int| "  "@ + entries[i].key@ + "  ("@ + num(entries[i].cardinality as int) + " docs)"@,
    )
}

/// The lines of the filter keys of a category, or of all.
pub fn filter_lines(entries: &Vec<FilterEntry>, category: Option<&str>) -> (r: Vec<String>)
    ensures
        r.deep_view() == filter_lines_spec(
            entries@,
            match category {
                Some(c) => Some(c@),
                None => None,
            },
        ),
{
    let ghost named = match category {
        Some(c) => Some(c@),
        None => None,
    };
    let ghost rows = filter_lines_spec(entries@, named).skip(1);
    let ghost head = filter_lines_spec(entries@, named).take(1);
    let mut out: Vec<String> = Vec::new();
    let of = match category {
        Some(c) => cat3(" (category: ", c, ")"),
        None => String::new(),
    };
    let first = cat3(number(entries.len() as u64).as_str(), " filter keys", of.as_str());
    out.push(text::concat(first.as_str(), ":"));
    assert(out.deep_view() =~= head + rows.take(0));
    let mut i: usize = 0;
    while i < entries.len()
        invariant
            rows == filter_lines_spec(entries@, named).skip(1),
            i <= entries@.len(),
            out.deep_view() == head + rows.take(i as int),
        decreases entries@.len() - i,
    {
        let ghost before = out.deep_view();
        let e = &entries[i];
        out.push(cat5("  ", e.key.as_str(), "  (", number(e.cardinality as u64).as_str(), " docs)"));
        assert(out.deep_view() =~= before.push(rows[i as int]));
        assert(head + rows.take(i + 1) =~= before.push(rows[i as int]));
        i += 1;
    }
    assert(out.deep_view() =~= filter_lines_spec(entries@, named));
    out
}

// ── Indexing ────────────────────────────────────────────────────────────────

/// The lines of an indexing run.
pub fn index_lines(b: &BulkIndexResult) -> (r: Vec<String>)
    ensures
        r.deep_view() == seq![
            "✓ Indexed "@ + num(b.docs_indexed as int) + " documents"@,
            "  "@ + num(b.docs_updated as int) + " updated, "@ + num(b.docs_skipped as int)
                + " skipped, "@ + num(b.docs_tombstoned as int) + " tombstoned"@,
            "  "@ + num(b.bitmaps_created as int) + " bitmap keys created"@,
            "  "@ + num(b.duration_ms as int) + "ms elapsed"@,
        ],
{
    let mut out: Vec<String> = Vec::new();
    out.push(cat3("✓ Indexed ", number(b.docs_indexed as u64).as_str(), " documents"));
    let x = cat5(
        "  ",
        number(b.docs_updated as u64).as_str(),
        " updated, ",
        number(b.docs_skipped as u64).as_str(),
        " skipped, ",
    );
    out.push(cat3(x.as_str(), number(b.docs_tombstoned as u64).as_str(), " tombstoned"));
    out.push(cat3("  ", number(b.bitmaps_created as u64).as_str(), " bitmap keys created"));
    out.push(cat3("  ", number(b.duration_ms).as_str(), "ms elapsed"));
    assert(out.deep_view() =~= seq![
        "✓ Indexed "@ + num(b.docs_indexed as int) + " documents"@,
        "  "@ + num(b.docs_updated as int) + " updated, "@ + num(b.docs_skipped as int)
            + " skipped, "@ + num(b.docs_tombstoned as int) + " tombstoned"@,
        "  "@ + num(b.bitmaps_created as int) + " bitmap keys created"@,
        "  "@ + num(b.duration_ms as int) + "ms elapsed"@,
    ]);
    out
}

/// The line of the first indexing run of a source.
pub fn init_line(b: &BulkIndexResult) -> (r: String)
    ensures
        r@ == "✓ Indexed "@ + num(b.docs_indexed as int) + " documents ("@ + num(
            b.docs_updated as int,
        ) + " updated, "@ + num(b.docs_skipped as int) + " skipped, "@ + num(
            b.docs_tombstoned as int,
        ) + " tombstoned, "@ + num(b.bitmaps_created as int) + " bitmap keys, "@ + num(
            b.duration_ms as int,
        ) + "ms)"@,
{
    let x = cat5(
        "✓ Indexed ",
        number(b.docs_indexed as u64).as_str(),
        " documents (",
        number(b.docs_updated as u64).as_str(),
        " updated, ",
    );
    let y = cat5(
        x.as_str(),
        number(b.docs_skipped as u64).as_str(),
        " skipped, ",
        number(b.docs_tombstoned as u64).as_str(),
        " tombstoned, ",
    );
    let z = cat5(
        y.as_str(),
        number(b.bitmaps_created as u64).as_str(),
        " bitmap keys, ",
        number(b.duration_ms).as_str(),
        "ms)",
    );
    z
}

/// The lines of an enrichment run.
pub fn enrich_lines(b: &BulkIndexResult, force: bool) -> (r: Vec<String>)
    ensures
        r.deep_view() == seq![
            if force {
                "✓ Enrichment complete (forced)"@
            } else {
                "✓ Enrichment complete"@
            },
            "  "@ + num(b.docs_indexed as int) + " documents processed ("@ + num(
                b.docs_updated as int,
            ) + " updated, "@ + num(b.docs_skipped as int) + " skipped)"@,
            "  "@ + num(b.bitmaps_created as int) + " bitmap keys, "@ + num(b.duration_ms as int)
                + "ms elapsed"@,
        ],
{
    let mut out: Vec<String> = Vec::new();
    if force {
        out.push("✓ Enrichment complete (forced)".to_owned());
    } else {
        out.push("✓ Enrichment complete".to_owned());
    }
    let x = cat5(
        "  ",
        number(b.docs_indexed as u64).as_str(),
        " documents processed (",
        number(b.docs_updated as u64).as_str(),
        " updated, ",
    );
    out.push(cat3(x.as_str(), number(b.docs_skipped as u64).as_str(), " skipped)"));
    out.push(
        cat5(
            "  ",
            number(b.bitmaps_created as u64).as_str(),
            " bitmap keys, ",
            number(b.duration_ms).as_str(),
            "ms elapsed",
        ),
    );
    assert(out.deep_view() =~= seq![
        if force {
            "✓ Enrichment complete (forced)"@
        } else {
            "✓ Enrichment complete"@
        },
        "  "@ + num(b.docs_indexed as int) + " documents processed ("@ + num(b.docs_updated as int)
            + " updated, "@ + num(b.docs_skipped as int) + " skipped)"@,
        "  "@ + num(b.bitmaps_created as int) + " bitmap keys, "@ + num(b.duration_ms as int)
            + "ms elapsed"@,
    ]);
    out
}

/// The lines of a compaction.
pub fn compact_lines(c: &CompactResult) -> (r: Vec<String>)
    ensures
        r.deep_view() == seq![
            "✓ Compaction complete"@,
            "  "@ + num(c.docs_removed as int) + " documents removed"@,
            "  "@ + num(c.bitmaps_cleaned as int) + " bitmaps cleaned"@,
            "  "@ + num(c.duration_ms as int) + "ms elapsed"@,
        ],
{
    let mut out: Vec<String> = Vec::new();
    out.push("✓ Compaction complete".to_owned());
    out.push(cat3("  ", number(c.docs_removed as u64).as_str(), " documents removed"));
    out.push(cat3("  ", number(c.bitmaps_cleaned as u64).as_str(), " bitmaps cleaned"));
    out.push(cat3("  ", number(c.duration_ms).as_str(), "ms elapsed"));
    assert(out.deep_view() =~= seq![
        "✓ Compaction complete"@,
        "  "@ + num(c.docs_removed as int) + " documents removed"@,
        "  "@ + num(c.bitmaps_cleaned as int) + " bitmaps cleaned"@,
        "  "@ + num(c.duration_ms as int) + "ms elapsed"@,
    ]);
    out
}

/// The lines of the active taggers.
pub open spec fn tagger_lines_spec(names: Seq<Seq<char>>) -> Seq<Seq<char>> {
    seq!["Active taggers ("@ + num(names.len() as int) + "):"@] + Seq::new(
        names.len(),
        |i: int| "  • "@ + names[i],
    )
}

/// The lines of the active taggers.
pub fn tagger_lines(names: &Vec<String>) -> (r: Vec<String>)
    ensures
        r.deep_view() == tagger_lines_spec(names.deep_view()),
{
    let ghost all = tagger_lines_spec(names.deep_view());
    let mut out: Vec<String> = Vec::new();
    out.push(cat3("Active taggers (", number(names.len() as u64).as_str(), "):"));
    assert(out.deep_view() =~= all.take(1));
    let mut i: usize = 0;
    while i < names.len()
        invariant
            all == tagger_lines_spec(names.deep_view()),
            i <= names@.len(),
            out.deep_view() == all.take(i + 1),
        decreases names@.len() - i,
    {
        let ghost before = out.deep_view();
        out.push(text::concat("  • ", names[i].as_str()));
        assert(names.deep_view()[i as int] == names@[i as int]@);
        assert(out.deep_view() =~= before.push(all[i + 1]));
        assert(all.take(i + 2) =~= before.push(all[i + 1]));
        i += 1;
    }
    assert(all.take(i + 1) =~= all);
    out
}

// ── Configuration ───────────────────────────────────────────────────────────

/// The name of a storage mode.
pub open spec fn storage_name_spec(m: StorageMode) -> Seq<char> {
    match m {
        StorageMode::Global => "Global"@,
        StorageMode::Local => "Local"@,
    }
}

/// The name of a storage mode.
pub fn storage_name(m: StorageMode) -> (r: &'static str)
    ensures
        r@ == storage_name_spec(m),
{
    match m {
        StorageMode::Global => "Global",
        StorageMode::Local => "Local",
    }
}

/// The lines of a registered source.
pub open spec fn source_lines_spec(name: Seq<char>, e: SourceEntry) -> Seq<Seq<char>> {
    seq![
        ""@,
        "  ["@ + name + "]"@,
        "    path:     "@ + e.path@,
        "    type:     "@ + query::source_name_spec(config::type_view(e.source_type)),
        "    storage:  "@ + storage_name_spec(e.storage),
        "    data_dir: "@ + e.data_dir@,
    ]
}

/// The lines of the first `n` sources.
pub open spec fn sources_lines(sources: Seq<(String, SourceEntry)>, n: int) -> Seq<Seq<char>>
    decreases n,
{
    if n <= 0 {
        Seq::empty()
    } else {
        sources_lines(sources, n - 1) + source_lines_spec(sources[n - 1].0@, sources[n - 1].1)
    }
}

fn push_source(out: &mut Vec<String>, name: &str, e: &SourceEntry)
    ensures
        final(out).deep_view() == old(out).deep_view() + source_lines_spec(name@, *e),
{
    let ghost base = out.deep_view();
    let kind = SourceType::from(e.source_type.clone());
    out.push("".to_owned());
    out.push(cat3("  [", name, "]"));
    out.push(text::concat("    path:     ", e.path.as_str()));
    out.push(text::concat("    type:     ", query::source_name(&kind).as_str()));
    out.push(text::concat("    storage:  ", storage_name(e.storage)));
    out.push(text::concat("    data_dir: ", e.data_dir.as_str()));
    assert(kind@ == config::type_view(e.source_type));
    assert(out.deep_view() =~= base + source_lines_spec(name@, *e));
}

/// The lines of the registered sources, in order of their names.
pub fn config_lines(config: &BiemConfig) -> (r: Vec<String>)
    ensures
        r.deep_view() == if config.sources.entries_spec().len() == 0 {
            seq!["No sources registered. Run `locus init <path>` to get started."@]
        } else {
            seq!["Registered sources:"@] + sources_lines(
                config.sources.entries_spec(),
                config.sources.entries_spec().len() as int,
            )
        },
{
    let mut out: Vec<String> = Vec::new();
    let ghost all = config.sources.entries_spec();
    if config.sources.len() == 0 {
        out.push("No sources registered. Run `locus init <path>` to get started.".to_owned());
        assert(out.deep_view() =~= seq![
            "No sources registered. Run `locus init <path>` to get started."@,
        ]);
        return out;
    }
    out.push("Registered sources:".to_owned());
    let ghost head = seq!["Registered sources:"@];
    assert(out.deep_view() =~= head + sources_lines(all, 0));
    let mut i: usize = 0;
    while i < config.sources.len()
        invariant
            all == config.sources.entries_spec(),
            i <= all.len(),
            out.deep_view() == head + sources_lines(all, i as int),
        decreases all.len() - i,
    {
        push_source(
            &mut out,
            config.sources.key_at(i).as_str(),
            config.sources.value_at(i),
        );
        assert(out.deep_view() =~= head + sources_lines(all, i + 1));
        i += 1;
    }
    out
}

} // verus!
