# Locus

Locus is a local-first context engine. It indexes notes, source code and wiki pages once, and
answers structural queries with pointers: document, chunk, label, byte range. It never returns
content.

The library under `src/` is written in Verus. Every function states what it does in `requires` and
`ensures`, and Verus proves it.

## How it works

- A parser turns a file into chunks, tags and links. There are parsers for Markdown notes
  (`markdown`), for Rust, TypeScript and Python (`code`, over the syntax trees of `syntax`), and for
  Confluence pages (`confluence`).
- `ingest` keeps the registry and the bitmaps in step with the files: one event at a time, or a
  whole directory at once. Taggers (`enrich`) add inferred keys.
- The `registry` knows documents, chunks and their identifiers. A `bitmap` store holds a set of
  document identifiers for each key, such as `tag:work` or `kind:function`.
- `query` evaluates filters over bitmaps: keys, AND, OR and NOT. `expression` reads filters from
  text. `semantic` narrows a vector search to the chunks that a filter selects.
- `graph` answers questions about links between documents: neighbours, expansion, shortest paths,
  degrees. `graph_query` does so for requests that are values.

## Laws

Beside the contract of each function, `law_*` proof functions state what holds of the library as a
whole. Some of them:

- what was indexed is found under each of its keys, and what was deleted is not found
  (`ingest::law_indexed_is_found`, `ingest::law_deleted_is_not_found`);
- indexing the same files again changes nothing (`ingest::law_bulk_index_idempotent`);
- compaction changes no answer (`ingest::law_compaction_keeps_answers`);
- filters obey the laws of sets, and pages put together are the whole result
  (`query::law_double_negation`, `query::law_de_morgan`, `query::law_pages_make_the_whole`);
- a semantic query returns chunks of documents that its filter selects, and no others
  (`semantic::law_pointers_are_selected`);
- identifiers are never given twice, and a chunk has one owner (`registry::law_doc_ids_ascend`,
  `registry::law_chunk_owner`);
- what is encoded decodes to itself: base64, hexadecimal, filter expressions, edge categories,
  source types.

## What is trusted

Calls into other crates stand behind small items marked `external_body` or `assume_specification`.
Each says in its comment what it takes on trust: roaring bitmaps, blake3 digests, tree-sitter
parsers, globs, JSON and YAML readers, petgraph, the clock, and a few functions of the standard
library that Verus has no contract for.

Floating-point numbers are carried through the library as their bits. What computes with them is in
`app/`.

## Layout

- `src/` — the library
- `tests/` — its tests
- `app/` — the `locus` program: command line, configuration file, LMDB and JSON files, watcher, HTTP
  and MCP servers, embedding models, benchmarks
