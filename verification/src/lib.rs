//! Locus: a local-first context engine. It indexes documents once and answers structural
//! queries with pointers: document, chunk, label, byte range.

pub mod answer_laws;
pub mod base64;
pub mod baseline;
pub mod bitmap;
pub mod calendar_laws;
pub mod clock;
pub mod code;
pub mod code_laws;
pub mod commands;
pub mod config;
pub mod confluence;
pub mod confluence_laws;
pub mod dates;
pub mod document_laws;
pub mod enrich;
pub mod enrich_laws;
pub mod expression;
pub mod filter_laws;
pub mod found_laws;
pub mod graph;
pub mod graph_commands;
pub mod graph_laws;
pub mod graph_query;
pub mod hash;
pub mod idmap;
pub mod ignore;
pub mod ingest;
pub mod intake_laws;
pub mod json;
pub mod keymap;
pub mod markdown;
pub mod markdown_laws;
pub mod nest;
pub mod nest_laws;
pub mod note_laws;
pub mod page_laws;
pub mod parser;
pub mod path_laws;
pub mod paths;
pub mod query;
pub mod registry;
pub mod remote;
pub mod report_laws;
pub mod reports;
pub mod rust_laws;
pub mod search_laws;
pub mod semantic;
pub mod source_laws;
pub mod syntax;
pub mod text;
pub mod text_laws;
pub mod tools;
pub mod types;
pub mod typescript_laws;
pub mod vaults;
pub mod watcher;
