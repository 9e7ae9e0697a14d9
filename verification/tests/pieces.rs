//! Expressions, dates, paths, texts, hashes and reports.

use locus::baseline::{
    file_keys, grep_matches, median_us, mentions, parse_filter_matches, scales, Postings, TagGraph,
};
use locus::commands::{
    parsers_for_remote_kind, parsers_for_source, resolve_data_dir, resolve_data_dir_for_vault,
    source_type_named,
};
use locus::config::{
    register_source, BiemConfig, ConfigError, RemoteSourceEntry, StorageMode,
};
use locus::dates::{
    days_to_ymd, decimal, format_confluence_datetime, format_timestamp, padded, parse_iso8601,
};
use locus::expression::parse_filter;
use locus::hash::{same_hash, to_hex};
use locus::ingest::{BulkIndexResult, CompactResult, SourceFile};
use locus::json::Json;
use locus::nest::ChunkPointer;
use locus::paths::{extension, file_name, file_stem, join, normalize, parent, starts_with, strip_prefix};
use locus::query::{Filter, FilterEntry, IndexStatus, InspectResult, MatchPointer, QueryResult};
use locus::remote::{
    cmd_remote_add, confluence_config, install_into, install_server, names_to_poll, pad_right, poll_since,
    source_line, token_variable, InstallError, RemoteAdd,
};
use locus::reports::{
    compact_lines, config_lines, enrich_lines, filter_lines, index_lines, init_line,
    inspect_lines, search_lines, signed, status_lines, storage_name, tagger_lines,
};
use locus::types::SourceType;

// ── Expressions ──────────────────────────────────────────────────

fn show(f: &Filter) -> String {
    match f {
        Filter::Key(k) => k.clone(),
        Filter::Not(g) => format!("!{}", show(g)),
        Filter::And(v) => format!("({})", v.iter().map(show).collect::<Vec<_>>().join("&")),
        Filter::Or(v) => format!("({})", v.iter().map(show).collect::<Vec<_>>().join("|")),
    }
}

#[test]
fn expressions_bind_not_before_and_before_or() {
    let f = parse_filter("t:a AND t:b OR NOT t:c").unwrap();
    assert_eq!(show(&f), "((t:a&t:b)|!t:c)");
    let f = parse_filter("t:a AND (t:b OR t:c)").unwrap();
    assert_eq!(show(&f), "(t:a&(t:b|t:c))");
    assert_eq!(show(&parse_filter("tag:work").unwrap()), "tag:work");
    assert_eq!(show(&parse_filter("NOT NOT t:a").unwrap()), "!!t:a");
}

#[test]
fn broken_expressions_are_refused() {
    for s in ["", "AND t:a", "t:a AND", "(t:a", "t:a)", "t:a t:b", "NOT", "word"] {
        assert!(parse_filter(s).is_none(), "{s:?}");
    }
}

// ── Dates ────────────────────────────────────────────────────────

#[test]
fn days_are_civil_dates() {
    assert_eq!(days_to_ymd(0), (1970, 1, 1));
    assert_eq!(days_to_ymd(59), (1970, 3, 1));
    assert_eq!(days_to_ymd(11_016), (2000, 2, 29));
    assert_eq!(days_to_ymd(19_737), (2024, 1, 15));
}

#[test]
fn timestamps_are_read_and_written() {
    assert_eq!(parse_iso8601("2024-01-15T12:00:00.000Z"), Some(1_704_196_800));
    assert_eq!(parse_iso8601("1970-01-01T00:00:00Z"), Some(0));
    assert!(format_timestamp(1_705_320_000).contains("2024-01-15"));
    assert_eq!(format_confluence_datetime(1_705_320_000), "2024-01-28T00:00:00.000Z");
    assert_eq!(parse_iso8601("yesterday"), None);
    assert_eq!(parse_iso8601("no time, \u{e9}\u{e9}\u{e9}\u{e9}\u{e9}\u{e9}\u{e9}"), None);
    assert_eq!(parse_iso8601("2024-\u{e9}\u{e9}-15T12:00:00"), None);
}

#[test]
fn numbers_are_written_in_decimal() {
    assert_eq!(decimal(0), "0");
    assert_eq!(decimal(u64::MAX), "18446744073709551615");
    assert_eq!(padded(7, 2), "07");
    assert_eq!(signed(-5), "-5");
    assert_eq!(signed(i64::MIN), "-9223372036854775808");
}

// ── Paths and hashes ─────────────────────────────────────────────

#[test]
fn paths_have_parts() {
    assert_eq!(file_name("/a/b.md"), Some("b.md".into()));
    assert_eq!(file_name("/"), None);
    assert_eq!(extension("/a/b.tar.gz"), Some("gz".into()));
    assert_eq!(extension(".hidden"), None);
    assert_eq!(file_stem("/a/b.md"), Some("b".into()));
    assert_eq!(parent("/a/b.md"), Some("/a".into()));
    assert_eq!(parent("/"), None);
    assert_eq!(join("/a", "b"), "/a/b");
    assert_eq!(join("/a", "/b"), "/b");
    assert_eq!(normalize("/a//b/./c/"), "/a/b/c");
    assert!(starts_with("/a/b/c", "/a/b"));
    assert!(!starts_with("/a/bc", "/a/b"));
    assert_eq!(strip_prefix("/a/b/c", "/a"), Some("b/c".into()));
    assert_eq!(strip_prefix("/a/b", "/x"), None);
}

#[test]
fn hashes_are_written_in_hexadecimal() {
    assert_eq!(to_hex(&[0x00, 0xff, 0x1a]), "00ff1a");
    assert!(same_hash(&[1; 32], &[1; 32]));
    let mut other = [1; 32];
    other[31] = 2;
    assert!(!same_hash(&[1; 32], &other));
}

// ── Data directories ─────────────────────────────────────────────

#[test]
fn data_directories_are_given_or_registered_or_default() {
    let mut config = BiemConfig::default();
    register_source(
        "/src/notes",
        SourceType::Obsidian,
        StorageMode::Global,
        "/home/me/.locus",
        &mut config,
    )
    .unwrap();
    assert_eq!(
        resolve_data_dir(Some("/given"), &config, Some("/src/notes"), Some("/home/me")),
        Some("/given".into())
    );
    assert_eq!(
        resolve_data_dir_for_vault(None, Some("/src/notes"), &config, Some("/home/me")),
        Some("/home/me/.locus/sources/notes".into())
    );
    assert_eq!(
        resolve_data_dir_for_vault(None, Some("/elsewhere"), &config, Some("/home/me")),
        Some("/home/me/.locus".into())
    );
    assert_eq!(resolve_data_dir_for_vault(None, Some("/elsewhere"), &config, None), None);
    assert_eq!(
        resolve_data_dir(None, &config, Some("/src/notes/sub"), Some("/home/me")),
        Some("/home/me/.locus/sources/notes".into())
    );
}

#[test]
fn sources_have_their_parsers() {
    assert_eq!(source_type_named("obsidian"), SourceType::Obsidian);
    assert_eq!(source_type_named("wiki"), SourceType::Custom("wiki".into()));
    assert!(parsers_for_source(&SourceType::Obsidian)[0].can_parse("a.md"));
    assert!(parsers_for_source(&SourceType::Code)[0].can_parse("a.rs"));
    assert!(parsers_for_remote_kind("confluence")[0].can_parse("confluence://E/1.confluence"));
    assert!(parsers_for_remote_kind("other")[0].can_parse("a.md"));
}

// ── Remote sources ───────────────────────────────────────────────

fn confluence(name: &str) -> RemoteAdd {
    RemoteAdd::Confluence {
        name: name.into(),
        base_url: "https://x.org".into(),
        username: "me".into(),
        spaces: vec!["ENG".into()],
        poll_interval_secs: 300,
    }
}

#[test]
fn remote_sources_are_added_once() {
    let mut config = BiemConfig::default();
    let (name, tip) = cmd_remote_add(confluence("wiki"), "/home/me/.locus", &mut config).unwrap();
    assert_eq!(name, "wiki");
    assert_eq!(tip, "Set CONFLUENCE_API_TOKEN, then run: locus remote poll --name wiki");
    let entry: &RemoteSourceEntry = config.remote_sources.get("wiki").unwrap();
    assert_eq!(entry.kind, "confluence");
    assert_eq!(confluence_config(entry, "t".into()).spaces, vec!["ENG"]);
    assert_eq!(poll_since(entry, false), None);
    assert!(source_line("wiki", entry, "never").starts_with("wiki                 confluence"));
    assert_eq!(names_to_poll(&config, None).unwrap(), vec!["wiki"]);
    assert_eq!(names_to_poll(&config, Some("wiki")).unwrap(), vec!["wiki"]);
    assert!(names_to_poll(&config, Some("none")).is_err());
    assert!(matches!(
        cmd_remote_add(confluence("wiki"), "/home/me/.locus", &mut config),
        Err(ConfigError::SourceAlreadyRegistered(_))
    ));
}

#[test]
fn tokens_come_from_variables() {
    assert_eq!(token_variable("jira"), Ok("JIRA_API_TOKEN"));
    assert_eq!(token_variable("slack"), Ok("SLACK_BOT_TOKEN"));
    assert_eq!(token_variable("x").unwrap_err(), "unknown remote source kind: 'x'");
    assert_eq!(pad_right("ab", 4), "ab  ");
    assert_eq!(pad_right("abcde", 4), "abcde");
}

#[test]
fn servers_are_installed_beside_others() {
    let settings = Json::Object(vec![(
        "mcpServers".to_string(),
        Json::Object(vec![("other".to_string(), Json::Bool(true))]),
    )]);
    match install_server(settings, "/bin/locusd", "/vault").unwrap() {
        Json::Object(fields) => match &fields[0].1 {
            Json::Object(servers) => {
                assert_eq!(servers.len(), 2);
                assert_eq!(servers[0].0, "other");
                assert_eq!(servers[1].0, "locus");
            }
            other => panic!("{other:?}"),
        },
        other => panic!("{other:?}"),
    }
    assert!(matches!(
        install_server(Json::Null, "/bin/locusd", "/vault"),
        Err(InstallError::NotObject)
    ));
    let odd = Json::Object(vec![("mcpServers".to_string(), Json::Bool(true))]);
    assert!(matches!(
        install_server(odd, "/bin/locusd", "/vault"),
        Err(InstallError::ServersNotObject)
    ));
}

fn named<'a>(j: &'a Json, name: &str) -> &'a Json {
    match j {
        Json::Object(fields) => &fields.iter().find(|f| f.0 == name).unwrap().1,
        other => panic!("{other:?}"),
    }
}

#[test]
fn servers_are_installed_into_a_file() {
    let text = |s: &str| Json::Text(s.to_string());
    let fresh = install_into(None, "/bin/locusd", "/vault").unwrap();
    let locus = named(named(&fresh, "mcpServers"), "locus");
    assert_eq!(*named(locus, "command"), text("/bin/locusd"));
    assert_eq!(*named(locus, "args"), Json::Array(vec![text("/vault"), text("--mcp")]));

    let raw = r#"{"theme":"dark","mcpServers":{"other":{"command":"x"},"locus":true}}"#;
    let once = install_into(Some(raw), "/bin/locusd", "/vault").unwrap();
    assert_eq!(*named(&once, "theme"), text("dark"));
    assert_eq!(*named(named(named(&once, "mcpServers"), "other"), "command"), text("x"));
    assert_eq!(named(named(&once, "mcpServers"), "locus"), locus);

    assert!(matches!(install_into(Some("{"), "c", "v"), Err(InstallError::NotJson(_))));
    assert_eq!(install_into(Some("[]"), "c", "v"), Err(InstallError::NotObject));
    assert_eq!(
        install_into(Some(r#"{"mcpServers":1}"#), "c", "v"),
        Err(InstallError::ServersNotObject)
    );
}

#[test]
fn installing_twice_changes_nothing() {
    let raw = r#"{"mcpServers":{"a":1,"b":2}}"#;
    let once = install_into(Some(raw), "/bin/locusd", "/vault").unwrap();
    let again = install_into(Some(raw), "/bin/locusd", "/vault").unwrap();
    assert_eq!(install_server(again, "/bin/locusd", "/vault").unwrap(), once);
}

// ── Reports ──────────────────────────────────────────────────────

fn pointer() -> ChunkPointer {
    ChunkPointer {
        chunk_id: 3,
        kind: "Section".into(),
        byte_start: 0,
        byte_end: 9,
        label: Some("Intro".into()),
        depth: 1,
        children: vec![],
    }
}

#[test]
fn results_are_reported() {
    let result = QueryResult {
        matches: vec![MatchPointer {
            doc_id: 7,
            file_path: "/v/a.md".into(),
            source_type: "Obsidian".into(),
            chunks: vec![pointer()],
            matched_filters: vec!["tag:a".into(), "tag:b".into()],
            auto_type: Some("Task".into()),
            score: None,
            last_modified: 0,
        }],
        total_matching: 1,
        query_time_us: 42,
    };
    assert_eq!(
        search_lines(&result),
        vec![
            "1 matches (42μs)",
            "",
            "  /v/a.md (doc_id=7)",
            "    type: Task    filters: tag:a, tag:b",
            "    chunk 3 (Section) bytes 0..9 Intro",
        ]
    );
}

#[test]
fn documents_are_reported() {
    let d = InspectResult {
        doc_id: 7,
        file_path: "/v/a.md".into(),
        source_type: "Obsidian".into(),
        auto_type: None,
        blake3_hash: "00ff".into(),
        last_indexed: 12,
        chunks: vec![pointer()],
        bitmap_keys: vec!["tag:a".into()],
    };
    assert_eq!(
        inspect_lines(&d),
        vec![
            "Document: /v/a.md",
            "  doc_id:       7",
            "  source:       Obsidian",
            "  auto_type:    none",
            "  blake3:       00ff",
            "  last_indexed: 12",
            "  chunks:       1",
            "    [3] Section bytes 0..9 Intro",
            "  bitmaps:      tag:a",
        ]
    );
}

#[test]
fn counts_are_reported() {
    let s = IndexStatus {
        total_documents: 1,
        total_bitmaps: 2,
        tombstoned: 3,
        next_doc_id: 4,
        next_chunk_id: 5,
    };
    assert_eq!(status_lines(&s)[5], "  next_chunk: 5");
    let entries = vec![FilterEntry { key: "tag:a".into(), cardinality: 2 }];
    assert_eq!(
        filter_lines(&entries, Some("tag")),
        vec!["1 filter keys (category: tag):", "  tag:a  (2 docs)"]
    );
    assert_eq!(filter_lines(&vec![], None), vec!["0 filter keys:"]);
    let b = BulkIndexResult {
        docs_indexed: 1,
        docs_updated: 2,
        docs_skipped: 3,
        docs_tombstoned: 4,
        bitmaps_created: 5,
        duration_ms: 6,
    };
    assert_eq!(index_lines(&b)[1], "  2 updated, 3 skipped, 4 tombstoned");
    assert_eq!(
        init_line(&b),
        "✓ Indexed 1 documents (2 updated, 3 skipped, 4 tombstoned, 5 bitmap keys, 6ms)"
    );
    assert_eq!(enrich_lines(&b, true)[0], "✓ Enrichment complete (forced)");
    let c = CompactResult { docs_removed: 1, bitmaps_cleaned: 2, duration_ms: 3 };
    assert_eq!(compact_lines(&c)[1], "  1 documents removed");
    assert_eq!(
        tagger_lines(&vec!["size".to_string()]),
        vec!["Active taggers (1):", "  • size"]
    );
}

#[test]
fn sources_are_reported() {
    let mut config = BiemConfig::default();
    assert_eq!(
        config_lines(&config),
        vec!["No sources registered. Run `locus init <path>` to get started."]
    );
    register_source("/v/notes", SourceType::Code, StorageMode::Local, "/l", &mut config).unwrap();
    let lines = config_lines(&config);
    assert_eq!(lines[0], "Registered sources:");
    assert_eq!(lines[2], "  [notes]");
    assert_eq!(lines[4], "    type:     Code");
    assert_eq!(lines[6], "    data_dir: /v/notes/.locus");
    assert_eq!(storage_name(StorageMode::Local), "Local");
}

// ── Baselines ────────────────────────────────────────────────────

fn files() -> Vec<SourceFile> {
    [
        ("/v/a.md", "# A\n#work #project\n"),
        ("/v/b.md", "# B\n#work\n"),
        ("/v/c.md", "# C\nsomework here\n"),
    ]
    .iter()
    .map(|(p, c)| SourceFile { path: p.to_string(), content: c.as_bytes().to_vec() })
    .collect()
}

#[test]
fn medians_and_scales() {
    assert_eq!(median_us(&mut vec![5, 1, 9]), 5);
    assert_eq!(median_us(&mut vec![4, 1, 3, 2]), 3);
    assert_eq!(scales(1_000), vec![100, 500, 1_000]);
    assert!(scales(99).is_empty());
}

#[test]
fn scans_count_files() {
    assert!(mentions(b"some work", b"work"));
    assert!(!mentions(b"wor", b"work"));
    assert_eq!(grep_matches(&files(), b"work"), 3);
    assert_eq!(parse_filter_matches(&files(), "work"), 2);
    assert_eq!(file_keys(&files()[0]), vec!["tag:work", "tag:project", "source:obsidian"]);
}

#[test]
fn posting_lists_and_the_graph_agree() {
    let list = files();
    let p = Postings::build(&list);
    assert_eq!(p.lookup("tag:work"), vec![0, 1]);
    assert_eq!(p.both("tag:project", "source:obsidian"), vec![0]);
    assert!(p.lookup("tag:none").is_empty());
    let g = TagGraph::build(&list).unwrap();
    assert_eq!(g.single("tag:work").len(), 2);
    assert_eq!(g.both("tag:project", "source:obsidian").len(), 1);
    assert_eq!(g.single("source:obsidian").len(), 3);
    assert!(g.single("tag:none").is_empty());
}
