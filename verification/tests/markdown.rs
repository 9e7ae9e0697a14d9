//! Parsing Markdown notes.

use locus::json::Json;
use locus::keymap::KeyMap;
use locus::markdown::{
    detect_auto_type, extract_chunks, extract_frontmatter, extract_inline_tags, extract_links,
    find_code_block_ranges, flatten_hierarchical_tags, is_in_code_block, line_positions,
    parse_atx_heading, MarkdownParser,
};
use locus::parser::Parser;
use locus::types::{ChunkKind, DocType, NoteType, ParseError, ParseResult};

fn text(j: &Json) -> &str {
    match j {
        Json::Text(s) => s.as_str(),
        _ => panic!("not a text"),
    }
}


// ── Frontmatter tests ────────────────────────────────────────

#[test]
fn frontmatter_with_tags() {
    let content = "---\ntitle: My Note\ntags:\n  - work\n  - rust\n---\n# Hello\n";
    let (fm, tags, range) = extract_frontmatter(content).unwrap();
    assert_eq!(text(fm.get("title").unwrap()), "My Note");
    assert_eq!(tags, vec!["work", "rust"]);
    assert!(range.is_some());
}

#[test]
fn frontmatter_missing() {
    let content = "# Just a heading\nSome text\n";
    let (fm, tags, range) = extract_frontmatter(content).unwrap();
    assert_eq!(fm.len(), 0);
    assert!(tags.is_empty());
    assert!(range.is_none());
}

#[test]
fn frontmatter_malformed_yaml() {
    let content = "---\n: invalid: yaml: [[\n---\n";
    let result = extract_frontmatter(content);
    assert!(result.is_err() || result.unwrap().0.len() == 0);
}

#[test]
fn frontmatter_byte_range() {
    let content = "---\ntitle: Test\n---\n# Hello\n";
    let (_, _, range) = extract_frontmatter(content).unwrap();
    let range = range.unwrap();
    assert_eq!(range.start, 0);
    assert_eq!(&content[range.clone()], "---\ntitle: Test\n---\n");
}

#[test]
fn frontmatter_comma_separated_tags() {
    let content = "---\ntags: work, rust, biem\n---\n";
    let (_, tags, _) = extract_frontmatter(content).unwrap();
    assert_eq!(tags, vec!["work", "rust", "biem"]);
}

// ── Chunk tests ──────────────────────────────────────────────

#[test]
fn chunks_multiple_headings() {
    let content = "# Intro\nSome text\n## Details\nMore text\n### Deep\nDeep text\n";
    let chunks = extract_chunks(content, None);
    assert_eq!(chunks.len(), 3);
    assert_eq!(chunks[0].kind, ChunkKind::Section);
    assert_eq!(chunks[0].label.as_deref(), Some("Intro"));
    assert_eq!(chunks[0].depth, 1);
    assert_eq!(chunks[1].depth, 2);
    assert_eq!(chunks[2].depth, 3);
}

#[test]
fn chunks_no_headings() {
    let content = "Just some text\nwith no headings\n";
    let chunks = extract_chunks(content, None);
    assert_eq!(chunks.len(), 1);
    assert_eq!(chunks[0].kind, ChunkKind::Body);
    assert_eq!(chunks[0].byte_range, 0..content.len());
}

#[test]
fn chunks_with_frontmatter() {
    let fm_range = 0..20usize;
    let content = "---\ntitle: Test\n---\n# Hello\nText\n";
    let chunks = extract_chunks(content, Some(&fm_range));
    assert_eq!(chunks[0].kind, ChunkKind::Frontmatter);
    assert_eq!(chunks[1].kind, ChunkKind::Section);
    assert_eq!(chunks[1].label.as_deref(), Some("Hello"));
}

#[test]
fn chunks_byte_ranges_contiguous() {
    let content = "# A\ntext\n## B\nmore\n## C\nend\n";
    let chunks = extract_chunks(content, None);
    // Verify contiguous coverage
    let mut expected_start = 0;
    for chunk in &chunks {
        assert_eq!(chunk.byte_range.start, expected_start);
        expected_start = chunk.byte_range.end;
    }
    assert_eq!(expected_start, content.len());
}

// ── Link tests ───────────────────────────────────────────────

#[test]
fn link_simple() {
    let content = "See [[ProjectAlpha]] for details.";
    let links = extract_links(content);
    assert_eq!(links.len(), 1);
    assert_eq!(links[0].target, "ProjectAlpha");
    assert_eq!(links[0].display, None);
    assert_eq!(links[0].byte_offset, 4);
}

#[test]
fn link_with_display() {
    let content = "Check [[ProjectAlpha|my project]] out.";
    let links = extract_links(content);
    assert_eq!(links.len(), 1);
    assert_eq!(links[0].target, "ProjectAlpha");
    assert_eq!(links[0].display.as_deref(), Some("my project"));
}

#[test]
fn link_multiple() {
    let content = "See [[A]] and [[B]] and [[C]].";
    let links = extract_links(content);
    assert_eq!(links.len(), 3);
}

#[test]
fn link_inside_code_block_ignored() {
    let content = "text\n```\n[[NotALink]]\n```\n[[RealLink]]\n";
    let links = extract_links(content);
    assert_eq!(links.len(), 1);
    assert_eq!(links[0].target, "RealLink");
}

// ── Tag tests ────────────────────────────────────────────────

#[test]
fn tag_simple() {
    let content = "Some text #work and more";
    let tags = extract_inline_tags(content);
    assert_eq!(tags, vec!["work"]);
}

#[test]
fn tag_nested() {
    let content = "Tagged #parent/child here";
    let tags = extract_inline_tags(content);
    assert_eq!(tags, vec!["parent/child"]);
}

#[test]
fn tag_heading_not_a_tag() {
    let content = "# Heading\n#realtag\n";
    let tags = extract_inline_tags(content);
    assert_eq!(tags, vec!["realtag"]);
}

#[test]
fn tag_in_code_block_ignored() {
    let content = "```\n#notag\n```\n#realtag\n";
    let tags = extract_inline_tags(content);
    assert_eq!(tags, vec!["realtag"]);
}

#[test]
fn tag_deduplication() {
    let content = "#work some text #work again";
    let tags = extract_inline_tags(content);
    assert_eq!(tags, vec!["work"]);
}

// ── Auto-type tests ──────────────────────────────────────────

#[test]
fn auto_type_task() {
    let content = "# Tasks\n- [ ] Do thing\n- [x] Done thing\n- [ ] Another\n- [ ] More\n";
    let links = extract_links(content);
    let fm = KeyMap::new();
    assert_eq!(detect_auto_type(content, &links, &fm), Some(DocType::Task));
}

#[test]
fn auto_type_moc() {
    let content = "# Index\n[[A]]\n[[B]]\n[[C]]\n[[D]]\n[[E]]\n[[F]]\n";
    let links = extract_links(content);
    let fm = KeyMap::new();
    assert_eq!(detect_auto_type(content, &links, &fm), Some(DocType::Moc));
}

#[test]
fn auto_type_reference() {
    let content = "# Book\nSome notes";
    let links = vec![];
    let mut fm = KeyMap::new();
    fm.insert("isbn".to_string(), Json::Text("978-0-123456-78-9".to_string()));
    assert_eq!(
        detect_auto_type(content, &links, &fm),
        Some(DocType::Reference)
    );
}

#[test]
fn auto_type_none_for_normal() {
    let content = "# Regular Note\nJust some text with no special patterns.\n";
    let links = extract_links(content);
    let fm = KeyMap::new();
    assert_eq!(detect_auto_type(content, &links, &fm), None);
}

// ── Full parser integration ──────────────────────────────────

#[test]
fn parser_can_parse() {
    let p = MarkdownParser;
    assert!(p.can_parse("notes/test.md"));
    assert!(p.can_parse("test.MD"));
    assert!(!p.can_parse("test.txt"));
    assert!(!p.can_parse("test.rs"));
}

#[test]
fn parser_full_document() {
    let p = MarkdownParser;
    let content = b"---\ntags:\n  - work\n---\n# Introduction\nSee [[ProjectAlpha]] for details.\n#rust\n## Details\nMore text\n";
    let result = p.parse("test.md", content).unwrap();

    assert_eq!(result.tags, vec!["work", "rust"]);
    assert_eq!(result.links.len(), 1);
    assert_eq!(result.links[0].target, "ProjectAlpha");
    assert!(result.chunks.len() >= 3); // frontmatter + 2 sections
    assert_eq!(result.chunks[0].kind, ChunkKind::Frontmatter);
}

#[test]
fn parser_invalid_utf8() {
    let p = MarkdownParser;
    let content = &[0xFF, 0xFE, 0x00];
    let result = p.parse("test.md", content);
    assert!(matches!(result, Err(ParseError::InvalidUtf8)));
}

// ── Hierarchical tag flattening ──────────────────────────────

#[test]
fn flatten_hierarchical_simple() {
    let tags = vec!["work/project/alpha".to_string()];
    let flat = flatten_hierarchical_tags(tags);
    assert_eq!(flat, vec!["work", "work/project", "work/project/alpha"]);
}

#[test]
fn flatten_hierarchical_mixed() {
    let tags = vec!["work/project".to_string(), "personal".to_string()];
    let flat = flatten_hierarchical_tags(tags);
    assert_eq!(flat, vec!["work", "work/project", "personal"]);
}

#[test]
fn flatten_hierarchical_no_slash() {
    let tags = vec!["simple".to_string()];
    let flat = flatten_hierarchical_tags(tags);
    assert_eq!(flat, vec!["simple"]);
}

#[test]
fn flatten_hierarchical_dedup() {
    let tags = vec!["a/b".to_string(), "a/c".to_string()];
    let flat = flatten_hierarchical_tags(tags);
    assert_eq!(flat, vec!["a", "a/b", "a/c"]);
}

#[test]
fn parser_flattens_hierarchical_tags() {
    let p = MarkdownParser;
    let content = b"---\ntags:\n  - work/project/alpha\n---\n# Note\n#personal/finance\n";
    let result = p.parse("test.md", content).unwrap();
    assert!(result.tags.contains(&"work".to_string()));
    assert!(result.tags.contains(&"work/project".to_string()));
    assert!(result.tags.contains(&"work/project/alpha".to_string()));
    assert!(result.tags.contains(&"personal".to_string()));
    assert!(result.tags.contains(&"personal/finance".to_string()));
}

// ── Whole notes ──────────────────────────────────────────────────

fn parsed(content: &str) -> ParseResult {
    MarkdownParser.parse("note.md", content.as_bytes()).unwrap()
}

#[test]
fn simple_note() {
    let result = parsed(
        "---\ntags:\n  - work\n  - rust\n---\n# Introduction\nSee [[ProjectAlpha]]. #inline-tag\n\
         ## Details\nAnd [[ProjectBeta|the beta project]].\n### Deep Section\nText\n",
    );
    assert!(result.tags.contains(&"work".to_string()));
    assert!(result.tags.contains(&"rust".to_string()));
    assert!(result.tags.contains(&"inline-tag".to_string()));
    assert_eq!(result.links.len(), 2);
    assert_eq!(result.links[0].target, "ProjectAlpha");
    assert_eq!(result.links[1].target, "ProjectBeta");
    assert_eq!(result.links[1].display.as_deref(), Some("the beta project"));
    assert_eq!(result.chunks[0].kind, ChunkKind::Frontmatter);
    let sections: Vec<_> =
        result.chunks.iter().filter(|c| c.kind == ChunkKind::Section).collect();
    assert_eq!(sections.len(), 3);
    assert_eq!(sections[0].label.as_deref(), Some("Introduction"));
    assert_eq!(sections[0].depth, 1);
    assert_eq!(sections[1].depth, 2);
    assert_eq!(sections[2].depth, 3);
}

#[test]
fn task_note_detected() {
    let result = parsed("# Sprint\n- [ ] one\n- [x] two\n- [ ] three\n- [ ] four\n");
    assert_eq!(result.auto_type, Some(NoteType::Task));
}

#[test]
fn moc_detected() {
    let result = parsed("# Map\n[[A]]\n[[B]]\n[[C]]\n[[D]]\n[[E]]\n[[F]]\n");
    assert_eq!(result.auto_type, Some(NoteType::Moc));
    assert!(result.links.len() >= 5);
}

#[test]
fn no_frontmatter_file() {
    let result = parsed("# Plain\nJust a [[link]] here.\n## Second\nMore text\n");
    assert_eq!(result.frontmatter.len(), 0);
    assert!(result.tags.is_empty());
    assert_eq!(result.links.len(), 1);
    assert_eq!(result.links[0].target, "link");
    assert!(result.chunks.iter().all(|c| c.kind != ChunkKind::Frontmatter));
}

#[test]
fn code_blocks_ignored() {
    let result = parsed(
        "---\ntags: [code]\n---\n# Code\n[[RealLink]] #real-tag\n```\n[[NotALink]]\n\
         #not-a-tag-either\n```\nText\n```rust\n[[AlsoNotALink]]\n```\n#another-tag\n",
    );
    let targets: Vec<_> = result.links.iter().map(|l| l.target.as_str()).collect();
    assert!(targets.contains(&"RealLink"));
    assert!(!targets.contains(&"NotALink"));
    assert!(!targets.contains(&"AlsoNotALink"));
    assert!(result.tags.contains(&"real-tag".to_string()));
    assert!(result.tags.contains(&"another-tag".to_string()));
    assert!(result.tags.contains(&"code".to_string()));
    assert!(!result.tags.contains(&"not-a-tag-either".to_string()));
}

// ── Pieces ───────────────────────────────────────────────────────

#[test]
fn headings_have_one_to_six_marks_and_a_space() {
    assert_eq!(parse_atx_heading("# One"), Some((1, "One".to_string())));
    assert_eq!(parse_atx_heading("###### Six"), Some((6, "Six".to_string())));
    assert_eq!(parse_atx_heading("####### Seven"), None);
    assert_eq!(parse_atx_heading("#NoSpace"), None);
    assert_eq!(parse_atx_heading("plain"), None);
}

#[test]
fn lines_are_found_at_their_byte_offsets() {
    let lines = line_positions("é\nb\n");
    assert_eq!(lines[0], (0, "é".to_string()));
    assert_eq!(lines[1], (3, "b".to_string()));
}

#[test]
fn code_block_ranges_cover_their_fences() {
    let content = "a\n```\nb\n```\nc\n";
    let ranges = find_code_block_ranges(content);
    assert_eq!(ranges.len(), 1);
    assert!(is_in_code_block(content.find('b').unwrap(), &ranges));
    assert!(!is_in_code_block(0, &ranges));
    assert!(!is_in_code_block(content.find('c').unwrap(), &ranges));
}

#[test]
fn frontmatter_values_keep_their_kinds() {
    let (fm, _, _) =
        extract_frontmatter("---\nn: 7\nf: true\nlist: [a, 1]\nnothing: null\n---\n").unwrap();
    assert!(matches!(fm.get("f").unwrap(), Json::Bool(true)));
    assert!(matches!(fm.get("n").unwrap(), Json::Int(7) | Json::UInt(7)));
    assert!(matches!(fm.get("nothing").unwrap(), Json::Null));
    match fm.get("list").unwrap() {
        Json::Array(v) => {
            assert_eq!(v.len(), 2);
            assert_eq!(text(&v[0]), "a");
        }
        other => panic!("{other:?}"),
    }
}

#[test]
fn broken_frontmatter_is_refused() {
    let result = MarkdownParser.parse("a.md", b"---\na: [1\n---\n# T\n");
    assert!(matches!(result, Err(ParseError::BadFrontmatter(_))));
}

#[test]
fn reference_is_detected_from_the_frontmatter() {
    let result = parsed("---\nurl: https://example.org\n---\n# Page\nText\n");
    assert_eq!(result.auto_type, Some(DocType::Reference));
}

#[test]
fn chunks_of_a_note_lie_side_by_side() {
    let content = "---\na: 1\n---\npreamble\n# One\ntext é\n## Two\n";
    let result = parsed(content);
    let mut at = 0;
    for c in &result.chunks {
        assert_eq!(c.byte_range.start, at);
        at = c.byte_range.end;
    }
    assert_eq!(at, content.len());
}

#[test]
fn an_empty_note_is_one_chunk() {
    let r = MarkdownParser.parse("empty.md", b"").unwrap();
    assert_eq!(r.chunks.len(), 1);
    assert_eq!(r.chunks[0].byte_range, 0..0);
    assert_eq!(r.chunks[0].kind, ChunkKind::Body);
}

#[test]
fn flattening_twice_changes_nothing() {
    let tags: Vec<String> =
        ["x/y/z", "a", "x", "a//b", "/q"].iter().map(|t| t.to_string()).collect();
    let once = flatten_hierarchical_tags(tags);
    assert_eq!(flatten_hierarchical_tags(once.clone()), once);
    assert_eq!(&once[..3], ["x", "x/y", "x/y/z"]);
}

#[test]
fn nothing_follows_a_frontmatter_that_ends_the_note() {
    let empty = extract_chunks("", Some(&(0..0)));
    assert_eq!(empty.len(), 1);
    assert_eq!(empty[0].kind, ChunkKind::Frontmatter);
    assert_eq!(empty[0].byte_range, 0..0);
    let alone = extract_chunks("---\na: 1\n---\n", Some(&(0..13)));
    assert_eq!(alone.len(), 1);
    assert_eq!(extract_chunks("", None).len(), 1);
    let text = extract_chunks("hello", Some(&(0..0)));
    assert_eq!(text.len(), 2);
    assert_eq!(text[1].byte_range, 0..5);
}
