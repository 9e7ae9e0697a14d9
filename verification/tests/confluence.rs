//! Confluence pages.

use locus::base64::base64_encode;
use locus::confluence::{
    auth_header, content_url, extract_attr, heading_level, listed_items, listing_url,
    next_listing_url, parse_page, parse_storage_html, read_listing, slug, strip_tags, ConfluenceParser,
};
use locus::json::Json;
use locus::parser::Parser;
use locus::types::ParseError;

const SAMPLE_PAGE: &str = r#"{
        "id": "123456",
        "title": "Auth Design",
        "space": { "key": "ENG" },
        "body": {
            "storage": {
                "value": "<h1>Overview</h1><p>This page covers <a href=\"https://example.com\">authentication</a>.</p><h2>Details</h2><p>Use OAuth2.</p>"
            }
        },
        "metadata": {
            "labels": {
                "results": [
                    {"name": "auth"},
                    {"name": "security"}
                ]
            }
        },
        "ancestors": [
            {"title": "Architecture"},
            {"title": "Backend"}
        ],
        "version": { "when": "2024-01-15T12:00:00.000Z" }
    }"#;

#[test]
fn parser_can_parse_confluence_extension() {
    let p = ConfluenceParser;
    assert!(p.can_parse("confluence://ENG/123.confluence"));
    assert!(!p.can_parse("file.md"));
}

#[test]
fn parser_extracts_tags_from_labels() {
    let p = ConfluenceParser;
    let path = "confluence://ENG/123456.confluence".to_string();
    let result = p.parse(path.as_str(), SAMPLE_PAGE.as_bytes()).unwrap();

    assert!(result.tags.contains(&"source:confluence".to_string()));
    assert!(result.tags.contains(&"confluence:space:ENG".to_string()));
    assert!(result.tags.contains(&"tag:auth".to_string()));
    assert!(result.tags.contains(&"tag:security".to_string()));
}

#[test]
fn parser_extracts_ancestors_as_parent_tags() {
    let p = ConfluenceParser;
    let path = "confluence://ENG/123456.confluence".to_string();
    let result = p.parse(path.as_str(), SAMPLE_PAGE.as_bytes()).unwrap();

    assert!(result.tags.iter().any(|t| t.contains("architecture")));
}

#[test]
fn parser_extracts_headings_as_chunks() {
    let p = ConfluenceParser;
    let path = "confluence://ENG/123456.confluence".to_string();
    let result = p.parse(path.as_str(), SAMPLE_PAGE.as_bytes()).unwrap();

    // Title chunk + at least one heading chunk
    assert!(result.chunks.len() >= 2);
    assert_eq!(result.chunks[0].label.as_deref(), Some("Auth Design"));
}

#[test]
fn parser_extracts_links() {
    let p = ConfluenceParser;
    let path = "confluence://ENG/123456.confluence".to_string();
    let result = p.parse(path.as_str(), SAMPLE_PAGE.as_bytes()).unwrap();

    assert!(result.links.iter().any(|l| l.target.contains("example.com")));
}

#[test]
fn strip_tags_removes_html() {
    assert_eq!(strip_tags("<strong>hello</strong> world"), "hello world");
    assert_eq!(strip_tags("plain text"), "plain text");
}

#[test]
fn base64_encode_roundtrip() {
    let input = b"user@example.com:api_token_here";
    let encoded = base64_encode(input);
    assert!(!encoded.is_empty());
    assert!(!encoded.contains(' '));
}

// ── Pieces ───────────────────────────────────────────────────────

fn text(s: &str) -> Json {
    Json::Text(s.to_string())
}

fn object(fields: Vec<(&str, Json)>) -> Json {
    Json::Object(fields.into_iter().map(|(k, v)| (k.to_string(), v)).collect())
}

#[test]
fn headings_are_h1_to_h6() {
    assert_eq!(heading_level("h1"), Some(1));
    assert_eq!(heading_level("h6"), Some(6));
    assert_eq!(heading_level("h7"), None);
    assert_eq!(heading_level("p"), None);
}

#[test]
fn attributes_are_found_by_name() {
    assert_eq!(extract_attr("a href=\"https://x.org\" b", "href"), Some("https://x.org".into()));
    assert_eq!(extract_attr("a title=\"t\"", "href"), None);
}

#[test]
fn storage_is_split_at_headings() {
    let (sections, links) =
        parse_storage_html("<h1>A</h1><p>one</p><h2>B</h2><p><a href=\"u\">two</a></p>").unwrap();
    assert_eq!(sections.len(), 2);
    assert_eq!(sections[0].0, "A");
    assert_eq!(sections[0].2, 1);
    assert_eq!(sections[1].0, "B");
    assert_eq!(sections[1].2, 2);
    assert_eq!(links.len(), 1);
    assert_eq!(links[0].target, "u");
}

#[test]
fn slugs_are_lower_case_with_hyphens() {
    assert_eq!(slug("Design Notes"), "design-notes");
}

#[test]
fn text_that_is_no_json_is_refused() {
    assert!(matches!(
        ConfluenceParser.parse("confluence://E/1.confluence", b"no json"),
        Err(ParseError::BadFrontmatter(_))
    ));
}

#[test]
fn a_page_without_fields_still_parses() {
    let r = parse_page(&object(vec![("title", text("T"))])).unwrap();
    assert_eq!(r.chunks[0].label.as_deref(), Some("T"));
}

// ── Listings ─────────────────────────────────────────────────────

#[test]
fn requests_are_addressed_and_signed() {
    assert_eq!(auth_header("me", "t"), format!("Basic {}", base64_encode(b"me:t")));
    assert_eq!(auth_header("me", "t"), "Basic bWU6dA==");
    assert!(listing_url("https://x.org", "ENG", None).starts_with("https://x.org/"));
    assert!(listing_url("https://x.org", "ENG", None).contains("ENG"));
    assert_ne!(
        listing_url("https://x.org", "ENG", None),
        listing_url("https://x.org", "ENG", Some(1_700_000_000))
    );
    assert!(content_url("https://x.org", "42").contains("/42"));
}

#[test]
fn listings_name_their_pages_and_what_comes_next() {
    let page = object(vec![
        ("id", text("42")),
        ("title", text("Home")),
        ("version", object(vec![("when", text("2024-01-15T12:00:00.000Z"))])),
    ]);
    let listing = object(vec![
        ("results", Json::Array(vec![page])),
        ("_links", object(vec![("next", text("/rest/next"))])),
    ]);
    let items = listed_items(&listing, "ENG");
    assert_eq!(items.len(), 1);
    assert!(items[0].synthetic_path.contains("ENG"));
    assert!(items[0].synthetic_path.contains("42"));
    assert_eq!(next_listing_url("https://x.org", &listing), Some("https://x.org/rest/next".into()));
    let last = object(vec![("results", Json::Array(vec![]))]);
    assert_eq!(next_listing_url("https://x.org", &last), None);
    assert_eq!(listed_items(&last, "ENG").len(), 0);
}

#[test]
fn a_page_with_an_odd_time_is_listed() {
    let page = |when: &str| {
        object(vec![("id", text("7")), ("version", object(vec![("when", text(when))]))])
    };
    let listing = object(vec![(
        "results",
        Json::Array(vec![
            page("just now, a\u{e9}\u{e9}\u{e9}\u{e9}\u{e9}\u{e9}"),
            page("2024-01-15T12:00:00.000Z"),
        ]),
    )]);
    let items = listed_items(&listing, "ENG");
    assert_eq!(items.len(), 2);
    assert_eq!(items[0].updated_at, 0);
    assert_eq!(items[0].title, "Untitled");
    assert_eq!(items[0].synthetic_path, "confluence://ENG/7.confluence");
    assert_eq!(items[1].updated_at, 1_704_196_800);
}

#[test]
fn replies_to_listing_requests_are_read() {
    let reply = br#"{"results":[{"id":"42","title":"Home"}],"_links":{"next":"/more"}}"#;
    let part = read_listing(reply, "https://x.org", "ENG").unwrap();
    assert_eq!(part.items.len(), 1);
    assert_eq!(part.items[0].id, "42");
    assert_eq!(part.items[0].title, "Home");
    assert_eq!(part.next.as_deref(), Some("https://x.org/more"));
    let last = read_listing(b"{}", "https://x.org", "ENG").unwrap();
    assert!(last.items.is_empty());
    assert_eq!(last.next, None);
    assert!(read_listing(b"<html>", "https://x.org", "ENG").is_err());
}

#[test]
fn body_text_keeps_its_characters() {
    let html = "<h1>Caf\u{e9}</h1>na\u{ef}ve <b>\u{4f60}</b>\u{597d}\r\n<h2>B</h2>\u{1f600}";
    let (sections, _) = parse_storage_html(html).unwrap();
    assert_eq!(sections[0].0, "Caf\u{e9}");
    assert_eq!(sections[0].1, "na\u{ef}ve \u{4f60}\u{597d}");
    assert_eq!(sections[1].1, "\u{1f600}");
}
