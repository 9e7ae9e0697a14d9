//! Parser for Obsidian-flavour Markdown.
//!
//! A pure function from a path and the bytes of a file to its structure: frontmatter, sections,
//! wikilinks, tags and a detected type. Positions in specifications are positions of characters;
//! the ranges that the parser hands out are byte offsets.

use std::ops::Range;

use vstd::prelude::*;

use crate::json;
use crate::json::{Json, JsonView, Yaml, YamlView};
use crate::keymap::KeyMap;
use crate::parser::Parser;
use crate::text;
use crate::types;
use crate::types::{
    Chunk, ChunkKind, ChunkMetadata, ChunkView, DocType, LinkRef, LinkView, ParseError,
    ParseErrorView, ParseResult, ParseView,
};

verus! {

broadcast use crate::types::lemma_views_push;

/// Obsidian-flavour Markdown parser.
#[derive(Clone, Copy, Debug, PartialEq, Eq, Structural)]
pub struct MarkdownParser;

// ── Headings ────────────────────────────────────────────────────────────────

/// The number of leading characters that are `c`.
pub open spec fn leading_count(s: Seq<char>, c: char) -> nat
    decreases s.len(),
{
    if s.len() > 0 && s[0] == c {
        1 + leading_count(s.subrange(1, s.len() as int), c)
    } else {
        0
    }
}

/// The text without the trailing characters that are `c`.
pub open spec fn trim_end_char(s: Seq<char>, c: char) -> Seq<char>
    decreases s.len(),
{
    if s.len() > 0 && s.last() == c {
        trim_end_char(s.drop_last(), c)
    } else {
        s
    }
}

/// The depth and text of an ATX heading: one to six `#`, then a space or nothing. Closing `#`
/// and white space do not belong to the text.
pub open spec fn heading_spec(line: Seq<char>) -> Option<(u8, Seq<char>)> {
    let t = text::trim_start_spec(line);
    let n = leading_count(t, '#');
    if 1 <= n <= 6 && (n == t.len() || t[n as int] == ' ') {
        let rest = t.subrange(n as int, t.len() as int);
        Some((n as u8, text::trim_spec(trim_end_char(text::trim_spec(rest), '#'))))
    } else {
        None
    }
}

proof fn lemma_leading_count(s: Seq<char>, c: char)
    ensures
        leading_count(s, c) <= s.len(),
    decreases s.len(),
{
    if s.len() > 0 && s[0] == c {
        lemma_leading_count(s.subrange(1, s.len() as int), c);
    }
}

/// The number of leading characters that are `c`.
fn count_leading(v: &[char], c: char) -> (r: usize)
    ensures
        r == leading_count(v@, c),
        r <= v@.len(),
{
    let mut i: usize = 0;
    proof {
        assert(v@.subrange(0, v@.len() as int) =~= v@);
    }
    while i < v.len() && v[i] == c
        invariant
            i <= v@.len(),
            leading_count(v@, c) == i + leading_count(v@.subrange(i as int, v@.len() as int), c),
        decreases v@.len() - i,
    {
        proof {
            let t = v@.subrange(i as int, v@.len() as int);
            assert(t.subrange(1, t.len() as int) =~= v@.subrange(i + 1, v@.len() as int));
        }
        i += 1;
    }
    i
}

/// The text without the trailing characters that are `c`.
fn strip_end(v: &[char], c: char) -> (r: Vec<char>)
    ensures
        r@ == trim_end_char(v@, c),
{
    let mut n: usize = v.len();
    proof {
        assert(v@.take(v@.len() as int) =~= v@);
    }
    while n > 0 && v[n - 1] == c
        invariant
            n <= v@.len(),
            trim_end_char(v@, c) == trim_end_char(v@.take(n as int), c),
        decreases n,
    {
        proof {
            assert(v@.take(n as int).drop_last() =~= v@.take(n - 1));
        }
        n -= 1;
    }
    text::slice_of(v, 0, n)
}

/// Whether `h` is the heading that a specification speaks of.
pub open spec fn heading_view(h: Option<(u8, String)>) -> Option<(u8, Seq<char>)> {
    match h {
        Some((d, s)) => Some((d, s@)),
        None => None,
    }
}

/// The depth and text of an ATX heading line.
fn heading_of(line: &[char]) -> (r: Option<(u8, String)>)
    ensures
        heading_view(r) == heading_spec(line@),
{
    let t = text::trim_start(line);
    let n = count_leading(&t, '#');
    if n == 0 || n > 6 {
        return None;
    }
    if n < t.len() && t[n] != ' ' {
        return None;
    }
    let rest = text::slice_of(&t, n, t.len());
    let inner = text::trim(&rest);
    let open = strip_end(&inner, '#');
    let label = text::trim(&open);
    Some((n as u8, text::string_of(&label)))
}

/// Parse an ATX heading line. Returns its depth and text if it is a heading.
pub fn parse_atx_heading(line: &str) -> (r: Option<(u8, String)>)
    ensures
        heading_view(r) == heading_spec(line@),
{
    heading_of(&text::chars_of(line))
}

// ── Lines ───────────────────────────────────────────────────────────────────

/// The lines of a text with the byte offset at which each starts.
pub open spec fn line_positions_spec(s: Seq<char>) -> Seq<(int, Seq<char>)> {
    let p = text::pieces(s, '\n');
    Seq::new(p.len(), |k: int| (text::byte_offset(s, p[k].0) as int, s.subrange(p[k].0, p[k].1)))
}

/// The lines of a text with the byte offset at which each starts.
pub fn line_positions(s: &str) -> (r: Vec<(usize, String)>)
    ensures
        r@.len() == line_positions_spec(s@).len(),
        forall|k: int|
            0 <= k < r@.len() ==> (#[trigger] r@[k]).0 == line_positions_spec(s@)[k].0 && r@[k].1@
                == line_positions_spec(s@)[k].1,
{
    let v = text::chars_of(s);
    let _total = text::checked_byte_len(s);
    let offs = text::byte_offsets(&v);
    let lines = text::split_ranges(&v, '\n');
    let ghost p = text::pieces(s@, '\n');
    let mut out: Vec<(usize, String)> = Vec::new();
    let mut k: usize = 0;
    while k < lines.len()
        invariant
            v@ == s@,
            k <= lines@.len(),
            text::ranges_view(lines@) == p,
            p == text::pieces(s@, '\n'),
            offs@.len() == v@.len() + 1,
            forall|i: int| 0 <= i <= v@.len() ==> #[trigger] offs@[i] == text::byte_offset(v@, i),
            forall|j: int|
                0 <= j < lines@.len() ==> (#[trigger] lines@[j]).0 <= lines@[j].1 <= v@.len(),
            out@.len() == k,
            forall|j: int|
                0 <= j < k ==> (#[trigger] out@[j]).0 == text::byte_offset(s@, p[j].0) && out@[j].1@
                    == s@.subrange(p[j].0, p[j].1),
        decreases lines@.len() - k,
    {
        let (a, b) = lines[k];
        assert(p[k as int] == (a as int, b as int));
        out.push((offs[a], text::substring(&v, a, b)));
        k += 1;
    }
    out
}

/// The number of lines of a text. A final line break ends a line and starts none.
pub open spec fn line_count(s: Seq<char>) -> int {
    let p = text::pieces(s, '\n');
    if p.last().0 == p.last().1 {
        p.len() - 1
    } else {
        p.len() as int
    }
}

// ── Code blocks ─────────────────────────────────────────────────────────────

/// Whether a line opens or closes a fenced code block.
pub open spec fn is_fence(line: Seq<char>) -> bool {
    text::starts_with_spec(text::trim_spec(line), "```"@)
}

/// The fenced code blocks from line `k` on, where a block may be open since a position. A block
/// reaches from its opening line to the end of its closing line, or to the end of the text.
pub open spec fn fences_from(
    s: Seq<char>,
    lines: Seq<(int, int)>,
    k: int,
    open: Option<int>,
) -> Seq<(int, int)>
    decreases lines.len() - k,
{
    if k < 0 || k >= lines.len() {
        match open {
            Some(start) => seq![(start, s.len() as int)],
            None => Seq::empty(),
        }
    } else if is_fence(s.subrange(lines[k].0, lines[k].1)) {
        match open {
            Some(start) => seq![(start, lines[k].1)] + fences_from(s, lines, k + 1, None),
            None => fences_from(s, lines, k + 1, Some(lines[k].0)),
        }
    } else {
        fences_from(s, lines, k + 1, open)
    }
}

/// The fenced code blocks of a text, as ranges of positions.
pub open spec fn fences(s: Seq<char>) -> Seq<(int, int)> {
    fences_from(s, text::pieces(s, '\n'), 0, None)
}

/// Whether a position lies in one of the ranges.
pub open spec fn in_ranges(ranges: Seq<(int, int)>, i: int) -> bool {
    exists|k: int| 0 <= k < ranges.len() && (#[trigger] ranges[k]).0 <= i < ranges[k].1
}

/// Whether a line opens or closes a fenced code block.
fn fence_line(line: &[char]) -> (r: bool)
    ensures
        r == is_fence(line@),
{
    let t = text::trim(line);
    text::starts_with(&t, "```")
}

/// The fenced code blocks of a text, as ranges of positions.
fn fence_ranges(v: &[char]) -> (r: Vec<(usize, usize)>)
    ensures
        text::ranges_view(r@) == fences(v@),
        forall|k: int|
            0 <= k < r@.len() ==> (#[trigger] r@[k]).0 <= v@.len() && r@[k].1 <= v@.len(),
{
    let lines = text::split_ranges(v, '\n');
    let ghost p = text::pieces(v@, '\n');
    let mut out: Vec<(usize, usize)> = Vec::new();
    let mut open: Option<usize> = None;
    let mut k: usize = 0;
    let ghost mut gopen: Option<int> = None;
    proof {
        assert(text::ranges_view(out@) + fences(v@) =~= fences(v@));
    }
    while k < lines.len()
        invariant
            k <= lines@.len(),
            text::ranges_view(lines@) == p,
            p == text::pieces(v@, '\n'),
            forall|j: int|
                0 <= j < lines@.len() ==> (#[trigger] lines@[j]).0 <= lines@[j].1 <= v@.len(),
            forall|j: int|
                0 <= j < out@.len() ==> (#[trigger] out@[j]).0 <= v@.len() && out@[j].1 <= v@.len(),
            match open {
                Some(o) => gopen == Some(o as int) && o <= v@.len(),
                None => gopen is None,
            },
            text::ranges_view(out@) + fences_from(v@, p, k as int, gopen) == fences(v@),
        decreases lines@.len() - k,
    {
        let (a, b) = lines[k];
        assert(p[k as int] == (a as int, b as int));
        let line = text::slice_of(v, a, b);
        let ghost before = out@;
        if fence_line(&line) {
            match open {
                Some(start) => {
                    out.push((start, b));
                    proof {
                        assert(text::ranges_view(out@) + fences_from(v@, p, k + 1, None)
                            =~= text::ranges_view(before) + fences_from(v@, p, k as int, gopen));
                        gopen = None;
                    }
                    open = None;
                },
                None => {
                    open = Some(a);
                    proof {
                        gopen = Some(a as int);
                    }
                },
            }
        }
        k += 1;
    }
    match open {
        Some(start) => {
            let ghost before = out@;
            out.push((start, v.len()));
            proof {
                assert(text::ranges_view(out@) =~= text::ranges_view(before) + fences_from(
                    v@,
                    p,
                    k as int,
                    gopen,
                ));
            }
        },
        None => {
            proof {
                assert(text::ranges_view(out@) =~= text::ranges_view(out@) + fences_from(
                    v@,
                    p,
                    k as int,
                    gopen,
                ));
            }
        },
    }
    out
}

/// Whether a position lies in one of the ranges.
fn in_any(pos: usize, ranges: &Vec<(usize, usize)>) -> (r: bool)
    ensures
        r == in_ranges(text::ranges_view(ranges@), pos as int),
{
    let ghost all = text::ranges_view(ranges@);
    let mut k: usize = 0;
    while k < ranges.len()
        invariant
            k <= ranges@.len(),
            all == text::ranges_view(ranges@),
            forall|j: int| 0 <= j < k ==> !((#[trigger] all[j]).0 <= pos < all[j].1),
        decreases ranges@.len() - k,
    {
        let (a, b) = ranges[k];
        assert(all[k as int] == (a as int, b as int));
        if a <= pos && pos < b {
            return true;
        }
        k += 1;
    }
    false
}

/// Byte ranges as pairs of integers.
pub open spec fn byte_ranges(r: Seq<Range<usize>>) -> Seq<(int, int)> {
    Seq::new(r.len(), |k: int| (r[k].start as int, r[k].end as int))
}

/// Find byte ranges of fenced code blocks.
pub fn find_code_block_ranges(content: &str) -> (r: Vec<Range<usize>>)
    ensures
        byte_ranges(r@) == fences(content@).map_values(
            |f: (int, int)|
                (
                    text::byte_offset(content@, f.0) as int,
                    text::byte_offset(content@, f.1) as int,
                ),
        ),
{
    let v = text::chars_of(content);
    let _total = text::checked_byte_len(content);
    let offs = text::byte_offsets(&v);
    let code = fence_ranges(&v);
    let ghost all = fences(content@);
    let mut out: Vec<Range<usize>> = Vec::new();
    let mut k: usize = 0;
    while k < code.len()
        invariant
            v@ == content@,
            k <= code@.len(),
            all == fences(content@),
            text::ranges_view(code@) == all,
            forall|j: int|
                0 <= j < code@.len() ==> (#[trigger] code@[j]).0 <= v@.len() && code@[j].1
                    <= v@.len(),
            offs@.len() == v@.len() + 1,
            forall|i: int| 0 <= i <= v@.len() ==> #[trigger] offs@[i] == text::byte_offset(v@, i),
            out@.len() == k,
            forall|j: int|
                0 <= j < k ==> (#[trigger] out@[j]).start == text::byte_offset(content@, all[j].0)
                    && out@[j].end == text::byte_offset(content@, all[j].1),
        decreases code@.len() - k,
    {
        let (a, b) = code[k];
        assert(all[k as int] == (a as int, b as int));
        out.push(Range { start: offs[a], end: offs[b] });
        k += 1;
    }
    proof {
        assert(byte_ranges(out@) =~= all.map_values(
            |f: (int, int)|
                (
                    text::byte_offset(content@, f.0) as int,
                    text::byte_offset(content@, f.1) as int,
                ),
        ));
    }
    out
}

/// Check if a byte position falls inside any code block range.
pub fn is_in_code_block(pos: usize, ranges: &[Range<usize>]) -> (r: bool)
    ensures
        r == in_ranges(byte_ranges(ranges@), pos as int),
{
    let ghost all = byte_ranges(ranges@);
    let mut k: usize = 0;
    while k < ranges.len()
        invariant
            k <= ranges@.len(),
            all == byte_ranges(ranges@),
            forall|j: int| 0 <= j < k ==> !((#[trigger] all[j]).0 <= pos < all[j].1),
        decreases ranges@.len() - k,
    {
        assert(all[k as int] == (ranges@[k as int].start as int, ranges@[k as int].end as int));
        if ranges[k].start <= pos && pos < ranges[k].end {
            return true;
        }
        k += 1;
    }
    false
}

// ── Links ───────────────────────────────────────────────────────────────────

/// The link whose inner text is given: a target, then display text behind the first `|`.
pub open spec fn link_of(inner: Seq<char>, offset: int) -> LinkView {
    let p = text::next_sep(inner, '|', 0);
    LinkView {
        target: inner.subrange(0, p),
        display: if p < inner.len() {
            Some(inner.subrange(p + 1, inner.len() as int))
        } else {
            None
        },
        byte_offset: offset,
    }
}

/// The wikilinks from position `i` on, outside the code blocks `code`. A link reaches from `[[`
/// to the next `]]`; one without a target does not count.
pub open spec fn links_from(s: Seq<char>, code: Seq<(int, int)>, i: int) -> Seq<LinkView>
    decreases s.len() + 2 - i,
{
    if i < 0 || i >= s.len() {
        Seq::empty()
    } else if !text::occurs_at(s, "[["@, i) {
        links_from(s, code, i + 1)
    } else if in_ranges(code, i) {
        links_from(s, code, i + 2)
    } else {
        match text::find_spec(s, "]]"@, i + 2) {
            Some(c) => if i + 2 <= c < s.len() {
                let link = link_of(s.subrange(i + 2, c), text::byte_offset(s, i) as int);
                if link.target.len() > 0 {
                    seq![link] + links_from(s, code, c + 2)
                } else {
                    links_from(s, code, c + 2)
                }
            } else {
                Seq::empty()
            },
            None => links_from(s, code, i + 2),
        }
    }
}

/// The wikilinks of a text.
pub open spec fn links_spec(s: Seq<char>) -> Seq<LinkView> {
    links_from(s, fences(s), 0)
}

/// Extract `[[wikilinks]]` from content, skipping code blocks.
pub fn extract_links(content: &str) -> (r: Vec<LinkRef>)
    ensures
        types::views(r@) == links_spec(content@),
{
    let v = text::chars_of(content);
    let _total = text::checked_byte_len(content);
    let offs = text::byte_offsets(&v);
    let code_ranges = fence_ranges(&v);
    let ghost code = fences(content@);
    let open = text::chars_of("[[");
    proof {
        reveal_strlit("[[");
        reveal_strlit("]]");
    }
    let mut out: Vec<LinkRef> = Vec::new();
    let mut i: usize = 0;
    proof {
        assert(types::views(out@) + links_spec(content@) =~= links_spec(content@));
    }
    while i < v.len()
        invariant
            v@ == content@,
            i <= v@.len(),
            open@ == "[["@,
            open@.len() == 2,
            "]]"@.len() == 2,
            code == fences(content@),
            text::ranges_view(code_ranges@) == code,
            offs@.len() == v@.len() + 1,
            forall|j: int| 0 <= j <= v@.len() ==> #[trigger] offs@[j] == text::byte_offset(v@, j),
            types::views(out@) + links_from(v@, code, i as int) == links_spec(content@),
        decreases v@.len() - i,
    {
        if !text::stands_at(&v, &open, i) {
            i += 1;
        } else if in_any(i, &code_ranges) {
            i += 2;
        } else {
            match text::find(&v, "]]", i + 2) {
                Some(c) => {
                    let inner = text::slice_of(&v, i + 2, c);
                    let mut p: usize = 0;
                    while p < inner.len() && inner[p] != '|'
                        invariant
                            p <= inner@.len(),
                            text::next_sep(inner@, '|', p as int) == text::next_sep(inner@, '|', 0),
                        decreases inner@.len() - p,
                    {
                        p += 1;
                    }
                    assert(p == text::next_sep(inner@, '|', 0));
                    if p > 0 {
                        let display = if p < inner.len() {
                            Some(text::substring(&inner, p + 1, inner.len()))
                        } else {
                            None
                        };
                        let link = LinkRef {
                            target: text::substring(&inner, 0, p),
                            display,
                            byte_offset: offs[i],
                        };
                        let ghost before = out@;
                        proof {
                            assert(link@ == link_of(
                                v@.subrange(i + 2, c as int),
                                text::byte_offset(v@, i as int) as int,
                            ));
                        }
                        out.push(link);
                        proof {
                            assert(types::views(out@) + links_from(v@, code, c + 2)
                                =~= types::views(before) + links_from(v@, code, i as int));
                        }
                    }
                    i = c + 2;
                },
                None => {
                    i += 2;
                },
            }
        }
    }
    proof {
        assert(types::views(out@) =~= types::views(out@) + links_from(v@, code, i as int));
    }
    out
}

// ── Tags ────────────────────────────────────────────────────────────────────

/// Whether a character is ASCII white space.
pub open spec fn is_ascii_space(c: char) -> bool {
    c == ' ' || c == '\t' || c == '\n' || c == '\x0c' || c == '\r'
}

/// Whether a character is an ASCII letter.
pub open spec fn is_ascii_letter(c: char) -> bool {
    ('a' <= c && c <= 'z') || ('A' <= c && c <= 'Z')
}

/// Whether a character may stand in a tag: ASCII letter or digit, `-`, `_` or `/`.
pub open spec fn is_tag_char(c: char) -> bool {
    is_ascii_letter(c) || ('0' <= c && c <= '9') || c == '-' || c == '_' || c == '/'
}

/// The first position at or after `i`, and before `end`, that holds no tag character, or `end`.
pub open spec fn tag_end(s: Seq<char>, i: int, end: int) -> int
    decreases end - i,
{
    if i < end && 0 <= i < s.len() && is_tag_char(s[i]) {
        tag_end(s, i + 1, end)
    } else {
        i
    }
}

/// The tags of the line `from..end`, from position `i` on, added to those already found. A tag
/// is `#`, at the start of the line or behind white space and outside the code blocks `code`,
/// followed by a letter and further tag characters.
pub open spec fn line_tags(
    s: Seq<char>,
    code: Seq<(int, int)>,
    from: int,
    end: int,
    i: int,
    acc: Seq<Seq<char>>,
) -> Seq<Seq<char>>
    decreases end - i,
{
    if i < from || i >= end {
        acc
    } else if s[i] != '#' || in_ranges(code, i) || (i > from && !is_ascii_space(s[i - 1])) {
        line_tags(s, code, from, end, i + 1, acc)
    } else {
        let e = tag_end(s, i + 1, end);
        let tag = s.subrange(i + 1, e);
        if !(i < e <= end) {
            acc
        } else if e > i + 1 && is_ascii_letter(s[i + 1]) {
            line_tags(s, code, from, end, e, text::add_once(acc, tag))
        } else {
            line_tags(s, code, from, end, e, acc)
        }
    }
}

/// The tags from line `k` on, added to those already found. Heading lines hold no tags.
pub open spec fn lines_tags(
    s: Seq<char>,
    code: Seq<(int, int)>,
    lines: Seq<(int, int)>,
    k: int,
    acc: Seq<Seq<char>>,
) -> Seq<Seq<char>>
    decreases lines.len() - k,
{
    if k < 0 || k >= lines.len() {
        acc
    } else if heading_spec(s.subrange(lines[k].0, lines[k].1)) is Some {
        lines_tags(s, code, lines, k + 1, acc)
    } else {
        let next = line_tags(s, code, lines[k].0, lines[k].1, lines[k].0, acc);
        lines_tags(s, code, lines, k + 1, next)
    }
}

/// The inline tags of a text, each once, in order of first occurrence.
pub open spec fn inline_tags_spec(s: Seq<char>) -> Seq<Seq<char>> {
    lines_tags(s, fences(s), text::pieces(s, '\n'), 0, Seq::empty())
}

fn ascii_letter(c: char) -> (r: bool)
    ensures
        r == is_ascii_letter(c),
{
    ('a' <= c && c <= 'z') || ('A' <= c && c <= 'Z')
}

fn tag_char(c: char) -> (r: bool)
    ensures
        r == is_tag_char(c),
{
    ascii_letter(c) || ('0' <= c && c <= '9') || c == '-' || c == '_' || c == '/'
}

fn ascii_space(c: char) -> (r: bool)
    ensures
        r == is_ascii_space(c),
{
    c == ' ' || c == '\t' || c == '\n' || c == '\x0c' || c == '\r'
}

/// Adds the tags of the line `from..end` to `acc`.
fn collect_line_tags(
    v: &[char],
    code_ranges: &Vec<(usize, usize)>,
    from: usize,
    end: usize,
    acc: &mut Vec<String>,
)
    requires
        from <= end <= v@.len(),
    ensures
        final(acc).deep_view() == line_tags(
            v@,
            text::ranges_view(code_ranges@),
            from as int,
            end as int,
            from as int,
            old(acc).deep_view(),
        ),
{
    let ghost code = text::ranges_view(code_ranges@);
    let ghost goal = line_tags(v@, code, from as int, end as int, from as int, acc.deep_view());
    let mut i: usize = from;
    while i < end
        invariant
            from <= i <= end <= v@.len(),
            code == text::ranges_view(code_ranges@),
            goal == line_tags(v@, code, from as int, end as int, i as int, acc.deep_view()),
        decreases end - i,
    {
        if v[i] != '#' || in_any(i, code_ranges) || (i > from && !ascii_space(v[i - 1])) {
            i += 1;
        } else {
            let mut e: usize = i + 1;
            while e < end && tag_char(v[e])
                invariant
                    i + 1 <= e <= end <= v@.len(),
                    tag_end(v@, e as int, end as int) == tag_end(v@, i + 1, end as int),
                decreases end - e,
            {
                e += 1;
            }
            assert(e == tag_end(v@, i + 1, end as int));
            if e > i + 1 && ascii_letter(v[i + 1]) {
                let tag = text::substring(v, i + 1, e);
                text::push_once(acc, tag);
            }
            i = e;
        }
    }
}

/// Extract inline `#tag` patterns from content, skipping code blocks and headings.
pub fn extract_inline_tags(content: &str) -> (r: Vec<String>)
    ensures
        r.deep_view() == inline_tags_spec(content@),
{
    let v = text::chars_of(content);
    let code_ranges = fence_ranges(&v);
    let lines = text::split_ranges(&v, '\n');
    let ghost code = fences(content@);
    let ghost p = text::pieces(content@, '\n');
    let mut acc: Vec<String> = Vec::new();
    let mut k: usize = 0;
    proof {
        assert(acc.deep_view() =~= Seq::<Seq<char>>::empty());
    }
    while k < lines.len()
        invariant
            v@ == content@,
            k <= lines@.len(),
            code == fences(content@),
            text::ranges_view(code_ranges@) == code,
            p == text::pieces(content@, '\n'),
            text::ranges_view(lines@) == p,
            forall|j: int|
                0 <= j < lines@.len() ==> (#[trigger] lines@[j]).0 <= lines@[j].1 <= v@.len(),
            inline_tags_spec(content@) == lines_tags(v@, code, p, k as int, acc.deep_view()),
        decreases lines@.len() - k,
    {
        let (a, b) = lines[k];
        assert(p[k as int] == (a as int, b as int));
        let line = text::slice_of(&v, a, b);
        if heading_of(&line).is_none() {
            collect_line_tags(&v, &code_ranges, a, b, &mut acc);
        }
        k += 1;
    }
    acc
}

/// The ancestors of a hierarchical tag, and the tag, from piece `k` on, added to a list.
pub open spec fn add_prefixes(
    tag: Seq<char>,
    parts: Seq<(int, int)>,
    k: int,
    acc: Seq<Seq<char>>,
) -> Seq<Seq<char>>
    decreases parts.len() - k,
{
    if k < 0 || k >= parts.len() {
        acc
    } else {
        add_prefixes(tag, parts, k + 1, text::add_once(acc, tag.take(parts[k].1)))
    }
}

/// The tags from `j` on with their ancestors, added to a list.
pub open spec fn flatten_from(tags: Seq<Seq<char>>, j: int, acc: Seq<Seq<char>>) -> Seq<Seq<char>>
    decreases tags.len() - j,
{
    if j < 0 || j >= tags.len() {
        acc
    } else {
        flatten_from(tags, j + 1, add_prefixes(tags[j], text::pieces(tags[j], '/'), 0, acc))
    }
}

/// The tags with their ancestors, each once: `a/b/c` gives `a`, `a/b` and `a/b/c`.
pub open spec fn flatten_spec(tags: Seq<Seq<char>>) -> Seq<Seq<char>> {
    flatten_from(tags, 0, Seq::empty())
}

/// Flatten hierarchical tags into all prefix segments.
pub fn flatten_hierarchical_tags(tags: Vec<String>) -> (r: Vec<String>)
    ensures
        r.deep_view() == flatten_spec(tags.deep_view()),
{
    let ghost all = tags.deep_view();
    let mut acc: Vec<String> = Vec::new();
    let mut j: usize = 0;
    proof {
        assert(acc.deep_view() =~= Seq::<Seq<char>>::empty());
    }
    while j < tags.len()
        invariant
            j <= tags@.len(),
            all == tags.deep_view(),
            flatten_spec(all) == flatten_from(all, j as int, acc.deep_view()),
        decreases tags@.len() - j,
    {
        let v = text::chars_of(tags[j].as_str());
        assert(all[j as int] == v@);
        let parts = text::split_ranges(&v, '/');
        let ghost p = text::pieces(v@, '/');
        let ghost goal = add_prefixes(v@, p, 0, acc.deep_view());
        let mut k: usize = 0;
        while k < parts.len()
            invariant
                k <= parts@.len(),
                text::ranges_view(parts@) == p,
                forall|i: int|
                    0 <= i < parts@.len() ==> (#[trigger] parts@[i]).0 <= parts@[i].1 <= v@.len(),
                goal == add_prefixes(v@, p, k as int, acc.deep_view()),
            decreases parts@.len() - k,
        {
            let (a, b) = parts[k];
            assert(p[k as int] == (a as int, b as int));
            let prefix = text::substring(&v, 0, b);
            text::push_once(&mut acc, prefix);
            k += 1;
        }
        j += 1;
    }
    acc
}

proof fn lemma_add_prefixes(tag: Seq<char>, parts: Seq<(int, int)>, k: int, acc: Seq<Seq<char>>)
    requires
        0 <= k <= parts.len(),
    ensures
        acc.no_duplicates() ==> add_prefixes(tag, parts, k, acc).no_duplicates(),
        forall|y: Seq<char>|
            #[trigger] acc.contains(y) ==> add_prefixes(tag, parts, k, acc).contains(y),
        forall|m: int|
            k <= m < parts.len() ==> add_prefixes(tag, parts, k, acc).contains(
                tag.take((#[trigger] parts[m]).1),
            ),
    decreases parts.len() - k,
{
    if k < parts.len() {
        let next = text::add_once(acc, tag.take(parts[k].1));
        text::lemma_add_once(acc, tag.take(parts[k].1));
        lemma_add_prefixes(tag, parts, k + 1, next);
    }
}

proof fn lemma_flatten_from(tags: Seq<Seq<char>>, j: int, acc: Seq<Seq<char>>)
    requires
        0 <= j <= tags.len(),
    ensures
        acc.no_duplicates() ==> flatten_from(tags, j, acc).no_duplicates(),
        forall|y: Seq<char>| #[trigger] acc.contains(y) ==> flatten_from(tags, j, acc).contains(y),
        forall|m: int, k: int|
            #![trigger text::pieces(tags[m], '/')[k]]
            j <= m < tags.len() && 0 <= k < text::pieces(tags[m], '/').len() ==> flatten_from(
                tags,
                j,
                acc,
            ).contains(tags[m].take(text::pieces(tags[m], '/')[k].1)),
    decreases tags.len() - j,
{
    if j < tags.len() {
        let parts = text::pieces(tags[j], '/');
        let next = add_prefixes(tags[j], parts, 0, acc);
        lemma_add_prefixes(tags[j], parts, 0, acc);
        lemma_flatten_from(tags, j + 1, next);
        assert forall|m: int, k: int|
            #![trigger text::pieces(tags[m], '/')[k]]
            j <= m < tags.len() && 0 <= k < text::pieces(tags[m], '/').len() implies flatten_from(
            tags,
            j,
            acc,
        ).contains(tags[m].take(text::pieces(tags[m], '/')[k].1)) by {
            if m == j {
                assert(next.contains(tags[j].take(parts[k].1)));
            }
        }
    }
}

/// Flattening yields each tag once, keeps every tag, and is closed under taking the part of a
/// tag before one of its slashes.
pub proof fn law_flatten_closed(tags: Seq<Seq<char>>)
    ensures
        flatten_spec(tags).no_duplicates(),
        forall|m: int|
            0 <= m < tags.len() ==> flatten_spec(tags).contains(#[trigger] tags[m]),
        forall|m: int, k: int|
            #![trigger tags[m], tags[m][k]]
            0 <= m < tags.len() && 0 <= k < tags[m].len() && tags[m][k] == '/' ==> flatten_spec(
                tags,
            ).contains(tags[m].take(k)),
{
    lemma_flatten_from(tags, 0, Seq::empty());
    assert forall|m: int| 0 <= m < tags.len() implies flatten_spec(tags).contains(
        #[trigger] tags[m],
    ) by {
        let p = text::pieces(tags[m], '/');
        text::lemma_pieces_from(tags[m], '/', 0);
        assert(p[p.len() - 1] == p.last());
        assert(tags[m].take(p[p.len() - 1].1) =~= tags[m]);
    }
    assert forall|m: int, k: int|
        #![trigger tags[m], tags[m][k]]
        0 <= m < tags.len() && 0 <= k < tags[m].len() && tags[m][k] == '/' implies flatten_spec(
        tags,
    ).contains(tags[m].take(k)) by {
        let i = lemma_sep_ends_piece(tags[m], '/', 0, k);
        assert(text::pieces(tags[m], '/')[i].1 == k);
    }
}

/// Whether each tag occurs once and stands behind its ancestors.
spec fn is_flat(tags: Seq<Seq<char>>) -> bool {
    &&& tags.no_duplicates()
    &&& forall|m: int, k: int|
        #![trigger tags[m], tags[m][k]]
        0 <= m < tags.len() && 0 <= k < tags[m].len() && tags[m][k] == '/' ==> tags.take(
            m,
        ).contains(tags[m].take(k))
}

proof fn lemma_piece_ends(s: Seq<char>, sep: char, a: int, b: int)
    requires
        0 <= a <= b < text::pieces(s, sep).len(),
    ensures
        text::pieces(s, sep)[a].1 <= text::pieces(s, sep)[b].1,
    decreases b - a,
{
    text::lemma_pieces_from(s, sep, 0);
    if a < b {
        lemma_piece_ends(s, sep, a, b - 1);
        let p = text::pieces(s, sep);
        assert(p[b - 1 + 1].0 == p[b - 1].1 + 1);
        assert(p[b].0 <= p[b].1);
    }
}

proof fn lemma_push_keeps_flat(acc: Seq<Seq<char>>, x: Seq<char>)
    requires
        is_flat(acc),
        !acc.contains(x),
        forall|k: int| 0 <= k < x.len() && #[trigger] x[k] == '/' ==> acc.contains(x.take(k)),
    ensures
        is_flat(acc.push(x)),
{
    let next = acc.push(x);
    assert(next.no_duplicates()) by {
        assert forall|i: int, j: int| 0 <= i < next.len() && 0 <= j < next.len() && i != j implies next[i]
            != next[j] by {
            if i == acc.len() {
                assert(acc.contains(next[j]));
            }
            if j == acc.len() {
                assert(acc.contains(next[i]));
            }
        }
    }
    assert forall|m: int, k: int|
        #![trigger next[m], next[m][k]]
        0 <= m < next.len() && 0 <= k < next[m].len() && next[m][k] == '/' implies next.take(
        m,
    ).contains(next[m].take(k)) by {
        if m < acc.len() {
            assert(acc[m] == next[m]);
            assert(next.take(m) =~= acc.take(m));
        } else {
            assert(next.take(m) =~= acc);
            assert(x[k] == '/');
        }
    }
}

proof fn lemma_prefixes_keep_flat(tag: Seq<char>, k: int, acc: Seq<Seq<char>>)
    requires
        is_flat(acc),
        0 <= k <= text::pieces(tag, '/').len(),
        forall|i: int|
            0 <= i < k ==> acc.contains(tag.take((#[trigger] text::pieces(tag, '/')[i]).1)),
    ensures
        is_flat(add_prefixes(tag, text::pieces(tag, '/'), k, acc)),
    decreases text::pieces(tag, '/').len() - k,
{
    let parts = text::pieces(tag, '/');
    if k < parts.len() {
        text::lemma_pieces_from(tag, '/', 0);
        let x = tag.take(parts[k].1);
        let next = text::add_once(acc, x);
        text::lemma_add_once(acc, x);
        if !acc.contains(x) {
            assert forall|q: int| 0 <= q < x.len() && #[trigger] x[q] == '/' implies acc.contains(
                x.take(q),
            ) by {
                assert(tag[q] == '/');
                let i = lemma_sep_ends_piece(tag, '/', 0, q);
                if i >= k {
                    lemma_piece_ends(tag, '/', k, i);
                }
                assert(acc.contains(tag.take(parts[i].1)));
                assert(x.take(q) =~= tag.take(q));
            }
            lemma_push_keeps_flat(acc, x);
        }
        lemma_prefixes_keep_flat(tag, k + 1, next);
    }
}

proof fn lemma_flatten_is_flat(tags: Seq<Seq<char>>, j: int, acc: Seq<Seq<char>>)
    requires
        0 <= j <= tags.len(),
        is_flat(acc),
    ensures
        is_flat(flatten_from(tags, j, acc)),
    decreases tags.len() - j,
{
    if j < tags.len() {
        lemma_prefixes_keep_flat(tags[j], 0, acc);
        lemma_flatten_is_flat(
            tags,
            j + 1,
            add_prefixes(tags[j], text::pieces(tags[j], '/'), 0, acc),
        );
    }
}

/// Where its ancestors are there, a tag alone is added.
proof fn lemma_only_tag_added(tag: Seq<char>, k: int, acc: Seq<Seq<char>>)
    requires
        0 <= k < text::pieces(tag, '/').len(),
        !acc.contains(tag),
        forall|q: int| 0 <= q < tag.len() && #[trigger] tag[q] == '/' ==> acc.contains(tag.take(q)),
    ensures
        add_prefixes(tag, text::pieces(tag, '/'), k, acc) == acc.push(tag),
    decreases text::pieces(tag, '/').len() - k,
{
    let parts = text::pieces(tag, '/');
    text::lemma_pieces_from(tag, '/', 0);
    if k < parts.len() - 1 {
        assert(tag[parts[k].1] == '/');
        lemma_only_tag_added(tag, k + 1, acc);
    } else {
        assert(parts[k] == parts.last());
        assert(tag.take(parts[k].1) =~= tag);
        assert(add_prefixes(tag, parts, k + 1, acc.push(tag)) == acc.push(tag));
    }
}

proof fn lemma_flat_stays(tags: Seq<Seq<char>>, j: int)
    requires
        is_flat(tags),
        0 <= j <= tags.len(),
    ensures
        flatten_from(tags, j, tags.take(j)) == tags,
    decreases tags.len() - j,
{
    if j < tags.len() {
        let acc = tags.take(j);
        let tag = tags[j];
        text::lemma_pieces_from(tag, '/', 0);
        assert(!acc.contains(tag)) by {
            if acc.contains(tag) {
                let i = acc.index_of(tag);
                assert(tags[i] == tags[j]);
            }
        }
        assert forall|q: int| 0 <= q < tag.len() && #[trigger] tag[q] == '/' implies acc.contains(
            tag.take(q),
        ) by {
            assert(tags[j][q] == '/');
        }
        lemma_only_tag_added(tag, 0, acc);
        assert(acc.push(tag) =~= tags.take(j + 1));
        lemma_flat_stays(tags, j + 1);
    } else {
        assert(tags.take(j) =~= tags);
    }
}

/// Flattening tags twice changes nothing, neither the tags nor their order.
pub proof fn law_flatten_twice(tags: Seq<Seq<char>>)
    ensures
        flatten_spec(flatten_spec(tags)) == flatten_spec(tags),
{
    lemma_flatten_is_flat(tags, 0, Seq::empty());
    let r = flatten_spec(tags);
    lemma_flat_stays(r, 0);
    assert(r.take(0) =~= Seq::<Seq<char>>::empty());
}

/// Every separator ends a piece.
proof fn lemma_sep_ends_piece(s: Seq<char>, sep: char, from: int, k: int) -> (i: int)
    requires
        0 <= from <= k < s.len(),
        s[k] == sep,
    ensures
        0 <= i < text::pieces_from(s, sep, from).len(),
        text::pieces_from(s, sep, from)[i].1 == k,
    decreases k - from,
{
    text::lemma_next_sep(s, sep, from);
    let e = text::next_sep(s, sep, from);
    assert(e <= k);
    if e == k {
        0
    } else {
        let i = lemma_sep_ends_piece(s, sep, e + 1, k);
        assert(text::pieces_from(s, sep, from)[i + 1] == text::pieces_from(s, sep, e + 1)[i]);
        i + 1
    }
}

// ── Chunks ──────────────────────────────────────────────────────────────────

/// The headings from line `k` on: position, depth and text.
pub open spec fn headings_from(s: Seq<char>, lines: Seq<(int, int)>, k: int) -> Seq<
    (int, u8, Seq<char>),
>
    decreases lines.len() - k,
{
    if k < 0 || k >= lines.len() {
        Seq::empty()
    } else {
        match heading_spec(s.subrange(lines[k].0, lines[k].1)) {
            Some((d, t)) => seq![(lines[k].0, d, t)] + headings_from(s, lines, k + 1),
            None => headings_from(s, lines, k + 1),
        }
    }
}

/// The headings at or behind position `body`.
pub open spec fn headings(s: Seq<char>, body: int) -> Seq<(int, u8, Seq<char>)> {
    headings_from(s, text::pieces_from(s, '\n', body), 0)
}

/// A chunk without a label that covers the positions `from..to`.
pub open spec fn plain_chunk(s: Seq<char>, kind: ChunkKind, from: int, to: int) -> ChunkView {
    ChunkView {
        start: text::byte_offset(s, from) as int,
        end: text::byte_offset(s, to) as int,
        kind,
        label: None,
        depth: 0,
        metadata: types::no_metadata(),
    }
}

/// The section that a heading starts: it reaches to the next heading, or to the end.
pub open spec fn section(s: Seq<char>, hs: Seq<(int, u8, Seq<char>)>, i: int) -> ChunkView {
    ChunkView {
        start: text::byte_offset(s, hs[i].0) as int,
        end: text::byte_offset(
            s,
            if i + 1 < hs.len() {
                hs[i + 1].0
            } else {
                s.len() as int
            },
        ) as int,
        kind: ChunkKind::Section,
        label: Some(hs[i].2),
        depth: hs[i].1,
        metadata: types::no_metadata(),
    }
}

/// The text before the first heading, as a chunk, unless it is blank.
pub open spec fn lead_chunks(s: Seq<char>, body: int, first: int) -> Seq<ChunkView> {
    if first > body && text::trim_spec(s.subrange(body, first)).len() > 0 {
        seq![plain_chunk(s, ChunkKind::Body, body, first)]
    } else {
        Seq::empty()
    }
}

/// The chunks at or behind position `body`: one section for each heading, or a single body, or
/// nothing where no text is left.
pub open spec fn body_chunks(s: Seq<char>, body: int) -> Seq<ChunkView> {
    let hs = headings(s, body);
    if hs.len() == 0 {
        if body < s.len() {
            seq![plain_chunk(s, ChunkKind::Body, body, s.len() as int)]
        } else {
            Seq::empty()
        }
    } else {
        lead_chunks(s, body, hs[0].0) + Seq::new(hs.len(), |i: int| section(s, hs, i))
    }
}

/// The chunk that a frontmatter block is.
pub open spec fn frontmatter_chunk(start: int, end: int) -> ChunkView {
    ChunkView {
        start,
        end,
        kind: ChunkKind::Frontmatter,
        label: None,
        depth: 0,
        metadata: types::no_metadata(),
    }
}

/// The position that has a byte offset.
pub open spec fn position_at(s: Seq<char>, offset: int) -> int {
    choose|p: int| 0 <= p <= s.len() && #[trigger] text::byte_offset(s, p) == offset
}

/// Whether a byte offset is that of some position.
pub open spec fn is_boundary(s: Seq<char>, offset: int) -> bool {
    exists|p: int| 0 <= p <= s.len() && #[trigger] text::byte_offset(s, p) == offset
}

/// The chunks of a text whose frontmatter block, if any, has a byte range. A text without characters
/// and without frontmatter is an empty body.
pub open spec fn chunks_spec(s: Seq<char>, fm: Option<(int, int)>) -> Seq<ChunkView> {
    match fm {
        Some((start, end)) => seq![frontmatter_chunk(start, end)] + body_chunks(
            s,
            position_at(s, end),
        ),
        None => if s.len() == 0 {
            seq![plain_chunk(s, ChunkKind::Body, 0, 0)]
        } else {
            body_chunks(s, 0)
        },
    }
}

/// An optional byte range as a pair of integers.
pub open spec fn range_view(r: Option<&Range<usize>>) -> Option<(int, int)> {
    match r {
        Some(x) => Some((x.start as int, x.end as int)),
        None => None,
    }
}

/// Positions are determined by their byte offsets.
pub proof fn lemma_position_at(s: Seq<char>, p: int)
    requires
        0 <= p <= s.len(),
    ensures
        position_at(s, text::byte_offset(s, p) as int) == p,
        is_boundary(s, text::byte_offset(s, p) as int),
{
    let q = position_at(s, text::byte_offset(s, p) as int);
    if q < p {
        text::lemma_byte_offset_monotone(s, q, p);
    } else if p < q {
        text::lemma_byte_offset_monotone(s, p, q);
    }
}

/// The headings at or behind position `body`, as executable values.
fn collect_headings(v: &[char], body: usize) -> (r: Vec<(usize, u8, String)>)
    requires
        body <= v@.len(),
    ensures
        r@.len() == headings(v@, body as int).len(),
        forall|i: int|
            0 <= i < r@.len() ==> (#[trigger] r@[i]).0 == headings(v@, body as int)[i].0 && r@[i].1
                == headings(v@, body as int)[i].1 && r@[i].2@ == headings(v@, body as int)[i].2
                && body <= r@[i].0 <= v@.len(),
{
    let lines = text::split_ranges_from(v, '\n', body);
    let ghost p = text::pieces_from(v@, '\n', body as int);
    let ghost all = headings(v@, body as int);
    proof {
        text::lemma_pieces_from(v@, '\n', body as int);
    }
    let mut out: Vec<(usize, u8, String)> = Vec::new();
    let mut k: usize = 0;
    while k < lines.len()
        invariant
            body <= v@.len(),
            k <= lines@.len(),
            text::ranges_view(lines@) == p,
            p == text::pieces_from(v@, '\n', body as int),
            all == headings(v@, body as int),
            forall|j: int| 0 <= j < p.len() ==> body <= (#[trigger] p[j]).0,
            forall|j: int|
                0 <= j < lines@.len() ==> (#[trigger] lines@[j]).0 <= lines@[j].1 <= v@.len(),
            out@.len() + headings_from(v@, p, k as int).len() == all.len(),
            forall|i: int|
                0 <= i < headings_from(v@, p, k as int).len() ==> all[out@.len() + i]
                    == #[trigger] headings_from(v@, p, k as int)[i],
            forall|i: int|
                0 <= i < out@.len() ==> (#[trigger] out@[i]).0 == all[i].0 && out@[i].1 == all[i].1
                    && out@[i].2@ == all[i].2 && body <= out@[i].0 <= v@.len(),
        decreases lines@.len() - k,
    {
        let (a, b) = lines[k];
        assert(p[k as int] == (a as int, b as int));
        let line = text::slice_of(v, a, b);
        let ghost rest = headings_from(v@, p, k as int);
        let ghost tail = headings_from(v@, p, k + 1);
        match heading_of(&line) {
            Some((d, t)) => {
                proof {
                    assert(rest =~= seq![(a as int, d, t@)] + tail);
                    assert(all[out@.len() + 0int] == rest[0]);
                    assert forall|i: int| 0 <= i < tail.len() implies all[out@.len() + 1 + i]
                        == #[trigger] tail[i] by {
                        assert(rest[i + 1] == tail[i]);
                        assert(all[out@.len() + (i + 1)] == rest[i + 1]);
                    }
                }
                out.push((a, d, t));
            },
            None => {},
        }
        k += 1;
    }
    out
}

/// Extract chunks from content based on ATX headings. The byte range is that of a frontmatter
/// block, and ends at a character boundary.
pub fn extract_chunks(content: &str, fm_range: Option<&Range<usize>>) -> (r: Vec<Chunk>)
    requires
        fm_range matches Some(x) ==> is_boundary(content@, x.end as int),
    ensures
        types::views(r@) == chunks_spec(content@, range_view(fm_range)),
{
    let v = text::chars_of(content);
    let _total = text::checked_byte_len(content);
    let offs = text::byte_offsets(&v);
    let ghost s = content@;
    let mut chunks: Vec<Chunk> = Vec::new();
    let mut body: usize = 0;
    let ghost gbody = match fm_range {
        Some(x) => position_at(s, x.end as int),
        None => 0,
    };
    match fm_range {
        Some(range) => {
            chunks.push(
                Chunk {
                    byte_range: Range { start: range.start, end: range.end },
                    kind: ChunkKind::Frontmatter,
                    label: None,
                    depth: 0,
                    metadata: ChunkMetadata::default(),
                },
            );
            while body < v.len() && offs[body] != range.end
                invariant
                    v@ == s,
                    0 <= gbody <= s.len(),
                    text::byte_offset(s, gbody) == range.end,
                    body <= gbody,
                    offs@.len() == v@.len() + 1,
                    forall|i: int|
                        0 <= i <= v@.len() ==> #[trigger] offs@[i] == text::byte_offset(v@, i),
                decreases v@.len() - body,
            {
                body += 1;
            }
            proof {
                if body < gbody {
                    text::lemma_byte_offset_monotone(s, body as int, gbody);
                }
            }
        },
        None => {},
    }
    let ghost head = types::views(chunks@);
    proof {
        assert(body == gbody);
        assert(head =~= match fm_range {
            Some(x) => seq![frontmatter_chunk(x.start as int, x.end as int)],
            None => Seq::empty(),
        });
        assert(s.take(s.len() as int) =~= s);
    }
    let hs = collect_headings(&v, body);
    let ghost gs = headings(s, body as int);
    if hs.len() == 0 {
        if body < v.len() || fm_range.is_none() {
            chunks.push(
                Chunk {
                    byte_range: Range { start: offs[body], end: offs[v.len()] },
                    kind: ChunkKind::Body,
                    label: None,
                    depth: 0,
                    metadata: ChunkMetadata::default(),
                },
            );
        }
        proof {
            if fm_range is None && s.len() == 0 {
                assert(types::views(chunks@) =~= seq![plain_chunk(s, ChunkKind::Body, 0, 0)]);
            } else {
                assert(types::views(chunks@) =~= head + body_chunks(s, body as int));
            }
        }
    } else {
        let first = hs[0].0;
        proof {
            lemma_headings_bounds(s, body as int, 0);
        }
        if first > body {
            let lead = text::slice_of(&v, body, first);
            if text::trim(&lead).len() > 0 {
                chunks.push(
                    Chunk {
                        byte_range: Range { start: offs[body], end: offs[first] },
                        kind: ChunkKind::Body,
                        label: None,
                        depth: 0,
                        metadata: ChunkMetadata::default(),
                    },
                );
            }
        }
        let ghost lead_views = types::views(chunks@);
        let ghost sections = Seq::new(gs.len(), |i: int| section(s, gs, i));
        proof {
            assert(lead_views =~= head + lead_chunks(s, body as int, gs[0].0));
            assert(lead_views =~= lead_views + sections.take(0));
        }
        let mut i: usize = 0;
        while i < hs.len()
            invariant
                v@ == s,
                i <= hs@.len(),
                hs@.len() == gs.len(),
                sections == Seq::new(gs.len(), |i: int| section(s, gs, i)),
                forall|j: int|
                    0 <= j < hs@.len() ==> (#[trigger] hs@[j]).0 == gs[j].0 && hs@[j].1 == gs[j].1
                        && hs@[j].2@ == gs[j].2 && hs@[j].0 <= v@.len(),
                offs@.len() == v@.len() + 1,
                forall|j: int|
                    0 <= j <= v@.len() ==> #[trigger] offs@[j] == text::byte_offset(v@, j),
                types::views(chunks@) == lead_views + sections.take(i as int),
            decreases hs@.len() - i,
        {
            let end = if i + 1 < hs.len() {
                offs[hs[i + 1].0]
            } else {
                offs[v.len()]
            };
            let chunk = Chunk {
                byte_range: Range { start: offs[hs[i].0], end },
                kind: ChunkKind::Section,
                label: Some(hs[i].2.clone()),
                depth: hs[i].1,
                metadata: ChunkMetadata::default(),
            };
            proof {
                assert(chunk@ == section(s, gs, i as int));
                assert(sections.take(i + 1) =~= sections.take(i as int).push(chunk@));
                assert(lead_views + sections.take(i + 1) =~= (lead_views + sections.take(
                    i as int,
                )).push(chunk@));
            }
            chunks.push(chunk);
            i += 1;
        }
        proof {
            assert(sections.take(i as int) =~= sections);
            assert(types::views(chunks@) =~= head + body_chunks(s, body as int));
        }
    }
    proof {
        if fm_range is None {
            assert(head + body_chunks(s, 0) =~= body_chunks(s, 0));
        }
    }
    chunks
}

/// A heading is not an empty line.
proof fn lemma_heading_has_text(line: Seq<char>)
    requires
        heading_spec(line) is Some,
    ensures
        line.len() > 0,
{
}

/// The positions of headings ascend.
proof fn lemma_headings_ascend(s: Seq<char>, lines: Seq<(int, int)>, k: int)
    requires
        0 <= k <= lines.len(),
        forall|j: int|
            #![trigger lines[j]]
            0 <= j < lines.len() ==> 0 <= lines[j].0 <= lines[j].1 <= s.len(),
        forall|i: int, j: int|
            0 <= i < j < lines.len() ==> (#[trigger] lines[i]).0 < (#[trigger] lines[j]).0,
    ensures
        forall|i: int|
            #![trigger headings_from(s, lines, k)[i]]
            0 <= i < headings_from(s, lines, k).len() ==> 0 <= headings_from(s, lines, k)[i].0
                < s.len() && (k < lines.len() ==> lines[k].0 <= headings_from(s, lines, k)[i].0),
        forall|i: int, j: int|
            0 <= i < j < headings_from(s, lines, k).len() ==> (#[trigger] headings_from(
                s,
                lines,
                k,
            )[i]).0 < (#[trigger] headings_from(s, lines, k)[j]).0,
    decreases lines.len() - k,
{
    if k < lines.len() {
        lemma_headings_ascend(s, lines, k + 1);
        let tail = headings_from(s, lines, k + 1);
        let all = headings_from(s, lines, k);
        assert forall|i: int| 0 <= i < tail.len() implies lines[k].0 < (#[trigger] tail[i]).0 by {
            assert(k + 1 < lines.len());
            assert(lines[k].0 < lines[k + 1].0);
        }
        if heading_spec(s.subrange(lines[k].0, lines[k].1)) is Some {
            lemma_heading_has_text(s.subrange(lines[k].0, lines[k].1));
            assert forall|i: int| 1 <= i < all.len() implies #[trigger] all[i] == tail[i - 1] by {}
        }
    }
}

/// Headings lie in the body, one behind the other.
proof fn lemma_headings_bounds(s: Seq<char>, body: int, i: int)
    requires
        0 <= body <= s.len(),
        0 <= i < headings(s, body).len(),
    ensures
        body <= headings(s, body)[i].0 < s.len(),
        i + 1 < headings(s, body).len() ==> headings(s, body)[i].0 < headings(s, body)[i + 1].0
            <= s.len(),
{
    let lines = text::pieces_from(s, '\n', body);
    text::lemma_pieces_from(s, '\n', body);
    lemma_lines_ascend(s, body);
    lemma_headings_ascend(s, lines, 0);
    let hs = headings(s, body);
    assert(hs[i].0 >= lines[0].0);
    if i + 1 < hs.len() {
        assert(hs[i].0 < hs[i + 1].0);
    }
}

/// The chunks behind the frontmatter are not empty, follow each other without gaps and end with the
/// text. There are none where the frontmatter ends with the text, and only there. They start with the
/// body, unless blank text alone stands before the first heading; then they start
/// with that heading.
pub proof fn law_chunks_contiguous(s: Seq<char>, body: int)
    requires
        0 <= body <= s.len(),
    ensures
        ({
            let c = body_chunks(s, body);
            let hs = headings(s, body);
            &&& forall|i: int|
                0 <= i < c.len() ==> 0 <= (#[trigger] c[i]).start < c[i].end <= text::byte_len(s)
            &&& forall|i: int, j: int|
                0 <= i && j == i + 1 && j < c.len() ==> (#[trigger] c[i]).end == (
                #[trigger] c[j]).start
            &&& c.len() > 0 ==> c.last().end == text::byte_len(s)
            &&& c.len() == 0 <==> body == s.len()
            &&& c.len() > 0 ==> c[0].start == text::byte_offset(
                s,
                if hs.len() > 0 && text::trim_spec(s.subrange(body, hs[0].0)).len() == 0 {
                    hs[0].0
                } else {
                    body
                },
            )
        }),
{
    let hs = headings(s, body);
    let c = body_chunks(s, body);
    assert(s.take(s.len() as int) =~= s);
    if hs.len() > 0 {
        lemma_headings_bounds(s, body, 0);
    }
    let lead = if hs.len() > 0 {
        lead_chunks(s, body, hs[0].0)
    } else {
        Seq::empty()
    };
    if hs.len() > 0 {
        assert(s.subrange(body, body) =~= Seq::<char>::empty());
        assert forall|i: int| 0 <= i < hs.len() implies #[trigger] c[lead.len() + i] == section(
            s,
            hs,
            i,
        ) by {}
        assert(c.last() == c[lead.len() + (hs.len() - 1)]);
        if lead.len() == 0 {
            assert(c[0] == c[lead.len() + 0int]);
        }
    }
    assert forall|i: int| 0 <= i < c.len() implies 0 <= (#[trigger] c[i]).start < c[i].end
        <= text::byte_len(s) by {
        if hs.len() == 0 {
            text::lemma_byte_offset_monotone(s, body, s.len() as int);
        } else if i < lead.len() {
            text::lemma_byte_offset_monotone(s, body, hs[0].0);
        } else {
            let j = i - lead.len();
            assert(c[lead.len() + j] == section(s, hs, j));
            let to = if j + 1 < hs.len() {
                hs[j + 1].0
            } else {
                s.len() as int
            };
            lemma_headings_bounds(s, body, j);
            text::lemma_byte_offset_monotone(s, hs[j].0, to);
        }
    }
    assert forall|i: int, k: int| 0 <= i && k == i + 1 && k < c.len() implies (
    #[trigger] c[i]).end == (#[trigger] c[k]).start by {
        if i < lead.len() {
            assert(c[i + 1] == c[lead.len() + 0int]);
        } else {
            let j = i - lead.len();
            assert(c[lead.len() + j] == section(s, hs, j));
            assert(c[lead.len() + (j + 1)] == section(s, hs, j + 1));
        }
    }
}

/// The starts of lines ascend.
proof fn lemma_lines_ascend(s: Seq<char>, body: int)
    requires
        0 <= body <= s.len(),
    ensures
        forall|i: int, j: int|
            0 <= i < j < text::pieces_from(s, '\n', body).len() ==> (#[trigger] text::pieces_from(
                s,
                '\n',
                body,
            )[i]).0 < (#[trigger] text::pieces_from(s, '\n', body)[j]).0,
    decreases s.len() - body,
{
    text::lemma_next_sep(s, '\n', body);
    let e = text::next_sep(s, '\n', body);
    if e < s.len() {
        lemma_lines_ascend(s, e + 1);
        text::lemma_pieces_from(s, '\n', e + 1);
        let tail = text::pieces_from(s, '\n', e + 1);
        let all = text::pieces_from(s, '\n', body);
        assert forall|i: int, j: int| 0 <= i < j < all.len() implies (#[trigger] all[i]).0 < (
        #[trigger] all[j]).0 by {
            assert(all[j] == tail[j - 1]);
            if i > 0 {
                assert(all[i] == tail[i - 1]);
            }
        }
    }
}

// ── Frontmatter ─────────────────────────────────────────────────────────────

/// The positions of a frontmatter block: where it starts, where its closing `---` starts, and
/// where it ends. It stands at the start of the text, but for white space, and its end includes
/// one line break.
pub open spec fn frontmatter_bounds(s: Seq<char>) -> Option<(int, int, int)> {
    let start = text::leading_space(s);
    if !text::occurs_at(s, "---"@, start) {
        None
    } else {
        match text::find_spec(s, "\n---"@, start + 3) {
            Some(q) => {
                let close = q + 1;
                let e = close + 3;
                let end = if text::occurs_at(s, "\n"@, e) {
                    e + 1
                } else if text::occurs_at(s, "\r\n"@, e) {
                    e + 2
                } else {
                    e
                };
                Some((start, close, end))
            },
            None => None,
        }
    }
}

/// The YAML text of a frontmatter block.
pub open spec fn frontmatter_yaml(s: Seq<char>) -> Seq<char> {
    match frontmatter_bounds(s) {
        Some((start, close, _)) => s.subrange(start + 3, close),
        None => Seq::empty(),
    }
}

/// The texts among YAML values.
pub open spec fn yaml_texts(q: Seq<YamlView>) -> Seq<Seq<char>>
    decreases q.len(),
{
    if q.len() == 0 {
        Seq::empty()
    } else {
        match q.last() {
            YamlView::Text(t) => yaml_texts(q.drop_last()).push(t),
            _ => yaml_texts(q.drop_last()),
        }
    }
}

/// The pieces between commas from piece `k` on, without white space around them and without
/// empty ones.
pub open spec fn comma_tags_from(t: Seq<char>, ps: Seq<(int, int)>, k: int) -> Seq<Seq<char>>
    decreases ps.len() - k,
{
    if k < 0 || k >= ps.len() {
        Seq::empty()
    } else {
        let tag = text::trim_spec(t.subrange(ps[k].0, ps[k].1));
        if tag.len() > 0 {
            seq![tag] + comma_tags_from(t, ps, k + 1)
        } else {
            comma_tags_from(t, ps, k + 1)
        }
    }
}

/// The tags that the value of a `tags` field lists.
pub open spec fn tags_of_value(v: YamlView) -> Seq<Seq<char>> {
    match v {
        YamlView::Sequence(q) => yaml_texts(q),
        YamlView::Text(t) => comma_tags_from(t, text::pieces(t, ','), 0),
        _ => Seq::empty(),
    }
}

/// The tags that the fields of a mapping list.
pub open spec fn tags_of_fields(m: Seq<(YamlView, YamlView)>) -> Seq<Seq<char>>
    decreases m.len(),
{
    if m.len() == 0 {
        Seq::empty()
    } else {
        let rest = tags_of_fields(m.drop_last());
        if m.last().0 == YamlView::Text("tags"@) {
            rest + tags_of_value(m.last().1)
        } else {
            rest
        }
    }
}

/// The fields of a mapping whose key is a string, as JSON.
pub open spec fn map_of_fields(m: Seq<(YamlView, YamlView)>) -> Map<Seq<char>, JsonView>
    decreases m.len(),
{
    if m.len() == 0 {
        Map::empty()
    } else {
        let rest = map_of_fields(m.drop_last());
        match m.last().0 {
            YamlView::Text(k) => rest.insert(k, json::json_of_yaml(m.last().1)),
            _ => rest,
        }
    }
}

/// The entries of a YAML document that is a mapping.
pub open spec fn entries_of(doc: YamlView) -> Seq<(YamlView, YamlView)> {
    match doc {
        YamlView::Mapping(m) => m,
        _ => Seq::empty(),
    }
}

/// Adds the pieces between commas to a list.
fn push_comma_tags(t: &str, tags: &mut Vec<String>)
    ensures
        final(tags).deep_view() == old(tags).deep_view() + comma_tags_from(
            t@,
            text::pieces(t@, ','),
            0,
        ),
{
    let v = text::chars_of(t);
    let ps = text::split_ranges(&v, ',');
    let ghost p = text::pieces(t@, ',');
    let ghost goal = tags.deep_view() + comma_tags_from(t@, p, 0);
    let mut k: usize = 0;
    while k < ps.len()
        invariant
            v@ == t@,
            k <= ps@.len(),
            text::ranges_view(ps@) == p,
            forall|j: int| 0 <= j < ps@.len() ==> (#[trigger] ps@[j]).0 <= ps@[j].1 <= v@.len(),
            goal == tags.deep_view() + comma_tags_from(t@, p, k as int),
        decreases ps@.len() - k,
    {
        let (a, b) = ps[k];
        assert(p[k as int] == (a as int, b as int));
        let piece = text::slice_of(&v, a, b);
        let tag = text::trim(&piece);
        if tag.len() > 0 {
            let ghost before = tags.deep_view();
            tags.push(text::string_of(&tag));
            proof {
                assert(tags.deep_view() =~= before.push(tag@));
                assert(tags.deep_view() + comma_tags_from(t@, p, k + 1) =~= before
                    + comma_tags_from(t@, p, k as int));
            }
        }
        k += 1;
    }
    proof {
        assert(tags.deep_view() + comma_tags_from(t@, p, k as int) =~= tags.deep_view());
    }
}

/// Adds the texts among YAML values to a list.
fn push_texts(q: &Vec<Yaml>, tags: &mut Vec<String>)
    ensures
        final(tags).deep_view() == old(tags).deep_view() + yaml_texts(
            Seq::new(q@.len(), |i: int| q@[i].model()),
        ),
{
    let ghost all = Seq::new(q@.len(), |i: int| q@[i].model());
    let ghost base = tags.deep_view();
    let mut i: usize = 0;
    proof {
        assert(base + yaml_texts(all.take(0)) =~= base);
    }
    while i < q.len()
        invariant
            i <= q@.len(),
            all == Seq::new(q@.len(), |i: int| q@[i].model()),
            tags.deep_view() == base + yaml_texts(all.take(i as int)),
        decreases q@.len() - i,
    {
        proof {
            assert(all.take(i + 1).drop_last() =~= all.take(i as int));
            assert(all.take(i + 1).last() == q@[i as int].model());
        }
        match &q[i] {
            Yaml::Text(t) => {
                let ghost before = tags.deep_view();
                tags.push(t.clone());
                proof {
                    assert(tags.deep_view() =~= before.push(t@));
                    assert(tags.deep_view() =~= base + yaml_texts(all.take(i + 1)));
                }
            },
            _ => {},
        }
        i += 1;
    }
    proof {
        assert(all.take(i as int) =~= all);
    }
}

/// The fields and tags of a YAML document that stands in a frontmatter block.
pub fn frontmatter_fields(doc: &Yaml) -> (r: (KeyMap<Json>, Vec<String>))
    ensures
        r.0.wf(),
        types::json_map(r.0@) == map_of_fields(entries_of(doc.model())),
        r.1.deep_view() == tags_of_fields(entries_of(doc.model())),
{
    let mut map: KeyMap<Json> = KeyMap::new();
    let mut tags: Vec<String> = Vec::new();
    let ghost all = entries_of(doc.model());
    proof {
        assert(tags.deep_view() =~= Seq::<Seq<char>>::empty());
        assert(types::json_map(map@) =~= Map::<Seq<char>, JsonView>::empty());
        assert(all.take(all.len() as int) =~= all);
    }
    match doc {
        Yaml::Mapping(m) => {
            let mut i: usize = 0;
            assert(all.len() == m@.len());
            while i < m.len()
                invariant
                    i <= m@.len(),
                    map.wf(),
                    doc == Yaml::Mapping(*m),
                    all == entries_of(doc.model()),
                    all.len() == m@.len(),
                    types::json_map(map@) == map_of_fields(all.take(i as int)),
                    tags.deep_view() == tags_of_fields(all.take(i as int)),
                decreases m@.len() - i,
            {
                proof {
                    assert(all.take(i + 1).drop_last() =~= all.take(i as int));
                    assert(all.take(i + 1).last() == (
                        m@[i as int].0.model(),
                        m@[i as int].1.model(),
                    ));
                }
                match &m[i].0 {
                    Yaml::Text(k) => {
                        if text::str_eq(k.as_str(), "tags") {
                            match &m[i].1 {
                                Yaml::Sequence(q) => {
                                    push_texts(q, &mut tags);
                                    proof {
                                        assert(m@[i as int].1.model()->Sequence_0 =~= Seq::new(
                                            q@.len(),
                                            |i: int| q@[i].model(),
                                        ));
                                    }
                                },
                                Yaml::Text(t) => {
                                    push_comma_tags(t.as_str(), &mut tags);
                                },
                                _ => {
                                    proof {
                                        assert(tags.deep_view() + Seq::<Seq<char>>::empty()
                                            =~= tags.deep_view());
                                    }
                                },
                            }
                        }
                        let value = json::yaml_to_json(&m[i].1);
                        let ghost before = map@;
                        map.insert(k.clone(), value);
                        proof {
                            assert(types::json_map(map@) =~= types::json_map(before).insert(
                                k@,
                                value.model(),
                            ));
                        }
                    },
                    _ => {},
                }
                i += 1;
            }
        },
        _ => {},
    }
    (map, tags)
}

/// Frontmatter as a specification sees it: fields, tags and the byte range of the block.
#[verifier::ext_equal]
pub struct FrontmatterView {
    pub fields: Map<Seq<char>, JsonView>,
    pub tags: Seq<Seq<char>>,
    pub range: Option<(int, int)>,
}

/// The frontmatter of a text, where reading its YAML gives `doc`.
pub open spec fn frontmatter_spec(s: Seq<char>, doc: Result<YamlView, Seq<char>>) -> Result<
    FrontmatterView,
    ParseErrorView,
> {
    match frontmatter_bounds(s) {
        None => Ok(FrontmatterView { fields: Map::empty(), tags: Seq::empty(), range: None }),
        Some((start, _, end)) => match doc {
            Ok(y) => Ok(
                FrontmatterView {
                    fields: map_of_fields(entries_of(y)),
                    tags: tags_of_fields(entries_of(y)),
                    range: Some(
                        (text::byte_offset(s, start) as int, text::byte_offset(s, end) as int),
                    ),
                },
            ),
            Err(e) => Err(ParseErrorView::BadFrontmatter(e)),
        },
    }
}

/// Frontmatter as executable values: fields, tags and the byte range of the block.
pub type Frontmatter = (KeyMap<Json>, Vec<String>, Option<Range<usize>>);

/// Frontmatter with its strings taken as texts.
pub open spec fn frontmatter_view(f: Frontmatter) -> FrontmatterView {
    FrontmatterView {
        fields: types::json_map(f.0@),
        tags: f.1.deep_view(),
        range: match f.2 {
            Some(r) => Some((r.start as int, r.end as int)),
            None => None,
        },
    }
}

/// What reading frontmatter gives, with strings taken as texts.
pub open spec fn frontmatter_outcome(r: Result<Frontmatter, ParseError>) -> Result<
    FrontmatterView,
    ParseErrorView,
> {
    match r {
        Ok(f) => Ok(frontmatter_view(f)),
        Err(e) => Err(e@),
    }
}

/// The block lies within the text, and its parts follow each other.
proof fn lemma_frontmatter_bounds(s: Seq<char>)
    ensures
        frontmatter_bounds(s) matches Some((start, close, end)) ==> 0 <= start && start + 3 <= close
            && close + 3 <= end <= s.len(),
{
    reveal_strlit("---");
    reveal_strlit("\n---");
    reveal_strlit("\n");
    reveal_strlit("\r\n");
    text::lemma_trim_start(s);
    text::lemma_find(s, "\n---"@, text::leading_space(s) + 3);
}

/// Extract YAML frontmatter from the beginning of a text: its fields, its tags and the byte
/// range of the block.
pub fn extract_frontmatter(content: &str) -> (r: Result<Frontmatter, ParseError>)
    ensures
        frontmatter_outcome(r) == frontmatter_spec(
            content@,
            json::yaml_document(frontmatter_yaml(content@)),
        ),
        r matches Ok(f) ==> f.0.wf(),
        r matches Ok((_, _, Some(range))) ==> is_boundary(content@, range.end as int),
{
    let v = text::chars_of(content);
    let _total = text::checked_byte_len(content);
    let offs = text::byte_offsets(&v);
    proof {
        reveal_strlit("---");
        reveal_strlit("\n---");
        reveal_strlit("\n");
        reveal_strlit("\r\n");
        lemma_frontmatter_bounds(content@);
    }
    let _len: usize = v.len();
    let start = text::count_leading_space(&v);
    let dashes = text::chars_of("---");
    if !text::stands_at(&v, &dashes, start) {
        let none = no_frontmatter();
        return Ok(none);
    }
    match text::find(&v, "\n---", start + 3) {
        None => {
            let none = no_frontmatter();
            Ok(none)
        },
        Some(q) => {
            let close = q + 1;
            let e = close + 3;
            let end = if text::stands_at(&v, &text::chars_of("\n"), e) {
                e + 1
            } else if text::stands_at(&v, &text::chars_of("\r\n"), e) {
                e + 2
            } else {
                e
            };
            assert(frontmatter_bounds(content@) == Some((start as int, close as int, end as int)));
            let yaml = text::substring(&v, start + 3, close);
            match json::yaml_from_str(yaml.as_str()) {
                Ok(doc) => {
                    let (fields, tags) = frontmatter_fields(&doc);
                    proof {
                        lemma_position_at(content@, end as int);
                    }
                    Ok((fields, tags, Some(Range { start: offs[start], end: offs[end] })))
                },
                Err(m) => Err(ParseError::BadFrontmatter(m)),
            }
        },
    }
}

/// The frontmatter of a text that has none.
fn no_frontmatter() -> (r: Frontmatter)
    ensures
        r.0.wf(),
        r.2 is None,
        frontmatter_view(r) == (FrontmatterView {
            fields: Map::empty(),
            tags: Seq::empty(),
            range: None,
        }),
{
    let fields: KeyMap<Json> = KeyMap::new();
    let tags: Vec<String> = Vec::new();
    proof {
        assert(types::json_map(fields@) =~= Map::<Seq<char>, JsonView>::empty());
        assert(tags.deep_view() =~= Seq::<Seq<char>>::empty());
    }
    (fields, tags, None)
}

// ── Type detection ──────────────────────────────────────────────────────────

/// The number of checkboxes of a text.
pub open spec fn checkbox_count(s: Seq<char>) -> nat {
    text::count_matches_spec(s, "- [ ]"@, 0) + text::count_matches_spec(s, "- [x]"@, 0)
        + text::count_matches_spec(s, "- [X]"@, 0)
}

/// The type of a text: a reference where its frontmatter says so; a task list with three
/// checkboxes or more on over a fifth of its lines; a map of content with five links or more on
/// over three tenths of its lines.
pub open spec fn auto_type_spec(
    s: Seq<char>,
    links: nat,
    fields: Map<Seq<char>, JsonView>,
) -> Option<DocType> {
    let lines = if line_count(s) < 1 {
        1
    } else {
        line_count(s)
    };
    if fields.dom().contains("url"@) || fields.dom().contains("isbn"@) || fields.dom().contains(
        "source"@,
    ) {
        Some(DocType::Reference)
    } else if checkbox_count(s) >= 3 && 5 * checkbox_count(s) > lines {
        Some(DocType::Task)
    } else if links >= 5 && 10 * links > 3 * lines {
        Some(DocType::Moc)
    } else {
        None
    }
}

/// The number of lines of a text, at least one.
fn count_lines(v: &[char]) -> (r: usize)
    ensures
        r == if line_count(v@) < 1 {
            1
        } else {
            line_count(v@)
        },
{
    let lines = text::split_ranges(v, '\n');
    let ghost p = text::pieces(v@, '\n');
    proof {
        text::lemma_pieces_from(v@, '\n', 0);
        assert(p.len() == lines@.len());
        assert(p.last() == p[p.len() - 1]);
    }
    let n = lines.len();
    let (a, b) = lines[n - 1];
    let count: usize = if a == b {
        n - 1
    } else {
        n
    };
    if count == 0 {
        1
    } else {
        count
    }
}

/// Detect the type of a document from its content, links and frontmatter.
pub fn detect_auto_type(content: &str, links: &[LinkRef], frontmatter: &KeyMap<Json>) -> (r: Option<
    DocType,
>)
    requires
        frontmatter.wf(),
    ensures
        r == auto_type_spec(content@, links@.len(), types::json_map(frontmatter@)),
{
    if frontmatter.contains_key("url") || frontmatter.contains_key("isbn")
        || frontmatter.contains_key("source") {
        return Some(DocType::Reference);
    }
    let v = text::chars_of(content);
    proof {
        reveal_strlit("- [ ]");
        reveal_strlit("- [x]");
        reveal_strlit("- [X]");
    }
    let lines: u128 = count_lines(&v) as u128;
    let boxes: u128 = text::count_matches(&v, "- [ ]") as u128 + text::count_matches(
        &v,
        "- [x]",
    ) as u128 + text::count_matches(&v, "- [X]") as u128;
    if boxes >= 3 && 5 * boxes > lines {
        return Some(DocType::Task);
    }
    let n: u128 = links.len() as u128;
    if n >= 5 && 10 * n > 3 * lines {
        return Some(DocType::Moc);
    }
    None
}

// ── Whole documents ─────────────────────────────────────────────────────────

/// A list of texts with others added, each unless it is there.
pub open spec fn add_each(acc: Seq<Seq<char>>, xs: Seq<Seq<char>>, i: int) -> Seq<Seq<char>>
    decreases xs.len() - i,
{
    if i < 0 || i >= xs.len() {
        acc
    } else {
        add_each(text::add_once(acc, xs[i]), xs, i + 1)
    }
}

/// The structure of a text whose frontmatter is known.
pub open spec fn document_spec(s: Seq<char>, fm: FrontmatterView) -> types::ParseView {
    types::ParseView {
        chunks: chunks_spec(s, fm.range),
        tags: flatten_spec(add_each(fm.tags, inline_tags_spec(s), 0)),
        links: links_spec(s),
        auto_type: auto_type_spec(s, links_spec(s).len(), fm.fields),
        frontmatter: fm.fields,
    }
}

/// The structure of a text, where reading the YAML of its frontmatter gives `doc`.
pub open spec fn markdown_spec(s: Seq<char>, doc: Result<YamlView, Seq<char>>) -> Result<
    types::ParseView,
    ParseErrorView,
> {
    match frontmatter_spec(s, doc) {
        Ok(fm) => Ok(document_spec(s, fm)),
        Err(e) => Err(e),
    }
}

/// Every text has a chunk.
pub proof fn lemma_some_chunk(s: Seq<char>, fm: Option<(int, int)>)
    ensures
        chunks_spec(s, fm).len() >= 1,
{
}

/// The structure of a text whose frontmatter is known.
pub fn parse_document(content: &str, frontmatter: Frontmatter) -> (r: ParseResult)
    requires
        frontmatter.0.wf(),
        frontmatter.2 matches Some(range) ==> is_boundary(content@, range.end as int),
    ensures
        r@ == document_spec(content@, frontmatter_view(frontmatter)),
        r.frontmatter.wf(),
        r.chunks@.len() >= 1,
{
    let (fields, fm_tags, fm_range) = frontmatter;
    let chunks = match &fm_range {
        Some(range) => extract_chunks(content, Some(range)),
        None => extract_chunks(content, None),
    };
    let links = extract_links(content);
    let inline = extract_inline_tags(content);
    let ghost xs = inline_tags_spec(content@);
    let ghost goal = add_each(fm_tags.deep_view(), xs, 0);
    let mut tags = fm_tags;
    let mut i: usize = 0;
    while i < inline.len()
        invariant
            i <= inline@.len(),
            inline.deep_view() == xs,
            goal == add_each(tags.deep_view(), xs, i as int),
        decreases inline@.len() - i,
    {
        assert(xs[i as int] == inline@[i as int]@);
        text::push_once(&mut tags, inline[i].clone());
        i += 1;
    }
    let flat = flatten_hierarchical_tags(tags);
    let auto_type = detect_auto_type(content, &links, &fields);
    proof {
        assert(links@.len() == types::views(links@).len());
        lemma_some_chunk(content@, frontmatter_view(frontmatter).range);
        assert(chunks@.len() == types::views(chunks@).len());
    }
    ParseResult { chunks, tags: flat, links, auto_type, frontmatter: fields }
}

impl Parser for MarkdownParser {
    open spec fn handles(&self, path: Seq<char>) -> bool {
        is_markdown_path(path)
    }

    open spec fn outcome(&self, path: Seq<char>, content: Seq<u8>) -> Result<
        ParseView,
        ParseErrorView,
    > {
        markdown_outcome(content)
    }

    fn can_parse(&self, path: &str) -> (r: bool) {
        match crate::paths::extension(path) {
            Some(ext) => {
                let e = text::chars_of(ext.as_str());
                e.len() == 2 && (e[0] == 'm' || e[0] == 'M') && (e[1] == 'd' || e[1] == 'D')
            },
            None => false,
        }
    }

    fn parse(&self, path: &str, content: &[u8]) -> (r: Result<ParseResult, ParseError>) {
        let _ = path;
        match text::utf8_str(content) {
            Some(s) => {
                proof {
                    vstd::utf8::encode_utf8_decode_utf8(s@);
                }
                match extract_frontmatter(s) {
                    Ok(fm) => Ok(parse_document(s, fm)),
                    Err(e) => Err(e),
                }
            },
            None => Err(ParseError::InvalidUtf8),
        }
    }
}

/// Whether the extension of a path is `md`, in any case.
pub open spec fn is_markdown_path(p: Seq<char>) -> bool {
    match crate::paths::extension_spec(p) {
        Some(e) => e.len() == 2 && (e[0] == 'm' || e[0] == 'M') && (e[1] == 'd' || e[1] == 'D'),
        None => false,
    }
}

/// What parsing bytes as Markdown gives.
pub open spec fn markdown_outcome(bytes: Seq<u8>) -> Result<types::ParseView, ParseErrorView> {
    if vstd::utf8::valid_utf8(bytes) {
        let s = vstd::utf8::decode_utf8(bytes);
        markdown_spec(s, json::yaml_document(frontmatter_yaml(s)))
    } else {
        Err(ParseErrorView::InvalidUtf8)
    }
}

} // verus!
