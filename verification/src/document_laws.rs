//! What is read of whole notes.

use vstd::prelude::*;
use vstd::utf8::*;

use crate::json;
use crate::json::{JsonView, YamlView};
use crate::markdown;
use crate::markdown::FrontmatterView;
use crate::markdown_laws;
use crate::markdown_laws::{heading_line, is_line};
use crate::note_laws::{
    law_frontmatter_block, lemma_add_each, lemma_line_places, lemma_next_heading,
};
use crate::paths;
use crate::text;
use crate::text_laws;
use crate::types::{ChunkKind, LinkView, ParseErrorView};

verus! {

// ── Links ───────────────────────────────────────────────────────────────────

/// Whether a link stands between two positions: double brackets around a target, and around what is
/// shown behind a bar, with the first closing brackets behind the opening ones, outside of code.
pub open spec fn link_stands(s: Seq<char>, l: LinkView, i: int, c: int) -> bool {
    &&& 0 <= i
    &&& i + 2 <= c
    &&& c + 2 <= s.len()
    &&& s[i] == '['
    &&& s[i + 1] == '['
    &&& s[c] == ']'
    &&& s[c + 1] == ']'
    &&& forall|k: int| i + 2 <= k < c ==> !#[trigger] closes_at(s, k)
    &&& !markdown::in_ranges(markdown::fences(s), i)
    &&& l.target.len() > 0
    &&& !l.target.contains('|')
    &&& s.subrange(i + 2, c) == match l.display {
        Some(d) => l.target + seq!['|'] + d,
        None => l.target,
    }
    &&& l.byte_offset == encode_utf8(s.take(i)).len()
}

/// Whether closing brackets stand at a position.
pub open spec fn closes_at(s: Seq<char>, k: int) -> bool {
    0 <= k && k + 2 <= s.len() && s[k] == ']' && s[k + 1] == ']'
}

proof fn lemma_link_of(inner: Seq<char>, offset: int)
    ensures
        ({
            let l = markdown::link_of(inner, offset);
            &&& !l.target.contains('|')
            &&& inner == match l.display {
                Some(d) => l.target + seq!['|'] + d,
                None => l.target,
            }
            &&& l.byte_offset == offset
        }),
{
    let p = text::next_sep(inner, '|', 0);
    text::lemma_next_sep(inner, '|', 0);
    let l = markdown::link_of(inner, offset);
    if l.target.contains('|') {
        let k = l.target.index_of('|');
        assert(inner[k] == '|');
    }
    if p < inner.len() {
        assert(l.target + seq!['|'] + l.display->Some_0 =~= inner);
    } else {
        assert(l.target =~= inner);
    }
}

proof fn lemma_links_stand(s: Seq<char>, i: int, k: int)
    requires
        0 <= i,
        0 <= k < markdown::links_from(s, markdown::fences(s), i).len(),
    ensures
        exists|a: int, c: int|
            #![trigger link_stands(s, markdown::links_from(s, markdown::fences(s), i)[k], a, c)]
            link_stands(s, markdown::links_from(s, markdown::fences(s), i)[k], a, c),
    decreases s.len() + 2 - i,
{
    let code = markdown::fences(s);
    let all = markdown::links_from(s, code, i);
    reveal_strlit("[[");
    reveal_strlit("]]");
    assert("[["@ =~= seq!['[', '[']);
    assert("]]"@ =~= seq![']', ']']);
    if i < s.len() {
        if !text::occurs_at(s, "[["@, i) {
            lemma_links_stand(s, i + 1, k);
        } else if markdown::in_ranges(code, i) {
            lemma_links_stand(s, i + 2, k);
        } else {
            text::lemma_find(s, "]]"@, i + 2);
            match text::find_spec(s, "]]"@, i + 2) {
                Some(c) => {
                    if i + 2 <= c < s.len() {
                        let inner = s.subrange(i + 2, c);
                        let link = markdown::link_of(inner, text::byte_offset(s, i) as int);
                        let rest = markdown::links_from(s, code, c + 2);
                        lemma_link_of(inner, text::byte_offset(s, i) as int);
                        if link.target.len() > 0 {
                            if k == 0 {
                                assert(all[0] == link);
                                assert(s.subrange(i, i + 2)[0] == s[i]);
                                assert(s.subrange(i, i + 2)[1] == s[i + 1]);
                                assert(s.subrange(c, c + 2)[0] == s[c]);
                                assert(s.subrange(c, c + 2)[1] == s[c + 1]);
                                assert forall|m: int| i + 2 <= m < c implies !#[trigger] closes_at(
                                    s,
                                    m,
                                ) by {
                                    if closes_at(s, m) {
                                        assert(s.subrange(m, m + 2) =~= "]]"@);
                                        assert(text::occurs_at(s, "]]"@, m));
                                    }
                                }
                                assert(link_stands(s, all[k], i, c));
                            } else {
                                assert(all[k] == rest[k - 1]);
                                lemma_links_stand(s, c + 2, k - 1);
                                let (a, z) = choose|a: int, z: int|
                                    #![trigger link_stands(s, rest[k - 1], a, z)]
                                    link_stands(s, rest[k - 1], a, z);
                                assert(link_stands(s, all[k], a, z));
                            }
                        } else {
                            lemma_links_stand(s, c + 2, k);
                        }
                    }
                },
                None => {
                    lemma_links_stand(s, i + 2, k);
                },
            }
        }
    }
}

/// Every link of a note stands in its text, outside of code.
pub proof fn law_links_stand(s: Seq<char>, fm: FrontmatterView, k: int)
    requires
        0 <= k < markdown::document_spec(s, fm).links.len(),
    ensures
        exists|i: int, c: int|
            #![trigger link_stands(s, markdown::document_spec(s, fm).links[k], i, c)]
            link_stands(s, markdown::document_spec(s, fm).links[k], i, c),
{
    lemma_links_stand(s, 0, k);
    let l = markdown::document_spec(s, fm).links[k];
    let (i, c) = choose|i: int, c: int|
        #![trigger link_stands(s, markdown::links_from(s, markdown::fences(s), 0)[k], i, c)]
        link_stands(s, markdown::links_from(s, markdown::fences(s), 0)[k], i, c);
    assert(link_stands(s, l, i, c));
}

/// Whether every link that opens before a position, outside of code, is closed before it.
pub open spec fn closed_before(s: Seq<char>, i: int) -> bool {
    forall|k: int|
        #![trigger s[k]]
        0 <= k < i && s[k] == '[' && s[k + 1] == '[' && !markdown::in_ranges(
            markdown::fences(s),
            k,
        ) ==> exists|c: int| k + 2 <= c && c + 2 <= i && #[trigger] closes_at(s, c)
}

proof fn lemma_links_reach(s: Seq<char>, j: int, i: int)
    requires
        0 <= j <= i < s.len(),
        i == 0 || s[i - 1] != '[',
        closed_before(s, i),
    ensures
        exists|front: Seq<LinkView>|
            markdown::links_from(s, markdown::fences(s), j) == #[trigger] (front
                + markdown::links_from(s, markdown::fences(s), i)),
    decreases i - j,
{
    let code = markdown::fences(s);
    let goal = markdown::links_from(s, code, i);
    let all = markdown::links_from(s, code, j);
    let none = Seq::<LinkView>::empty();
    reveal_strlit("[[");
    reveal_strlit("]]");
    assert("[["@ =~= seq!['[', '[']);
    assert("]]"@ =~= seq![']', ']']);
    if j == i {
        assert(all =~= none + goal);
    } else if !text::occurs_at(s, "[["@, j) {
        lemma_links_reach(s, j + 1, i);
    } else {
        assert(s.subrange(j, j + 2)[0] == s[j]);
        assert(s.subrange(j, j + 2)[1] == s[j + 1]);
        assert(j + 1 != i);
        if markdown::in_ranges(code, j) {
            lemma_links_reach(s, j + 2, i);
        } else {
            let z = choose|c: int| j + 2 <= c && c + 2 <= i && #[trigger] closes_at(s, c);
            assert(s.subrange(z, z + 2) =~= "]]"@);
            assert(text::occurs_at(s, "]]"@, z));
            text::lemma_find(s, "]]"@, j + 2);
            let c = text::find_spec(s, "]]"@, j + 2)->Some_0;
            assert(c <= z);
            lemma_links_reach(s, c + 2, i);
            let front = choose|front: Seq<LinkView>|
                markdown::links_from(s, code, c + 2) == #[trigger] (front + goal);
            let link = markdown::link_of(
                s.subrange(j + 2, c),
                text::byte_offset(s, j) as int,
            );
            if link.target.len() > 0 {
                assert(all =~= (seq![link] + front) + goal);
            } else {
                assert(all == front + goal);
            }
        }
    }
}

/// Every link that stands outside of code is found, with its target, what is shown for it and its
/// place, where the links before it are closed.
pub proof fn law_links_found(s: Seq<char>, fm: FrontmatterView, l: LinkView, i: int, c: int)
    requires
        link_stands(s, l, i, c),
        i == 0 || s[i - 1] != '[',
        closed_before(s, i),
    ensures
        markdown::document_spec(s, fm).links.contains(l),
{
    let code = markdown::fences(s);
    reveal_strlit("[[");
    reveal_strlit("]]");
    assert("[["@ =~= seq!['[', '[']);
    assert("]]"@ =~= seq![']', ']']);
    assert(s.subrange(i, i + 2) =~= "[["@);
    assert(s.subrange(c, c + 2) =~= "]]"@);
    assert(text::occurs_at(s, "[["@, i) && text::occurs_at(s, "]]"@, c));
    text::lemma_find(s, "]]"@, i + 2);
    let f = text::find_spec(s, "]]"@, i + 2)->Some_0;
    if f < c {
        assert(s.subrange(f, f + 2)[0] == s[f] && s.subrange(f, f + 2)[1] == s[f + 1]);
        assert(closes_at(s, f));
    }
    let inner = s.subrange(i + 2, c);
    let link = markdown::link_of(inner, text::byte_offset(s, i) as int);
    let p = text::next_sep(inner, '|', 0);
    text::lemma_next_sep(inner, '|', 0);
    let n = l.target.len() as int;
    if p < n {
        assert(inner[p] == l.target[p]);
        assert(l.target.contains(l.target[p]));
    }
    match l.display {
        Some(d) => {
            assert(inner[n] == '|');
            assert(p == n);
            assert(inner.subrange(n + 1, inner.len() as int) =~= d);
        },
        None => {
            assert(p == n);
        },
    }
    assert(inner.subrange(0, p) =~= l.target);
    assert(link == l);
    let from = markdown::links_from(s, code, i);
    assert(from[0] == l);
    lemma_links_reach(s, 0, i);
    let front = choose|front: Seq<LinkView>|
        markdown::links_from(s, code, 0) == #[trigger] (front + from);
    let all = markdown::document_spec(s, fm).links;
    assert(all[front.len() as int] == l);
}

// ── Text before headings ────────────────────────────────────────────────────

/// Whether no line of a part of a text is a heading.
pub open spec fn lacks_headings(s: Seq<char>, from: int, to: int) -> bool {
    forall|p: int, q: int, d: u8|
        #![trigger heading_line(s.subrange(p, q), d as int)]
        from <= p < to && is_line(s, p, q) ==> !heading_line(s.subrange(p, q), d as int)
}

proof fn lemma_trim_blank(s: Seq<char>)
    ensures
        text::trim_spec(s).len() == 0 <==> text_laws::is_blank(s),
    decreases s.len(),
{
    if text_laws::is_blank(s) {
        let e = Seq::<char>::empty();
        text_laws::law_trim(s, e, e);
        assert(s + e + e =~= s);
    } else {
        let k = choose|k: int| 0 <= k < s.len() && !text::is_white_space(#[trigger] s[k]);
        lemma_trim_start_some(s, k);
        let t = text::trim_start_spec(s);
        assert(!text::is_white_space(t[0]));
        lemma_trim_end_some(t);
    }
}

proof fn lemma_trim_start_some(s: Seq<char>, k: int)
    requires
        0 <= k < s.len(),
        !text::is_white_space(s[k]),
    ensures
        text::trim_start_spec(s).len() > 0,
        !text::is_white_space(text::trim_start_spec(s)[0]),
    decreases s.len(),
{
    if text::is_white_space(s[0]) {
        let t = s.subrange(1, s.len() as int);
        assert(t[k - 1] == s[k]);
        lemma_trim_start_some(t, k - 1);
    }
}

proof fn lemma_trim_end_some(s: Seq<char>)
    requires
        s.len() > 0,
        !text::is_white_space(s[0]),
    ensures
        text::trim_end_spec(s).len() > 0,
    decreases s.len(),
{
    if text::is_white_space(s.last()) {
        assert(s.len() > 1);
        assert(s.drop_last()[0] == s[0]);
        lemma_trim_end_some(s.drop_last());
    }
}

/// What stands before the first heading is a chunk without a label, unless it is blank.
pub proof fn law_lead(s: Seq<char>, body: int, a: int, b: int, depth: u8)
    requires
        0 <= body <= a,
        body == 0 || s[body - 1] == '\n',
        is_line(s, a, b),
        heading_line(s.subrange(a, b), depth as int),
        lacks_headings(s, body, a),
    ensures
        ({
            let c = markdown::body_chunks(s, body);
            &&& c.len() > 0
            &&& text_laws::is_blank(s.subrange(body, a)) ==> c[0].kind == ChunkKind::Section
                && c[0].start == encode_utf8(s.take(a)).len()
            &&& !text_laws::is_blank(s.subrange(body, a)) ==> {
                &&& c[0].kind == ChunkKind::Body
                &&& c[0].label is None
                &&& c[0].depth == 0
                &&& c[0].start == encode_utf8(s.take(body)).len()
                &&& c[0].end == encode_utf8(s.take(a)).len()
                &&& c.len() > 1
                &&& c[1].kind == ChunkKind::Section
                &&& c[1].start == c[0].end
            }
        }),
{
    let lines = text::pieces_from(s, '\n', body);
    let hs = markdown::headings(s, body);
    let m = markdown_laws::lemma_line_found(s, body, a, b);
    markdown_laws::lemma_lines_from(s, body);
    let q = lemma_next_heading(s, lines, 0);
    markdown_laws::law_headings(s.subrange(a, b), depth);
    if q < m {
        lemma_line_places(s, body, q, m);
        assert(is_line(s, lines[q].0, lines[q].1));
        let d = markdown::heading_spec(s.subrange(lines[q].0, lines[q].1))->Some_0.0;
        markdown_laws::law_headings(s.subrange(lines[q].0, lines[q].1), d);
        assert(heading_line(s.subrange(lines[q].0, lines[q].1), d as int));
    } else if q > m {
        assert(markdown::heading_spec(s.subrange(lines[m].0, lines[m].1)) is None);
    }
    assert(q == m);
    assert(hs[0].0 == a);
    lemma_trim_blank(s.subrange(body, a));
    let c = markdown::body_chunks(s, body);
    let lead = markdown::lead_chunks(s, body, a);
    let rest = Seq::new(hs.len(), |i: int| markdown::section(s, hs, i));
    assert(c == lead + rest);
    assert(c[lead.len() as int] == rest[0]);
    if a == body {
        assert(s.subrange(body, a).len() == 0);
    }
}

/// A text without headings is one chunk without a label.
pub proof fn law_no_headings(s: Seq<char>, body: int)
    requires
        0 <= body < s.len(),
        body == 0 || s[body - 1] == '\n',
        lacks_headings(s, body, s.len() as int + 1),
    ensures
        ({
            let c = markdown::body_chunks(s, body);
            &&& c.len() == 1
            &&& c[0].kind == ChunkKind::Body
            &&& c[0].label is None
            &&& c[0].depth == 0
            &&& c[0].start == encode_utf8(s.take(body)).len()
            &&& c[0].end == encode_utf8(s).len()
        }),
{
    let lines = text::pieces_from(s, '\n', body);
    markdown_laws::lemma_lines_from(s, body);
    let q = lemma_next_heading(s, lines, 0);
    if q < lines.len() {
        assert(is_line(s, lines[q].0, lines[q].1));
        let d = markdown::heading_spec(s.subrange(lines[q].0, lines[q].1))->Some_0.0;
        markdown_laws::law_headings(s.subrange(lines[q].0, lines[q].1), d);
        assert(heading_line(s.subrange(lines[q].0, lines[q].1), d as int));
    }
    assert(s.take(s.len() as int) =~= s);
}

// ── Frontmatter ─────────────────────────────────────────────────────────────

/// A note with a frontmatter block has a chunk for it, and then those of the text behind it. Its
/// fields are those of the block.
pub proof fn law_note_with_frontmatter(
    yaml: Seq<char>,
    rest: Seq<char>,
    doc: YamlView,
    entries: Seq<(YamlView, YamlView)>,
)
    requires
        yaml.len() > 0,
        yaml[0] == '\n',
        forall|k: int|
            0 <= k && k + 4 <= yaml.len() ==> #[trigger] yaml.subrange(k, k + 4) != seq![
                '\n',
                '-',
                '-',
                '-',
            ],
        doc == YamlView::Mapping(entries),
    ensures
        ({
            let head = seq!['-', '-', '-'] + yaml + seq!['\n', '-', '-', '-', '\n'];
            let s = head + rest;
            markdown::markdown_spec(s, Ok(doc)) matches Ok(p) && {
                &&& p.chunks.len() > 0
                &&& p.chunks[0].kind == ChunkKind::Frontmatter
                &&& p.chunks[0].start == 0
                &&& p.chunks[0].end == encode_utf8(head).len()
                &&& p.chunks[0].label is None
                &&& p.chunks.skip(1) == markdown::body_chunks(s, head.len() as int)
                &&& p.frontmatter == markdown::map_of_fields(entries)
                &&& forall|x: Seq<char>| #[trigger]
                    markdown::tags_of_fields(entries).contains(x) ==> p.tags.contains(x)
            }
        }),
{
    law_frontmatter_block(yaml, rest);
    let head = seq!['-', '-', '-'] + yaml + seq!['\n', '-', '-', '-', '\n'];
    let s = head + rest;
    let n = head.len() as int;
    assert(n == 8 + yaml.len());
    assert(s.take(n) =~= head);
    assert(s.take(0) =~= Seq::<char>::empty());
    markdown::lemma_position_at(s, n);
    let fm = markdown::frontmatter_spec(s, Ok(doc))->Ok_0;
    assert(markdown::entries_of(doc) == entries);
    let p = markdown::document_spec(s, fm);
    let c = seq![markdown::frontmatter_chunk(0, encode_utf8(head).len() as int)];
    assert(p.chunks == c + markdown::body_chunks(s, n));
    assert(p.chunks.skip(1) =~= markdown::body_chunks(s, n));
    assert forall|x: Seq<char>| #[trigger] markdown::tags_of_fields(entries).contains(x) implies
        p.tags.contains(x) by {
        crate::note_laws::law_note_tags(s, fm, x, -1);
    }
}

/// A block that is no YAML makes the note fail.
pub proof fn law_bad_frontmatter(s: Seq<char>, message: Seq<char>)
    requires
        markdown::frontmatter_bounds(s) is Some,
    ensures
        markdown::markdown_spec(s, Err(message)) == Err::<crate::types::ParseView, ParseErrorView>(
            ParseErrorView::BadFrontmatter(message),
        ),
{
}

/// A note without a frontmatter block has no fields, and the chunks of its whole text.
pub proof fn law_note_without_frontmatter(s: Seq<char>, doc: Result<YamlView, Seq<char>>, x: Seq<char>)
    requires
        markdown::frontmatter_bounds(s) is None,
        s.len() > 0,
    ensures
        markdown::markdown_spec(s, doc) matches Ok(p) && {
            &&& p.chunks == markdown::body_chunks(s, 0)
            &&& p.frontmatter.dom() =~= Set::empty()
            &&& markdown::inline_tags_spec(s).contains(x) ==> p.tags.contains(x)
        },
{
    let fm = markdown::frontmatter_spec(s, doc)->Ok_0;
    if markdown::inline_tags_spec(s).contains(x) {
        crate::note_laws::law_note_tags(s, fm, x, -1);
    }
}

// ── Tags ────────────────────────────────────────────────────────────────────

/// Whether a tag is another, or the part of it before a slash.
pub open spec fn is_part_of(x: Seq<char>, y: Seq<char>) -> bool {
    x == y || exists|k: int| 0 <= k < y.len() && #[trigger] y[k] == '/' && x == y.take(k)
}

proof fn lemma_prefixes_only(
    tag: Seq<char>,
    k: int,
    acc: Seq<Seq<char>>,
    x: Seq<char>,
)
    requires
        0 <= k,
        markdown::add_prefixes(tag, text::pieces(tag, '/'), k, acc).contains(x),
    ensures
        acc.contains(x) || is_part_of(x, tag),
    decreases text::pieces(tag, '/').len() - k,
{
    let parts = text::pieces(tag, '/');
    if k < parts.len() {
        text::lemma_add_once(acc, tag.take(parts[k].1));
        lemma_prefixes_only(tag, k + 1, text::add_once(acc, tag.take(parts[k].1)), x);
        if x == tag.take(parts[k].1) {
            text::lemma_pieces_from(tag, '/', 0);
            let e = parts[k].1;
            if e == tag.len() {
                assert(tag.take(e) =~= tag);
            } else {
                assert(parts[k].1 <= tag.len());
                assert(tag[e] == '/') by {
                    lemma_piece_end(tag, 0, k);
                }
            }
        }
    }
}

proof fn lemma_piece_end(s: Seq<char>, from: int, k: int)
    requires
        0 <= from <= s.len(),
        0 <= k < text::pieces_from(s, '/', from).len(),
        text::pieces_from(s, '/', from)[k].1 < s.len(),
    ensures
        s[text::pieces_from(s, '/', from)[k].1] == '/',
    decreases s.len() - from,
{
    text::lemma_next_sep(s, '/', from);
    let e = text::next_sep(s, '/', from);
    let all = text::pieces_from(s, '/', from);
    if e < s.len() && k > 0 {
        assert(all[k] == text::pieces_from(s, '/', e + 1)[k - 1]);
        lemma_piece_end(s, e + 1, k - 1);
    }
}

proof fn lemma_flatten_only(tags: Seq<Seq<char>>, j: int, acc: Seq<Seq<char>>, x: Seq<char>)
    requires
        0 <= j,
        markdown::flatten_from(tags, j, acc).contains(x),
    ensures
        acc.contains(x) || exists|m: int|
            j <= m < tags.len() && is_part_of(x, #[trigger] tags[m]),
    decreases tags.len() - j,
{
    if j < tags.len() {
        let next = markdown::add_prefixes(tags[j], text::pieces(tags[j], '/'), 0, acc);
        lemma_flatten_only(tags, j + 1, next, x);
        if next.contains(x) {
            lemma_prefixes_only(tags[j], 0, acc, x);
        }
    }
}

/// A note has no tag but those of its frontmatter, those that stand in its text, and their parts.
pub proof fn law_note_tags_only(s: Seq<char>, fm: FrontmatterView, x: Seq<char>)
    requires
        markdown::document_spec(s, fm).tags.contains(x),
    ensures
        exists|y: Seq<char>| #[trigger]
            is_part_of(x, y) && (fm.tags.contains(y) || markdown::inline_tags_spec(s).contains(y)),
{
    let own = markdown::inline_tags_spec(s);
    let all = markdown::add_each(fm.tags, own, 0);
    lemma_flatten_only(all, 0, Seq::empty(), x);
    let m = choose|m: int| 0 <= m < all.len() && is_part_of(x, #[trigger] all[m]);
    lemma_add_each(fm.tags, own, 0, all[m]);
    assert(all.contains(all[m]));
}

proof fn lemma_texts_only(q: Seq<YamlView>, x: Seq<char>)
    requires
        markdown::yaml_texts(q).contains(x),
    ensures
        q.contains(YamlView::Text(x)),
    decreases q.len(),
{
    if q.len() > 0 {
        let front = markdown::yaml_texts(q.drop_last());
        if q.last() == YamlView::Text(x) {
            assert(q[q.len() - 1] == YamlView::Text(x));
        } else {
            let all = markdown::yaml_texts(q);
            let k = all.index_of(x);
            match q.last() {
                YamlView::Text(t) => {
                    if k == front.len() {
                        assert(all[k] == t);
                    } else {
                        assert(front[k] == x);
                    }
                },
                _ => {},
            }
            assert(front.contains(x));
            lemma_texts_only(q.drop_last(), x);
            let i = q.drop_last().index_of(YamlView::Text(x));
            assert(q[i] == YamlView::Text(x));
        }
    }
}

/// A tag of the frontmatter is told by the field `tags`: in its list, or by its text.
pub proof fn law_field_tags_only(m: Seq<(YamlView, YamlView)>, x: Seq<char>)
    requires
        markdown::tags_of_fields(m).contains(x),
    ensures
        exists|i: int|
            0 <= i < m.len() && (#[trigger] m[i]).0 == YamlView::Text("tags"@) && match m[i].1 {
                YamlView::Sequence(q) => q.contains(YamlView::Text(x)),
                YamlView::Text(t) => true,
                _ => false,
            },
    decreases m.len(),
{
    if m.len() > 0 {
        let rest = markdown::tags_of_fields(m.drop_last());
        let all = markdown::tags_of_fields(m);
        if rest.contains(x) {
            law_field_tags_only(m.drop_last(), x);
            let less = m.drop_last();
            let i = choose|i: int|
                0 <= i < less.len() && (#[trigger] less[i]).0 == YamlView::Text("tags"@) && match less[i].1 {
                    YamlView::Sequence(q) => q.contains(YamlView::Text(x)),
                    YamlView::Text(t) => true,
                    _ => false,
                };
            assert(m[i] == less[i]);
        } else {
            let own = markdown::tags_of_value(m.last().1);
            let k = all.index_of(x);
            assert(k >= rest.len()) by {
                if k < rest.len() {
                    assert(rest[k] == x);
                }
            }
            assert(own[k - rest.len()] == x);
            match m.last().1 {
                YamlView::Sequence(q) => lemma_texts_only(q, x),
                _ => {},
            }
            assert(m[m.len() - 1] == m.last());
        }
    }
}

/// Values of the frontmatter are kept as they are: as far as JSON has them.
pub proof fn law_values_kept(
    b: bool,
    i: i64,
    t: Seq<char>,
    q: Seq<YamlView>,
    k: int,
)
    ensures
        json::json_of_yaml(YamlView::Null) == JsonView::Null,
        json::json_of_yaml(YamlView::Bool(b)) == JsonView::Bool(b),
        json::json_of_yaml(YamlView::Int(i)) == JsonView::Int(i),
        json::json_of_yaml(YamlView::Text(t)) == JsonView::Text(t),
        json::json_of_yaml(YamlView::Sequence(q)) matches JsonView::Array(a) && a.len() == q.len()
            && (0 <= k < q.len() ==> a[k] == json::json_of_yaml(q[k])),
{
}

// ── Boxes ───────────────────────────────────────────────────────────────────

/// Texts with a box behind each.
pub open spec fn boxed(list: Seq<Seq<char>>, sign: Seq<char>, tail: Seq<char>) -> Seq<char>
    decreases list.len(),
{
    if list.len() == 0 {
        tail
    } else {
        list[0] + sign + boxed(list.skip(1), sign, tail)
    }
}

proof fn lemma_boxes(s: Seq<char>, from: int, list: Seq<Seq<char>>, sign: Seq<char>, tail: Seq<char>)
    requires
        0 <= from <= s.len(),
        s.skip(from) == boxed(list, sign, tail),
        sign.len() > 0,
        forall|i: int| 0 <= i < list.len() ==> !(#[trigger] list[i]).contains(sign[0]),
        !tail.contains(sign[0]),
    ensures
        text::count_matches_spec(s, sign, from) == list.len(),
    decreases list.len(),
{
    text::lemma_find(s, sign, from);
    let n = sign.len() as int;
    assert(s.skip(from).len() == s.len() - from);
    if list.len() == 0 {
        match text::find_spec(s, sign, from) {
            Some(p) => {
                assert(s.subrange(p, p + n)[0] == s[p]);
                assert(s.skip(from)[p - from] == s[p]);
                assert(tail.contains(tail[p - from]));
            },
            None => {},
        }
    } else {
        let a = list[0];
        let m = a.len() as int;
        let more = list.skip(1);
        let whole = a + sign + boxed(more, sign, tail);
        let p = from + m;
        assert forall|k: int| 0 <= k < whole.len() implies s[from + k] == #[trigger] whole[k] by {
            assert(s.skip(from)[k] == s[from + k]);
        }
        assert(s.subrange(p, p + n) =~= sign) by {
            assert forall|k: int| 0 <= k < n implies s.subrange(p, p + n)[k] == sign[k] by {
                assert(s[from + (m + k)] == whole[m + k]);
            }
        }
        assert(text::occurs_at(s, sign, p));
        let f = text::find_spec(s, sign, from)->Some_0;
        if f < p {
            assert(s.subrange(f, f + n)[0] == s[f]);
            assert(s[from + (f - from)] == whole[f - from]);
            assert(whole[f - from] == a[f - from]);
            assert(a.contains(a[f - from]));
        }
        assert(f == p);
        assert(s.skip(p + n) =~= boxed(more, sign, tail)) by {
            assert(s.skip(from).skip(m + n) =~= s.skip(p + n));
            assert(whole.skip(m + n) =~= boxed(more, sign, tail));
        }
        assert forall|i: int| 0 <= i < more.len() implies !(#[trigger] more[i]).contains(
            sign[0],
        ) by {
            assert(!list[i + 1].contains(sign[0]));
        }
        lemma_boxes(s, p + n, more, sign, tail);
    }
}

/// Boxes are counted, each once.
pub proof fn law_boxes_counted(list: Seq<Seq<char>>, sign: Seq<char>, tail: Seq<char>)
    requires
        sign.len() > 0,
        forall|i: int| 0 <= i < list.len() ==> !(#[trigger] list[i]).contains(sign[0]),
        !tail.contains(sign[0]),
    ensures
        text::count_matches_spec(boxed(list, sign, tail), sign, 0) == list.len(),
{
    let s = boxed(list, sign, tail);
    assert(s.skip(0) =~= s);
    lemma_boxes(s, 0, list, sign, tail);
}

// ── Files ───────────────────────────────────────────────────────────────────

/// Notes are the files with the extension `md`, in either case of letters.
pub proof fn law_note_paths(path: Seq<char>)
    ensures
        markdown::is_markdown_path(path) <==> (paths::extension_spec(path) matches Some(e) && (e
            == seq!['m', 'd'] || e == seq!['M', 'D'] || e == seq!['M', 'd'] || e == seq!['m', 'D'])),
{
    match paths::extension_spec(path) {
        Some(e) => {
            if e.len() == 2 {
                assert(e =~= seq![e[0], e[1]]);
            }
        },
        None => {},
    }
}

/// A note that is no text is refused. Any other is read as the text that its bytes encode.
pub proof fn law_note_bytes(bytes: Seq<u8>, s: Seq<char>)
    ensures
        !valid_utf8(bytes) ==> markdown::markdown_outcome(bytes) == Err::<
            crate::types::ParseView,
            ParseErrorView,
        >(ParseErrorView::InvalidUtf8),
        bytes == encode_utf8(s) ==> markdown::markdown_outcome(bytes) == markdown::markdown_spec(
            s,
            json::yaml_document(markdown::frontmatter_yaml(s)),
        ),
{
    if bytes == encode_utf8(s) {
        encode_utf8_valid_utf8(s);
        encode_utf8_decode_utf8(s);
    }
}

} // verus!
