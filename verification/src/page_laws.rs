//! What is read of the text of Confluence pages: words, links and other tags.

use vstd::prelude::*;
use vstd::utf8::*;

use crate::confluence;
use crate::confluence::StorageState;
use crate::confluence_laws::{
    closing, has_field, heading_tag, is_plain, law_attribute, law_heading_levels, lemma_has_field,
    lemma_read_section, lemma_read_text, lemma_section_chunks, opening, Section,
};
use crate::dates;
use crate::json::JsonView;
use crate::paths;
use crate::text;
use crate::text_laws;
use crate::types::{ChunkKind, LinkView};

verus! {

// ── Pieces ──────────────────────────────────────────────────────────────────

/// A piece of the text of a page: words, a link to an address or to a page, or another tag.
pub enum Piece {
    Words(Seq<char>),
    Anchor(Seq<char>),
    PageLink(Seq<char>),
    Mark(Seq<char>),
}

/// A piece in storage format.
pub open spec fn piece_text(p: Piece) -> Seq<char> {
    match p {
        Piece::Words(w) => w,
        Piece::Anchor(u) => seq!['<'] + ("a href=\""@ + u + seq!['"']) + seq!['>'],
        Piece::PageLink(t) => seq!['<'] + ("ac:link ac:page-title=\""@ + t + seq!['"']) + seq!['>'],
        Piece::Mark(m) => seq!['<'] + m + seq!['>'],
    }
}

/// Whether a piece can be written as it is.
pub open spec fn is_plain_piece(p: Piece) -> bool {
    match p {
        Piece::Words(w) => !w.contains('<') && !w.contains('\r'),
        Piece::Anchor(u) => !u.contains('"') && !u.contains('>'),
        Piece::PageLink(t) => !t.contains('"') && !t.contains('>'),
        Piece::Mark(m) => !m.contains('>') && is_other_tag(
            text::lowercase(confluence::first_word(m)),
        ),
    }
}

/// Whether a tag neither opens a heading nor is a link.
pub open spec fn is_other_tag(name: Seq<char>) -> bool {
    &&& name != "a"@
    &&& name != "ac:link"@
    &&& forall|n: int| 1 <= n <= 6 ==> name != #[trigger] heading_tag(n)
}

/// Pieces in storage format.
pub open spec fn pieces_text(ps: Seq<Piece>) -> Seq<char>
    decreases ps.len(),
{
    if ps.len() == 0 {
        Seq::empty()
    } else {
        piece_text(ps[0]) + pieces_text(ps.skip(1))
    }
}

/// The words of pieces.
pub open spec fn words_in(ps: Seq<Piece>) -> Seq<char>
    decreases ps.len(),
{
    if ps.len() == 0 {
        Seq::empty()
    } else {
        match ps[0] {
            Piece::Words(w) => w + words_in(ps.skip(1)),
            _ => words_in(ps.skip(1)),
        }
    }
}

/// A link to a target, behind a number of bytes of words.
pub open spec fn link_to(target: Seq<char>, offset: int) -> LinkView {
    LinkView { target, display: None, byte_offset: offset }
}

/// The links of pieces, each with the number of bytes of the words before it.
pub open spec fn links_in(ps: Seq<Piece>, offset: int) -> Seq<LinkView>
    decreases ps.len(),
{
    if ps.len() == 0 {
        Seq::empty()
    } else {
        let rest = ps.skip(1);
        match ps[0] {
            Piece::Words(w) => links_in(rest, offset + encode_utf8(w).len()),
            Piece::Anchor(u) => seq![link_to(u, offset)] + links_in(rest, offset),
            Piece::PageLink(t) => seq![link_to(t, offset)] + links_in(rest, offset),
            Piece::Mark(m) => links_in(rest, offset),
        }
    }
}

/// Whether the words of the tags are in lower case, as far as the case of letters goes.
pub open spec fn tags_are_lower() -> bool {
    &&& text::lowercase("a"@) == "a"@
    &&& text::lowercase("ac:link"@) == "ac:link"@
    &&& forall|n: int| 1 <= n <= 6 ==> text::lowercase(#[trigger] heading_tag(n)) == heading_tag(n)
}

proof fn lemma_next_byte(b: Seq<u8>, x: u8, i: int, e: int)
    requires
        0 <= i <= e < b.len(),
        b[e] == x,
        forall|k: int| i <= k < e ==> #[trigger] b[k] != x,
    ensures
        confluence::next_byte(b, x, i) == e,
    decreases e - i,
{
    if i < e {
        assert(b[i] != x);
        lemma_next_byte(b, x, i + 1, e);
    }
}

/// A tag that opens no heading is passed over.
proof fn lemma_read_tag(b: Seq<u8>, i: int, inner: Seq<char>, rest: Seq<u8>, st: StorageState)
    requires
        0 <= i <= b.len(),
        b.skip(i) == encode_utf8(seq!['<'] + inner + seq!['>']) + rest,
        !inner.contains('>'),
        confluence::heading_level_spec(text::lowercase(confluence::first_word(inner))) is None,
    ensures
        confluence::read_from(b, i, st) == confluence::read_from(
            b,
            b.len() - rest.len(),
            confluence::after_tag(st, text::lowercase(confluence::first_word(inner)), inner),
        ),
{
    let t = encode_utf8(inner);
    let m = t.len() as int;
    text_laws::lemma_ascii_char('<');
    text_laws::lemma_ascii_char('>');
    text::lemma_encode_concat(seq!['<'], inner);
    text::lemma_encode_concat(seq!['<'] + inner, seq!['>']);
    let all = seq![60u8] + t + seq![62u8] + rest;
    assert(b.skip(i) =~= all);
    assert(b.skip(i).len() == b.len() - i);
    let e = i + 1 + m;
    assert(all[0] == 60 && b.skip(i)[0] == b[i]);
    assert(all[1 + m] == 62 && b.skip(i)[1 + m] == b[e]);
    assert forall|k: int| i <= k < e implies #[trigger] b[k] != 62 by {
        assert(b.skip(i)[k - i] == b[k]);
        if k > i {
            assert(all[k - i] == t[k - i - 1]);
            text_laws::lemma_lacks_byte(inner, '>');
        }
    }
    lemma_next_byte(b, 62, i, e);
    assert(b.subrange(i + 1, e) =~= t) by {
        assert forall|k: int| 0 <= k < m implies b.subrange(i + 1, e)[k] == t[k] by {
            assert(b.skip(i)[1 + k] == all[1 + k]);
        }
    }
    encode_utf8_valid_utf8(inner);
    encode_utf8_decode_utf8(inner);
    assert(e + 1 == b.len() - rest.len());
}

proof fn lemma_first_word(w: Seq<char>, rest: Seq<char>)
    requires
        w.len() > 0,
        forall|i: int| 0 <= i < w.len() ==> !text::is_white_space(#[trigger] w[i]),
        rest.len() > 0,
        text::is_white_space(rest[0]),
    ensures
        confluence::first_word(w + rest) == w,
{
    let s = w + rest;
    assert(s[0] == w[0]);
    lemma_word_end(s, 0, w.len() as int);
    assert(s.subrange(0, w.len() as int) =~= w);
}

proof fn lemma_word_end(s: Seq<char>, i: int, e: int)
    requires
        0 <= i <= e < s.len(),
        text::is_white_space(s[e]),
        forall|k: int| i <= k < e ==> !text::is_white_space(#[trigger] s[k]),
    ensures
        text::word_end(s, i) == e,
    decreases e - i,
{
    if i < e {
        assert(!text::is_white_space(s[i]));
        lemma_word_end(s, i + 1, e);
    }
}

/// An anchor is a link to its address.
proof fn lemma_anchor(u: Seq<char>, st: StorageState)
    requires
        tags_are_lower(),
        !u.contains('"'),
        !u.contains('>'),
    ensures
        ({
            let inner = "a href=\""@ + u + seq!['"'];
            let name = text::lowercase(confluence::first_word(inner));
            &&& !inner.contains('>')
            &&& confluence::heading_level_spec(name) is None
            &&& confluence::after_tag(st, name, inner) == (StorageState {
                links: st.links.push(link_to(u, st.offset)),
                ..st
            })
        }),
{
    reveal_strlit("a href=\"");
    reveal_strlit("a");
    reveal_strlit("href");
    let front = "a href=\""@;
    let inner = front + u + seq!['"'];
    assert(front =~= seq!['a', ' ', 'h', 'r', 'e', 'f', '=', '"']);
    assert("a"@ =~= seq!['a']);
    assert("href"@ =~= seq!['h', 'r', 'e', 'f']);
    let w = seq!['a'];
    let rest = inner.skip(1);
    assert(inner =~= w + rest);
    text_laws::law_white_space(' ');
    text_laws::law_white_space('a');
    assert(rest[0] == ' ');
    lemma_first_word(w, rest);
    assert(w =~= "a"@);
    assert(!inner.contains('>')) by {
        if inner.contains('>') {
            let k = inner.index_of('>');
            if 8 <= k < 8 + u.len() {
                assert(inner[k] == u[k - 8]);
                assert(u.contains(u[k - 8]));
            }
        }
    }
    if confluence::heading_level_spec("a"@) is Some {
        let n = confluence::heading_level_spec("a"@)->Some_0;
        law_heading_levels("a"@, n);
        assert("a"@.len() == 1);
    }
    let needle = "href"@ + seq!['=', '"'];
    let before = seq!['a', ' '];
    assert(inner =~= before + needle + u + seq!['"'] + Seq::<char>::empty());
    assert forall|k: int| 0 <= k < before.len() implies !#[trigger] text::occurs_at(
        inner,
        needle,
        k,
    ) by {
        if text::occurs_at(inner, needle, k) {
            assert(inner.subrange(k, k + needle.len())[0] == inner[k]);
            assert(needle[0] == 'h');
        }
    }
    law_attribute(inner, before, needle, "href"@, u, Seq::empty());
}

/// A page link is a link to the title of the page.
proof fn lemma_page_link(t: Seq<char>, st: StorageState)
    requires
        tags_are_lower(),
        !t.contains('"'),
        !t.contains('>'),
    ensures
        ({
            let inner = "ac:link ac:page-title=\""@ + t + seq!['"'];
            let name = text::lowercase(confluence::first_word(inner));
            &&& !inner.contains('>')
            &&& confluence::heading_level_spec(name) is None
            &&& confluence::after_tag(st, name, inner) == (StorageState {
                links: st.links.push(link_to(t, st.offset)),
                ..st
            })
        }),
{
    reveal_strlit("ac:link ac:page-title=\"");
    reveal_strlit("ac:link");
    reveal_strlit("ac:page-title");
    reveal_strlit("a");
    let front = "ac:link ac:page-title=\""@;
    let inner = front + t + seq!['"'];
    let w = seq!['a', 'c', ':', 'l', 'i', 'n', 'k'];
    let title = seq!['a', 'c', ':', 'p', 'a', 'g', 'e', '-', 't', 'i', 't', 'l', 'e'];
    assert("ac:link"@ =~= w);
    assert("ac:page-title"@ =~= title);
    assert(front.len() == 23);
    assert(front =~= w + seq![' '] + title + seq!['=', '"']);
    let rest = inner.skip(7);
    assert(inner =~= w + rest);
    assert forall|k: int| 0 <= k < w.len() implies !text::is_white_space(#[trigger] w[k]) by {
        text_laws::law_white_space(w[k]);
    }
    text_laws::law_white_space(' ');
    assert(rest[0] == ' ');
    lemma_first_word(w, rest);
    assert(!inner.contains('>')) by {
        if inner.contains('>') {
            let k = inner.index_of('>');
            if 23 <= k < 23 + t.len() {
                assert(inner[k] == t[k - 23]);
                assert(t.contains(t[k - 23]));
            } else if k < 23 {
                assert(inner[k] == front[k]);
            }
        }
    }
    assert("a"@.len() == 1 && "ac:link"@.len() == 7);
    if confluence::heading_level_spec("ac:link"@) is Some {
        let n = confluence::heading_level_spec("ac:link"@)->Some_0;
        law_heading_levels("ac:link"@, n);
    }
    let needle = title + seq!['=', '"'];
    let before = w + seq![' '];
    assert(inner =~= before + needle + t + seq!['"'] + Seq::<char>::empty());
    assert forall|k: int| 0 <= k < before.len() implies !#[trigger] text::occurs_at(
        inner,
        needle,
        k,
    ) by {
        if text::occurs_at(inner, needle, k) {
            let s = inner.subrange(k, k + needle.len());
            assert(s[0] == inner[k] && s[3] == inner[k + 3]);
            assert(needle[0] == 'a' && needle[3] == 'p');
            assert(before[k] == inner[k]);
        }
    }
    law_attribute(inner, before, needle, "ac:page-title"@, t, Seq::empty());
}

/// Another tag adds nothing.
proof fn lemma_mark(m: Seq<char>, st: StorageState)
    requires
        is_plain_piece(Piece::Mark(m)),
    ensures
        ({
            let name = text::lowercase(confluence::first_word(m));
            &&& confluence::heading_level_spec(name) is None
            &&& confluence::after_tag(st, name, m) == st
        }),
{
    let name = text::lowercase(confluence::first_word(m));
    if confluence::heading_level_spec(name) is Some {
        let n = confluence::heading_level_spec(name)->Some_0;
        law_heading_levels(name, n);
    }
}

/// The state once pieces are read.
spec fn behind(ps: Seq<Piece>, st: StorageState) -> StorageState {
    StorageState {
        links: st.links + links_in(ps, st.offset),
        body: st.body + encode_utf8(words_in(ps)),
        offset: st.offset + encode_utf8(words_in(ps)).len(),
        ..st
    }
}

proof fn lemma_encode_empty()
    ensures
        encode_utf8(Seq::<char>::empty()) == Seq::<u8>::empty(),
{
}

proof fn lemma_read_pieces(b: Seq<u8>, i: int, ps: Seq<Piece>, rest: Seq<u8>, st: StorageState)
    requires
        tags_are_lower(),
        forall|k: int| 0 <= k < ps.len() ==> is_plain_piece(#[trigger] ps[k]),
        0 <= i <= b.len(),
        b.skip(i) == encode_utf8(pieces_text(ps)) + rest,
    ensures
        confluence::read_from(b, i, st) == confluence::read_from(
            b,
            b.len() - rest.len(),
            behind(ps, st),
        ),
    decreases ps.len(),
{
    assert(b.skip(i).len() == b.len() - i);
    if ps.len() == 0 {
        lemma_encode_empty();
        assert(behind(ps, st).links =~= st.links);
        assert(behind(ps, st).body =~= st.body);
        assert(behind(ps, st) == st);
    } else {
        let p = ps[0];
        let more = ps.skip(1);
        assert(is_plain_piece(p));
        let head = encode_utf8(piece_text(p));
        let tail = encode_utf8(pieces_text(more)) + rest;
        text::lemma_encode_concat(piece_text(p), pieces_text(more));
        assert(b.skip(i) =~= head + tail);
        let j = b.len() - tail.len();
        assert(b.skip(j) =~= tail) by {
            assert(b.skip(i).skip(head.len() as int) =~= b.skip(j));
            assert((head + tail).skip(head.len() as int) =~= tail);
        }
        assert forall|k: int| 0 <= k < more.len() implies is_plain_piece(#[trigger] more[k]) by {
            assert(is_plain_piece(ps[k + 1]));
        }
        let next = match p {
            Piece::Words(w) => StorageState {
                body: st.body + head,
                offset: st.offset + head.len(),
                ..st
            },
            Piece::Anchor(u) => StorageState { links: st.links.push(link_to(u, st.offset)), ..st },
            Piece::PageLink(t) => StorageState {
                links: st.links.push(link_to(t, st.offset)),
                ..st
            },
            Piece::Mark(m) => st,
        };
        match p {
            Piece::Words(w) => {
                assert forall|k: int| i <= k < j implies #[trigger] b[k] != 60 && b[k] != 13 by {
                    assert(b.skip(i)[k - i] == b[k]);
                    assert((head + tail)[k - i] == head[k - i]);
                    text_laws::lemma_lacks_byte(w, '<');
                    text_laws::lemma_lacks_byte(w, '\r');
                }
                lemma_read_text(b, i, j, st);
                assert(b.subrange(i, j) =~= head) by {
                    assert forall|k: int| 0 <= k < head.len() implies b.subrange(i, j)[k]
                        == head[k] by {
                        assert(b.skip(i)[k] == (head + tail)[k]);
                    }
                }
                text::lemma_encode_concat(w, words_in(more));
            },
            Piece::Anchor(u) => {
                lemma_anchor(u, st);
                lemma_read_tag(b, i, "a href=\""@ + u + seq!['"'], tail, st);
            },
            Piece::PageLink(t) => {
                lemma_page_link(t, st);
                lemma_read_tag(b, i, "ac:link ac:page-title=\""@ + t + seq!['"'], tail, st);
            },
            Piece::Mark(m) => {
                lemma_mark(m, st);
                lemma_read_tag(b, i, m, tail, st);
            },
        }
        assert(confluence::read_from(b, i, st) == confluence::read_from(b, j, next));
        lemma_read_pieces(b, j, more, rest, next);
        assert(behind(more, next).links =~= behind(ps, st).links);
        assert(behind(more, next).body =~= behind(ps, st).body);
        assert(behind(more, next) == behind(ps, st));
    }
}

// ── Sections of pieces ──────────────────────────────────────────────────────

/// A section to be written: its level, its heading and the pieces of its text.
pub struct Part {
    pub level: u8,
    pub heading: Seq<char>,
    pub pieces: Seq<Piece>,
}

/// Whether a section can be written as it is.
pub open spec fn is_plain_part(p: Part) -> bool {
    &&& 1 <= p.level <= 6
    &&& text_laws::is_spaced(p.heading)
    &&& !p.heading.contains('<')
    &&& !p.heading.contains('>')
    &&& forall|k: int| 0 <= k < p.pieces.len() ==> is_plain_piece(#[trigger] p.pieces[k])
}

/// Sections in storage format.
pub open spec fn parts_text(list: Seq<Part>) -> Seq<char>
    decreases list.len(),
{
    if list.len() == 0 {
        Seq::empty()
    } else {
        opening(list[0].level) + list[0].heading + closing(list[0].level) + pieces_text(
            list[0].pieces,
        ) + parts_text(list.skip(1))
    }
}

/// Sections as they are read.
pub open spec fn parts_read(list: Seq<Part>) -> Seq<(Seq<char>, Seq<char>, u8)> {
    list.map_values(|p: Part| (p.heading, text::trim_spec(words_in(p.pieces)), p.level))
}

/// The links of sections, each with the number of bytes of the words before it.
pub open spec fn parts_links(list: Seq<Part>, offset: int) -> Seq<LinkView>
    decreases list.len(),
{
    if list.len() == 0 {
        Seq::empty()
    } else {
        links_in(list[0].pieces, offset) + parts_links(
            list.skip(1),
            offset + encode_utf8(words_in(list[0].pieces)).len(),
        )
    }
}

proof fn lemma_read_parts(b: Seq<u8>, i: int, list: Seq<Part>, st: StorageState)
    requires
        tags_are_lower(),
        forall|k: int| 0 <= k < list.len() ==> is_plain_part(#[trigger] list[k]),
        0 <= i <= b.len(),
        b.skip(i) == encode_utf8(parts_text(list)),
        valid_utf8(st.body),
        st.heading is None ==> list.len() > 0 ==> st.body.len() == 0,
    ensures
        confluence::read_from(b, i, st) matches Some(end) && confluence::commit(end).sections
            == confluence::commit(st).sections + parts_read(list) && confluence::commit(end).links
            == st.links + parts_links(list, st.offset),
    decreases list.len(),
{
    if list.len() == 0 {
        lemma_encode_empty();
        assert(b.skip(i).len() == b.len() - i);
        assert(parts_read(list) =~= Seq::empty());
        assert(confluence::commit(st).sections + parts_read(list) =~= confluence::commit(
            st,
        ).sections);
        assert(st.links + parts_links(list, st.offset) =~= st.links);
    } else {
        let p = list[0];
        let more = list.skip(1);
        assert(is_plain_part(p));
        let s = Section { level: p.level, heading: p.heading, body: Seq::empty() };
        assert(is_plain(s));
        assert(text::lowercase(heading_tag(p.level as int)) == heading_tag(p.level as int));
        let x = opening(p.level) + p.heading;
        let y = x + closing(p.level);
        let z = y + pieces_text(p.pieces);
        let tail = encode_utf8(parts_text(more));
        let body = encode_utf8(pieces_text(p.pieces));
        text::lemma_encode_concat(opening(p.level), p.heading);
        text::lemma_encode_concat(x, closing(p.level));
        text::lemma_encode_concat(y, pieces_text(p.pieces));
        text::lemma_encode_concat(z, parts_text(more));
        assert(parts_text(list) == z + parts_text(more));
        lemma_encode_empty();
        let head = encode_utf8(y);
        assert(b.skip(i) =~= head + encode_utf8(s.body) + (body + tail));
        lemma_read_section(b, i, s, body + tail, st);
        let done = confluence::commit(st);
        let open = StorageState {
            heading: Some((s.heading, s.level)),
            body: done.body + encode_utf8(s.body),
            offset: done.offset + encode_utf8(s.body).len(),
            ..done
        };
        assert(done.body.len() == 0);
        assert(open.body =~= Seq::<u8>::empty());
        let j = b.len() - (body + tail).len();
        assert(b.skip(i).len() == b.len() - i);
        assert(b.skip(j) =~= body + tail) by {
            assert(b.skip(i).skip(j - i) =~= b.skip(j));
            assert((head + encode_utf8(s.body) + (body + tail)).skip(j - i) =~= body + tail);
        }
        lemma_read_pieces(b, j, p.pieces, tail, open);
        let next = behind(p.pieces, open);
        let n = b.len() - tail.len();
        assert(b.skip(n) =~= tail) by {
            assert(b.skip(j).skip(n - j) =~= b.skip(n));
            assert((body + tail).skip(n - j) =~= tail);
        }
        let words = words_in(p.pieces);
        encode_utf8_valid_utf8(words);
        encode_utf8_decode_utf8(words);
        assert(next.body =~= encode_utf8(words));
        assert forall|k: int| 0 <= k < more.len() implies is_plain_part(#[trigger] more[k]) by {
            assert(is_plain_part(list[k + 1]));
        }
        lemma_read_parts(b, n, more, next);
        assert(confluence::commit(next).sections == done.sections.push(
            (p.heading, text::trim_spec(words), p.level),
        ));
        assert(confluence::commit(next).sections + parts_read(more) =~= done.sections + parts_read(
            list,
        ));
        assert(next.links + parts_links(more, next.offset) =~= st.links + parts_links(
            list,
            st.offset,
        ));
    }
}

/// Sections whose texts hold words, links and other tags are read back: each with its words, without
/// the tags, and each link with its target and its place among the words.
pub proof fn law_pieces_read_back(list: Seq<Part>)
    requires
        tags_are_lower(),
        forall|k: int| 0 <= k < list.len() ==> is_plain_part(#[trigger] list[k]),
    ensures
        confluence::storage_spec(encode_utf8(parts_text(list))) matches Some(st) && st.sections
            == parts_read(list) && st.links == parts_links(list, 0),
{
    let b = encode_utf8(parts_text(list));
    let start = StorageState {
        sections: Seq::empty(),
        links: Seq::empty(),
        heading: None,
        body: Seq::empty(),
        offset: 0,
    };
    assert(b.skip(0) =~= b);
    lemma_encode_empty();
    encode_utf8_valid_utf8(Seq::<char>::empty());
    lemma_read_parts(b, 0, list, start);
    assert(Seq::<(Seq<char>, Seq<char>, u8)>::empty() + parts_read(list) =~= parts_read(list));
    assert(Seq::<LinkView>::empty() + parts_links(list, 0) =~= parts_links(list, 0));
}

/// Links that stand before any heading are read as well.
pub proof fn law_links_without_heading(ps: Seq<Piece>)
    requires
        tags_are_lower(),
        forall|k: int| 0 <= k < ps.len() ==> is_plain_piece(#[trigger] ps[k]),
    ensures
        confluence::storage_spec(encode_utf8(pieces_text(ps))) matches Some(st)
            && st.sections.len() == 0 && st.links == links_in(ps, 0),
{
    let b = encode_utf8(pieces_text(ps));
    let start = StorageState {
        sections: Seq::empty(),
        links: Seq::empty(),
        heading: None,
        body: Seq::empty(),
        offset: 0,
    };
    assert(b.skip(0) =~= b + Seq::<u8>::empty());
    lemma_read_pieces(b, 0, ps, Seq::empty(), start);
    assert(behind(ps, start).links =~= links_in(ps, 0));
}

// ── Pages ───────────────────────────────────────────────────────────────────

/// The links and the sections of a page are those of its storage format. Behind the title and a line
/// break, each section takes the bytes of its heading and of its text, and a line break for each.
pub proof fn law_page_of_parts(
    doc: JsonView,
    title: Seq<char>,
    body: JsonView,
    storage: JsonView,
    list: Seq<Part>,
    j: int,
)
    requires
        tags_are_lower(),
        has_field(doc, "title"@, JsonView::Text(title)),
        has_field(doc, "body"@, body),
        has_field(body, "storage"@, storage),
        has_field(storage, "value"@, JsonView::Text(parts_text(list))),
        forall|k: int| 0 <= k < list.len() ==> is_plain_part(#[trigger] list[k]),
        confluence::page_spec(doc) is Ok,
        0 <= j < list.len(),
    ensures
        confluence::page_spec(doc)->Ok_0.links == parts_links(list, 0),
        ({
            let c = confluence::page_spec(doc)->Ok_0.chunks;
            let words = text::trim_spec(words_in(list[j].pieces));
            &&& c.len() == list.len() + 1
            &&& c[1].start == c[0].end + 1
            &&& c[j + 1].kind == ChunkKind::Section
            &&& c[j + 1].label == Some(list[j].heading)
            &&& c[j + 1].depth == list[j].level
            &&& c[j + 1].end - c[j + 1].start == encode_utf8(list[j].heading).len() + 1
                + encode_utf8(words).len() + 1
            &&& j + 1 < list.len() ==> c[j + 1].end == c[j + 2].start
        }),
{
    lemma_has_field(doc, "title"@, JsonView::Text(title));
    lemma_has_field(doc, "body"@, body);
    lemma_has_field(body, "storage"@, storage);
    lemma_has_field(storage, "value"@, JsonView::Text(parts_text(list)));
    law_pieces_read_back(list);
    let st = confluence::storage_spec(encode_utf8(parts_text(list)))->Some_0;
    let len = text::byte_len(title) as int;
    let rest = confluence::section_chunks(st.sections, 0, len + 1);
    let c = confluence::page_spec(doc)->Ok_0.chunks;
    lemma_section_chunks(st.sections, 0, len + 1, j);
    lemma_section_chunks(st.sections, 0, len + 1, 0);
    assert(c =~= seq![confluence::labelled_chunk(0, len, title, 1)] + rest);
    assert(c[j + 1] == rest[j]);
    assert(c[1] == rest[0]);
    if j + 1 < list.len() {
        assert(c[j + 2] == rest[j + 1]);
    }
    assert(st.sections[j] == (
        list[j].heading,
        text::trim_spec(words_in(list[j].pieces)),
        list[j].level,
    ));
}

/// Whether a value is an object without a field of a name.
pub open spec fn lacks_field(v: JsonView, name: Seq<char>) -> bool {
    v matches JsonView::Object(f) && forall|j: int| 0 <= j < f.len() ==> (#[trigger] f[j]).0 != name
}

proof fn lemma_lacks_field(f: Seq<(Seq<char>, JsonView)>, name: Seq<char>)
    requires
        forall|j: int| 0 <= j < f.len() ==> (#[trigger] f[j]).0 != name,
    ensures
        crate::json::field_index(f, name) is None,
    decreases f.len(),
{
    if f.len() > 0 {
        assert(f[f.len() - 1].0 != name);
        assert forall|j: int| 0 <= j < f.drop_last().len() implies (#[trigger] f.drop_last()[j]).0
            != name by {
            assert(f[j].0 != name);
        }
        lemma_lacks_field(f.drop_last(), name);
    }
}

/// A page without a title is untitled, and one without a text has no sections.
pub proof fn law_bare_page(doc: JsonView)
    requires
        lacks_field(doc, "title"@),
        lacks_field(doc, "body"@),
    ensures
        confluence::page_spec(doc) matches Ok(p) && p.chunks.len() == 1 && p.chunks[0].label == Some(
            "Untitled"@,
        ) && p.links.len() == 0,
{
    let f = doc->Object_0;
    lemma_lacks_field(f, "title"@);
    lemma_lacks_field(f, "body"@);
    reveal_strlit("");
    reveal_strlit("Untitled");
    lemma_encode_empty();
    assert(""@ =~= Seq::<char>::empty());
    assert(encode_utf8(""@).len() == 0);
    lemma_few_bytes("Untitled"@);
}

proof fn lemma_few_bytes(s: Seq<char>)
    ensures
        encode_utf8(s).len() <= 4 * s.len(),
    decreases s.len(),
{
    if s.len() > 0 {
        lemma_few_bytes(s.drop_first());
    }
}

// ── Tags in headings ────────────────────────────────────────────────────────

proof fn lemma_out(s: Seq<char>, i: int, e: int)
    requires
        0 <= i <= e <= s.len(),
        forall|k: int| i <= k < e ==> #[trigger] s[k] != '<' && s[k] != '>',
    ensures
        confluence::outside_tags(s, i, false) == s.subrange(i, e) + confluence::outside_tags(
            s,
            e,
            false,
        ),
    decreases e - i,
{
    if i < e {
        lemma_out(s, i + 1, e);
        assert(seq![s[i]] + s.subrange(i + 1, e) =~= s.subrange(i, e));
        assert(confluence::outside_tags(s, i, false) =~= s.subrange(i, e)
            + confluence::outside_tags(s, e, false));
    } else {
        assert(s.subrange(i, e) =~= Seq::<char>::empty());
        assert(s.subrange(i, e) + confluence::outside_tags(s, e, false)
            =~= confluence::outside_tags(s, e, false));
    }
}

proof fn lemma_in(s: Seq<char>, i: int, e: int)
    requires
        0 <= i <= e <= s.len(),
        forall|k: int| i <= k < e ==> #[trigger] s[k] != '<' && s[k] != '>',
    ensures
        confluence::outside_tags(s, i, true) == confluence::outside_tags(s, e, true),
    decreases e - i,
{
    if i < e {
        lemma_in(s, i + 1, e);
    }
}

/// A heading is read without the tags in it.
pub proof fn law_tags_left_out(a: Seq<char>, inner: Seq<char>, b: Seq<char>)
    requires
        !a.contains('<') && !a.contains('>'),
        !inner.contains('<') && !inner.contains('>'),
        !b.contains('<') && !b.contains('>'),
        text_laws::is_spaced(a + b),
    ensures
        confluence::strip_tags_spec(a + seq!['<'] + inner + seq!['>'] + b) == a + b,
{
    let s = a + seq!['<'] + inner + seq!['>'] + b;
    let n = a.len() as int;
    let m = inner.len() as int;
    let z = s.len() as int;
    assert forall|k: int| 0 <= k < n implies #[trigger] s[k] != '<' && s[k] != '>' by {
        assert(s[k] == a[k]);
        assert(a.contains(a[k]));
    }
    assert forall|k: int| n + 1 <= k < n + 1 + m implies #[trigger] s[k] != '<' && s[k] != '>' by {
        assert(s[k] == inner[k - n - 1]);
        assert(inner.contains(inner[k - n - 1]));
    }
    assert forall|k: int| n + m + 2 <= k < z implies #[trigger] s[k] != '<' && s[k] != '>' by {
        assert(s[k] == b[k - n - m - 2]);
        assert(b.contains(b[k - n - m - 2]));
    }
    assert(s[n] == '<' && s[n + 1 + m] == '>');
    lemma_out(s, 0, n);
    lemma_in(s, n + 1, n + 1 + m);
    lemma_out(s, n + m + 2, z);
    assert(confluence::outside_tags(s, z, false) =~= Seq::<char>::empty());
    assert(confluence::outside_tags(s, 0, false) =~= a + b);
    text_laws::law_words_joined(a + b);
}

// ── Listings ────────────────────────────────────────────────────────────────

/// The value of a digit.
pub open spec fn digit_at(b: Seq<u8>, k: int) -> int {
    b[k] - 48
}

/// Whether digits stand in a part of some bytes.
pub open spec fn are_digits(b: Seq<u8>, from: int, to: int) -> bool {
    forall|k: int| from <= k < to ==> 48 <= #[trigger] b[k] <= 57
}

/// The date of a page counts years of 365 and months of 30 days, and seconds in the day.
pub proof fn law_updated(
    page: JsonView,
    version: JsonView,
    when: Seq<char>,
    b: Seq<u8>,
)
    requires
        has_field(page, "version"@, version),
        has_field(version, "when"@, JsonView::Text(when)),
        b == encode_utf8(when),
        b.len() >= 19,
        are_digits(b, 0, 4) && are_digits(b, 5, 7) && are_digits(b, 8, 10),
        are_digits(b, 11, 13) && are_digits(b, 14, 16) && are_digits(b, 17, 19),
    ensures
        ({
            let year = 1000 * digit_at(b, 0) + 100 * digit_at(b, 1) + 10 * digit_at(b, 2)
                + digit_at(b, 3);
            let month = 10 * digit_at(b, 5) + digit_at(b, 6);
            let day = 10 * digit_at(b, 8) + digit_at(b, 9);
            let hour = 10 * digit_at(b, 11) + digit_at(b, 12);
            let minute = 10 * digit_at(b, 14) + digit_at(b, 15);
            let second = 10 * digit_at(b, 17) + digit_at(b, 18);
            confluence::updated_moment(confluence::updated_text(page)) == ((year - 1970) * 365 + (
            month - 1) * 30 + (day - 1)) * 86400 + hour * 3600 + minute * 60 + second
        }),
{
    lemma_has_field(page, "version"@, version);
    lemma_has_field(version, "when"@, JsonView::Text(when));
    lemma_four(b.subrange(0, 4));
    lemma_two(b.subrange(5, 7));
    lemma_two(b.subrange(8, 10));
    lemma_two(b.subrange(11, 13));
    lemma_two(b.subrange(14, 16));
    lemma_two(b.subrange(17, 19));
}

proof fn lemma_two(b: Seq<u8>)
    requires
        b.len() == 2,
        48 <= b[0] <= 57,
        48 <= b[1] <= 57,
    ensures
        dates::number_value(b) == Some(10 * (b[0] - 48) + (b[1] - 48)),
{
    reveal_with_fuel(dates::digits_value, 3);
}

proof fn lemma_four(b: Seq<u8>)
    requires
        b.len() == 4,
        48 <= b[0] <= 57,
        48 <= b[1] <= 57,
        48 <= b[2] <= 57,
        48 <= b[3] <= 57,
    ensures
        dates::number_value(b) == Some(
            1000 * (b[0] - 48) + 100 * (b[1] - 48) + 10 * (b[2] - 48) + (b[3] - 48),
        ),
{
    reveal_with_fuel(dates::digits_value, 5);
}

/// A path is that of a page where it has the extension or the scheme of one.
pub proof fn law_page_paths(p: Seq<char>, rest: Seq<char>)
    ensures
        paths::extension_spec(p) == Some("confluence"@) ==> confluence::is_confluence_path(p),
        confluence::is_confluence_path("confluence://"@ + rest),
        confluence::is_confluence_path(p) ==> paths::extension_spec(p) == Some("confluence"@)
            || exists|r: Seq<char>| p == #[trigger] ("confluence://"@ + r),
{
    text_laws::law_starts_with("confluence://"@, rest);
    if text::starts_with_spec(p, "confluence://"@) {
        let n = "confluence://"@.len() as int;
        assert(p =~= "confluence://"@ + p.skip(n));
    }
}

/// A page of a listing without a title is untitled. A listing without links has no more pages.
pub proof fn law_bare_listing(page: JsonView, listing: JsonView, space: Seq<char>, base: Seq<char>)
    ensures
        lacks_field(page, "title"@) ==> confluence::item_spec(page, space).title == "Untitled"@,
        lacks_field(page, "version"@) ==> confluence::item_spec(page, space).updated_at == 0,
        lacks_field(listing, "_links"@) ==> confluence::next_url_spec(base, listing) is None,
        lacks_field(listing, "results"@) ==> confluence::listed_pages(listing).len() == 0,
{
    if lacks_field(page, "title"@) {
        lemma_lacks_field(page->Object_0, "title"@);
    }
    if lacks_field(page, "version"@) {
        lemma_lacks_field(page->Object_0, "version"@);
        reveal_strlit("");
        lemma_encode_empty();
        assert(""@ =~= Seq::<char>::empty());
        assert(encode_utf8(""@).len() == 0);
    }
    if lacks_field(listing, "_links"@) {
        lemma_lacks_field(listing->Object_0, "_links"@);
    }
    if lacks_field(listing, "results"@) {
        lemma_lacks_field(listing->Object_0, "results"@);
    }
}

/// What is no JSON is no page.
pub proof fn law_page_bytes(bytes: Seq<u8>)
    ensures
        match crate::json::json_document(bytes) {
            Ok(doc) => confluence::confluence_outcome(bytes) == confluence::page_spec(doc),
            Err(e) => confluence::confluence_outcome(bytes) == Err::<
                crate::types::ParseView,
                crate::types::ParseErrorView,
            >(crate::types::ParseErrorView::BadFrontmatter("confluence JSON: "@ + e)),
        },
{
}

} // verus!
