//! What is read of Confluence pages.

use vstd::prelude::*;
use vstd::utf8::*;

use crate::confluence;
use crate::confluence::StorageState;
use crate::json;
use crate::json::JsonView;
use crate::text;
use crate::text_laws;
use crate::types::{ChunkKind, DocType};

verus! {

// ── Headings ────────────────────────────────────────────────────────────────

/// The name of the tag of a heading.
pub open spec fn heading_tag(level: int) -> Seq<char> {
    seq!['h', (48 + level) as u8 as char]
}

/// The six heading tags have the levels 1 to 6, and no other tag has a level.
pub proof fn law_heading_levels(tag: Seq<char>, level: u8)
    ensures
        1 <= level <= 6 ==> confluence::heading_level_spec(heading_tag(level as int)) == Some(level),
        confluence::heading_level_spec(tag) == Some(level) ==> 1 <= level <= 6 && tag
            == heading_tag(level as int),
{
    reveal_strlit("h1");
    reveal_strlit("h2");
    reveal_strlit("h3");
    reveal_strlit("h4");
    reveal_strlit("h5");
    reveal_strlit("h6");
    assert("h1"@ =~= heading_tag(1));
    assert("h2"@ =~= heading_tag(2));
    assert("h3"@ =~= heading_tag(3));
    assert("h4"@ =~= heading_tag(4));
    assert("h5"@ =~= heading_tag(5));
    assert("h6"@ =~= heading_tag(6));
    assert("h1"@[1] == '1' && "h2"@[1] == '2' && "h3"@[1] == '3' && "h4"@[1] == '4' && "h5"@[1]
        == '5' && "h6"@[1] == '6');
}

/// A section to be written: its level, its heading and its text.
pub struct Section {
    pub level: u8,
    pub heading: Seq<char>,
    pub body: Seq<char>,
}

/// Whether a section can be written as it is: its heading is a line of words, and neither holds a
/// tag.
pub open spec fn is_plain(s: Section) -> bool {
    &&& 1 <= s.level <= 6
    &&& text_laws::is_spaced(s.heading)
    &&& !s.heading.contains('<')
    &&& !s.heading.contains('>')
    &&& !s.body.contains('<')
    &&& !s.body.contains('\r')
}

/// The tag that opens a heading.
pub open spec fn opening(level: u8) -> Seq<char> {
    seq!['<', 'h', (48 + level) as u8 as char, '>']
}

/// The tag that closes a heading.
pub open spec fn closing(level: u8) -> Seq<char> {
    seq!['<', '/', 'h', (48 + level) as u8 as char, '>']
}

/// Sections in storage format.
pub open spec fn written(list: Seq<Section>) -> Seq<char>
    decreases list.len(),
{
    if list.len() == 0 {
        Seq::empty()
    } else {
        opening(list[0].level) + list[0].heading + closing(list[0].level) + list[0].body + written(
            list.skip(1),
        )
    }
}

/// Sections as they are read.
pub open spec fn as_read(list: Seq<Section>) -> Seq<(Seq<char>, Seq<char>, u8)> {
    list.map_values(|s: Section| (s.heading, text::trim_spec(s.body), s.level))
}

proof fn lemma_tag_bytes(level: u8)
    requires
        1 <= level <= 6,
    ensures
        encode_utf8(opening(level)) == seq![60u8, 104, (48 + level) as u8, 62],
        encode_utf8(closing(level)) == seq![60u8, 47, 104, (48 + level) as u8, 62],
{
    let d = (48 + level) as u8 as char;
    text_laws::lemma_ascii_char('<');
    text_laws::lemma_ascii_char('/');
    text_laws::lemma_ascii_char('h');
    text_laws::lemma_ascii_char(d);
    text_laws::lemma_ascii_char('>');
    let a = seq!['<'] + seq!['h'];
    let b = a + seq![d];
    let c = b + seq!['>'];
    text::lemma_encode_concat(seq!['<'], seq!['h']);
    text::lemma_encode_concat(a, seq![d]);
    text::lemma_encode_concat(b, seq!['>']);
    assert(c =~= opening(level));
    assert(encode_utf8(c) =~= seq![60u8, 104, (48 + level) as u8, 62]);
    let e = seq!['<'] + seq!['/'];
    let f = e + seq!['h'];
    let g = f + seq![d];
    let h = g + seq!['>'];
    text::lemma_encode_concat(seq!['<'], seq!['/']);
    text::lemma_encode_concat(e, seq!['h']);
    text::lemma_encode_concat(f, seq![d]);
    text::lemma_encode_concat(g, seq!['>']);
    assert(h =~= closing(level));
    assert(encode_utf8(h) =~= seq![60u8, 47, 104, (48 + level) as u8, 62]);
}

/// Text is taken byte by byte.
pub proof fn lemma_read_text(b: Seq<u8>, i: int, j: int, st: StorageState)
    requires
        0 <= i <= j <= b.len(),
        forall|k: int| i <= k < j ==> #[trigger] b[k] != 60 && b[k] != 13,
    ensures
        confluence::read_from(b, i, st) == confluence::read_from(
            b,
            j,
            StorageState {
                body: st.body + b.subrange(i, j),
                offset: st.offset + (j - i),
                ..st
            },
        ),
    decreases j - i,
{
    if i < j {
        let next = StorageState { body: st.body.push(b[i]), offset: st.offset + 1, ..st };
        lemma_read_text(b, i + 1, j, next);
        assert(st.body.push(b[i]) + b.subrange(i + 1, j) =~= st.body + b.subrange(i, j));
    } else {
        assert(st.body + b.subrange(i, j) =~= st.body);
        assert(st =~= StorageState {
            body: st.body + b.subrange(i, j),
            offset: st.offset + (j - i),
            ..st
        });
    }
}

proof fn lemma_heading_end(b: Seq<u8>, i: int, end: int, level: u8)
    requires
        0 <= i <= end,
        end + 5 <= b.len(),
        confluence::heading_closes_at(b, end, level),
        forall|k: int| i <= k < end ==> #[trigger] b[k] != 60,
    ensures
        confluence::heading_end(b, i, level) == end,
    decreases end - i,
{
    if i < end {
        assert(b[i] != 60);
        lemma_heading_end(b, i + 1, end, level);
    }
}

proof fn lemma_outside(s: Seq<char>, i: int)
    requires
        0 <= i <= s.len(),
        !s.contains('<'),
        !s.contains('>'),
    ensures
        confluence::outside_tags(s, i, false) == s.skip(i),
    decreases s.len() - i,
{
    if i < s.len() {
        assert(s.contains(s[i]));
        lemma_outside(s, i + 1);
        assert(seq![s[i]] + s.skip(i + 1) =~= s.skip(i));
    } else {
        assert(s.skip(i) =~= Seq::<char>::empty());
    }
}

proof fn lemma_heading_text(h: Seq<char>)
    requires
        text_laws::is_spaced(h),
        !h.contains('<'),
        !h.contains('>'),
    ensures
        confluence::strip_tags_spec(h) == h,
{
    lemma_outside(h, 0);
    assert(h.skip(0) =~= h);
    text_laws::law_words_joined(h);
}

/// A heading opens a section, and the text behind it is collected for it.
pub proof fn lemma_read_section(b: Seq<u8>, i: int, s: Section, rest: Seq<u8>, st: StorageState)
    requires
        is_plain(s),
        text::lowercase(heading_tag(s.level as int)) == heading_tag(s.level as int),
        0 <= i <= b.len(),
        b.skip(i) == encode_utf8(opening(s.level)) + encode_utf8(s.heading) + encode_utf8(
            closing(s.level),
        ) + encode_utf8(s.body) + rest,
    ensures
        ({
            let done = confluence::commit(st);
            confluence::read_from(b, i, st) == confluence::read_from(
                b,
                b.len() - rest.len(),
                StorageState {
                    heading: Some((s.heading, s.level)),
                    body: done.body + encode_utf8(s.body),
                    offset: done.offset + encode_utf8(s.body).len(),
                    ..done
                },
            )
        }),
{
    let h = encode_utf8(s.heading);
    let t = encode_utf8(s.body);
    let n = h.len() as int;
    let m = t.len() as int;
    lemma_tag_bytes(s.level);
    let all = encode_utf8(opening(s.level)) + h + encode_utf8(closing(s.level)) + t + rest;
    assert(b.skip(i).len() == b.len() - i);
    assert(all.len() == 9 + n + m + rest.len());
    assert forall|k: int| 0 <= k < all.len() implies b[i + k] == #[trigger] all[k] by {
        assert(b.skip(i)[k] == b[i + k]);
    }
    assert(all[0] == 60 && all[1] == 104 && all[2] == 48 + s.level && all[3] == 62);
    assert(b[i] == 60 && b[i + 1] == 104 && b[i + 2] == 48 + s.level && b[i + 3] == 62);
    let e = i + 3;
    assert(confluence::next_byte(b, 62, i) == e) by {
        reveal_with_fuel(confluence::next_byte, 5);
    }
    let tag = heading_tag(s.level as int);
    assert(b.subrange(i + 1, e) =~= seq![104u8, (48 + s.level) as u8]);
    assert(encode_utf8(tag) =~= seq![104u8, (48 + s.level) as u8]) by {
        let d = (48 + s.level) as u8 as char;
        text_laws::lemma_ascii_char('h');
        text_laws::lemma_ascii_char(d);
        text::lemma_encode_concat(seq!['h'], seq![d]);
        assert(tag =~= seq!['h'] + seq![d]);
    }
    encode_utf8_valid_utf8(tag);
    encode_utf8_decode_utf8(tag);
    let attrs = confluence::text_of_bytes(b.subrange(i + 1, e));
    assert(attrs == tag);
    text_laws::lemma_one_word(tag);
    assert(confluence::first_word(attrs) == tag);
    law_heading_levels(tag, s.level);
    let end = e + 1 + n;
    assert forall|k: int| e + 1 <= k < end implies #[trigger] b[k] != 60 by {
        text_laws::lemma_lacks_byte(s.heading, '<');
        assert(b[i + (k - i)] == all[k - i]);
        assert(all[k - i] == h[k - i - 4]);
    }
    assert(all[4 + n] == 60 && all[5 + n] == 47 && all[6 + n] == 104 && all[7 + n] == 48 + s.level
        && all[8 + n] == 62);
    assert(b[i + (4 + n)] == 60 && b[i + (5 + n)] == 47 && b[i + (6 + n)] == 104 && b[i + (7 + n)]
        == 48 + s.level && b[i + (8 + n)] == 62);
    lemma_heading_end(b, e + 1, end, s.level);
    assert(b.subrange(e + 1, end) =~= h) by {
        assert forall|k: int| 0 <= k < n implies b.subrange(e + 1, end)[k] == h[k] by {
            assert(b[i + (4 + k)] == all[4 + k]);
        }
    }
    encode_utf8_valid_utf8(s.heading);
    encode_utf8_decode_utf8(s.heading);
    lemma_heading_text(s.heading);
    let done = confluence::commit(st);
    let open = StorageState { heading: Some((s.heading, s.level)), ..done };
    assert(confluence::read_from(b, i, st) == confluence::read_from(b, end + 5, open));
    let stop = end + 5 + m;
    assert forall|k: int| end + 5 <= k < stop implies #[trigger] b[k] != 60 && b[k] != 13 by {
        text_laws::lemma_lacks_byte(s.body, '<');
        text_laws::lemma_lacks_byte(s.body, '\r');
        assert(b[i + (k - i)] == all[k - i]);
        assert(all[k - i] == t[k - i - 9 - n]);
    }
    lemma_read_text(b, end + 5, stop, open);
    assert(b.subrange(end + 5, stop) =~= t) by {
        assert forall|k: int| 0 <= k < m implies b.subrange(end + 5, stop)[k] == t[k] by {
            assert(b[i + (9 + n + k)] == all[9 + n + k]);
        }
    }
    assert(stop == b.len() - rest.len());
}

/// The state once the open section is finished, as far as it is stated.
proof fn lemma_read_sections(b: Seq<u8>, i: int, list: Seq<Section>, st: StorageState)
    requires
        forall|k: int| 0 <= k < list.len() ==> is_plain(#[trigger] list[k]),
        forall|n: int|
            1 <= n <= 6 ==> text::lowercase(#[trigger] heading_tag(n)) == heading_tag(n),
        0 <= i <= b.len(),
        b.skip(i) == encode_utf8(written(list)),
        valid_utf8(st.body),
        st.heading is None ==> st.body.len() == 0,
    ensures
        confluence::read_from(b, i, st) matches Some(end) && confluence::commit(end).sections
            == confluence::commit(st).sections + as_read(list) && confluence::commit(end).links
            == st.links,
    decreases list.len(),
{
    if list.len() == 0 {
        assert(b.skip(i).len() == 0);
        assert(as_read(list) =~= Seq::empty());
        assert(confluence::commit(st).sections + as_read(list) =~= confluence::commit(st).sections);
    } else {
        let s = list[0];
        let rest = list.skip(1);
        assert(is_plain(s));
        let x = opening(s.level) + s.heading;
        let y = x + closing(s.level);
        let z = y + s.body;
        text::lemma_encode_concat(opening(s.level), s.heading);
        text::lemma_encode_concat(x, closing(s.level));
        text::lemma_encode_concat(y, s.body);
        text::lemma_encode_concat(z, written(rest));
        assert(written(list) == z + written(rest));
        let tail = encode_utf8(written(rest));
        assert(text::lowercase(heading_tag(s.level as int)) == heading_tag(s.level as int));
        lemma_read_section(b, i, s, tail, st);
        let done = confluence::commit(st);
        let next = StorageState {
            heading: Some((s.heading, s.level)),
            body: done.body + encode_utf8(s.body),
            offset: done.offset + encode_utf8(s.body).len(),
            ..done
        };
        assert(done.body.len() == 0);
        assert(next.body =~= encode_utf8(s.body));
        encode_utf8_valid_utf8(s.body);
        encode_utf8_decode_utf8(s.body);
        let j = b.len() - tail.len();
        assert(b.skip(i).len() == b.len() - i);
        assert(b.skip(j) =~= tail) by {
            let whole = encode_utf8(written(list));
            assert(whole.skip(j - i) =~= tail);
            assert(b.skip(i).skip(j - i) =~= b.skip(j));
        }
        assert forall|k: int| 0 <= k < rest.len() implies is_plain(#[trigger] rest[k]) by {
            assert(is_plain(list[k + 1]));
        }
        lemma_read_sections(b, j, rest, next);
        assert(confluence::commit(next).sections == done.sections.push(
            (s.heading, text::trim_spec(s.body), s.level),
        ));
        assert(confluence::commit(next).sections + as_read(rest) =~= done.sections + as_read(list));
    }
}

/// Sections that are written in storage format, at any of the six levels, are read back: as many,
/// in order, with their headings, their levels and their texts without the white space around them.
pub proof fn law_sections_read_back(list: Seq<Section>)
    requires
        forall|k: int| 0 <= k < list.len() ==> is_plain(#[trigger] list[k]),
        forall|n: int|
            1 <= n <= 6 ==> text::lowercase(#[trigger] heading_tag(n)) == heading_tag(n),
    ensures
        confluence::storage_spec(encode_utf8(written(list))) matches Some(st) && st.sections
            == as_read(list) && st.links.len() == 0,
{
    let b = encode_utf8(written(list));
    let start = StorageState {
        sections: Seq::empty(),
        links: Seq::empty(),
        heading: None,
        body: Seq::empty(),
        offset: 0,
    };
    assert(b.skip(0) =~= b);
    lemma_read_sections(b, 0, list, start);
    assert(Seq::<(Seq<char>, Seq<char>, u8)>::empty() + as_read(list) =~= as_read(list));
}

// ── Links ───────────────────────────────────────────────────────────────────

/// The value of an attribute is what stands between the quotes behind its name.
pub proof fn law_attribute(
    s: Seq<char>,
    before: Seq<char>,
    needle: Seq<char>,
    name: Seq<char>,
    value: Seq<char>,
    after: Seq<char>,
)
    requires
        needle == name + seq!['=', '"'],
        s == before + needle + value + seq!['"'] + after,
        !value.contains('"'),
        forall|k: int| 0 <= k < before.len() ==> !#[trigger] text::occurs_at(s, needle, k),
    ensures
        confluence::attr_spec(s, name) == Some(value),
{
    reveal_strlit("=\"");
    assert(name + "=\""@ =~= needle);
    reveal_strlit("\"");
    assert("\""@ =~= seq!['"']);
    let p = before.len() as int;
    assert(s.subrange(p, p + needle.len()) =~= needle);
    text::lemma_find(s, needle, 0);
    assert(text::occurs_at(s, needle, p));
    let q = text::find_spec(s, needle, 0)->Some_0;
    assert(q == p);
    let start = p + needle.len();
    let e = start + value.len();
    text::lemma_find(s, seq!['"'], start);
    assert(s.subrange(e, e + 1) =~= seq!['"']);
    assert(text::occurs_at(s, seq!['"'], e));
    let f = text::find_spec(s, seq!['"'], start)->Some_0;
    if f < e {
        assert(s.subrange(f, f + 1)[0] == s[f]);
        assert(s[f] == value[f - start]);
        assert(value.contains(value[f - start]));
    }
    assert(f == e);
    assert(s.subrange(start, e) =~= value);
}

// ── Pages ───────────────────────────────────────────────────────────────────

/// Whether a value is an object whose field of a name is another value.
pub open spec fn has_field(v: JsonView, name: Seq<char>, x: JsonView) -> bool {
    v matches JsonView::Object(f) && exists|i: int|
        0 <= i < f.len() && #[trigger] f[i] == (name, x) && forall|j: int|
            i < j < f.len() ==> (#[trigger] f[j]).0 != name
}

proof fn lemma_field_at(f: Seq<(Seq<char>, JsonView)>, name: Seq<char>, i: int)
    requires
        0 <= i < f.len(),
        f[i].0 == name,
        forall|j: int| i < j < f.len() ==> (#[trigger] f[j]).0 != name,
    ensures
        json::field_index(f, name) == Some(i),
    decreases f.len(),
{
    if i < f.len() - 1 {
        assert(f[f.len() - 1].0 != name);
        assert(f.drop_last()[i] == f[i]);
        lemma_field_at(f.drop_last(), name, i);
    }
}

pub proof fn lemma_has_field(v: JsonView, name: Seq<char>, x: JsonView)
    requires
        has_field(v, name, x),
    ensures
        confluence::get_spec(Some(v), name) == Some(x),
{
    let f = v->Object_0;
    let i = choose|i: int|
        0 <= i < f.len() && #[trigger] f[i] == (name, x) && forall|j: int|
            i < j < f.len() ==> (#[trigger] f[j]).0 != name;
    lemma_field_at(f, name, i);
}

/// Whether a page has a title and sections in its storage format.
pub open spec fn is_page(
    doc: JsonView,
    title: Seq<char>,
    body: JsonView,
    storage: JsonView,
    list: Seq<Section>,
) -> bool {
    &&& has_field(doc, "title"@, JsonView::Text(title))
    &&& has_field(doc, "body"@, body)
    &&& has_field(body, "storage"@, storage)
    &&& has_field(storage, "value"@, JsonView::Text(written(list)))
    &&& forall|k: int| 0 <= k < list.len() ==> is_plain(#[trigger] list[k])
}

pub proof fn lemma_section_chunks(
    sections: Seq<(Seq<char>, Seq<char>, u8)>,
    k: int,
    offset: int,
    j: int,
)
    requires
        0 <= k <= j < sections.len(),
    ensures
        confluence::section_chunks(sections, k, offset).len() == sections.len() - k,
        ({
            let c = confluence::section_chunks(sections, k, offset)[j - k];
            &&& c.kind == ChunkKind::Section
            &&& c.label == Some(sections[j].0)
            &&& c.depth == sections[j].2
            &&& offset <= c.start < c.end
            &&& j == k ==> c.start == offset
            &&& j + 1 < sections.len() ==> c.end == confluence::section_chunks(
                sections,
                k,
                offset,
            )[j + 1 - k].start
            &&& c.end - c.start == encode_utf8(sections[j].0).len() + 1 + encode_utf8(
                sections[j].1,
            ).len() + 1
        }),
    decreases sections.len() - k,
{
    let end = offset + confluence::section_len(sections[k]);
    let rest = confluence::section_chunks(sections, k + 1, end);
    let all = confluence::section_chunks(sections, k, offset);
    lemma_section_count(sections, k + 1, end);
    assert(all[0] == confluence::labelled_chunk(offset, end, sections[k].0, sections[k].2));
    if j > k {
        lemma_section_chunks(sections, k + 1, end, j);
        assert(all[j - k] == rest[j - k - 1]);
        if j + 1 < sections.len() {
            assert(all[j + 1 - k] == rest[j - k]);
        }
    } else if k + 1 < sections.len() {
        lemma_section_chunks(sections, k + 1, end, k + 1);
        assert(all[1] == rest[0]);
    }
}

proof fn lemma_section_count(sections: Seq<(Seq<char>, Seq<char>, u8)>, k: int, offset: int)
    requires
        0 <= k <= sections.len(),
    ensures
        confluence::section_chunks(sections, k, offset).len() == sections.len() - k,
    decreases sections.len() - k,
{
    if k < sections.len() {
        lemma_section_count(sections, k + 1, offset + confluence::section_len(sections[k]));
    }
}

/// A page has one chunk for its title and one for each section, with its heading and its level. They
/// do not overlap.
pub proof fn law_page_chunks(
    doc: JsonView,
    title: Seq<char>,
    body: JsonView,
    storage: JsonView,
    list: Seq<Section>,
    j: int,
)
    requires
        is_page(doc, title, body, storage, list),
        forall|n: int|
            1 <= n <= 6 ==> text::lowercase(#[trigger] heading_tag(n)) == heading_tag(n),
        confluence::page_spec(doc) is Ok,
        0 <= j < list.len(),
    ensures
        ({
            let c = confluence::page_spec(doc)->Ok_0.chunks;
            &&& c.len() == list.len() + 1
            &&& c[0].label == Some(title)
            &&& c[0].depth == 1
            &&& c[0].kind == ChunkKind::Section
            &&& c[0].start == 0
            &&& c[0].end == encode_utf8(title).len()
            &&& c[j + 1].kind == ChunkKind::Section
            &&& c[j + 1].label == Some(list[j].heading)
            &&& c[j + 1].depth == list[j].level
            &&& c[j].end <= c[j + 1].start < c[j + 1].end
        }),
        confluence::page_spec(doc)->Ok_0.auto_type == Some(DocType::Note),
{
    lemma_has_field(doc, "title"@, JsonView::Text(title));
    lemma_has_field(doc, "body"@, body);
    lemma_has_field(body, "storage"@, storage);
    lemma_has_field(storage, "value"@, JsonView::Text(written(list)));
    law_sections_read_back(list);
    let st = confluence::storage_spec(encode_utf8(written(list)))->Some_0;
    let len = text::byte_len(title) as int;
    let rest = confluence::section_chunks(st.sections, 0, len + 1);
    let c = confluence::page_spec(doc)->Ok_0.chunks;
    lemma_section_chunks(st.sections, 0, len + 1, j);
    assert(c =~= seq![confluence::labelled_chunk(0, len, title, 1)] + rest);
    assert(c[j + 1] == rest[j]);
    assert(st.sections[j] == (list[j].heading, text::trim_spec(list[j].body), list[j].level));
    if j > 0 {
        lemma_section_chunks(st.sections, 0, len + 1, j - 1);
        assert(c[j] == rest[j - 1]);
    }
}

proof fn lemma_tag_of(
    xs: Seq<JsonView>,
    i: int,
    name: Seq<char>,
    prefix: Seq<char>,
    slugged: bool,
    k: int,
    x: Seq<char>,
)
    requires
        0 <= i <= k < xs.len(),
        has_field(xs[k], name, JsonView::Text(x)),
    ensures
        !slugged ==> confluence::tags_from(xs, i, name, prefix, slugged).contains(prefix + x),
        slugged ==> confluence::tags_from(xs, i, name, prefix, slugged).contains(
            prefix + confluence::slug_spec(x),
        ),
    decreases xs.len() - i,
{
    let rest = confluence::tags_from(xs, i + 1, name, prefix, slugged);
    let all = confluence::tags_from(xs, i, name, prefix, slugged);
    let tag = prefix + if slugged {
        confluence::slug_spec(x)
    } else {
        x
    };
    if i == k {
        lemma_has_field(xs[k], name, JsonView::Text(x));
        assert(all[0] == tag);
    } else {
        lemma_tag_of(xs, i + 1, name, prefix, slugged, k, x);
        let j = rest.index_of(tag);
        if all.len() == rest.len() {
            assert(all[j] == tag);
        } else {
            assert(all[j + 1] == tag);
        }
    }
}

/// A page is tagged with its source, its space, each of its labels and each of its ancestors.
pub proof fn law_page_tags(
    doc: JsonView,
    space: JsonView,
    key: Seq<char>,
    metadata: JsonView,
    labels: JsonView,
    results: Seq<JsonView>,
    label: Seq<char>,
    ancestors: Seq<JsonView>,
    title: Seq<char>,
    i: int,
    j: int,
)
    requires
        has_field(doc, "space"@, space),
        has_field(space, "key"@, JsonView::Text(key)),
        has_field(doc, "metadata"@, metadata),
        has_field(metadata, "labels"@, labels),
        has_field(labels, "results"@, JsonView::Array(results)),
        has_field(doc, "ancestors"@, JsonView::Array(ancestors)),
        0 <= i < results.len(),
        has_field(results[i], "name"@, JsonView::Text(label)),
        0 <= j < ancestors.len(),
        has_field(ancestors[j], "title"@, JsonView::Text(title)),
        confluence::page_spec(doc) is Ok,
    ensures
        ({
            let tags = confluence::page_spec(doc)->Ok_0.tags;
            &&& tags.contains("source:confluence"@)
            &&& tags.contains("confluence:space:"@ + key)
            &&& tags.contains("tag:"@ + label)
            &&& tags.contains("confluence:parent:"@ + confluence::slug_spec(title))
        }),
{
    lemma_has_field(doc, "space"@, space);
    lemma_has_field(space, "key"@, JsonView::Text(key));
    lemma_has_field(doc, "metadata"@, metadata);
    lemma_has_field(metadata, "labels"@, labels);
    lemma_has_field(labels, "results"@, JsonView::Array(results));
    lemma_has_field(doc, "ancestors"@, JsonView::Array(ancestors));
    lemma_tag_of(results, 0, "name"@, "tag:"@, false, i, label);
    lemma_tag_of(ancestors, 0, "title"@, "confluence:parent:"@, true, j, title);
    let head = seq!["source:confluence"@, "confluence:space:"@ + key];
    let a = confluence::tags_from(results, 0, "name"@, "tag:"@, false);
    let b = confluence::tags_from(ancestors, 0, "title"@, "confluence:parent:"@, true);
    let tags = confluence::page_spec(doc)->Ok_0.tags;
    assert(tags =~= head + a + b);
    assert(tags[0] == head[0]);
    assert(tags[1] == head[1]);
    let p = a.index_of("tag:"@ + label);
    assert(tags[2 + p] == a[p]);
    let q = b.index_of("confluence:parent:"@ + confluence::slug_spec(title));
    assert(tags[2 + a.len() + q] == b[q]);
}

// ── Slugs ───────────────────────────────────────────────────────────────────

/// A slug neither begins nor ends with a hyphen, and a title of letters and numbers in lower case
/// is its own slug.
pub proof fn law_slug(s: Seq<char>)
    requires
        forall|c: char| #[trigger] text::alphanumeric(c) ==> c != '-',
    ensures
        confluence::slug_spec(s).len() > 0 ==> confluence::slug_spec(s)[0] != '-'
            && confluence::slug_spec(s).last() != '-',
        (forall|i: int|
            0 <= i < text::lowercase(s).len() ==> text::alphanumeric(
                #[trigger] text::lowercase(s)[i],
            )) ==> confluence::slug_spec(s) == text::lowercase(s),
        forall|i: int|
            0 <= i < confluence::slug_spec(s).len() ==> text::alphanumeric(
                #[trigger] confluence::slug_spec(s)[i],
            ) || confluence::slug_spec(s)[i] == '-',
{
    let l = text::lowercase(s);
    let mapped = l.map_values(
        |c: char|
            if text::alphanumeric(c) {
                c
            } else {
                '-'
            },
    );
    lemma_trim_hyphens(mapped);
    if forall|i: int| 0 <= i < l.len() ==> text::alphanumeric(#[trigger] l[i]) {
        assert(mapped =~= l);
        if l.len() > 0 {
            assert(text::alphanumeric(l[0]) && text::alphanumeric(l[l.len() - 1]));
        }
    }
}

proof fn lemma_trim_hyphens(s: Seq<char>)
    ensures
        ({
            let r = confluence::trim_hyphens(s);
            &&& r.len() > 0 ==> r[0] != '-' && r.last() != '-'
            &&& forall|i: int| 0 <= i < r.len() ==> s.contains(#[trigger] r[i])
            &&& s.len() > 0 && s[0] != '-' && s.last() != '-' ==> r == s
        }),
{
    let a = confluence::trim_hyphens_start(s);
    lemma_trim_hyphens_start(s);
    lemma_trim_hyphens_end(a);
    let r = confluence::trim_hyphens(s);
    assert forall|i: int| 0 <= i < r.len() implies s.contains(#[trigger] r[i]) by {
        assert(a.contains(r[i]));
        let k = a.index_of(r[i]);
        assert(s.contains(a[k]));
    }
}

proof fn lemma_trim_hyphens_start(s: Seq<char>)
    ensures
        ({
            let r = confluence::trim_hyphens_start(s);
            &&& r.len() > 0 ==> r[0] != '-'
            &&& forall|i: int| 0 <= i < r.len() ==> s.contains(#[trigger] r[i])
        }),
    decreases s.len(),
{
    if s.len() > 0 && s[0] == '-' {
        let t = s.subrange(1, s.len() as int);
        lemma_trim_hyphens_start(t);
        let r = confluence::trim_hyphens_start(s);
        assert forall|i: int| 0 <= i < r.len() implies s.contains(#[trigger] r[i]) by {
            assert(t.contains(r[i]));
            let k = t.index_of(r[i]);
            assert(s[k + 1] == r[i]);
        }
    }
}

proof fn lemma_trim_hyphens_end(s: Seq<char>)
    ensures
        ({
            let r = confluence::trim_hyphens_end(s);
            &&& r.len() > 0 ==> r.last() != '-' && r[0] == s[0]
            &&& forall|i: int| 0 <= i < r.len() ==> s.contains(#[trigger] r[i])
        }),
    decreases s.len(),
{
    if s.len() > 0 && s.last() == '-' {
        let t = s.drop_last();
        lemma_trim_hyphens_end(t);
        let r = confluence::trim_hyphens_end(s);
        assert forall|i: int| 0 <= i < r.len() implies s.contains(#[trigger] r[i]) by {
            assert(t.contains(r[i]));
            let k = t.index_of(r[i]);
            assert(s[k] == r[i]);
        }
    }
}

// ── Listings ────────────────────────────────────────────────────────────────

proof fn lemma_items(pages: Seq<JsonView>, i: int, space: Seq<char>, k: int)
    requires
        0 <= i <= k < pages.len(),
    ensures
        confluence::items_spec(pages, i, space).len() == pages.len() - i,
        confluence::items_spec(pages, i, space)[k - i] == confluence::item_spec(pages[k], space),
    decreases pages.len() - i,
{
    let rest = confluence::items_spec(pages, i + 1, space);
    if i < k {
        lemma_items(pages, i + 1, space, k);
        assert(confluence::items_spec(pages, i, space)[k - i] == rest[k - i - 1]);
    } else if i + 1 < pages.len() {
        lemma_items(pages, i + 1, space, i + 1);
    } else {
        assert(rest.len() == 0);
    }
}

/// Each page of a listing is an item, with its id, its title and a path made of its space and its
/// id. None is taken for deleted.
pub proof fn law_listing(
    listing: JsonView,
    pages: Seq<JsonView>,
    space: Seq<char>,
    k: int,
    id: Seq<char>,
    title: Seq<char>,
)
    requires
        has_field(listing, "results"@, JsonView::Array(pages)),
        0 <= k < pages.len(),
        has_field(pages[k], "id"@, JsonView::Text(id)),
        has_field(pages[k], "title"@, JsonView::Text(title)),
    ensures
        ({
            let items = confluence::items_spec(confluence::listed_pages(listing), 0, space);
            &&& items.len() == pages.len()
            &&& items[k].id == id
            &&& items[k].title == title
            &&& items[k].synthetic_path == "confluence://"@ + space + "/"@ + id + ".confluence"@
            &&& !items[k].deleted
        }),
{
    lemma_has_field(listing, "results"@, JsonView::Array(pages));
    lemma_has_field(pages[k], "id"@, JsonView::Text(id));
    lemma_has_field(pages[k], "title"@, JsonView::Text(title));
    lemma_items(pages, 0, space, k);
}

/// A listing goes on where it says, below the base address.
pub proof fn law_listing_goes_on(
    listing: JsonView,
    links: JsonView,
    next: Seq<char>,
    base_url: Seq<char>,
)
    requires
        has_field(listing, "_links"@, links),
        has_field(links, "next"@, JsonView::Text(next)),
    ensures
        confluence::next_url_spec(base_url, listing) == Some(base_url + next),
{
    lemma_has_field(listing, "_links"@, links);
    lemma_has_field(links, "next"@, JsonView::Text(next));
}

} // verus!
