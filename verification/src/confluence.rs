//! Confluence Cloud: the parser of its pages and the requests to its API.
//!
//! A page is ingested under the synthetic path `confluence://<SPACE>/<page_id>.confluence`. The
//! content is the JSON that the API returns for the page.

use std::ops::Range;

use vstd::prelude::*;

use crate::dates;
use crate::json;
use crate::json::{Json, JsonView};
use crate::keymap::KeyMap;
use crate::parser::Parser;
use crate::text;
use crate::types;
use crate::types::{
    Chunk, ChunkKind, ChunkMetadata, ChunkView, DocType, LinkRef, LinkView, ParseError,
    ParseErrorView, ParseResult, ParseView,
};

verus! {

broadcast use crate::types::lemma_views_push;

/// Configuration for a Confluence Cloud instance.
#[derive(Debug)]
pub struct ConfluenceConfig {
    /// Base URL, e.g. `https://your-org.atlassian.net`
    pub base_url: String,
    /// Atlassian account email.
    pub username: String,
    /// Atlassian API token.
    pub api_token: String,
    /// Space keys to index, e.g. `["ENG", "OPS"]`.
    pub spaces: Vec<String>,
    /// How often to poll for changes, in seconds.
    pub poll_interval_secs: u64,
}

/// Parses Confluence page JSON.
#[derive(Clone, Copy, Debug, PartialEq, Eq, Structural)]
pub struct ConfluenceParser;

// ── Reading JSON ────────────────────────────────────────────────────────────

/// The field of an object, if there is one.
pub open spec fn get_spec(v: Option<JsonView>, name: Seq<char>) -> Option<JsonView> {
    match v {
        Some(JsonView::Object(f)) => match json::field_index(f, name) {
            Some(i) => Some(f[i].1),
            None => None,
        },
        _ => None,
    }
}

/// The text that a value is, if it is one.
pub open spec fn as_text(v: Option<JsonView>) -> Option<Seq<char>> {
    match v {
        Some(JsonView::Text(s)) => Some(s),
        _ => None,
    }
}

/// The elements of an array; none of anything else.
pub open spec fn as_elements(v: Option<JsonView>) -> Seq<JsonView> {
    match v {
        Some(JsonView::Array(a)) => a,
        _ => Seq::empty(),
    }
}

/// The text that a value is, or another.
pub open spec fn text_or(v: Option<JsonView>, other: Seq<char>) -> Seq<char> {
    match as_text(v) {
        Some(s) => s,
        None => other,
    }
}

/// An optional value with its strings taken as texts.
pub open spec fn opt_model(v: Option<&Json>) -> Option<JsonView> {
    match v {
        Some(x) => Some(x.model()),
        None => None,
    }
}

/// The field of an object, if there is one.
fn get<'a>(v: Option<&'a Json>, name: &str) -> (r: Option<&'a Json>)
    ensures
        opt_model(r) == get_spec(opt_model(v), name@),
{
    match v {
        Some(Json::Object(f)) => {
            proof {
                assert(v->0.model()->Object_0 =~= json::fields_view(f@));
            }
            match json::find_field(f, name) {
                Some(i) => Some(&f[i].1),
                None => None,
            }
        },
        _ => None,
    }
}

/// The text that a value is, or another.
fn get_text(v: Option<&Json>, other: &str) -> (r: String)
    ensures
        r@ == text_or(opt_model(v), other@),
{
    match v {
        Some(Json::Text(s)) => s.clone(),
        _ => other.to_owned(),
    }
}

// ── Storage format ──────────────────────────────────────────────────────────

/// The text that bytes encode; none where they are not valid UTF-8.
pub open spec fn text_of_bytes(b: Seq<u8>) -> Seq<char> {
    if vstd::utf8::valid_utf8(b) {
        vstd::utf8::decode_utf8(b)
    } else {
        Seq::empty()
    }
}

/// The first position at or after `i` that holds the byte `x`, or the length.
pub open spec fn next_byte(b: Seq<u8>, x: u8, i: int) -> int
    decreases b.len() - i,
{
    if i < 0 || i >= b.len() {
        b.len() as int
    } else if b[i] == x {
        i
    } else {
        next_byte(b, x, i + 1)
    }
}

/// The first word of a text, or the empty text.
pub open spec fn first_word(s: Seq<char>) -> Seq<char> {
    let w = text::words_spec(s);
    if w.len() > 0 {
        w[0]
    } else {
        Seq::empty()
    }
}

/// The level of a heading tag.
pub open spec fn heading_level_spec(tag: Seq<char>) -> Option<u8> {
    if tag == "h1"@ {
        Some(1)
    } else if tag == "h2"@ {
        Some(2)
    } else if tag == "h3"@ {
        Some(3)
    } else if tag == "h4"@ {
        Some(4)
    } else if tag == "h5"@ {
        Some(5)
    } else if tag == "h6"@ {
        Some(6)
    } else {
        None
    }
}

/// The level of a heading tag.
pub fn heading_level(tag: &str) -> (r: Option<u8>)
    ensures
        r == heading_level_spec(tag@),
        r matches Some(l) ==> 1 <= l <= 6,
{
    if text::str_eq(tag, "h1") {
        Some(1)
    } else if text::str_eq(tag, "h2") {
        Some(2)
    } else if text::str_eq(tag, "h3") {
        Some(3)
    } else if text::str_eq(tag, "h4") {
        Some(4)
    } else if text::str_eq(tag, "h5") {
        Some(5)
    } else if text::str_eq(tag, "h6") {
        Some(6)
    } else {
        None
    }
}

/// The characters outside `<..>`, from position `i` on.
pub open spec fn outside_tags(s: Seq<char>, i: int, in_tag: bool) -> Seq<char>
    decreases s.len() - i,
{
    if i < 0 || i >= s.len() {
        Seq::empty()
    } else if s[i] == '<' {
        outside_tags(s, i + 1, true)
    } else if s[i] == '>' {
        outside_tags(s, i + 1, false)
    } else if in_tag {
        outside_tags(s, i + 1, in_tag)
    } else {
        seq![s[i]] + outside_tags(s, i + 1, in_tag)
    }
}

/// The words outside tags, with one space in between.
pub open spec fn strip_tags_spec(s: Seq<char>) -> Seq<char> {
    text::join_spec(text::words_spec(outside_tags(s, 0, false)), " "@)
}

/// Remove tags, and reduce white space to single spaces.
pub fn strip_tags(s: &str) -> (r: String)
    ensures
        r@ == strip_tags_spec(s@),
{
    let v = text::chars_of(s);
    let mut out: Vec<char> = Vec::new();
    let mut in_tag = false;
    let mut i: usize = 0;
    proof {
        assert(out@ + outside_tags(v@, 0, false) =~= outside_tags(v@, 0, false));
    }
    while i < v.len()
        invariant
            i <= v@.len(),
            out@ + outside_tags(v@, i as int, in_tag) == outside_tags(v@, 0, false),
        decreases v@.len() - i,
    {
        let c = v[i];
        let ghost before = out@;
        if c == '<' {
            in_tag = true;
        } else if c == '>' {
            in_tag = false;
        } else if !in_tag {
            out.push(c);
            proof {
                assert(out@ + outside_tags(v@, i + 1, in_tag) =~= before + outside_tags(
                    v@,
                    i as int,
                    in_tag,
                ));
            }
        }
        i += 1;
    }
    proof {
        assert(out@ + outside_tags(v@, i as int, in_tag) =~= out@);
    }
    let w = text::words(&out);
    text::join(&w, " ")
}

/// The value of an attribute: what stands between the quotes behind `name=`.
pub open spec fn attr_spec(attrs: Seq<char>, name: Seq<char>) -> Option<Seq<char>> {
    let needle = name + "=\""@;
    match text::find_spec(attrs, needle, 0) {
        Some(p) => {
            let start = p + needle.len();
            match text::find_spec(attrs, "\""@, start) {
                Some(e) => Some(attrs.subrange(start, e)),
                None => None,
            }
        },
        None => None,
    }
}

/// The value of an attribute.
pub fn extract_attr(attrs: &str, name: &str) -> (r: Option<String>)
    ensures
        types::text_of(r) == attr_spec(attrs@, name@),
{
    let v = text::chars_of(attrs);
    let needle = text::concat(name, "=\"");
    let len: usize = text::chars_of(needle.as_str()).len();
    match text::find(&v, needle.as_str(), 0) {
        Some(p) => {
            let start: usize = p + len;
            match text::find(&v, "\"", start) {
                Some(e) => Some(text::substring(&v, start, e)),
                None => None,
            }
        },
        None => None,
    }
}

/// Whether `</hN>` stands at position `i`, for the heading level N.
pub open spec fn heading_closes_at(b: Seq<u8>, i: int, level: u8) -> bool {
    0 <= i && i + 5 <= b.len() && b[i] == 60 && b[i + 1] == 47 && b[i + 2] == 104 && b[i + 3] == 48
        + level && b[i + 4] == 62
}

/// Where the text of a heading ends that starts at `i`: at its closing tag, or five bytes before
/// the end.
pub open spec fn heading_end(b: Seq<u8>, i: int, level: u8) -> int
    decreases b.len() - i,
{
    if i < 0 || i + 5 >= b.len() || heading_closes_at(b, i, level) {
        i
    } else {
        heading_end(b, i + 1, level)
    }
}

/// How far reading a storage-format text has come.
#[verifier::ext_equal]
pub struct StorageState {
    /// Sections finished: heading, body and level.
    pub sections: Seq<(Seq<char>, Seq<char>, u8)>,
    /// Links found.
    pub links: Seq<LinkView>,
    /// The heading of the section that is open.
    pub heading: Option<(Seq<char>, u8)>,
    /// Text collected for the next section, as it is encoded.
    pub body: Seq<u8>,
    /// Number of bytes of text read.
    pub offset: int,
}

/// The state once the open section is finished.
pub open spec fn commit(st: StorageState) -> StorageState {
    match st.heading {
        Some((h, d)) => StorageState {
            sections: st.sections.push(
                (h, text::trim_spec(vstd::utf8::decode_utf8(st.body)), d),
            ),
            heading: None,
            body: Seq::empty(),
            ..st
        },
        None => st,
    }
}

/// The state with a link, where there is one.
pub open spec fn add_link(st: StorageState, target: Option<Seq<char>>) -> StorageState {
    match target {
        Some(t) => StorageState {
            links: st.links.push(LinkView { target: t, display: None, byte_offset: st.offset }),
            ..st
        },
        None => st,
    }
}

/// The state behind a tag that is no heading.
pub open spec fn after_tag(st: StorageState, name: Seq<char>, attrs: Seq<char>) -> StorageState {
    if name == "a"@ {
        add_link(st, attr_spec(attrs, "href"@))
    } else if name == "ac:link"@ {
        add_link(st, attr_spec(attrs, "ac:page-title"@))
    } else {
        st
    }
}

/// Reads a storage-format text from position `i` on. A heading tag starts a section; text, byte
/// by byte and without carriage returns, is collected for it. There is no result where the text
/// ends within a heading tag.
pub open spec fn read_from(b: Seq<u8>, i: int, st: StorageState) -> Option<StorageState>
    decreases b.len() + 6 - i,
{
    if i < 0 || i >= b.len() {
        Some(st)
    } else if b[i] == 60 {
        let e = next_byte(b, 62, i);
        if !(i < e <= b.len()) {
            None
        } else {
            let attrs = text_of_bytes(b.subrange(i + 1, e));
            let name = text::lowercase(first_word(attrs));
            match heading_level_spec(name) {
                Some(level) => {
                    let end = heading_end(b, e + 1, level);
                    if e == b.len() || !(e < end <= b.len()) {
                        None
                    } else {
                        let done = commit(st);
                        let heading = strip_tags_spec(text_of_bytes(b.subrange(e + 1, end)));
                        read_from(
                            b,
                            end + 5,
                            StorageState { heading: Some((heading, level)), ..done },
                        )
                    }
                },
                None => read_from(b, e + 1, after_tag(st, name, attrs)),
            }
        }
    } else if b[i] == 13 {
        read_from(b, i + 1, st)
    } else {
        read_from(
            b,
            i + 1,
            StorageState { body: st.body.push(b[i]), offset: st.offset + 1, ..st },
        )
    }
}

/// The sections and links of a storage-format text, if it does not end within a heading tag.
pub open spec fn storage_spec(b: Seq<u8>) -> Option<StorageState> {
    let start = StorageState {
        sections: Seq::empty(),
        links: Seq::empty(),
        heading: None,
        body: Seq::empty(),
        offset: 0,
    };
    match read_from(b, 0, start) {
        Some(st) => Some(commit(st)),
        None => None,
    }
}

/// Sections with their strings taken as texts.
pub open spec fn sections_view(s: Seq<(String, String, u8)>) -> Seq<(Seq<char>, Seq<char>, u8)> {
    Seq::new(s.len(), |i: int| (s[i].0@, s[i].1@, s[i].2))
}

/// The text that bytes encode; none where they are not valid UTF-8.
fn decode_part(b: &[u8], from: usize, to: usize) -> (r: String)
    requires
        from <= to <= b@.len(),
    ensures
        r@ == text_of_bytes(b@.subrange(from as int, to as int)),
{
    let mut part: Vec<u8> = Vec::new();
    let mut i: usize = from;
    while i < to
        invariant
            from <= i <= to <= b@.len(),
            part@ == b@.subrange(from as int, i as int),
        decreases to - i,
    {
        part.push(b[i]);
        i += 1;
        proof {
            assert(part@ =~= b@.subrange(from as int, i as int));
        }
    }
    match text::utf8_str(&part) {
        Some(s) => {
            proof {
                vstd::utf8::encode_utf8_decode_utf8(s@);
            }
            s.to_owned()
        },
        None => String::new(),
    }
}

/// The state of reading, as executable values.
struct Reader {
    sections: Vec<(String, String, u8)>,
    links: Vec<LinkRef>,
    heading: Option<(String, u8)>,
    body: Vec<u8>,
    offset: usize,
}

impl Reader {
    spec fn state(&self) -> StorageState {
        StorageState {
            sections: sections_view(self.sections@),
            links: types::views(self.links@),
            heading: match self.heading {
                Some((h, d)) => Some((h@, d)),
                None => None,
            },
            body: self.body@,
            offset: self.offset as int,
        }
    }

    /// Finishes the open section.
    fn commit_section(&mut self)
        requires
            vstd::utf8::valid_utf8(old(self).body@),
        ensures
            final(self).state() == commit(old(self).state()),
            final(self).offset == old(self).offset,
            final(self).heading is None,
            vstd::utf8::valid_utf8(final(self).body@),
    {
        match self.heading.take() {
            Some((h, d)) => {
                let ghost before = self.sections@;
                let read = match text::utf8_str(&self.body) {
                    Some(s) => {
                        proof {
                            vstd::utf8::encode_utf8_decode_utf8(s@);
                        }
                        s.to_owned()
                    },
                    None => String::new(),
                };
                let t = text::trim(&text::chars_of(read.as_str()));
                let body = text::string_of(&t);
                self.sections.push((h, body, d));
                self.body = Vec::new();
                proof {
                    assert(sections_view(self.sections@) =~= sections_view(before).push(
                        (h@, body@, d),
                    ));
                    assert(self.state() =~= commit(old(self).state()));
                }
            },
            None => {
                proof {
                    assert(self.state() =~= commit(old(self).state()));
                }
            },
        }
    }

    /// Adds a link, where there is one.
    fn push_link(&mut self, target: Option<String>)
        ensures
            final(self).state() == add_link(old(self).state(), types::text_of(target)),
            final(self).offset == old(self).offset,
            final(self).body == old(self).body,
    {
        match target {
            Some(t) => {
                let link = LinkRef { target: t, display: None, byte_offset: self.offset };
                self.links.push(link);
                proof {
                    assert(self.state() =~= add_link(old(self).state(), types::text_of(target)));
                }
            },
            None => {},
        }
    }
}

/// Where a run of text that starts at `i` ends: at a tag, a carriage return or the end.
spec fn run_end(b: Seq<u8>, i: int) -> int
    decreases b.len() - i,
{
    if i < 0 || i >= b.len() || b[i] == 60 || b[i] == 13 {
        i
    } else {
        run_end(b, i + 1)
    }
}

proof fn lemma_run_end(b: Seq<u8>, i: int)
    requires
        0 <= i <= b.len(),
    ensures
        i <= run_end(b, i) <= b.len(),
        run_end(b, i) < b.len() ==> b[run_end(b, i)] == 60 || b[run_end(b, i)] == 13,
    decreases b.len() - i,
{
    if i < b.len() && b[i] != 60 && b[i] != 13 {
        lemma_run_end(b, i + 1);
    }
}

/// A run of text that starts between characters is well encoded.
proof fn lemma_run_valid(b: Seq<u8>, i: int)
    requires
        0 <= i <= b.len(),
        vstd::utf8::valid_utf8(b.skip(i)),
    ensures
        vstd::utf8::valid_utf8(b.subrange(i, run_end(b, i))),
{
    lemma_run_end(b, i);
    let s = b.skip(i);
    let j = run_end(b, i) - i;
    vstd::utf8::is_char_boundary_start_end_of_seq(s);
    if j < s.len() {
        assert(s[j] == b[run_end(b, i)]);
        vstd::utf8::is_char_boundary_iff_not_is_continuation_byte(s, j);
    }
    vstd::utf8::valid_utf8_split(s, j);
    assert(s.subrange(0, j) =~= b.subrange(i, run_end(b, i)));
}

proof fn lemma_first_run(b: Seq<u8>, body: Seq<u8>)
    requires
        vstd::utf8::valid_utf8(b),
        body.len() == 0,
    ensures
        vstd::utf8::valid_utf8(body + b.subrange(0, run_end(b, 0))),
{
    assert(b.skip(0) =~= b);
    lemma_run_valid(b, 0);
    assert(body + b.subrange(0, run_end(b, 0)) =~= b.subrange(0, run_end(b, 0)));
}

proof fn lemma_run_at_end(b: Seq<u8>, body: Seq<u8>)
    requires
        vstd::utf8::valid_utf8(body),
    ensures
        vstd::utf8::valid_utf8(
            body + b.subrange(b.len() as int, run_end(b, b.len() as int)),
        ),
{
    assert(body + b.subrange(b.len() as int, run_end(b, b.len() as int)) =~= body);
}

/// The run behind an ASCII byte goes on from a text.
proof fn lemma_run_after(b: Seq<u8>, i: int, body: Seq<u8>)
    requires
        vstd::utf8::valid_utf8(b),
        0 <= i < b.len(),
        b[i] < 128,
        vstd::utf8::valid_utf8(body),
    ensures
        vstd::utf8::valid_utf8(body + b.subrange(i + 1, run_end(b, i + 1))),
{
    vstd::utf8::is_char_boundary_iff_not_is_continuation_byte(b, i);
    vstd::utf8::valid_utf8_split(b, i);
    let s = b.skip(i);
    assert(b.subrange(i, b.len() as int) =~= s);
    assert(s[0] == b[i]);
    assert(vstd::utf8::pop_first_scalar(s) =~= b.skip(i + 1));
    lemma_run_valid(b, i + 1);
    vstd::utf8::valid_utf8_concat(body, b.subrange(i + 1, run_end(b, i + 1)));
}

proof fn lemma_step_in_run(b: Seq<u8>, i: int, body: Seq<u8>)
    requires
        vstd::utf8::valid_utf8(b),
        0 <= i < b.len(),
        b[i] != 60,
        vstd::utf8::valid_utf8(body + b.subrange(i, run_end(b, i))),
    ensures
        b[i] == 13 ==> vstd::utf8::valid_utf8(body + b.subrange(i + 1, run_end(b, i + 1))),
        b[i] != 13 ==> vstd::utf8::valid_utf8(
            body.push(b[i]) + b.subrange(i + 1, run_end(b, i + 1)),
        ),
{
    if b[i] == 13 {
        assert(body + b.subrange(i, run_end(b, i)) =~= body);
        lemma_run_after(b, i, body);
    } else {
        lemma_run_end(b, i + 1);
        assert(body.push(b[i]) + b.subrange(i + 1, run_end(b, i + 1)) =~= body + b.subrange(
            i,
            run_end(b, i),
        ));
    }
}

/// What storage-format text holds: sections (heading, body, level) and links.
pub type StorageContent = (Vec<(String, String, u8)>, Vec<LinkRef>);

/// Parse storage-format text into sections and links. There is no result where the text ends
/// within a heading tag.
pub fn parse_storage_html(html: &str) -> (r: Option<StorageContent>)
    ensures
        match r {
            Some((sections, links)) => storage_spec(vstd::utf8::encode_utf8(html@)) matches Some(
                st,
            ) && st.sections == sections_view(sections@) && st.links == types::views(links@),
            None => storage_spec(vstd::utf8::encode_utf8(html@)) is None,
        },
{
    let bytes = html.as_bytes();
    let ghost b = bytes@;
    let n: usize = bytes.len();
    let mut rd = Reader {
        sections: Vec::new(),
        links: Vec::new(),
        heading: None,
        body: Vec::new(),
        offset: 0,
    };
    let ghost goal = read_from(b, 0, rd.state());
    proof {
        assert(rd.state() =~= StorageState {
            sections: Seq::empty(),
            links: Seq::empty(),
            heading: None,
            body: Seq::empty(),
            offset: 0,
        });
    }
    let mut i: usize = 0;
    proof {
        vstd::utf8::encode_utf8_valid_utf8(html@);
        lemma_first_run(b, rd.body@);
    }
    while i < n
        invariant
            b == bytes@,
            b == vstd::utf8::encode_utf8(html@),
            vstd::utf8::valid_utf8(b),
            n == b.len(),
            i <= n,
            rd.offset <= i,
            vstd::utf8::valid_utf8(rd.body@ + b.subrange(i as int, run_end(b, i as int))),
            goal == read_from(b, i as int, rd.state()),
            storage_spec(b) == match goal {
                Some(st) => Some(commit(st)),
                None => None::<StorageState>,
            },
        decreases n - i,
    {
        if bytes[i] == 60 {
            proof {
                assert(rd.body@ + b.subrange(i as int, run_end(b, i as int)) =~= rd.body@);
            }
            let mut e: usize = i + 1;
            while e < n && bytes[e] != 62
                invariant
                    b == bytes@,
                    n == b.len(),
                    i < e <= n,
                    b[i as int] == 60,
                    next_byte(b, 62, e as int) == next_byte(b, 62, i as int),
                decreases n - e,
            {
                e += 1;
            }
            assert(e == next_byte(b, 62, i as int));
            let attrs = decode_part(bytes, i + 1, e);
            let w = text::words(&text::chars_of(attrs.as_str()));
            let first: String = if w.len() > 0 {
                w[0].clone()
            } else {
                String::new()
            };
            proof {
                assert(first@ =~= first_word(attrs@)) by {
                    if w@.len() > 0 {
                        assert(w.deep_view()[0] == w@[0]@);
                    }
                }
            }
            let name = first.as_str().to_lowercase();
            match heading_level(name.as_str()) {
                Some(level) => {
                    if e == n {
                        return None;
                    }
                    let mut end: usize = e + 1;
                    while n - end > 5 && !(bytes[end] == 60 && bytes[end + 1] == 47 && bytes[end
                        + 2] == 104 && bytes[end + 3] == 48 + level && bytes[end + 4] == 62)
                        invariant
                            b == bytes@,
                            n == b.len(),
                            e < end <= n,
                            1 <= level <= 6,
                            heading_end(b, end as int, level) == heading_end(b, e + 1, level),
                        decreases n - end,
                    {
                        end += 1;
                    }
                    assert(end == heading_end(b, e + 1, level));
                    rd.commit_section();
                    let raw = decode_part(bytes, e + 1, end);
                    let ghost done = rd.state();
                    rd.heading = Some((strip_tags(raw.as_str()), level));
                    proof {
                        assert(rd.state() =~= StorageState {
                            heading: Some((strip_tags_spec(raw@), level)),
                            ..done
                        });
                    }
                    if n - end > 5 {
                        proof {
                            lemma_run_after(b, end + 4, rd.body@);
                        }
                        i = end + 5;
                    } else {
                        proof {
                            lemma_run_at_end(b, rd.body@);
                            assert(read_from(b, end + 5, rd.state()) == read_from(
                                b,
                                n as int,
                                rd.state(),
                            ));
                        }
                        i = n;
                    }
                },
                None => {
                    if text::str_eq(name.as_str(), "a") {
                        let href = extract_attr(attrs.as_str(), "href");
                        rd.push_link(href);
                    } else if text::str_eq(name.as_str(), "ac:link") {
                        let page = extract_attr(attrs.as_str(), "ac:page-title");
                        rd.push_link(page);
                    }
                    if e < n {
                        proof {
                            lemma_run_after(b, e as int, rd.body@);
                        }
                        i = e + 1;
                    } else {
                        proof {
                            lemma_run_at_end(b, rd.body@);
                            assert(read_from(b, e + 1, rd.state()) == read_from(
                                b,
                                n as int,
                                rd.state(),
                            ));
                        }
                        i = n;
                    }
                },
            }
        } else {
            proof {
                lemma_step_in_run(b, i as int, rd.body@);
            }
            if bytes[i] != 13 {
                let ghost before = rd.state();
                rd.body.push(bytes[i]);
                rd.offset = rd.offset + 1;
                proof {
                    assert(rd.state() =~= StorageState {
                        body: before.body.push(b[i as int]),
                        offset: before.offset + 1,
                        ..before
                    });
                }
            }
            i += 1;
        }
    }
    assert(rd.body@ + b.subrange(n as int, run_end(b, n as int)) =~= rd.body@);
    rd.commit_section();
    Some((rd.sections, rd.links))
}

// ── Pages ───────────────────────────────────────────────────────────────────

/// The text without leading and trailing hyphens.
pub open spec fn trim_hyphens(s: Seq<char>) -> Seq<char> {
    trim_hyphens_end(trim_hyphens_start(s))
}

/// The text without leading hyphens.
pub open spec fn trim_hyphens_start(s: Seq<char>) -> Seq<char>
    decreases s.len(),
{
    if s.len() > 0 && s[0] == '-' {
        trim_hyphens_start(s.subrange(1, s.len() as int))
    } else {
        s
    }
}

/// The text without trailing hyphens.
pub open spec fn trim_hyphens_end(s: Seq<char>) -> Seq<char>
    decreases s.len(),
{
    if s.len() > 0 && s.last() == '-' {
        trim_hyphens_end(s.drop_last())
    } else {
        s
    }
}

/// The text in lower case, with a hyphen for each character that is neither letter nor number,
/// and none at either end.
pub open spec fn slug_spec(s: Seq<char>) -> Seq<char> {
    trim_hyphens(
        text::lowercase(s).map_values(
            |c: char|
                if text::alphanumeric(c) {
                    c
                } else {
                    '-'
                },
        ),
    )
}

/// A title as a path segment.
pub fn slug(s: &str) -> (r: String)
    ensures
        r@ == slug_spec(s@),
{
    let lower = s.to_lowercase();
    let v = text::chars_of(lower.as_str());
    let ghost mapped = v@.map_values(
        |c: char|
            if text::alphanumeric(c) {
                c
            } else {
                '-'
            },
    );
    let mut out: Vec<char> = Vec::new();
    let mut i: usize = 0;
    while i < v.len()
        invariant
            i <= v@.len(),
            out@ == mapped.take(i as int),
            mapped == v@.map_values(
                |c: char|
                    if text::alphanumeric(c) {
                        c
                    } else {
                        '-'
                    },
            ),
        decreases v@.len() - i,
    {
        let c = v[i];
        if c.is_alphanumeric() {
            out.push(c);
        } else {
            out.push('-');
        }
        i += 1;
        proof {
            assert(out@ =~= mapped.take(i as int));
        }
    }
    proof {
        assert(mapped.take(i as int) =~= mapped);
        assert(out@.subrange(0, out@.len() as int) =~= out@);
    }
    let mut a: usize = 0;
    while a < out.len() && out[a] == '-'
        invariant
            a <= out@.len(),
            trim_hyphens_start(out@) == trim_hyphens_start(
                out@.subrange(a as int, out@.len() as int),
            ),
        decreases out@.len() - a,
    {
        proof {
            let t = out@.subrange(a as int, out@.len() as int);
            assert(t.subrange(1, t.len() as int) =~= out@.subrange(a + 1, out@.len() as int));
        }
        a += 1;
    }
    let front = text::slice_of(&out, a, out.len());
    let mut n: usize = front.len();
    proof {
        assert(front@.take(n as int) =~= front@);
    }
    while n > 0 && front[n - 1] == '-'
        invariant
            n <= front@.len(),
            trim_hyphens_end(front@) == trim_hyphens_end(front@.take(n as int)),
        decreases n,
    {
        proof {
            assert(front@.take(n as int).drop_last() =~= front@.take(n - 1));
        }
        n -= 1;
    }
    text::substring(&front, 0, n)
}

/// For each element of `xs` from `i` on that has a text under `name`: `prefix` and that text,
/// as a slug or as it is.
pub open spec fn tags_from(
    xs: Seq<JsonView>,
    i: int,
    name: Seq<char>,
    prefix: Seq<char>,
    slugged: bool,
) -> Seq<Seq<char>>
    decreases xs.len() - i,
{
    if i < 0 || i >= xs.len() {
        Seq::empty()
    } else {
        let rest = tags_from(xs, i + 1, name, prefix, slugged);
        match as_text(get_spec(Some(xs[i]), name)) {
            Some(t) => seq![
                prefix + if slugged {
                    slug_spec(t)
                } else {
                    t
                },
            ] + rest,
            None => rest,
        }
    }
}

/// Adds a tag for each element that has a text under `name`.
fn push_tags(v: Option<&Json>, name: &str, prefix: &str, slugged: bool, tags: &mut Vec<String>)
    ensures
        final(tags).deep_view() == old(tags).deep_view() + tags_from(
            as_elements(opt_model(v)),
            0,
            name@,
            prefix@,
            slugged,
        ),
{
    let ghost base = tags.deep_view();
    match v {
        Some(Json::Array(a)) => {
            let ghost xs = as_elements(opt_model(v));
            let ghost goal = base + tags_from(xs, 0, name@, prefix@, slugged);
            let mut i: usize = 0;
            assert(xs.len() == a@.len());
            while i < a.len()
                invariant
                    i <= a@.len(),
                    v == Some(&Json::Array(*a)),
                    xs == as_elements(opt_model(v)),
                    xs.len() == a@.len(),
                    goal == tags.deep_view() + tags_from(xs, i as int, name@, prefix@, slugged),
                decreases a@.len() - i,
            {
                assert(xs[i as int] == a@[i as int].model());
                match get(Some(&a[i]), name) {
                    Some(Json::Text(t)) => {
                        let ghost before = tags.deep_view();
                        let tag = if slugged {
                            text::concat(prefix, slug(t.as_str()).as_str())
                        } else {
                            text::concat(prefix, t.as_str())
                        };
                        tags.push(tag);
                        proof {
                            assert(tags.deep_view() =~= before.push(tag@));
                            assert(tags.deep_view() + tags_from(
                                xs,
                                i + 1,
                                name@,
                                prefix@,
                                slugged,
                            ) =~= before + tags_from(xs, i as int, name@, prefix@, slugged));
                        }
                    },
                    _ => {},
                }
                i += 1;
            }
            proof {
                assert(tags.deep_view() + tags_from(xs, i as int, name@, prefix@, slugged)
                    =~= tags.deep_view());
            }
        },
        _ => {
            proof {
                assert(tags.deep_view() =~= base + tags_from(
                    as_elements(opt_model(v)),
                    0,
                    name@,
                    prefix@,
                    slugged,
                ));
            }
        },
    }
}

/// The number of bytes that a section takes: heading, line break, body, and one between
/// sections.
pub open spec fn section_len(s: (Seq<char>, Seq<char>, u8)) -> int {
    (text::byte_len(s.0) + 1 + text::byte_len(s.1) + 1) as int
}

/// The offset behind the sections from `k` on, which start at `offset`.
pub open spec fn sections_end(
    sections: Seq<(Seq<char>, Seq<char>, u8)>,
    k: int,
    offset: int,
) -> int
    decreases sections.len() - k,
{
    if k < 0 || k >= sections.len() {
        offset
    } else {
        sections_end(sections, k + 1, offset + section_len(sections[k]))
    }
}

/// The chunks of the sections from `k` on, which start at `offset`.
pub open spec fn section_chunks(
    sections: Seq<(Seq<char>, Seq<char>, u8)>,
    k: int,
    offset: int,
) -> Seq<ChunkView>
    decreases sections.len() - k,
{
    if k < 0 || k >= sections.len() {
        Seq::empty()
    } else {
        let end = offset + section_len(sections[k]);
        seq![labelled_chunk(offset, end, sections[k].0, sections[k].2)] + section_chunks(
            sections,
            k + 1,
            end,
        )
    }
}

/// A section chunk with a label.
pub open spec fn labelled_chunk(start: int, end: int, label: Seq<char>, depth: u8) -> ChunkView {
    ChunkView {
        start,
        end,
        kind: ChunkKind::Section,
        label: Some(label),
        depth,
        metadata: types::no_metadata(),
    }
}

proof fn lemma_sections_end(
    sections: Seq<(Seq<char>, Seq<char>, u8)>,
    k: int,
    offset: int,
)
    ensures
        offset <= sections_end(sections, k, offset),
    decreases sections.len() - k,
{
    if 0 <= k < sections.len() {
        lemma_sections_end(sections, k + 1, offset + section_len(sections[k]));
    }
}

/// The title of a page.
pub open spec fn page_title(doc: JsonView) -> Seq<char> {
    text_or(get_spec(Some(doc), "title"@), "Untitled"@)
}

/// The storage-format text of a page.
pub open spec fn page_storage(doc: JsonView) -> Seq<char> {
    text_or(
        get_spec(get_spec(get_spec(Some(doc), "body"@), "storage"@), "value"@),
        ""@,
    )
}

/// The tags of a page: its source, its space, its labels and its ancestors.
pub open spec fn page_tags(doc: JsonView) -> Seq<Seq<char>> {
    seq![
        "source:confluence"@,
        "confluence:space:"@ + text_or(get_spec(get_spec(Some(doc), "space"@), "key"@), ""@),
    ] + tags_from(
        as_elements(
            get_spec(get_spec(get_spec(Some(doc), "metadata"@), "labels"@), "results"@),
        ),
        0,
        "name"@,
        "tag:"@,
        false,
    ) + tags_from(
        as_elements(get_spec(Some(doc), "ancestors"@)),
        0,
        "title"@,
        "confluence:parent:"@,
        true,
    )
}

/// The structure of a page: a chunk for its title and one for each section. There is none where
/// its text ends within a heading tag, or is too long for its offsets to be counted.
pub open spec fn page_spec(doc: JsonView) -> Result<types::ParseView, ParseErrorView> {
    let title = page_title(doc);
    let len = text::byte_len(title) as int;
    match storage_spec(vstd::utf8::encode_utf8(page_storage(doc))) {
        None => Err(ParseErrorView::Internal("page ends within a heading tag"@)),
        Some(st) => if sections_end(st.sections, 0, len + 1) > usize::MAX {
            Err(ParseErrorView::Internal("page too long"@))
        } else {
            Ok(
                types::ParseView {
                    chunks: seq![labelled_chunk(0, len, title, 1)] + section_chunks(
                        st.sections,
                        0,
                        len + 1,
                    ),
                    tags: page_tags(doc),
                    links: st.links,
                    auto_type: Some(DocType::Note),
                    frontmatter: Map::empty(),
                },
            )
        },
    }
}

/// The chunks of the sections, which start at `offset`. There are none where the offsets cannot
/// be counted.
fn chunk_sections(
    sections: &Vec<(String, String, u8)>,
    offset: usize,
    chunks: &mut Vec<Chunk>,
) -> (r: bool)
    ensures
        r == (sections_end(sections_view(sections@), 0, offset as int) <= usize::MAX),
        r ==> types::views(final(chunks)@) == types::views(old(chunks)@) + section_chunks(
            sections_view(sections@),
            0,
            offset as int,
        ),
{
    let ghost all = sections_view(sections@);
    let ghost goal = types::views(chunks@) + section_chunks(all, 0, offset as int);
    let mut start: usize = offset;
    let mut k: usize = 0;
    while k < sections.len()
        invariant
            k <= sections@.len(),
            all == sections_view(sections@),
            goal == types::views(chunks@) + section_chunks(all, k as int, start as int),
            sections_end(all, 0, offset as int) == sections_end(all, k as int, start as int),
        decreases sections@.len() - k,
    {
        let ghost end = start + section_len(all[k as int]);
        assert(all[k as int] == (
            sections@[k as int].0@,
            sections@[k as int].1@,
            sections@[k as int].2,
        ));
        proof {
            lemma_sections_end(all, k + 1, end);
        }
        let h: usize = text::checked_byte_len(sections[k].0.as_str());
        let b: usize = text::checked_byte_len(sections[k].1.as_str());
        let stop: usize = match start.checked_add(h) {
            Some(x) => match x.checked_add(b) {
                Some(y) => match y.checked_add(2) {
                    Some(z) => z,
                    None => {
                        return false;
                    },
                },
                None => {
                    return false;
                },
            },
            None => {
                return false;
            },
        };
        let chunk = Chunk {
            byte_range: Range { start, end: stop },
            kind: ChunkKind::Section,
            label: Some(sections[k].0.clone()),
            depth: sections[k].2,
            metadata: ChunkMetadata::default(),
        };
        let ghost before = chunks@;
        chunks.push(chunk);
        proof {
            assert(types::views(chunks@) + section_chunks(all, k + 1, stop as int) =~= types::views(
                before,
            ) + section_chunks(all, k as int, start as int));
        }
        start = stop;
        k += 1;
    }
    proof {
        assert(types::views(chunks@) + section_chunks(all, k as int, start as int) =~= types::views(
            chunks@,
        ));
    }
    true
}

/// The structure of a page whose JSON has been read.
pub fn parse_page(doc: &Json) -> (r: Result<ParseResult, ParseError>)
    ensures
        types::parse_outcome(r) == page_spec(doc.model()),
        r matches Ok(p) ==> p.frontmatter.wf() && p.chunks@.len() >= 1,
{
    let root = Some(doc);
    let title = get_text(get(root, "title"), "Untitled");
    let space_key = get_text(get(get(root, "space"), "key"), "");
    let storage = get_text(get(get(get(root, "body"), "storage"), "value"), "");
    let mut tags: Vec<String> = Vec::new();
    tags.push("source:confluence".to_owned());
    tags.push(text::concat("confluence:space:", space_key.as_str()));
    proof {
        assert(tags.deep_view() =~= seq!["source:confluence"@, "confluence:space:"@ + space_key@]);
    }
    push_tags(
        get(get(get(root, "metadata"), "labels"), "results"),
        "name",
        "tag:",
        false,
        &mut tags,
    );
    push_tags(get(root, "ancestors"), "title", "confluence:parent:", true, &mut tags);
    match parse_storage_html(storage.as_str()) {
        None => Err(ParseError::Internal("page ends within a heading tag".to_owned())),
        Some((sections, links)) => {
            let len: usize = text::checked_byte_len(title.as_str());
            let ghost all = sections_view(sections@);
            proof {
                lemma_sections_end(all, 0, len + 1);
            }
            if len == usize::MAX {
                return Err(ParseError::Internal("page too long".to_owned()));
            }
            let mut chunks: Vec<Chunk> = Vec::new();
            chunks.push(
                Chunk {
                    byte_range: Range { start: 0, end: len },
                    kind: ChunkKind::Section,
                    label: Some(title.clone()),
                    depth: 1,
                    metadata: ChunkMetadata::default(),
                },
            );
            proof {
                assert(types::views(chunks@) =~= seq![labelled_chunk(0, len as int, title@, 1)]);
            }
            if !chunk_sections(&sections, len + 1, &mut chunks) {
                return Err(ParseError::Internal("page too long".to_owned()));
            }
            let frontmatter: KeyMap<Json> = KeyMap::new();
            proof {
                assert(chunks@.len() == types::views(chunks@).len());
                assert(types::json_map(frontmatter@) =~= Map::<Seq<char>, JsonView>::empty());
            }
            Ok(
                ParseResult {
                    chunks,
                    tags,
                    links,
                    auto_type: Some(DocType::Note),
                    frontmatter,
                },
            )
        },
    }
}

/// Whether a path names a Confluence page.
pub open spec fn is_confluence_path(p: Seq<char>) -> bool {
    crate::paths::extension_spec(p) == Some("confluence"@) || text::starts_with_spec(
        p,
        "confluence://"@,
    )
}

/// What parsing bytes as a Confluence page gives.
pub open spec fn confluence_outcome(bytes: Seq<u8>) -> Result<types::ParseView, ParseErrorView> {
    match json::json_document(bytes) {
        Ok(doc) => page_spec(doc),
        Err(e) => Err(ParseErrorView::BadFrontmatter("confluence JSON: "@ + e)),
    }
}

impl Parser for ConfluenceParser {
    open spec fn handles(&self, path: Seq<char>) -> bool {
        is_confluence_path(path)
    }

    open spec fn outcome(&self, path: Seq<char>, content: Seq<u8>) -> Result<
        ParseView,
        ParseErrorView,
    > {
        confluence_outcome(content)
    }

    fn can_parse(&self, path: &str) -> (r: bool) {
        let by_extension = match crate::paths::extension(path) {
            Some(e) => text::str_eq(e.as_str(), "confluence"),
            None => false,
        };
        by_extension || text::starts_with(&text::chars_of(path), "confluence://")
    }

    fn parse(&self, path: &str, content: &[u8]) -> (r: Result<ParseResult, ParseError>) {
        let _ = path;
        match json::json_from_slice(content) {
            Ok(doc) => parse_page(&doc),
            Err(e) => Err(
                ParseError::BadFrontmatter(text::concat("confluence JSON: ", e.as_str())),
            ),
        }
    }
}

// ── API requests ────────────────────────────────────────────────────────────

/// A document that a remote source offers.
#[derive(Debug)]
pub struct RemoteItem {
    /// The path under which the document is ingested.
    pub synthetic_path: String,
    /// The identifier of the document at its source.
    pub id: String,
    pub title: String,
    /// When the document was last changed.
    pub updated_at: i64,
    /// Whether the document is gone from its source.
    pub deleted: bool,
}

/// A remote item with its strings taken as texts.
#[verifier::ext_equal]
pub struct RemoteItemView {
    pub synthetic_path: Seq<char>,
    pub id: Seq<char>,
    pub title: Seq<char>,
    pub updated_at: i64,
    pub deleted: bool,
}

impl View for RemoteItem {
    type V = RemoteItemView;

    open spec fn view(&self) -> RemoteItemView {
        RemoteItemView {
            synthetic_path: self.synthetic_path@,
            id: self.id@,
            title: self.title@,
            updated_at: self.updated_at,
            deleted: self.deleted,
        }
    }
}

/// The value of the `Authorization` header.
pub fn auth_header(username: &str, api_token: &str) -> (r: String)
    ensures
        r@ == "Basic "@ + crate::base64::encode_spec(
            vstd::utf8::encode_utf8(username@ + ":"@ + api_token@),
        ),
{
    let user = text::concat(username, ":");
    let creds = text::concat(user.as_str(), api_token);
    let encoded = crate::base64::base64_encode(creds.as_str().as_bytes());
    text::concat("Basic ", encoded.as_str())
}

/// The URL of the first page of a space's listing.
pub fn listing_url(base_url: &str, space_key: &str, since: Option<i64>) -> (r: String)
    ensures
        r@ == base_url@ + "/rest/api/content?spaceKey="@ + space_key@
            + "&type=page&status=current&limit=50&expand=version,space"@ + match since {
            Some(ts) => "&lastModified="@ + dates::confluence_datetime_spec(ts),
            None => Seq::empty(),
        },
{
    let mut url = text::concat(base_url, "/rest/api/content?spaceKey=");
    url.append(space_key);
    url.append("&type=page&status=current&limit=50&expand=version,space");
    let ghost front = url@;
    match since {
        Some(ts) => {
            url.append("&lastModified=");
            url.append(dates::format_confluence_datetime(ts).as_str());
            proof {
                assert(url@ =~= front + ("&lastModified="@ + dates::confluence_datetime_spec(ts)));
            }
        },
        None => {
            proof {
                assert(front + Seq::<char>::empty() =~= front);
            }
        },
    }
    url
}

/// The URL of the next page of a listing, if there is one.
pub open spec fn next_url_spec(base_url: Seq<char>, listing: JsonView) -> Option<Seq<char>> {
    match as_text(get_spec(get_spec(Some(listing), "_links"@), "next"@)) {
        Some(n) => Some(base_url + n),
        None => None,
    }
}

/// The URL of the next page of a listing, if there is one.
pub fn next_listing_url(base_url: &str, listing: &Json) -> (r: Option<String>)
    ensures
        types::text_of(r) == next_url_spec(base_url@, listing.model()),
{
    match get(get(Some(listing), "_links"), "next") {
        Some(Json::Text(n)) => Some(text::concat(base_url, n.as_str())),
        _ => None,
    }
}

/// The URL of a page's content.
pub fn content_url(base_url: &str, page_id: &str) -> (r: String)
    ensures
        r@ == base_url@ + "/rest/api/content/"@ + page_id@
            + "?expand=body.storage,metadata.labels,ancestors,version,space"@,
{
    let mut url = text::concat(base_url, "/rest/api/content/");
    url.append(page_id);
    url.append("?expand=body.storage,metadata.labels,ancestors,version,space");
    url
}

/// When a listed page was last changed, as a text.
pub open spec fn updated_text(page: JsonView) -> Seq<char> {
    text_or(get_spec(get_spec(Some(page), "version"@), "when"@), ""@)
}

/// The moment that a text names; the epoch where it names none.
pub open spec fn updated_moment(t: Seq<char>) -> int {
    match dates::iso8601_spec(vstd::utf8::encode_utf8(t)) {
        Some(v) => v,
        None => 0,
    }
}

/// The item of a listed page.
pub open spec fn item_spec(page: JsonView, space_key: Seq<char>) -> RemoteItemView {
    let id = text_or(get_spec(Some(page), "id"@), ""@);
    RemoteItemView {
        synthetic_path: "confluence://"@ + space_key + "/"@ + id + ".confluence"@,
        id,
        title: text_or(get_spec(Some(page), "title"@), "Untitled"@),
        updated_at: updated_moment(updated_text(page)) as i64,
        deleted: false,
    }
}

/// The item of a listed page.
pub fn listed_item(page: &Json, space_key: &str) -> (r: RemoteItem)
    ensures
        r@ == item_spec(page.model(), space_key@),
{
    let id = get_text(get(Some(page), "id"), "");
    let title = get_text(get(Some(page), "title"), "Untitled");
    let updated = get_text(get(get(Some(page), "version"), "when"), "");
    let updated_at: i64 = match dates::parse_iso8601(updated.as_str()) {
        Some(v) => v,
        None => 0,
    };
    let mut path = text::concat("confluence://", space_key);
    path.append("/");
    path.append(id.as_str());
    path.append(".confluence");
    RemoteItem { synthetic_path: path, id, title, updated_at, deleted: false }
}

/// The items of the pages from `i` on.
pub open spec fn items_spec(pages: Seq<JsonView>, i: int, space_key: Seq<char>) -> Seq<
    RemoteItemView,
>
    decreases pages.len() - i,
{
    if i < 0 || i >= pages.len() {
        Seq::empty()
    } else {
        seq![item_spec(pages[i], space_key)] + items_spec(pages, i + 1, space_key)
    }
}

/// The pages of a listing.
pub open spec fn listed_pages(listing: JsonView) -> Seq<JsonView> {
    as_elements(get_spec(Some(listing), "results"@))
}

/// The items of a listing.
pub fn listed_items(listing: &Json, space_key: &str) -> (r: Vec<RemoteItem>)
    ensures
        types::views(r@) == items_spec(listed_pages(listing.model()), 0, space_key@),
{
    let ghost pages = listed_pages(listing.model());
    let mut items: Vec<RemoteItem> = Vec::new();
    let results = get(Some(listing), "results");
    match results {
        Some(Json::Array(a)) => {
            let mut i: usize = 0;
            assert(pages.len() == a@.len());
            proof {
                assert(types::views(items@) + items_spec(pages, 0, space_key@) =~= items_spec(
                    pages,
                    0,
                    space_key@,
                ));
            }
            while i < a.len()
                invariant
                    i <= a@.len(),
                    results == Some(&Json::Array(*a)),
                    pages == as_elements(opt_model(results)),
                    pages.len() == a@.len(),
                    types::views(items@) + items_spec(pages, i as int, space_key@) == items_spec(
                        pages,
                        0,
                        space_key@,
                    ),
                decreases a@.len() - i,
            {
                assert(pages[i as int] == a@[i as int].model());
                let ghost before = items@;
                items.push(listed_item(&a[i], space_key));
                proof {
                    assert(types::views(items@) + items_spec(pages, i + 1, space_key@)
                        =~= types::views(before) + items_spec(pages, i as int, space_key@));
                }
                i += 1;
            }
            proof {
                assert(types::views(items@) + items_spec(pages, i as int, space_key@)
                    =~= types::views(items@));
            }
        },
        _ => {
            proof {
                assert(types::views(items@) =~= items_spec(pages, 0, space_key@));
            }
        },
    }
    items
}

/// A part of a listing: its items, and where the listing goes on.
#[derive(Debug)]
pub struct ListingPart {
    pub items: Vec<RemoteItem>,
    pub next: Option<String>,
}

/// Reads the reply to a listing request, or says why it is no JSON.
pub fn read_listing(reply: &[u8], base_url: &str, space_key: &str) -> (r: Result<
    ListingPart,
    String,
>)
    ensures
        match json::json_document(reply@) {
            Ok(listing) => r matches Ok(p) && types::views(p.items@) == items_spec(
                listed_pages(listing),
                0,
                space_key@,
            ) && types::text_of(p.next) == next_url_spec(base_url@, listing),
            Err(m) => r matches Err(e) && e@ == m,
        },
{
    match json::json_from_slice(reply) {
        Ok(listing) => {
            let items = listed_items(&listing, space_key);
            let next = next_listing_url(base_url, &listing);
            Ok(ListingPart { items, next })
        },
        Err(m) => Err(m),
    }
}

} // verus!
