//! Source code parser: functions, types, constants and imports of Rust, TypeScript, JavaScript
//! and Python files.

use std::ops::Range;

use vstd::prelude::*;
use vstd::utf8::*;

use crate::keymap::KeyMap;
use crate::parser::Parser;
use crate::paths;
use crate::syntax;
use crate::syntax::{Grammar, ItemView, SyntaxItem};
use crate::text;
use crate::types;
use crate::types::{
    Chunk, ChunkKind, ChunkMetadata, ChunkView, DocType, LinkRef, LinkView, MetadataView,
    ParseError, ParseErrorView, ParseResult, ParseView, Visibility,
};

verus! {

broadcast use crate::types::lemma_views_push;

// ── What is found ───────────────────────────────────────────────────────────

/// What has been found in a file so far.
#[derive(Debug)]
pub struct Found {
    pub chunks: Vec<Chunk>,
    pub tags: Vec<String>,
    pub links: Vec<LinkRef>,
}

/// What has been found, with strings taken as texts.
#[verifier::ext_equal]
pub struct FoundView {
    pub chunks: Seq<ChunkView>,
    pub tags: Seq<Seq<char>>,
    pub links: Seq<LinkView>,
}

impl View for Found {
    type V = FoundView;

    open spec fn view(&self) -> FoundView {
        FoundView {
            chunks: types::views(self.chunks@),
            tags: self.tags.deep_view(),
            links: types::views(self.links@),
        }
    }
}

/// A tag is added, unless it is there.
pub open spec fn with_tag(f: FoundView, tag: Seq<char>) -> FoundView {
    FoundView { tags: text::add_once(f.tags, tag), ..f }
}

/// A chunk is added.
pub open spec fn with_chunk(f: FoundView, c: ChunkView) -> FoundView {
    FoundView { chunks: f.chunks.push(c), ..f }
}

/// A link is added.
pub open spec fn with_link(f: FoundView, l: LinkView) -> FoundView {
    FoundView { links: f.links.push(l), ..f }
}

/// Adds a tag, unless it is there.
pub fn add_tag_once(tags: &mut Vec<String>, tag: &str)
    ensures
        final(tags).deep_view() == text::add_once(old(tags).deep_view(), tag@),
{
    text::push_once(tags, tag.to_owned());
}

fn add_tag(found: &mut Found, tag: &str)
    ensures
        final(found)@ == with_tag(old(found)@, tag@),
{
    add_tag_once(&mut found.tags, tag);
}

fn add_chunk(found: &mut Found, chunk: Chunk)
    ensures
        final(found)@ == with_chunk(old(found)@, chunk@),
{
    found.chunks.push(chunk);
}

fn add_link(found: &mut Found, link: LinkRef)
    ensures
        final(found)@ == with_link(old(found)@, link@),
{
    found.links.push(link);
}

/// The chunk of the node at `i`.
pub open spec fn chunk_spec(
    t: Seq<ItemView>,
    i: int,
    kind: ChunkKind,
    label: Seq<char>,
    depth: u8,
    signature: Option<Seq<char>>,
    lang: Seq<char>,
    visibility: Visibility,
) -> ChunkView {
    ChunkView {
        start: t[i].start,
        end: t[i].end,
        kind,
        label: Some(label),
        depth,
        metadata: MetadataView {
            signature,
            language: Some(lang),
            visibility: Some(visibility),
        },
    }
}

fn chunk_of(
    t: &Vec<SyntaxItem>,
    i: usize,
    kind: ChunkKind,
    label: String,
    depth: u8,
    signature: Option<String>,
    lang: &str,
    visibility: Visibility,
) -> (r: Chunk)
    requires
        i < t@.len(),
    ensures
        r@ == chunk_spec(
            types::views(t@),
            i as int,
            kind,
            label@,
            depth,
            types::text_of(signature),
            lang@,
            visibility,
        ),
{
    Chunk {
        byte_range: Range { start: t[i].start, end: t[i].end },
        kind,
        label: Some(label),
        depth,
        metadata: ChunkMetadata {
            signature,
            language: Some(lang.to_owned()),
            visibility: Some(visibility),
        },
    }
}

/// The depth below a depth. It does not grow beyond the greatest.
pub open spec fn deeper_spec(depth: u8) -> u8 {
    if depth < u8::MAX {
        (depth + 1) as u8
    } else {
        depth
    }
}

fn deeper(depth: u8) -> (r: u8)
    ensures
        r == deeper_spec(depth),
{
    if depth < u8::MAX {
        depth + 1
    } else {
        depth
    }
}

// ── Texts ───────────────────────────────────────────────────────────────────

/// The first line of a text, without its line ending.
pub open spec fn first_line_spec(s: Seq<char>) -> Seq<char> {
    let e = text::next_sep(s, '\n', 0);
    if e < s.len() && e > 0 && s[e - 1] == '\r' {
        s.take(e - 1)
    } else {
        s.take(e)
    }
}

fn position_of(v: &[char], c: char) -> (r: usize)
    ensures
        r == text::next_sep(v@, c, 0),
        r <= v@.len(),
{
    let mut i: usize = 0;
    while i < v.len() && v[i] != c
        invariant
            i <= v@.len(),
            text::next_sep(v@, c, 0) == text::next_sep(v@, c, i as int),
        decreases v@.len() - i,
    {
        i += 1;
    }
    i
}

fn first_line(s: &str) -> (r: String)
    ensures
        r@ == first_line_spec(s@),
{
    let v = text::chars_of(s);
    let e = position_of(&v, '\n');
    let to: usize = if e < v.len() && e > 0 && v[e - 1] == '\r' {
        e - 1
    } else {
        e
    };
    text::substring(&v, 0, to)
}

/// The text before the first occurrence of a character, or the whole text.
pub open spec fn before_spec(s: Seq<char>, c: char) -> Seq<char> {
    s.take(text::next_sep(s, c, 0))
}

fn before(s: &str, c: char) -> (r: String)
    ensures
        r@ == before_spec(s@, c),
{
    let v = text::chars_of(s);
    let e = position_of(&v, c);
    text::substring(&v, 0, e)
}

/// The signature of a function: what stands before its body, or else its first line.
pub open spec fn signature_spec(t: Seq<ItemView>, source: Seq<u8>, i: int) -> Seq<char> {
    match syntax::field_spec(t, i, "body"@) {
        Some(b) if t[b].start > t[i].start => text::trim_spec(
            syntax::or_empty(syntax::text_at(source, t[i].start, t[b].start)),
        ),
        _ => first_line_spec(syntax::or_empty(syntax::item_text_spec(t, source, i))),
    }
}

/// The signature of a function: what stands before its body, or else its first line.
pub fn extract_function_signature(t: &Vec<SyntaxItem>, source: &[u8], i: usize) -> (r: String)
    requires
        i < t@.len(),
    ensures
        r@ == signature_spec(types::views(t@), source@, i as int),
{
    if let Some(b) = syntax::field(t, i, "body") {
        if t[b].start > t[i].start {
            return match syntax::text_in(source, t[i].start, t[b].start) {
                Some(s) => text::trim_str(s.as_str()),
                None => {
                    let s = String::new();
                    assert(s@ =~= text::trim_spec(Seq::<char>::empty()));
                    s
                },
            };
        }
    }
    let s = syntax::item_text_or_empty(t, source, i);
    first_line(s.as_str())
}

// ── Rust ────────────────────────────────────────────────────────────────────

/// The first child of a kind among the children of the node at `i`, from the `k`-th on.
pub open spec fn kid_of_kind_from(t: Seq<ItemView>, i: int, kind: Seq<char>, k: int) -> Option<int>
    decreases syntax::kids_spec(t, i).len() - k,
{
    if k < 0 || k >= syntax::kids_spec(t, i).len() {
        None
    } else if t[syntax::kids_spec(t, i)[k]].kind == kind {
        Some(syntax::kids_spec(t, i)[k])
    } else {
        kid_of_kind_from(t, i, kind, k + 1)
    }
}

fn kid_of_kind(t: &Vec<SyntaxItem>, i: usize, kind: &str) -> (r: Option<usize>)
    requires
        i < t@.len(),
    ensures
        match r {
            Some(j) => kid_of_kind_from(types::views(t@), i as int, kind@, 0) == Some(j as int) && i
                < j < t@.len(),
            None => kid_of_kind_from(types::views(t@), i as int, kind@, 0) is None,
        },
{
    let ghost tv = types::views(t@);
    let ks = syntax::kids(t, i);
    let mut k: usize = 0;
    while k < ks.len()
        invariant
            tv == types::views(t@),
            syntax::positions(ks@) == syntax::kids_spec(tv, i as int),
            k <= ks@.len(),
            forall|m: int| 0 <= m < ks@.len() ==> i < #[trigger] ks@[m] < t@.len(),
            kid_of_kind_from(tv, i as int, kind@, 0) == kid_of_kind_from(
                tv,
                i as int,
                kind@,
                k as int,
            ),
        decreases ks@.len() - k,
    {
        assert(syntax::positions(ks@)[k as int] == ks@[k as int]);
        if syntax::is_kind(t, ks[k], kind) {
            return Some(ks[k]);
        }
        k += 1;
    }
    None
}

/// The visibility of a Rust item: that of its first visibility modifier, private without one.
pub open spec fn rust_visibility_spec(t: Seq<ItemView>, source: Seq<u8>, i: int) -> Visibility {
    match kid_of_kind_from(t, i, "visibility_modifier"@, 0) {
        Some(j) => match syntax::item_text_spec(t, source, j) {
            Some(s) => if text::contains_spec(s, "crate"@) {
                Visibility::Internal
            } else {
                Visibility::Public
            },
            None => Visibility::Public,
        },
        None => Visibility::Private,
    }
}

/// The visibility of a Rust item.
pub fn extract_visibility(t: &Vec<SyntaxItem>, source: &[u8], i: usize) -> (r: Visibility)
    requires
        i < t@.len(),
    ensures
        r == rust_visibility_spec(types::views(t@), source@, i as int),
{
    match kid_of_kind(t, i, "visibility_modifier") {
        Some(j) => match syntax::item_text(t, source, j) {
            Some(s) => {
                let v = text::chars_of(s.as_str());
                if text::contains(&v, "crate") {
                    Visibility::Internal
                } else {
                    Visibility::Public
                }
            },
            None => Visibility::Public,
        },
        None => Visibility::Private,
    }
}

/// The longest text that some bytes from `start` on, before `end`, encode.
pub open spec fn head_text_spec(source: Seq<u8>, start: int, end: int) -> Seq<char>
    decreases end - start,
{
    match syntax::text_at(source, start, end) {
        Some(s) => s,
        None => if start < end {
            head_text_spec(source, start, end - 1)
        } else {
            Seq::empty()
        },
    }
}

fn head_text(source: &[u8], start: usize, end: usize) -> (r: String)
    ensures
        r@ == head_text_spec(source@, start as int, end as int),
{
    let mut e: usize = end;
    loop
        invariant
            head_text_spec(source@, start as int, end as int) == head_text_spec(
                source@,
                start as int,
                e as int,
            ),
        decreases e,
    {
        match syntax::text_in(source, start, e) {
            Some(s) => {
                return s;
            },
            None => {
                if start < e {
                    e -= 1;
                } else {
                    let s = String::new();
                    assert(s@ =~= Seq::<char>::empty());
                    return s;
                }
            },
        }
    }
}

/// Where the head of a function that is searched for `async` ends: fifty bytes on, or at its end.
pub open spec fn head_end_spec(start: int, end: int) -> int {
    if end <= start + 50 {
        end
    } else {
        start + 50
    }
}

/// Whether a Rust function is asynchronous: it has an `async` child, or its head says so.
pub open spec fn rust_async_spec(t: Seq<ItemView>, source: Seq<u8>, i: int) -> bool {
    let head = head_text_spec(source, t[i].start, head_end_spec(t[i].start, t[i].end));
    syntax::has_kid_spec(t, i, "async"@) || text::contains_spec(head, "async fn"@)
        || text::starts_with_spec(head, "async "@)
}

/// Whether a Rust function is asynchronous.
pub fn is_async_function(t: &Vec<SyntaxItem>, source: &[u8], i: usize) -> (r: bool)
    requires
        i < t@.len(),
    ensures
        r == rust_async_spec(types::views(t@), source@, i as int),
{
    if syntax::has_kid(t, i, "async") {
        return true;
    }
    let start = t[i].start;
    let end = t[i].end;
    let e: usize = if end <= start || end - start <= 50 {
        end
    } else {
        start + 50
    };
    let head = head_text(source, start, e);
    let v = text::chars_of(head.as_str());
    text::contains(&v, "async fn") || text::starts_with(&v, "async ")
}

/// The chunk of a Rust function, where it has a name.
pub open spec fn rust_function_spec(
    t: Seq<ItemView>,
    source: Seq<u8>,
    i: int,
    lang: Seq<char>,
    depth: u8,
) -> Option<ChunkView> {
    match syntax::field_text_spec(t, source, i, "name"@) {
        Some(name) => Some(
            chunk_spec(
                t,
                i,
                ChunkKind::Function,
                name,
                depth,
                Some(signature_spec(t, source, i)),
                lang,
                rust_visibility_spec(t, source, i),
            ),
        ),
        None => None,
    }
}

/// An optional chunk with its strings taken as texts.
pub open spec fn opt_chunk(o: Option<Chunk>) -> Option<ChunkView> {
    match o {
        Some(c) => Some(c@),
        None => None,
    }
}

/// The chunk of a Rust function, where it has a name.
pub fn extract_function(t: &Vec<SyntaxItem>, source: &[u8], i: usize, lang: &str, depth: u8) -> (r:
    Option<Chunk>)
    requires
        i < t@.len(),
    ensures
        opt_chunk(r) == rust_function_spec(types::views(t@), source@, i as int, lang@, depth),
{
    match syntax::field_text(t, source, i, "name") {
        Some(label) => {
            let vis = extract_visibility(t, source, i);
            let sig = extract_function_signature(t, source, i);
            Some(chunk_of(t, i, ChunkKind::Function, label, depth, Some(sig), lang, vis))
        },
        None => None,
    }
}

/// The chunk of a named Rust item, where it has a name.
pub open spec fn rust_named_spec(
    t: Seq<ItemView>,
    source: Seq<u8>,
    i: int,
    lang: Seq<char>,
    kind: ChunkKind,
    depth: u8,
) -> Option<ChunkView> {
    match syntax::field_text_spec(t, source, i, "name"@) {
        Some(name) => Some(
            chunk_spec(t, i, kind, name, depth, None, lang, rust_visibility_spec(t, source, i)),
        ),
        None => None,
    }
}

/// The chunk of a named Rust item (structure, enumeration, trait, constant, module).
pub fn extract_named_item(
    t: &Vec<SyntaxItem>,
    source: &[u8],
    i: usize,
    lang: &str,
    kind: ChunkKind,
    depth: u8,
) -> (r: Option<Chunk>)
    requires
        i < t@.len(),
    ensures
        opt_chunk(r) == rust_named_spec(types::views(t@), source@, i as int, lang@, kind, depth),
{
    match syntax::field_text(t, source, i, "name") {
        Some(label) => {
            let vis = extract_visibility(t, source, i);
            Some(chunk_of(t, i, kind, label, depth, None, lang, vis))
        },
        None => None,
    }
}

/// The label of a method: its name, qualified by the type and the trait of its block.
pub open spec fn qualified_spec(
    ty: Option<Seq<char>>,
    tr: Option<Seq<char>>,
    name: Seq<char>,
) -> Seq<char> {
    match (ty, tr) {
        (Some(ty), Some(tr)) => "<"@ + ty + " as "@ + tr + ">::"@ + name,
        (Some(ty), None) => ty + "::"@ + name,
        _ => name,
    }
}

/// The label of a method.
pub fn qualified(ty: &Option<String>, tr: &Option<String>, name: String) -> (r: String)
    ensures
        r@ == qualified_spec(types::text_of(*ty), types::text_of(*tr), name@),
{
    match (ty, tr) {
        (Some(ty), Some(tr)) => {
            let a = text::concat("<", ty.as_str());
            let b = text::concat(a.as_str(), " as ");
            let c = text::concat(b.as_str(), tr.as_str());
            let d = text::concat(c.as_str(), ">::");
            text::concat(d.as_str(), name.as_str())
        },
        (Some(ty), None) => {
            let a = text::concat(ty.as_str(), "::");
            text::concat(a.as_str(), name.as_str())
        },
        _ => name,
    }
}

/// What the `k`-th and later children of the body of an implementation block add.
pub open spec fn impl_from(
    t: Seq<ItemView>,
    source: Seq<u8>,
    lang: Seq<char>,
    depth: u8,
    block: int,
    body: int,
    k: int,
    f: FoundView,
) -> FoundView
    decreases syntax::kids_spec(t, body).len() - k,
{
    let kids = syntax::kids_spec(t, body);
    if k < 0 || k >= kids.len() {
        f
    } else {
        let j = kids[k];
        let g = if t[j].kind == "function_item"@ && syntax::field_spec(t, j, "name"@) is Some {
            let label = qualified_spec(
                syntax::field_text_spec(t, source, block, "type"@),
                syntax::field_text_spec(t, source, block, "trait"@),
                syntax::or_empty(syntax::field_text_spec(t, source, j, "name"@)),
            );
            with_tag(
                with_chunk(
                    f,
                    chunk_spec(
                        t,
                        j,
                        ChunkKind::Method,
                        label,
                        deeper_spec(depth),
                        Some(signature_spec(t, source, j)),
                        lang,
                        rust_visibility_spec(t, source, j),
                    ),
                ),
                "kind:method"@,
            )
        } else {
            f
        };
        impl_from(t, source, lang, depth, block, body, k + 1, g)
    }
}

/// What an implementation block adds: its methods.
pub open spec fn impl_spec(
    t: Seq<ItemView>,
    source: Seq<u8>,
    lang: Seq<char>,
    depth: u8,
    block: int,
    f: FoundView,
) -> FoundView {
    match syntax::field_spec(t, block, "body"@) {
        Some(body) => impl_from(t, source, lang, depth, block, body, 0, f),
        None => f,
    }
}

/// Adds the methods of an implementation block.
pub fn extract_impl_block(
    t: &Vec<SyntaxItem>,
    source: &[u8],
    i: usize,
    lang: &str,
    depth: u8,
    found: &mut Found,
)
    requires
        i < t@.len(),
    ensures
        final(found)@ == impl_spec(
            types::views(t@),
            source@,
            lang@,
            depth,
            i as int,
            old(found)@,
        ),
{
    let ghost tv = types::views(t@);
    let impl_type = syntax::field_text(t, source, i, "type");
    let trait_name = syntax::field_text(t, source, i, "trait");
    if let Some(body) = syntax::field(t, i, "body") {
        let ks = syntax::kids(t, body);
        let ghost goal = impl_spec(tv, source@, lang@, depth, i as int, old(found)@);
        let mut k: usize = 0;
        while k < ks.len()
            invariant
                tv == types::views(t@),
                syntax::positions(ks@) == syntax::kids_spec(tv, body as int),
                k <= ks@.len(),
                forall|m: int| 0 <= m < ks@.len() ==> body < #[trigger] ks@[m] < t@.len(),
                types::text_of(impl_type) == syntax::field_text_spec(
                    tv,
                    source@,
                    i as int,
                    "type"@,
                ),
                types::text_of(trait_name) == syntax::field_text_spec(
                    tv,
                    source@,
                    i as int,
                    "trait"@,
                ),
                goal == impl_from(
                    tv,
                    source@,
                    lang@,
                    depth,
                    i as int,
                    body as int,
                    k as int,
                    found@,
                ),
            decreases ks@.len() - k,
        {
            let j = ks[k];
            assert(syntax::positions(ks@)[k as int] == j);
            if syntax::is_kind(t, j, "function_item") {
                if let Some(n) = syntax::field(t, j, "name") {
                    let name = syntax::item_text_or_empty(t, source, n);
                    let label = qualified(&impl_type, &trait_name, name);
                    let vis = extract_visibility(t, source, j);
                    let sig = extract_function_signature(t, source, j);
                    let c = chunk_of(
                        t,
                        j,
                        ChunkKind::Method,
                        label,
                        deeper(depth),
                        Some(sig),
                        lang,
                        vis,
                    );
                    add_chunk(found, c);
                    add_tag(found, "kind:method");
                }
            }
            k += 1;
        }
    }
}

/// The text before the first `::`, or the whole text, without surrounding white space.
pub open spec fn crate_name_spec(path: Seq<char>) -> Seq<char> {
    match text::find_spec(path, "::"@, 0) {
        Some(p) => text::trim_spec(path.take(p)),
        None => text::trim_spec(path),
    }
}

/// The crate that a `use` path begins with.
pub fn crate_name(path: &str) -> (r: String)
    ensures
        r@ == crate_name_spec(path@),
{
    let v = text::chars_of(path);
    match text::find(&v, "::", 0) {
        Some(p) => {
            let head = text::substring(&v, 0, p);
            text::trim_str(head.as_str())
        },
        None => text::trim_str(path),
    }
}

/// Whether a `use` path stays within its own crate, or is empty.
pub open spec fn is_own_path(name: Seq<char>) -> bool {
    name == "self"@ || name == "crate"@ || name == "super"@ || name == ""@
}

/// A link from the node at `i` to a module.
pub open spec fn import_spec(t: Seq<ItemView>, source: Seq<u8>, i: int, target: Seq<char>) -> LinkView {
    LinkView {
        target,
        display: Some(text::trim_spec(syntax::or_empty(syntax::item_text_spec(t, source, i)))),
        byte_offset: t[i].start,
    }
}

fn import_of(t: &Vec<SyntaxItem>, source: &[u8], i: usize, target: String) -> (r: LinkRef)
    requires
        i < t@.len(),
    ensures
        r@ == import_spec(types::views(t@), source@, i as int, target@),
{
    let s = syntax::item_text_or_empty(t, source, i);
    LinkRef { target, display: Some(text::trim_str(s.as_str())), byte_offset: t[i].start }
}

/// What a `use` declaration adds: a link to the crate, unless the path is the crate's own.
pub open spec fn use_spec(t: Seq<ItemView>, source: Seq<u8>, i: int, f: FoundView) -> FoundView {
    match syntax::field_spec(t, i, "argument"@) {
        Some(a) => {
            let name = crate_name_spec(syntax::or_empty(syntax::item_text_spec(t, source, a)));
            if is_own_path(name) {
                f
            } else {
                with_link(f, import_spec(t, source, i, name))
            }
        },
        None => f,
    }
}

/// Adds the link of a `use` declaration.
pub fn extract_use_import(t: &Vec<SyntaxItem>, source: &[u8], i: usize, found: &mut Found)
    requires
        i < t@.len(),
    ensures
        final(found)@ == use_spec(types::views(t@), source@, i as int, old(found)@),
{
    if let Some(a) = syntax::field(t, i, "argument") {
        let path = syntax::item_text_or_empty(t, source, a);
        let name = crate_name(path.as_str());
        let own = text::str_eq(name.as_str(), "self") || text::str_eq(name.as_str(), "crate")
            || text::str_eq(name.as_str(), "super") || text::str_eq(name.as_str(), "");
        if !own {
            let l = import_of(t, source, i, name);
            add_link(found, l);
        }
    }
}

/// A chunk is added with a tag, where there is one.
pub open spec fn tagged_spec(f: FoundView, c: Option<ChunkView>, tag: Seq<char>) -> FoundView {
    match c {
        Some(c) => with_chunk(with_tag(f, tag), c),
        None => f,
    }
}

fn add_tagged(found: &mut Found, c: Option<Chunk>, tag: &str)
    ensures
        final(found)@ == tagged_spec(old(found)@, opt_chunk(c), tag@),
{
    if let Some(c) = c {
        add_tag(found, tag);
        add_chunk(found, c);
    }
}

/// What the node at `i` adds as an item of a Rust file or module.
pub open spec fn rust_item_spec(
    t: Seq<ItemView>,
    source: Seq<u8>,
    lang: Seq<char>,
    depth: u8,
    i: int,
    f: FoundView,
) -> FoundView
    decreases t.len() - i, 0int, 0int,
{
    let kind = t[i].kind;
    if kind == "function_item"@ {
        match rust_function_spec(t, source, i, lang, depth) {
            Some(c) => {
                let g = with_tag(f, "kind:function"@);
                let h = if rust_async_spec(t, source, i) {
                    with_tag(g, "async:true"@)
                } else {
                    g
                };
                with_chunk(h, c)
            },
            None => f,
        }
    } else if kind == "struct_item"@ {
        tagged_spec(f, rust_named_spec(t, source, i, lang, ChunkKind::Class, depth), "kind:struct"@)
    } else if kind == "enum_item"@ {
        tagged_spec(f, rust_named_spec(t, source, i, lang, ChunkKind::Class, depth), "kind:enum"@)
    } else if kind == "trait_item"@ {
        tagged_spec(f, rust_named_spec(t, source, i, lang, ChunkKind::Class, depth), "kind:trait"@)
    } else if kind == "impl_item"@ {
        impl_spec(t, source, lang, depth, i, f)
    } else if kind == "mod_item"@ {
        match rust_named_spec(t, source, i, lang, ChunkKind::Module, depth) {
            Some(c) => match syntax::field_spec(t, i, "body"@) {
                Some(b) if i < b < t.len() => rust_items_from(
                    t,
                    source,
                    lang,
                    deeper_spec(depth),
                    b,
                    0,
                    with_chunk(f, c),
                ),
                _ => with_chunk(f, c),
            },
            None => f,
        }
    } else if kind == "use_declaration"@ {
        use_spec(t, source, i, f)
    } else if kind == "const_item"@ || kind == "static_item"@ {
        match rust_named_spec(t, source, i, lang, ChunkKind::Constant, depth) {
            Some(c) => with_chunk(f, c),
            None => f,
        }
    } else {
        f
    }
}

/// What the `k`-th and later children of the node at `i` add as items of a Rust file or module.
pub open spec fn rust_items_from(
    t: Seq<ItemView>,
    source: Seq<u8>,
    lang: Seq<char>,
    depth: u8,
    i: int,
    k: int,
    f: FoundView,
) -> FoundView
    decreases t.len() - i, 1int, syntax::kids_spec(t, i).len() - k,
{
    let kids = syntax::kids_spec(t, i);
    if k < 0 || k >= kids.len() || !(i < kids[k] < t.len()) {
        f
    } else {
        rust_items_from(
            t,
            source,
            lang,
            depth,
            i,
            k + 1,
            rust_item_spec(t, source, lang, depth, kids[k], f),
        )
    }
}

/// Adds the items that are children of the node at `i`.
pub fn walk_rust_nodes(
    t: &Vec<SyntaxItem>,
    source: &[u8],
    i: usize,
    lang: &str,
    depth: u8,
    found: &mut Found,
)
    requires
        i < t@.len(),
    ensures
        final(found)@ == rust_items_from(
            types::views(t@),
            source@,
            lang@,
            depth,
            i as int,
            0,
            old(found)@,
        ),
    decreases t@.len() - i, 1int,
{
    let ghost tv = types::views(t@);
    let ghost goal = rust_items_from(tv, source@, lang@, depth, i as int, 0, old(found)@);
    let ks = syntax::kids(t, i);
    let mut k: usize = 0;
    while k < ks.len()
        invariant
            tv == types::views(t@),
            i < t@.len(),
            syntax::positions(ks@) == syntax::kids_spec(tv, i as int),
            k <= ks@.len(),
            forall|m: int| 0 <= m < ks@.len() ==> i < #[trigger] ks@[m] < t@.len(),
            goal == rust_items_from(tv, source@, lang@, depth, i as int, k as int, found@),
        decreases ks@.len() - k,
    {
        let j = ks[k];
        assert(syntax::positions(ks@)[k as int] == j);
        walk_rust_item(t, source, j, lang, depth, found);
        k += 1;
    }
}

/// Adds the item at `i`.
fn walk_rust_item(
    t: &Vec<SyntaxItem>,
    source: &[u8],
    i: usize,
    lang: &str,
    depth: u8,
    found: &mut Found,
)
    requires
        i < t@.len(),
    ensures
        final(found)@ == rust_item_spec(
            types::views(t@),
            source@,
            lang@,
            depth,
            i as int,
            old(found)@,
        ),
    decreases t@.len() - i, 0int,
{
    if syntax::is_kind(t, i, "function_item") {
        if let Some(c) = extract_function(t, source, i, lang, depth) {
            add_tag(found, "kind:function");
            if is_async_function(t, source, i) {
                add_tag(found, "async:true");
            }
            add_chunk(found, c);
        }
    } else if syntax::is_kind(t, i, "struct_item") {
        let c = extract_named_item(t, source, i, lang, ChunkKind::Class, depth);
        add_tagged(found, c, "kind:struct");
    } else if syntax::is_kind(t, i, "enum_item") {
        let c = extract_named_item(t, source, i, lang, ChunkKind::Class, depth);
        add_tagged(found, c, "kind:enum");
    } else if syntax::is_kind(t, i, "trait_item") {
        let c = extract_named_item(t, source, i, lang, ChunkKind::Class, depth);
        add_tagged(found, c, "kind:trait");
    } else if syntax::is_kind(t, i, "impl_item") {
        extract_impl_block(t, source, i, lang, depth, found);
    } else if syntax::is_kind(t, i, "mod_item") {
        if let Some(c) = extract_named_item(t, source, i, lang, ChunkKind::Module, depth) {
            add_chunk(found, c);
            if let Some(b) = syntax::field(t, i, "body") {
                walk_rust_nodes(t, source, b, lang, deeper(depth), found);
            }
        }
    } else if syntax::is_kind(t, i, "use_declaration") {
        extract_use_import(t, source, i, found);
    } else if syntax::is_kind(t, i, "const_item") || syntax::is_kind(t, i, "static_item") {
        if let Some(c) = extract_named_item(t, source, i, lang, ChunkKind::Constant, depth) {
            add_chunk(found, c);
        }
    }
}

// ── TypeScript and JavaScript ───────────────────────────────────────────────

/// The visibility of a declaration: public where its parent is an export statement.
pub open spec fn ts_visibility_spec(t: Seq<ItemView>, parent: int) -> Visibility {
    if t[parent].kind == "export_statement"@ {
        Visibility::Public
    } else {
        Visibility::Private
    }
}

/// The visibility of a declaration.
pub fn ts_node_visibility(t: &Vec<SyntaxItem>, parent: usize) -> (r: Visibility)
    requires
        parent < t@.len(),
    ensures
        r == ts_visibility_spec(types::views(t@), parent as int),
{
    if syntax::is_kind(t, parent, "export_statement") {
        Visibility::Public
    } else {
        Visibility::Private
    }
}

/// Whether a function is asynchronous: it has an `async` child.
pub fn ts_is_async(t: &Vec<SyntaxItem>, i: usize) -> (r: bool)
    requires
        i < t@.len(),
    ensures
        r == syntax::has_kid_spec(types::views(t@), i as int, "async"@),
{
    syntax::has_kid(t, i, "async")
}

/// The chunk of a function declaration, where it has a name.
pub open spec fn ts_function_spec(
    t: Seq<ItemView>,
    source: Seq<u8>,
    i: int,
    lang: Seq<char>,
    depth: u8,
    visibility: Visibility,
) -> Option<ChunkView> {
    match syntax::field_text_spec(t, source, i, "name"@) {
        Some(name) => Some(
            chunk_spec(
                t,
                i,
                ChunkKind::Function,
                name,
                depth,
                Some(signature_spec(t, source, i)),
                lang,
                visibility,
            ),
        ),
        None => None,
    }
}

/// The chunk of a function declaration, where it has a name.
pub fn extract_ts_function(
    t: &Vec<SyntaxItem>,
    source: &[u8],
    i: usize,
    lang: &str,
    depth: u8,
    visibility: Visibility,
) -> (r: Option<Chunk>)
    requires
        i < t@.len(),
    ensures
        opt_chunk(r) == ts_function_spec(
            types::views(t@),
            source@,
            i as int,
            lang@,
            depth,
            visibility,
        ),
{
    match syntax::field_text(t, source, i, "name") {
        Some(label) => {
            let sig = extract_function_signature(t, source, i);
            Some(chunk_of(t, i, ChunkKind::Function, label, depth, Some(sig), lang, visibility))
        },
        None => None,
    }
}

/// The chunk of a named declaration, where it has a name.
pub open spec fn ts_named_spec(
    t: Seq<ItemView>,
    source: Seq<u8>,
    i: int,
    lang: Seq<char>,
    kind: ChunkKind,
    depth: u8,
    visibility: Visibility,
) -> Option<ChunkView> {
    match syntax::field_text_spec(t, source, i, "name"@) {
        Some(name) => Some(chunk_spec(t, i, kind, name, depth, None, lang, visibility)),
        None => None,
    }
}

/// The chunk of a named declaration (interface, type alias, enumeration).
pub fn extract_ts_named(
    t: &Vec<SyntaxItem>,
    source: &[u8],
    i: usize,
    lang: &str,
    kind: ChunkKind,
    depth: u8,
    visibility: Visibility,
) -> (r: Option<Chunk>)
    requires
        i < t@.len(),
    ensures
        opt_chunk(r) == ts_named_spec(
            types::views(t@),
            source@,
            i as int,
            lang@,
            kind,
            depth,
            visibility,
        ),
{
    match syntax::field_text(t, source, i, "name") {
        Some(label) => Some(chunk_of(t, i, kind, label, depth, None, lang, visibility)),
        None => None,
    }
}

/// The chunk of a class declaration, where it has a name.
pub fn extract_ts_class(
    t: &Vec<SyntaxItem>,
    source: &[u8],
    i: usize,
    lang: &str,
    depth: u8,
    visibility: Visibility,
) -> (r: Option<Chunk>)
    requires
        i < t@.len(),
    ensures
        opt_chunk(r) == ts_named_spec(
            types::views(t@),
            source@,
            i as int,
            lang@,
            ChunkKind::Class,
            depth,
            visibility,
        ),
{
    extract_ts_named(t, source, i, lang, ChunkKind::Class, depth, visibility)
}

/// What the `k`-th and later children of a class body add: methods with a name.
pub open spec fn ts_members_from(
    t: Seq<ItemView>,
    source: Seq<u8>,
    lang: Seq<char>,
    depth: u8,
    body: int,
    k: int,
    f: FoundView,
) -> FoundView
    decreases syntax::kids_spec(t, body).len() - k,
{
    let kids = syntax::kids_spec(t, body);
    if k < 0 || k >= kids.len() {
        f
    } else {
        let j = kids[k];
        let label = syntax::or_empty(syntax::field_text_spec(t, source, j, "name"@));
        let g = if t[j].kind == "method_definition"@ && label.len() > 0 {
            with_tag(
                with_chunk(
                    f,
                    chunk_spec(
                        t,
                        j,
                        ChunkKind::Method,
                        label,
                        depth,
                        Some(signature_spec(t, source, j)),
                        lang,
                        Visibility::Public,
                    ),
                ),
                "kind:method"@,
            )
        } else {
            f
        };
        ts_members_from(t, source, lang, depth, body, k + 1, g)
    }
}

/// Adds the methods of a class body.
pub fn extract_ts_class_members(
    t: &Vec<SyntaxItem>,
    source: &[u8],
    body: usize,
    lang: &str,
    depth: u8,
    found: &mut Found,
)
    requires
        body < t@.len(),
    ensures
        final(found)@ == ts_members_from(
            types::views(t@),
            source@,
            lang@,
            depth,
            body as int,
            0,
            old(found)@,
        ),
{
    let ghost tv = types::views(t@);
    let ghost goal = ts_members_from(tv, source@, lang@, depth, body as int, 0, old(found)@);
    let ks = syntax::kids(t, body);
    let mut k: usize = 0;
    while k < ks.len()
        invariant
            tv == types::views(t@),
            syntax::positions(ks@) == syntax::kids_spec(tv, body as int),
            k <= ks@.len(),
            forall|m: int| 0 <= m < ks@.len() ==> body < #[trigger] ks@[m] < t@.len(),
            goal == ts_members_from(tv, source@, lang@, depth, body as int, k as int, found@),
        decreases ks@.len() - k,
    {
        let j = ks[k];
        assert(syntax::positions(ks@)[k as int] == j);
        if syntax::is_kind(t, j, "method_definition") {
            if let Some(label) = syntax::field_text(t, source, j, "name") {
                if !text::str_eq(label.as_str(), "") {
                    proof {
                        reveal_strlit("");
                        if label@.len() == 0 {
                            assert(label@ =~= ""@);
                        }
                    }
                    let sig = extract_function_signature(t, source, j);
                    let c = chunk_of(
                        t,
                        j,
                        ChunkKind::Method,
                        label,
                        depth,
                        Some(sig),
                        lang,
                        Visibility::Public,
                    );
                    add_chunk(found, c);
                    add_tag(found, "kind:method");
                } else {
                    proof {
                        reveal_strlit("");
                    }
                }
            }
        }
        k += 1;
    }
}

/// Whether a node is a function expression.
pub open spec fn is_ts_function(t: Seq<ItemView>, i: int) -> bool {
    t[i].kind == "arrow_function"@ || t[i].kind == "function"@ || t[i].kind
        == "function_expression"@
}

/// What a declarator adds: a function or a constant, where it has a name and a value. The chunk is
/// that of the whole declaration.
pub open spec fn ts_declarator_spec(
    t: Seq<ItemView>,
    source: Seq<u8>,
    lang: Seq<char>,
    depth: u8,
    visibility: Visibility,
    i: int,
    j: int,
    f: FoundView,
) -> FoundView {
    let label = syntax::or_empty(syntax::field_text_spec(t, source, j, "name"@));
    match syntax::field_spec(t, j, "value"@) {
        Some(v) => if t[j].kind != "variable_declarator"@ || label.len() == 0 {
            f
        } else if is_ts_function(t, v) {
            let c = chunk_spec(
                t,
                i,
                ChunkKind::Function,
                label,
                depth,
                Some(signature_spec(t, source, i)),
                lang,
                visibility,
            );
            let g = with_tag(with_chunk(f, c), "kind:function"@);
            if t[v].kind == "arrow_function"@ && syntax::has_kid_spec(t, v, "async"@) {
                with_tag(g, "async:true"@)
            } else {
                g
            }
        } else {
            with_chunk(
                f,
                chunk_spec(t, i, ChunkKind::Constant, label, depth, None, lang, visibility),
            )
        },
        None => f,
    }
}

/// What the `k`-th and later children of a declaration of variables add.
pub open spec fn ts_declarators_from(
    t: Seq<ItemView>,
    source: Seq<u8>,
    lang: Seq<char>,
    depth: u8,
    visibility: Visibility,
    i: int,
    k: int,
    f: FoundView,
) -> FoundView
    decreases syntax::kids_spec(t, i).len() - k,
{
    let kids = syntax::kids_spec(t, i);
    if k < 0 || k >= kids.len() {
        f
    } else {
        ts_declarators_from(
            t,
            source,
            lang,
            depth,
            visibility,
            i,
            k + 1,
            ts_declarator_spec(t, source, lang, depth, visibility, i, kids[k], f),
        )
    }
}

/// Adds the functions and constants of a declaration of variables.
pub fn extract_ts_variable_declarations(
    t: &Vec<SyntaxItem>,
    source: &[u8],
    i: usize,
    lang: &str,
    depth: u8,
    visibility: Visibility,
    found: &mut Found,
)
    requires
        i < t@.len(),
    ensures
        final(found)@ == ts_declarators_from(
            types::views(t@),
            source@,
            lang@,
            depth,
            visibility,
            i as int,
            0,
            old(found)@,
        ),
{
    let ghost tv = types::views(t@);
    let ghost goal = ts_declarators_from(
        tv,
        source@,
        lang@,
        depth,
        visibility,
        i as int,
        0,
        old(found)@,
    );
    let ks = syntax::kids(t, i);
    let mut k: usize = 0;
    while k < ks.len()
        invariant
            tv == types::views(t@),
            i < t@.len(),
            syntax::positions(ks@) == syntax::kids_spec(tv, i as int),
            k <= ks@.len(),
            forall|m: int| 0 <= m < ks@.len() ==> i < #[trigger] ks@[m] < t@.len(),
            goal == ts_declarators_from(
                tv,
                source@,
                lang@,
                depth,
                visibility,
                i as int,
                k as int,
                found@,
            ),
        decreases ks@.len() - k,
    {
        let j = ks[k];
        assert(syntax::positions(ks@)[k as int] == j);
        extract_ts_declarator(t, source, i, j, lang, depth, visibility, found);
        k += 1;
    }
}

fn extract_ts_declarator(
    t: &Vec<SyntaxItem>,
    source: &[u8],
    i: usize,
    j: usize,
    lang: &str,
    depth: u8,
    visibility: Visibility,
    found: &mut Found,
)
    requires
        i < t@.len(),
        j < t@.len(),
    ensures
        final(found)@ == ts_declarator_spec(
            types::views(t@),
            source@,
            lang@,
            depth,
            visibility,
            i as int,
            j as int,
            old(found)@,
        ),
{
    if !syntax::is_kind(t, j, "variable_declarator") {
        return;
    }
    let label = match syntax::field_text(t, source, j, "name") {
        Some(l) => l,
        None => {
            return;
        },
    };
    let v = match syntax::field(t, j, "value") {
        Some(v) => v,
        None => {
            return;
        },
    };
    proof {
        reveal_strlit("");
        if label@.len() == 0 {
            assert(label@ =~= ""@);
        }
    }
    if text::str_eq(label.as_str(), "") {
        return;
    }
    let is_arrow = syntax::is_kind(t, v, "arrow_function");
    let is_expression = syntax::is_kind(t, v, "function") || syntax::is_kind(
        t,
        v,
        "function_expression",
    );
    if is_arrow || is_expression {
        let sig = extract_function_signature(t, source, i);
        let c = chunk_of(t, i, ChunkKind::Function, label, depth, Some(sig), lang, visibility);
        add_chunk(found, c);
        add_tag(found, "kind:function");
        if is_arrow && ts_is_async(t, v) {
            add_tag(found, "async:true");
        }
    } else {
        let c = chunk_of(t, i, ChunkKind::Constant, label, depth, None, lang, visibility);
        add_chunk(found, c);
    }
}

/// Whether a character is a quote.
pub open spec fn is_quote(c: char) -> bool {
    c == '\'' || c == '"'
}

/// A text without the quotes it begins with.
pub open spec fn unquote_start(s: Seq<char>) -> Seq<char>
    decreases s.len(),
{
    if s.len() > 0 && is_quote(s[0]) {
        unquote_start(s.subrange(1, s.len() as int))
    } else {
        s
    }
}

/// A text without the quotes it ends with.
pub open spec fn unquote_end(s: Seq<char>) -> Seq<char>
    decreases s.len(),
{
    if s.len() > 0 && is_quote(s.last()) {
        unquote_end(s.drop_last())
    } else {
        s
    }
}

/// A text without the quotes around it.
pub open spec fn unquote_spec(s: Seq<char>) -> Seq<char> {
    unquote_end(unquote_start(s))
}

/// A text without the quotes around it.
pub fn unquote(s: &str) -> (r: String)
    ensures
        r@ == unquote_spec(s@),
{
    let v = text::chars_of(s);
    let mut a: usize = 0;
    let n = v.len();
    assert(v@.subrange(0, n as int) =~= v@);
    while a < n && (v[a] == '\'' || v[a] == '"')
        invariant
            n == v@.len(),
            a <= n,
            unquote_start(v@) == unquote_start(v@.subrange(a as int, n as int)),
        decreases n - a,
    {
        proof {
            let w = v@.subrange(a as int, n as int);
            assert(w.subrange(1, w.len() as int) =~= v@.subrange(a + 1, n as int));
        }
        a += 1;
    }
    proof {
        let w = v@.subrange(a as int, n as int);
        if a < n {
            assert(w[0] == v@[a as int]);
        }
    }
    let mut b: usize = n;
    while b > a && (v[b - 1] == '\'' || v[b - 1] == '"')
        invariant
            n == v@.len(),
            a <= b <= n,
            unquote_end(v@.subrange(a as int, n as int)) == unquote_end(
                v@.subrange(a as int, b as int),
            ),
        decreases b,
    {
        proof {
            let w = v@.subrange(a as int, b as int);
            assert(w.drop_last() =~= v@.subrange(a as int, b - 1));
            assert(w.last() == v@[b - 1]);
        }
        b -= 1;
    }
    proof {
        let w = v@.subrange(a as int, b as int);
        if a < b {
            assert(w.last() == v@[b - 1]);
        }
    }
    text::substring(&v, a, b)
}

/// The package that a module belongs to: its first segment, or the first two where it is scoped.
pub open spec fn package_spec(module: Seq<char>) -> Seq<char> {
    let e = text::next_sep(module, '/', 0);
    if module.len() > 0 && module[0] == '@' && e < module.len() {
        module.take(text::next_sep(module, '/', e + 1))
    } else {
        module.take(e)
    }
}

/// The package that a module belongs to.
pub fn package_of(module: &str) -> (r: String)
    ensures
        r@ == package_spec(module@),
{
    let v = text::chars_of(module);
    let e = position_of(&v, '/');
    if v.len() > 0 && v[0] == '@' && e < v.len() {
        let mut i: usize = e + 1;
        while i < v.len() && v[i] != '/'
            invariant
                e < i <= v@.len(),
                text::next_sep(v@, '/', e + 1) == text::next_sep(v@, '/', i as int),
            decreases v@.len() - i,
        {
            i += 1;
        }
        text::substring(&v, 0, i)
    } else {
        text::substring(&v, 0, e)
    }
}

/// What an import statement adds: a link to the package, unless the module is relative.
pub open spec fn ts_import_spec(t: Seq<ItemView>, source: Seq<u8>, i: int, f: FoundView) -> FoundView {
    let module = unquote_spec(
        syntax::or_empty(syntax::field_text_spec(t, source, i, "source"@)),
    );
    if module.len() == 0 || module[0] == '.' {
        f
    } else {
        with_link(f, import_spec(t, source, i, package_spec(module)))
    }
}

/// Adds the link of an import statement.
pub fn extract_ts_import(t: &Vec<SyntaxItem>, source: &[u8], i: usize, found: &mut Found)
    requires
        i < t@.len(),
    ensures
        final(found)@ == ts_import_spec(types::views(t@), source@, i as int, old(found)@),
{
    if let Some(raw) = syntax::field_text(t, source, i, "source") {
        let module = unquote(raw.as_str());
        let v = text::chars_of(module.as_str());
        if v.len() > 0 && v[0] != '.' {
            let package = package_of(module.as_str());
            let l = import_of(t, source, i, package);
            add_link(found, l);
        }
    }
}

/// The last chunk is made public.
pub open spec fn last_public(f: FoundView) -> FoundView {
    if f.chunks.len() == 0 {
        f
    } else {
        let c = f.chunks.last();
        FoundView {
            chunks: f.chunks.drop_last().push(
                ChunkView {
                    metadata: MetadataView { visibility: Some(Visibility::Public), ..c.metadata },
                    ..c
                },
            ),
            ..f
        }
    }
}

fn make_last_public(found: &mut Found)
    ensures
        final(found)@ == last_public(old(found)@),
{
    let ghost before = found.chunks@;
    match found.chunks.pop() {
        Some(c) => {
            let d = Chunk {
                byte_range: c.byte_range,
                kind: c.kind,
                label: c.label,
                depth: c.depth,
                metadata: ChunkMetadata {
                    signature: c.metadata.signature,
                    language: c.metadata.language,
                    visibility: Some(Visibility::Public),
                },
            };
            proof {
                assert(types::views(before.drop_last()) =~= types::views(before).drop_last());
            }
            found.chunks.push(d);
            assert(found@ =~= last_public(old(found)@));
        },
        None => {
            assert(found.chunks@ =~= before);
        },
    }
}

/// What a class adds: its chunk and its methods.
pub open spec fn ts_class_spec(
    t: Seq<ItemView>,
    source: Seq<u8>,
    lang: Seq<char>,
    depth: u8,
    visibility: Visibility,
    i: int,
    f: FoundView,
) -> FoundView {
    let g = tagged_spec(
        f,
        ts_named_spec(t, source, i, lang, ChunkKind::Class, depth, visibility),
        "kind:class"@,
    );
    match syntax::field_spec(t, i, "body"@) {
        Some(body) => ts_members_from(t, source, lang, deeper_spec(depth), body, 0, g),
        None => g,
    }
}

fn walk_ts_class(
    t: &Vec<SyntaxItem>,
    source: &[u8],
    i: usize,
    lang: &str,
    depth: u8,
    visibility: Visibility,
    found: &mut Found,
)
    requires
        i < t@.len(),
    ensures
        final(found)@ == ts_class_spec(
            types::views(t@),
            source@,
            lang@,
            depth,
            visibility,
            i as int,
            old(found)@,
        ),
{
    let c = extract_ts_class(t, source, i, lang, depth, visibility);
    add_tagged(found, c, "kind:class");
    if let Some(body) = syntax::field(t, i, "body") {
        extract_ts_class_members(t, source, body, lang, deeper(depth), found);
    }
}

/// What the node at `i` adds as a declaration, of types and functions, with a visibility.
pub open spec fn ts_declaration_spec(
    t: Seq<ItemView>,
    source: Seq<u8>,
    lang: Seq<char>,
    depth: u8,
    visibility: Visibility,
    i: int,
    f: FoundView,
) -> FoundView {
    let kind = t[i].kind;
    if kind == "class_declaration"@ {
        ts_class_spec(t, source, lang, depth, visibility, i, f)
    } else if kind == "interface_declaration"@ {
        tagged_spec(
            f,
            ts_named_spec(t, source, i, lang, ChunkKind::Class, depth, visibility),
            "kind:interface"@,
        )
    } else if kind == "type_alias_declaration"@ {
        tagged_spec(
            f,
            ts_named_spec(t, source, i, lang, ChunkKind::Constant, depth, visibility),
            "kind:type"@,
        )
    } else if kind == "enum_declaration"@ {
        tagged_spec(
            f,
            ts_named_spec(t, source, i, lang, ChunkKind::Class, depth, visibility),
            "kind:enum"@,
        )
    } else {
        f
    }
}

fn walk_ts_declaration(
    t: &Vec<SyntaxItem>,
    source: &[u8],
    i: usize,
    lang: &str,
    depth: u8,
    visibility: Visibility,
    found: &mut Found,
)
    requires
        i < t@.len(),
    ensures
        final(found)@ == ts_declaration_spec(
            types::views(t@),
            source@,
            lang@,
            depth,
            visibility,
            i as int,
            old(found)@,
        ),
{
    if syntax::is_kind(t, i, "class_declaration") {
        walk_ts_class(t, source, i, lang, depth, visibility, found);
    } else if syntax::is_kind(t, i, "interface_declaration") {
        let c = extract_ts_named(t, source, i, lang, ChunkKind::Class, depth, visibility);
        add_tagged(found, c, "kind:interface");
    } else if syntax::is_kind(t, i, "type_alias_declaration") {
        let c = extract_ts_named(t, source, i, lang, ChunkKind::Constant, depth, visibility);
        add_tagged(found, c, "kind:type");
    } else if syntax::is_kind(t, i, "enum_declaration") {
        let c = extract_ts_named(t, source, i, lang, ChunkKind::Class, depth, visibility);
        add_tagged(found, c, "kind:enum");
    }
}

/// What the `k`-th and later children of an export statement add: public declarations.
pub open spec fn ts_export_from(
    t: Seq<ItemView>,
    source: Seq<u8>,
    lang: Seq<char>,
    depth: u8,
    i: int,
    k: int,
    f: FoundView,
) -> FoundView
    decreases syntax::kids_spec(t, i).len() - k,
{
    let kids = syntax::kids_spec(t, i);
    if k < 0 || k >= kids.len() {
        f
    } else {
        let j = kids[k];
        let kind = t[j].kind;
        let g = if kind == "function_declaration"@ {
            tagged_spec(
                f,
                ts_function_spec(t, source, j, lang, depth, Visibility::Public),
                "kind:function"@,
            )
        } else if kind == "lexical_declaration"@ || kind == "variable_declaration"@ {
            last_public(
                ts_declarators_from(
                    t,
                    source,
                    lang,
                    depth,
                    ts_visibility_spec(t, i),
                    j,
                    0,
                    f,
                ),
            )
        } else {
            ts_declaration_spec(t, source, lang, depth, Visibility::Public, j, f)
        };
        ts_export_from(t, source, lang, depth, i, k + 1, g)
    }
}

/// Adds the declarations of an export statement.
pub fn walk_ts_export(
    t: &Vec<SyntaxItem>,
    source: &[u8],
    i: usize,
    lang: &str,
    depth: u8,
    found: &mut Found,
)
    requires
        i < t@.len(),
    ensures
        final(found)@ == ts_export_from(
            types::views(t@),
            source@,
            lang@,
            depth,
            i as int,
            0,
            old(found)@,
        ),
{
    let ghost tv = types::views(t@);
    let ghost goal = ts_export_from(tv, source@, lang@, depth, i as int, 0, old(found)@);
    let ks = syntax::kids(t, i);
    let mut k: usize = 0;
    while k < ks.len()
        invariant
            tv == types::views(t@),
            i < t@.len(),
            syntax::positions(ks@) == syntax::kids_spec(tv, i as int),
            k <= ks@.len(),
            forall|m: int| 0 <= m < ks@.len() ==> i < #[trigger] ks@[m] < t@.len(),
            goal == ts_export_from(tv, source@, lang@, depth, i as int, k as int, found@),
        decreases ks@.len() - k,
    {
        let j = ks[k];
        assert(syntax::positions(ks@)[k as int] == j);
        if syntax::is_kind(t, j, "function_declaration") {
            let c = extract_ts_function(t, source, j, lang, depth, Visibility::Public);
            add_tagged(found, c, "kind:function");
        } else if syntax::is_kind(t, j, "lexical_declaration") || syntax::is_kind(
            t,
            j,
            "variable_declaration",
        ) {
            let vis = ts_node_visibility(t, i);
            extract_ts_variable_declarations(t, source, j, lang, depth, vis, found);
            make_last_public(found);
        } else {
            walk_ts_declaration(t, source, j, lang, depth, Visibility::Public, found);
        }
        k += 1;
    }
}

/// What the `k`-th and later children of the node at `i` add as statements of a module.
pub open spec fn ts_nodes_from(
    t: Seq<ItemView>,
    source: Seq<u8>,
    lang: Seq<char>,
    depth: u8,
    i: int,
    k: int,
    f: FoundView,
) -> FoundView
    decreases syntax::kids_spec(t, i).len() - k,
{
    let kids = syntax::kids_spec(t, i);
    if k < 0 || k >= kids.len() {
        f
    } else {
        let j = kids[k];
        let kind = t[j].kind;
        let vis = ts_visibility_spec(t, i);
        let g = if kind == "function_declaration"@ {
            match ts_function_spec(t, source, j, lang, depth, vis) {
                Some(c) => {
                    let a = with_tag(f, "kind:function"@);
                    let b = if syntax::has_kid_spec(t, j, "async"@) {
                        with_tag(a, "async:true"@)
                    } else {
                        a
                    };
                    with_chunk(b, c)
                },
                None => f,
            }
        } else if kind == "lexical_declaration"@ || kind == "variable_declaration"@ {
            ts_declarators_from(t, source, lang, depth, vis, j, 0, f)
        } else if kind == "import_statement"@ {
            ts_import_spec(t, source, j, f)
        } else if kind == "export_statement"@ {
            ts_export_from(t, source, lang, depth, j, 0, f)
        } else {
            ts_declaration_spec(t, source, lang, depth, vis, j, f)
        };
        ts_nodes_from(t, source, lang, depth, i, k + 1, g)
    }
}

/// Adds the statements that are children of the node at `i`.
pub fn walk_typescript_nodes(
    t: &Vec<SyntaxItem>,
    source: &[u8],
    i: usize,
    lang: &str,
    depth: u8,
    found: &mut Found,
)
    requires
        i < t@.len(),
    ensures
        final(found)@ == ts_nodes_from(
            types::views(t@),
            source@,
            lang@,
            depth,
            i as int,
            0,
            old(found)@,
        ),
{
    let ghost tv = types::views(t@);
    let ghost goal = ts_nodes_from(tv, source@, lang@, depth, i as int, 0, old(found)@);
    let ks = syntax::kids(t, i);
    let vis = ts_node_visibility(t, i);
    let mut k: usize = 0;
    while k < ks.len()
        invariant
            tv == types::views(t@),
            vis == ts_visibility_spec(tv, i as int),
            syntax::positions(ks@) == syntax::kids_spec(tv, i as int),
            k <= ks@.len(),
            forall|m: int| 0 <= m < ks@.len() ==> i < #[trigger] ks@[m] < t@.len(),
            goal == ts_nodes_from(tv, source@, lang@, depth, i as int, k as int, found@),
        decreases ks@.len() - k,
    {
        let j = ks[k];
        assert(syntax::positions(ks@)[k as int] == j);
        if syntax::is_kind(t, j, "function_declaration") {
            if let Some(c) = extract_ts_function(t, source, j, lang, depth, vis) {
                add_tag(found, "kind:function");
                if ts_is_async(t, j) {
                    add_tag(found, "async:true");
                }
                add_chunk(found, c);
            }
        } else if syntax::is_kind(t, j, "lexical_declaration") || syntax::is_kind(
            t,
            j,
            "variable_declaration",
        ) {
            extract_ts_variable_declarations(t, source, j, lang, depth, vis, found);
        } else if syntax::is_kind(t, j, "import_statement") {
            extract_ts_import(t, source, j, found);
        } else if syntax::is_kind(t, j, "export_statement") {
            walk_ts_export(t, source, j, lang, depth, found);
        } else {
            walk_ts_declaration(t, source, j, lang, depth, vis, found);
        }
        k += 1;
    }
}

// ── Python ──────────────────────────────────────────────────────────────────

/// The visibility of a name: private where it begins with an underscore.
pub open spec fn py_visibility_spec(name: Seq<char>) -> Visibility {
    if name.len() > 0 && name[0] == '_' {
        Visibility::Private
    } else {
        Visibility::Public
    }
}

/// The visibility of a name.
pub fn py_visibility(name: &str) -> (r: Visibility)
    ensures
        r == py_visibility_spec(name@),
{
    let v = text::chars_of(name);
    if v.len() > 0 && v[0] == '_' {
        Visibility::Private
    } else {
        Visibility::Public
    }
}

/// What a function definition adds. Below the top level it is a method.
pub open spec fn py_function_spec(
    t: Seq<ItemView>,
    source: Seq<u8>,
    lang: Seq<char>,
    depth: u8,
    i: int,
    f: FoundView,
) -> FoundView {
    if syntax::field_spec(t, i, "name"@) is None {
        f
    } else {
        let name = syntax::or_empty(syntax::field_text_spec(t, source, i, "name"@));
        let g = if syntax::has_kid_spec(t, i, "async"@) {
            with_tag(f, "async:true"@)
        } else {
            f
        };
        let h = if depth > 0 {
            with_tag(g, "kind:method"@)
        } else {
            with_tag(g, "kind:function"@)
        };
        let kind = if depth > 0 {
            ChunkKind::Method
        } else {
            ChunkKind::Function
        };
        with_chunk(
            h,
            chunk_spec(
                t,
                i,
                kind,
                name,
                depth,
                Some(signature_spec(t, source, i)),
                lang,
                py_visibility_spec(name),
            ),
        )
    }
}

/// Adds a function definition.
pub fn extract_py_function(
    t: &Vec<SyntaxItem>,
    source: &[u8],
    i: usize,
    lang: &str,
    depth: u8,
    found: &mut Found,
)
    requires
        i < t@.len(),
    ensures
        final(found)@ == py_function_spec(
            types::views(t@),
            source@,
            lang@,
            depth,
            i as int,
            old(found)@,
        ),
{
    let name = match syntax::field(t, i, "name") {
        Some(n) => syntax::item_text_or_empty(t, source, n),
        None => {
            return;
        },
    };
    let vis = py_visibility(name.as_str());
    let is_async = syntax::has_kid(t, i, "async");
    let sig = extract_function_signature(t, source, i);
    if is_async {
        add_tag(found, "async:true");
    }
    if depth > 0 {
        add_tag(found, "kind:method");
        let c = chunk_of(t, i, ChunkKind::Method, name, depth, Some(sig), lang, vis);
        add_chunk(found, c);
    } else {
        add_tag(found, "kind:function");
        let c = chunk_of(t, i, ChunkKind::Function, name, depth, Some(sig), lang, vis);
        add_chunk(found, c);
    }
}

/// A text without the at signs it begins with.
pub open spec fn without_at(s: Seq<char>) -> Seq<char>
    decreases s.len(),
{
    if s.len() > 0 && s[0] == '@' {
        without_at(s.subrange(1, s.len() as int))
    } else {
        s
    }
}

/// The name of a decorator: its text without white space around it and at signs before it.
pub open spec fn decorator_name_spec(s: Seq<char>) -> Seq<char> {
    without_at(text::trim_spec(s))
}

/// The name of a decorator.
pub fn decorator_name(s: &str) -> (r: String)
    ensures
        r@ == decorator_name_spec(s@),
{
    let trimmed = text::trim_str(s);
    let v = text::chars_of(trimmed.as_str());
    let n = v.len();
    let mut a: usize = 0;
    assert(v@.subrange(0, n as int) =~= v@);
    while a < n && v[a] == '@'
        invariant
            n == v@.len(),
            a <= n,
            without_at(v@) == without_at(v@.subrange(a as int, n as int)),
        decreases n - a,
    {
        proof {
            let w = v@.subrange(a as int, n as int);
            assert(w.subrange(1, w.len() as int) =~= v@.subrange(a + 1, n as int));
        }
        a += 1;
    }
    proof {
        let w = v@.subrange(a as int, n as int);
        if a < n {
            assert(w[0] == v@[a as int]);
        }
    }
    text::substring(&v, a, n)
}

/// The tag of the convention that a decorator follows.
pub open spec fn convention_spec(name: Seq<char>) -> Option<Seq<char>> {
    if text::starts_with_spec(name, "pytest.fixture"@) {
        Some("convention:fixture"@)
    } else if text::starts_with_spec(name, "app.route"@) || text::starts_with_spec(
        name,
        "router."@,
    ) {
        Some("convention:route"@)
    } else if name == "staticmethod"@ {
        Some("convention:staticmethod"@)
    } else if name == "classmethod"@ {
        Some("convention:classmethod"@)
    } else if name == "property"@ {
        Some("convention:property"@)
    } else {
        None
    }
}

/// The tag of the convention that a decorator follows.
pub fn convention_tag(name: &str) -> (r: Option<String>)
    ensures
        types::text_of(r) == convention_spec(name@),
{
    let v = text::chars_of(name);
    if text::starts_with(&v, "pytest.fixture") {
        Some("convention:fixture".to_owned())
    } else if text::starts_with(&v, "app.route") || text::starts_with(&v, "router.") {
        Some("convention:route".to_owned())
    } else if text::str_eq(name, "staticmethod") {
        Some("convention:staticmethod".to_owned())
    } else if text::str_eq(name, "classmethod") {
        Some("convention:classmethod".to_owned())
    } else if text::str_eq(name, "property") {
        Some("convention:property".to_owned())
    } else {
        None
    }
}

/// What the decorators among the `k`-th and later children of the node at `i` add.
pub open spec fn conventions_from(
    t: Seq<ItemView>,
    source: Seq<u8>,
    i: int,
    k: int,
    f: FoundView,
) -> FoundView
    decreases syntax::kids_spec(t, i).len() - k,
{
    let kids = syntax::kids_spec(t, i);
    if k < 0 || k >= kids.len() {
        f
    } else {
        let name = decorator_name_spec(syntax::or_empty(syntax::item_text_spec(t, source, kids[k])));
        let g = if t[kids[k]].kind == "decorator"@ {
            match convention_spec(name) {
                Some(tag) => with_tag(f, tag),
                None => f,
            }
        } else {
            f
        };
        conventions_from(t, source, i, k + 1, g)
    }
}

fn add_conventions(t: &Vec<SyntaxItem>, source: &[u8], i: usize, found: &mut Found)
    requires
        i < t@.len(),
    ensures
        final(found)@ == conventions_from(types::views(t@), source@, i as int, 0, old(found)@),
{
    let ghost tv = types::views(t@);
    let ghost goal = conventions_from(tv, source@, i as int, 0, old(found)@);
    let ks = syntax::kids(t, i);
    let mut k: usize = 0;
    while k < ks.len()
        invariant
            tv == types::views(t@),
            syntax::positions(ks@) == syntax::kids_spec(tv, i as int),
            k <= ks@.len(),
            forall|m: int| 0 <= m < ks@.len() ==> i < #[trigger] ks@[m] < t@.len(),
            goal == conventions_from(tv, source@, i as int, k as int, found@),
        decreases ks@.len() - k,
    {
        let j = ks[k];
        assert(syntax::positions(ks@)[k as int] == j);
        if syntax::is_kind(t, j, "decorator") {
            let s = syntax::item_text_or_empty(t, source, j);
            let name = decorator_name(s.as_str());
            if let Some(tag) = convention_tag(name.as_str()) {
                add_tag(found, tag.as_str());
            }
        }
        k += 1;
    }
}

/// What a class definition adds: its chunk, and the functions and decorated definitions of its
/// body.
pub open spec fn py_class_spec(
    t: Seq<ItemView>,
    source: Seq<u8>,
    lang: Seq<char>,
    depth: u8,
    i: int,
    f: FoundView,
) -> FoundView
    decreases t.len() - i, 0int, 0int,
{
    if syntax::field_spec(t, i, "name"@) is None {
        f
    } else {
        let name = syntax::or_empty(syntax::field_text_spec(t, source, i, "name"@));
        let g = with_chunk(
            with_tag(f, "kind:class"@),
            chunk_spec(
                t,
                i,
                ChunkKind::Class,
                name,
                depth,
                None,
                lang,
                py_visibility_spec(name),
            ),
        );
        match syntax::field_spec(t, i, "body"@) {
            Some(b) if i < b < t.len() => py_body_from(t, source, lang, deeper_spec(depth), b, 0, g),
            _ => g,
        }
    }
}

/// What the `k`-th and later children of a class body add.
pub open spec fn py_body_from(
    t: Seq<ItemView>,
    source: Seq<u8>,
    lang: Seq<char>,
    depth: u8,
    i: int,
    k: int,
    f: FoundView,
) -> FoundView
    decreases t.len() - i, 1int, syntax::kids_spec(t, i).len() - k,
{
    let kids = syntax::kids_spec(t, i);
    if k < 0 || k >= kids.len() || !(i < kids[k] < t.len()) {
        f
    } else {
        let j = kids[k];
        let g = if t[j].kind == "function_definition"@ {
            py_function_spec(t, source, lang, depth, j, f)
        } else if t[j].kind == "decorated_definition"@ {
            py_decorated_from(t, source, lang, depth, j, 0, f)
        } else {
            f
        };
        py_body_from(t, source, lang, depth, i, k + 1, g)
    }
}

/// What the `k`-th and later children of a decorated definition add. Decorators of functions add
/// the tags of their conventions.
pub open spec fn py_decorated_from(
    t: Seq<ItemView>,
    source: Seq<u8>,
    lang: Seq<char>,
    depth: u8,
    i: int,
    k: int,
    f: FoundView,
) -> FoundView
    decreases t.len() - i, 1int, syntax::kids_spec(t, i).len() - k,
{
    let kids = syntax::kids_spec(t, i);
    if k < 0 || k >= kids.len() || !(i < kids[k] < t.len()) {
        f
    } else {
        let j = kids[k];
        let g = if t[j].kind == "function_definition"@ {
            conventions_from(t, source, i, 0, py_function_spec(t, source, lang, depth, j, f))
        } else if t[j].kind == "class_definition"@ {
            py_class_spec(t, source, lang, depth, j, f)
        } else {
            f
        };
        py_decorated_from(t, source, lang, depth, i, k + 1, g)
    }
}

/// Adds a class definition.
pub fn extract_py_class(
    t: &Vec<SyntaxItem>,
    source: &[u8],
    i: usize,
    lang: &str,
    depth: u8,
    found: &mut Found,
)
    requires
        i < t@.len(),
    ensures
        final(found)@ == py_class_spec(
            types::views(t@),
            source@,
            lang@,
            depth,
            i as int,
            old(found)@,
        ),
    decreases t@.len() - i, 0int,
{
    let ghost tv = types::views(t@);
    let name = match syntax::field(t, i, "name") {
        Some(n) => syntax::item_text_or_empty(t, source, n),
        None => {
            return;
        },
    };
    let vis = py_visibility(name.as_str());
    add_tag(found, "kind:class");
    let c = chunk_of(t, i, ChunkKind::Class, name, depth, None, lang, vis);
    add_chunk(found, c);
    if let Some(b) = syntax::field(t, i, "body") {
        let below = deeper(depth);
        let ghost goal = py_body_from(tv, source@, lang@, below, b as int, 0, found@);
        let ks = syntax::kids(t, b);
        let mut k: usize = 0;
        while k < ks.len()
            invariant
                tv == types::views(t@),
                i < b < t@.len(),
                syntax::positions(ks@) == syntax::kids_spec(tv, b as int),
                k <= ks@.len(),
                forall|m: int| 0 <= m < ks@.len() ==> b < #[trigger] ks@[m] < t@.len(),
                goal == py_body_from(tv, source@, lang@, below, b as int, k as int, found@),
            decreases ks@.len() - k,
        {
            let j = ks[k];
            assert(syntax::positions(ks@)[k as int] == j);
            if syntax::is_kind(t, j, "function_definition") {
                extract_py_function(t, source, j, lang, below, found);
            } else if syntax::is_kind(t, j, "decorated_definition") {
                extract_py_decorated(t, source, j, lang, below, found);
            }
            k += 1;
        }
    }
}

/// Adds the definitions that are decorated.
pub fn extract_py_decorated(
    t: &Vec<SyntaxItem>,
    source: &[u8],
    i: usize,
    lang: &str,
    depth: u8,
    found: &mut Found,
)
    requires
        i < t@.len(),
    ensures
        final(found)@ == py_decorated_from(
            types::views(t@),
            source@,
            lang@,
            depth,
            i as int,
            0,
            old(found)@,
        ),
    decreases t@.len() - i, 1int,
{
    let ghost tv = types::views(t@);
    let ghost goal = py_decorated_from(tv, source@, lang@, depth, i as int, 0, old(found)@);
    let ks = syntax::kids(t, i);
    let mut k: usize = 0;
    while k < ks.len()
        invariant
            tv == types::views(t@),
            i < t@.len(),
            syntax::positions(ks@) == syntax::kids_spec(tv, i as int),
            k <= ks@.len(),
            forall|m: int| 0 <= m < ks@.len() ==> i < #[trigger] ks@[m] < t@.len(),
            goal == py_decorated_from(tv, source@, lang@, depth, i as int, k as int, found@),
        decreases ks@.len() - k,
    {
        let j = ks[k];
        assert(syntax::positions(ks@)[k as int] == j);
        if syntax::is_kind(t, j, "function_definition") {
            extract_py_function(t, source, j, lang, depth, found);
            add_conventions(t, source, i, found);
        } else if syntax::is_kind(t, j, "class_definition") {
            extract_py_class(t, source, j, lang, depth, found);
        }
        k += 1;
    }
}

/// What an `import` statement adds: a link to the top package of its first module.
pub open spec fn py_import_spec(t: Seq<ItemView>, source: Seq<u8>, i: int, f: FoundView) -> FoundView {
    match kid_of_kind_from(t, i, "dotted_name"@, 0) {
        Some(j) => {
            let top = before_spec(syntax::or_empty(syntax::item_text_spec(t, source, j)), '.');
            if top.len() == 0 {
                f
            } else {
                with_link(f, import_spec(t, source, i, top))
            }
        },
        None => f,
    }
}

/// Adds the link of an `import` statement.
pub fn extract_py_import(t: &Vec<SyntaxItem>, source: &[u8], i: usize, found: &mut Found)
    requires
        i < t@.len(),
    ensures
        final(found)@ == py_import_spec(types::views(t@), source@, i as int, old(found)@),
{
    if let Some(j) = kid_of_kind(t, i, "dotted_name") {
        let module = syntax::item_text_or_empty(t, source, j);
        let top = before(module.as_str(), '.');
        let v = text::chars_of(top.as_str());
        if v.len() > 0 {
            let l = import_of(t, source, i, top);
            add_link(found, l);
        }
    }
}

/// What a `from … import` statement adds: a link to the top package of its module, unless the
/// module is relative.
pub open spec fn py_import_from_spec(
    t: Seq<ItemView>,
    source: Seq<u8>,
    i: int,
    f: FoundView,
) -> FoundView {
    let top = before_spec(
        syntax::or_empty(syntax::field_text_spec(t, source, i, "module_name"@)),
        '.',
    );
    if top.len() == 0 || top[0] == '.' {
        f
    } else {
        with_link(f, import_spec(t, source, i, top))
    }
}

/// Adds the link of a `from … import` statement.
pub fn extract_py_import_from(t: &Vec<SyntaxItem>, source: &[u8], i: usize, found: &mut Found)
    requires
        i < t@.len(),
    ensures
        final(found)@ == py_import_from_spec(types::views(t@), source@, i as int, old(found)@),
{
    let module = match syntax::field_text(t, source, i, "module_name") {
        Some(m) => m,
        None => {
            proof {
                let e = Seq::<char>::empty();
                assert(before_spec(e, '.') =~= e);
            }
            return;
        },
    };
    let top = before(module.as_str(), '.');
    let v = text::chars_of(top.as_str());
    if v.len() > 0 && v[0] != '.' {
        let l = import_of(t, source, i, top);
        add_link(found, l);
    }
}

/// Whether a name is that of a constant by convention: upper-case letters, digits and
/// underscores.
pub open spec fn is_constant_name(name: Seq<char>) -> bool {
    name.len() > 0 && forall|k: int|
        0 <= k < name.len() ==> text::uppercase(#[trigger] name[k]) || name[k] == '_' || '0'
            <= name[k] <= '9'
}

/// Whether a name is that of a constant by convention.
pub fn constant_name(name: &str) -> (r: bool)
    ensures
        r == is_constant_name(name@),
{
    let v = text::chars_of(name);
    if v.len() == 0 {
        return false;
    }
    let mut k: usize = 0;
    while k < v.len()
        invariant
            v@ == name@,
            k <= v@.len(),
            forall|m: int|
                0 <= m < k ==> text::uppercase(#[trigger] v@[m]) || v@[m] == '_' || '0' <= v@[m]
                    <= '9',
        decreases v@.len() - k,
    {
        let c = v[k];
        let fits = c.is_uppercase() || c == '_' || ('0' <= c && c <= '9');
        if !fits {
            assert(name@[k as int] == c);
            return false;
        }
        k += 1;
    }
    true
}

/// What the `k`-th and later children of an expression statement add: constants that are assigned.
pub open spec fn py_constants_from(
    t: Seq<ItemView>,
    source: Seq<u8>,
    lang: Seq<char>,
    i: int,
    k: int,
    f: FoundView,
) -> FoundView
    decreases syntax::kids_spec(t, i).len() - k,
{
    let kids = syntax::kids_spec(t, i);
    if k < 0 || k >= kids.len() {
        f
    } else {
        let j = kids[k];
        let name = syntax::or_empty(syntax::field_text_spec(t, source, j, "left"@));
        let g = if t[j].kind == "assignment"@ && is_constant_name(name) {
            with_chunk(
                f,
                chunk_spec(
                    t,
                    i,
                    ChunkKind::Constant,
                    name,
                    0,
                    None,
                    lang,
                    py_visibility_spec(name),
                ),
            )
        } else {
            f
        };
        py_constants_from(t, source, lang, i, k + 1, g)
    }
}

/// Adds the constants of an expression statement.
pub fn extract_py_module_constant(
    t: &Vec<SyntaxItem>,
    source: &[u8],
    i: usize,
    lang: &str,
    found: &mut Found,
)
    requires
        i < t@.len(),
    ensures
        final(found)@ == py_constants_from(
            types::views(t@),
            source@,
            lang@,
            i as int,
            0,
            old(found)@,
        ),
{
    let ghost tv = types::views(t@);
    let ghost goal = py_constants_from(tv, source@, lang@, i as int, 0, old(found)@);
    let ks = syntax::kids(t, i);
    let mut k: usize = 0;
    while k < ks.len()
        invariant
            tv == types::views(t@),
            i < t@.len(),
            syntax::positions(ks@) == syntax::kids_spec(tv, i as int),
            k <= ks@.len(),
            forall|m: int| 0 <= m < ks@.len() ==> i < #[trigger] ks@[m] < t@.len(),
            goal == py_constants_from(tv, source@, lang@, i as int, k as int, found@),
        decreases ks@.len() - k,
    {
        let j = ks[k];
        assert(syntax::positions(ks@)[k as int] == j);
        if syntax::is_kind(t, j, "assignment") {
            if let Some(name) = syntax::field_text(t, source, j, "left") {
                if constant_name(name.as_str()) {
                    let vis = py_visibility(name.as_str());
                    let c = chunk_of(t, i, ChunkKind::Constant, name, 0, None, lang, vis);
                    add_chunk(found, c);
                }
            }
        }
        k += 1;
    }
}

/// What the `k`-th and later children of the node at `i` add as statements of a module.
pub open spec fn py_nodes_from(
    t: Seq<ItemView>,
    source: Seq<u8>,
    lang: Seq<char>,
    depth: u8,
    i: int,
    k: int,
    f: FoundView,
) -> FoundView
    decreases syntax::kids_spec(t, i).len() - k,
{
    let kids = syntax::kids_spec(t, i);
    if k < 0 || k >= kids.len() {
        f
    } else {
        let j = kids[k];
        let kind = t[j].kind;
        let g = if kind == "function_definition"@ {
            py_function_spec(t, source, lang, depth, j, f)
        } else if kind == "class_definition"@ {
            py_class_spec(t, source, lang, depth, j, f)
        } else if kind == "import_statement"@ {
            py_import_spec(t, source, j, f)
        } else if kind == "import_from_statement"@ {
            py_import_from_spec(t, source, j, f)
        } else if kind == "expression_statement"@ {
            if depth == 0 {
                py_constants_from(t, source, lang, j, 0, f)
            } else {
                f
            }
        } else if kind == "decorated_definition"@ {
            py_decorated_from(t, source, lang, depth, j, 0, f)
        } else {
            f
        };
        py_nodes_from(t, source, lang, depth, i, k + 1, g)
    }
}

/// Adds the statements that are children of the node at `i`.
pub fn walk_python_nodes(
    t: &Vec<SyntaxItem>,
    source: &[u8],
    i: usize,
    lang: &str,
    depth: u8,
    found: &mut Found,
)
    requires
        i < t@.len(),
    ensures
        final(found)@ == py_nodes_from(
            types::views(t@),
            source@,
            lang@,
            depth,
            i as int,
            0,
            old(found)@,
        ),
{
    let ghost tv = types::views(t@);
    let ghost goal = py_nodes_from(tv, source@, lang@, depth, i as int, 0, old(found)@);
    let ks = syntax::kids(t, i);
    let mut k: usize = 0;
    while k < ks.len()
        invariant
            tv == types::views(t@),
            syntax::positions(ks@) == syntax::kids_spec(tv, i as int),
            k <= ks@.len(),
            forall|m: int| 0 <= m < ks@.len() ==> i < #[trigger] ks@[m] < t@.len(),
            goal == py_nodes_from(tv, source@, lang@, depth, i as int, k as int, found@),
        decreases ks@.len() - k,
    {
        let j = ks[k];
        assert(syntax::positions(ks@)[k as int] == j);
        if syntax::is_kind(t, j, "function_definition") {
            extract_py_function(t, source, j, lang, depth, found);
        } else if syntax::is_kind(t, j, "class_definition") {
            extract_py_class(t, source, j, lang, depth, found);
        } else if syntax::is_kind(t, j, "import_statement") {
            extract_py_import(t, source, j, found);
        } else if syntax::is_kind(t, j, "import_from_statement") {
            extract_py_import_from(t, source, j, found);
        } else if syntax::is_kind(t, j, "expression_statement") {
            if depth == 0 {
                extract_py_module_constant(t, source, j, lang, found);
            }
        } else if syntax::is_kind(t, j, "decorated_definition") {
            extract_py_decorated(t, source, j, lang, depth, found);
        }
        k += 1;
    }
}

// ── The parser ──────────────────────────────────────────────────────────────

/// Source code parser. It holds the grammar of each file extension; where an extension occurs more
/// than once, the last one counts.
#[derive(Debug)]
pub struct CodeParser {
    languages: Vec<(String, Grammar)>,
}

/// The map that a list of grammars stands for.
pub open spec fn grammars_of(s: Seq<(String, Grammar)>) -> Map<Seq<char>, Grammar>
    decreases s.len(),
{
    if s.len() == 0 {
        Map::empty()
    } else {
        grammars_of(s.drop_last()).insert(s.last().0@, s.last().1)
    }
}

/// The language of a file extension.
pub open spec fn language_of_extension(ext: Option<Seq<char>>) -> Seq<char> {
    match ext {
        Some(e) => if e == "rs"@ {
            "rust"@
        } else if e == "ts"@ || e == "tsx"@ {
            "typescript"@
        } else if e == "py"@ {
            "python"@
        } else if e == "js"@ || e == "jsx"@ {
            "javascript"@
        } else if e == "go"@ {
            "go"@
        } else if e == "java"@ {
            "java"@
        } else {
            "unknown"@
        },
        None => "unknown"@,
    }
}

/// Whether the path of a file marks it as a file of tests.
pub open spec fn is_test_path(path: Seq<char>, stem: Seq<char>) -> bool {
    text::ends_with_spec(stem, "_test"@) || text::ends_with_spec(stem, "_tests"@)
        || text::starts_with_spec(stem, "test_"@) || stem == "tests"@ || text::contains_spec(
        path,
        "/tests/"@,
    ) || text::contains_spec(path, "/test/"@) || text::ends_with_spec(stem, "_spec"@)
        || text::ends_with_spec(stem, ".test"@) || text::ends_with_spec(stem, ".spec"@)
}

/// Whether the name of a file marks it as a configuration file.
pub open spec fn is_config_name(stem: Seq<char>, ext: Seq<char>) -> bool {
    ext == "toml"@ || ext == "yaml"@ || ext == "yml"@ || ext == "json"@ || ext == "ini"@ || ext
        == "cfg"@ || stem == "Cargo"@ || stem == "Makefile"@ || stem == "Dockerfile"@
        || text::starts_with_spec(stem, "."@)
}

/// The document type that a path stands for by convention.
pub open spec fn doc_type_of_path(path: Seq<char>) -> Option<DocType> {
    match paths::file_stem_spec(path) {
        Some(stem) => if is_test_path(path, stem) {
            Some(DocType::TestFile)
        } else {
            match paths::extension_spec(path) {
                Some(ext) => if is_config_name(stem, ext) {
                    Some(DocType::ConfigFile)
                } else {
                    Some(DocType::SourceFile)
                },
                None => None,
            }
        },
        None => None,
    }
}

/// The document type that a path stands for by convention.
pub fn detect_doc_type(path: &str) -> (r: Option<DocType>)
    ensures
        r == doc_type_of_path(path@),
{
    let stem = match paths::file_stem(path) {
        Some(s) => s,
        None => {
            return None;
        },
    };
    let name = text::chars_of(stem.as_str());
    let whole = text::chars_of(path);
    if text::ends_with(&name, "_test") || text::ends_with(&name, "_tests") || text::starts_with(
        &name,
        "test_",
    ) || text::str_eq(stem.as_str(), "tests") || text::contains(&whole, "/tests/")
        || text::contains(&whole, "/test/") || text::ends_with(&name, "_spec") || text::ends_with(
        &name,
        ".test",
    ) || text::ends_with(&name, ".spec") {
        return Some(DocType::TestFile);
    }
    let ext = match paths::extension(path) {
        Some(e) => e,
        None => {
            return None;
        },
    };
    let e = ext.as_str();
    if text::str_eq(e, "toml") || text::str_eq(e, "yaml") || text::str_eq(e, "yml")
        || text::str_eq(e, "json") || text::str_eq(e, "ini") || text::str_eq(e, "cfg")
        || text::str_eq(stem.as_str(), "Cargo") || text::str_eq(stem.as_str(), "Makefile")
        || text::str_eq(stem.as_str(), "Dockerfile") || text::starts_with(&name, ".") {
        return Some(DocType::ConfigFile);
    }
    Some(DocType::SourceFile)
}

/// What is found in a file before its nodes are visited: the tag of its language.
pub open spec fn found_at_start(lang: Seq<char>) -> FoundView {
    FoundView { chunks: Seq::empty(), tags: seq!["lang:"@ + lang], links: Seq::empty() }
}

/// What is found in a file of a language. Nothing but its language is known of a file in a
/// language without rules.
pub open spec fn found_in(t: Seq<ItemView>, source: Seq<u8>, lang: Seq<char>) -> FoundView {
    let f = found_at_start(lang);
    if t.len() == 0 {
        f
    } else if lang == "rust"@ {
        rust_items_from(t, source, lang, 0, 0, 0, f)
    } else if lang == "typescript"@ || lang == "javascript"@ {
        ts_nodes_from(t, source, lang, 0, 0, 0, f)
    } else if lang == "python"@ {
        py_nodes_from(t, source, lang, 0, 0, 0, f)
    } else {
        f
    }
}

/// The chunk that a whole file is.
pub open spec fn whole_file(source: Seq<u8>, lang: Seq<char>) -> ChunkView {
    ChunkView {
        start: 0,
        end: source.len() as int,
        kind: ChunkKind::Body,
        label: None,
        depth: 0,
        metadata: types::MetadataView {
            signature: None,
            language: Some(lang),
            visibility: None,
        },
    }
}

/// What parsing a syntax tree gives. A file without items is one chunk.
pub open spec fn tree_outcome(t: Seq<ItemView>, source: Seq<u8>, path: Seq<char>) -> ParseView {
    let lang = language_of_extension(paths::extension_spec(path));
    let f = found_in(t, source, lang);
    ParseView {
        chunks: if f.chunks.len() == 0 {
            seq![whole_file(source, lang)]
        } else {
            f.chunks
        },
        tags: f.tags,
        links: f.links,
        auto_type: doc_type_of_path(path),
        frontmatter: Map::empty(),
    }
}

/// The language of a file extension.
pub fn language_name(path: &str) -> (r: String)
    ensures
        r@ == language_of_extension(paths::extension_spec(path@)),
{
    match paths::extension(path) {
        Some(ext) => {
            let e = ext.as_str();
            if text::str_eq(e, "rs") {
                "rust".to_owned()
            } else if text::str_eq(e, "ts") || text::str_eq(e, "tsx") {
                "typescript".to_owned()
            } else if text::str_eq(e, "py") {
                "python".to_owned()
            } else if text::str_eq(e, "js") || text::str_eq(e, "jsx") {
                "javascript".to_owned()
            } else if text::str_eq(e, "go") {
                "go".to_owned()
            } else if text::str_eq(e, "java") {
                "java".to_owned()
            } else {
                "unknown".to_owned()
            }
        },
        None => "unknown".to_owned(),
    }
}

/// What a syntax tree tells of a file.
pub fn parse_tree(t: &Vec<SyntaxItem>, source: &[u8], path: &str) -> (r: ParseResult)
    ensures
        r@ == tree_outcome(types::views(t@), source@, path@),
        r.frontmatter.wf(),
        r.chunks@.len() >= 1,
{
    let lang = language_name(path);
    let mut tags: Vec<String> = Vec::new();
    tags.push(text::concat("lang:", lang.as_str()));
    let mut found = Found { chunks: Vec::new(), tags, links: Vec::new() };
    assert(found@ =~= found_at_start(lang@));
    if t.len() > 0 {
        if text::str_eq(lang.as_str(), "rust") {
            walk_rust_nodes(t, source, 0, lang.as_str(), 0, &mut found);
        } else if text::str_eq(lang.as_str(), "typescript") || text::str_eq(
            lang.as_str(),
            "javascript",
        ) {
            walk_typescript_nodes(t, source, 0, lang.as_str(), 0, &mut found);
        } else if text::str_eq(lang.as_str(), "python") {
            walk_python_nodes(t, source, 0, lang.as_str(), 0, &mut found);
        }
    }
    let auto_type = detect_doc_type(path);
    assert(found.chunks@.len() == found@.chunks.len());
    if found.chunks.len() == 0 {
        let whole = Chunk {
            byte_range: Range { start: 0, end: source.len() },
            kind: ChunkKind::Body,
            label: None,
            depth: 0,
            metadata: ChunkMetadata {
                signature: None,
                language: Some(lang),
                visibility: None,
            },
        };
        assert(whole@ == whole_file(source@, lang@));
        let ghost before = found.chunks@;
        found.chunks.push(whole);
        assert(types::views(found.chunks@) =~= seq![whole@]);
    }
    let r = ParseResult {
        chunks: found.chunks,
        tags: found.tags,
        links: found.links,
        auto_type,
        frontmatter: KeyMap::new(),
    };
    assert(types::json_map(r.frontmatter@) =~= Map::empty());
    r
}

/// The grammars of a parser, with that of one more extension.
pub open spec fn default_grammars() -> Map<Seq<char>, Grammar> {
    Map::<Seq<char>, Grammar>::empty().insert("rs"@, Grammar::Rust).insert(
        "ts"@,
        Grammar::TypeScript,
    ).insert("tsx"@, Grammar::Tsx).insert("js"@, Grammar::TypeScript).insert(
        "jsx"@,
        Grammar::TypeScript,
    ).insert("py"@, Grammar::Python)
}

impl CodeParser {
    /// The grammar of each file extension.
    pub closed spec fn grammars(&self) -> Map<Seq<char>, Grammar> {
        grammars_of(self.languages@)
    }

    /// The grammar of a path.
    pub open spec fn grammar_for(&self, path: Seq<char>) -> Option<Grammar> {
        match paths::extension_spec(path) {
            Some(e) => if self.grammars().dom().contains(e) {
                Some(self.grammars()[e])
            } else {
                None
            },
            None => None,
        }
    }

    /// A parser for Rust, TypeScript, JavaScript and Python files.
    pub fn new() -> (r: Self)
        ensures
            r.grammars() == default_grammars(),
    {
        let mut r = CodeParser { languages: Vec::new() };
        r.register_language("rs", Grammar::Rust);
        r.register_language("ts", Grammar::TypeScript);
        r.register_language("tsx", Grammar::Tsx);
        r.register_language("js", Grammar::TypeScript);
        r.register_language("jsx", Grammar::TypeScript);
        r.register_language("py", Grammar::Python);
        r
    }

    /// Sets the grammar of a file extension.
    pub fn register_language(&mut self, extension: &str, language: Grammar)
        ensures
            final(self).grammars() == old(self).grammars().insert(extension@, language),
    {
        let ghost before = self.languages@;
        self.languages.push((extension.to_owned(), language));
        assert(self.languages@.drop_last() =~= before);
    }

    /// The grammar of a path.
    pub fn language_for(&self, path: &str) -> (r: Option<Grammar>)
        ensures
            r == self.grammar_for(path@),
    {
        let ext = match paths::extension(path) {
            Some(e) => e,
            None => {
                return None;
            },
        };
        let mut i: usize = self.languages.len();
        assert(self.languages@.take(i as int) =~= self.languages@);
        while i > 0
            invariant
                i <= self.languages@.len(),
                paths::extension_spec(path@) == Some(ext@),
                ({
                    let m = grammars_of(self.languages@.take(i as int));
                    &&& m.dom().contains(ext@) <==> self.grammars().dom().contains(ext@)
                    &&& m.dom().contains(ext@) ==> m[ext@] == self.grammars()[ext@]
                }),
            decreases i,
        {
            proof {
                let t = self.languages@.take(i as int);
                assert(t.drop_last() =~= self.languages@.take(i - 1));
                assert(t.last() == self.languages@[i - 1]);
            }
            i -= 1;
            if text::str_eq(self.languages[i].0.as_str(), ext.as_str()) {
                return Some(self.languages[i].1);
            }
        }
        None
    }
}

impl Default for CodeParser {
    fn default() -> (r: Self)
        ensures
            r.grammars() == default_grammars(),
    {
        CodeParser::new()
    }
}

/// What parsing a file with a grammar gives.
pub open spec fn code_outcome(grammar: Option<Grammar>, path: Seq<char>, content: Seq<u8>) -> Result<
    ParseView,
    ParseErrorView,
> {
    match grammar {
        None => Err(ParseErrorView::Unsupported("no grammar for: "@ + path)),
        Some(g) => match syntax::syntax_items(g, content) {
            Err(m) => Err(ParseErrorView::Internal(m)),
            Ok(t) => if valid_utf8(content) {
                Ok(tree_outcome(t, content, path))
            } else {
                Err(ParseErrorView::InvalidUtf8)
            },
        },
    }
}

impl Parser for CodeParser {
    open spec fn handles(&self, path: Seq<char>) -> bool {
        self.grammar_for(path) is Some
    }

    open spec fn outcome(&self, path: Seq<char>, content: Seq<u8>) -> Result<
        ParseView,
        ParseErrorView,
    > {
        code_outcome(self.grammar_for(path), path, content)
    }

    fn can_parse(&self, path: &str) -> (r: bool) {
        self.language_for(path).is_some()
    }

    fn parse(&self, path: &str, content: &[u8]) -> (r: Result<ParseResult, ParseError>) {
        let grammar = match self.language_for(path) {
            Some(g) => g,
            None => {
                return Err(ParseError::Unsupported(text::concat("no grammar for: ", path)));
            },
        };
        let tree = match syntax::parse_syntax(grammar, content) {
            Ok(t) => t,
            Err(m) => {
                return Err(ParseError::Internal(m));
            },
        };
        match text::utf8_str(content) {
            Some(s) => Ok(parse_tree(&tree, content, path)),
            None => Err(ParseError::InvalidUtf8),
        }
    }
}

} // verus!
