//! What is found in Rust source code, stated over the nodes of its syntax tree.

use vstd::prelude::*;

use crate::code;
use crate::code::FoundView;
use crate::code_laws::{
    below, field_spells, fills, grows, has_child, has_chunk, has_link, is_child, law_children,
    law_field, law_node_text, lemma_field_text, lemma_grows, lemma_grows_on, lemma_has_child,
    lemma_kept, lemma_languages, lemma_link_kept, lemma_outcome, spells,
};
use crate::paths;
use crate::syntax;
use crate::syntax::ItemView;
use crate::text;
use crate::text_laws;
use crate::types::{ChunkKind, ChunkView, LinkView, Visibility};

verus! {

// ── Where items stand ───────────────────────────────────────────────────────

/// Whether a node holds the items of a module that stands in another node.
pub open spec fn is_module_in(t: Seq<ItemView>, source: Seq<u8>, p: int, body: int) -> bool {
    exists|m: int| #[trigger] holds_items(t, source, p, m, body)
}

/// Whether a node is a module with a name and another holds its items.
pub open spec fn holds_items(t: Seq<ItemView>, source: Seq<u8>, p: int, m: int, body: int) -> bool {
    &&& is_child(t, p, m)
    &&& t[m].kind == "mod_item"@
    &&& syntax::field_text_spec(t, source, m, "name"@) is Some
    &&& fills(t, m, "body"@, body)
}

/// Whether nodes hold the items of a file and of modules within each other.
pub open spec fn are_bodies(t: Seq<ItemView>, source: Seq<u8>, bs: Seq<int>) -> bool {
    &&& bs.len() > 0
    &&& bs[0] == 0
    &&& 0 < t.len()
    &&& forall|k: int| 0 < k < bs.len() ==> #[trigger] body_follows(t, source, bs, k)
}

/// Whether the `k`-th body is that of a module in the one before.
pub open spec fn body_follows(t: Seq<ItemView>, source: Seq<u8>, bs: Seq<int>, k: int) -> bool {
    is_module_in(t, source, bs[k - 1], bs[k])
}

/// The depth of the items in the last of some bodies.
pub open spec fn depth_in(bs: Seq<int>) -> int {
    if bs.len() <= 255 {
        bs.len() - 1
    } else {
        255
    }
}

proof fn lemma_words()
    ensures
        "function_item"@ != "struct_item"@,
        "function_item"@ != "enum_item"@,
        "function_item"@ != "trait_item"@,
        "function_item"@ != "impl_item"@,
        "function_item"@ != "mod_item"@,
        "function_item"@ != "use_declaration"@,
        "function_item"@ != "const_item"@,
        "function_item"@ != "static_item"@,
        "struct_item"@ != "enum_item"@,
        "struct_item"@ != "trait_item"@,
        "struct_item"@ != "impl_item"@,
        "struct_item"@ != "mod_item"@,
        "struct_item"@ != "use_declaration"@,
        "struct_item"@ != "const_item"@,
        "struct_item"@ != "static_item"@,
        "enum_item"@ != "trait_item"@,
        "enum_item"@ != "impl_item"@,
        "enum_item"@ != "mod_item"@,
        "enum_item"@ != "use_declaration"@,
        "enum_item"@ != "const_item"@,
        "enum_item"@ != "static_item"@,
        "trait_item"@ != "impl_item"@,
        "trait_item"@ != "mod_item"@,
        "trait_item"@ != "use_declaration"@,
        "trait_item"@ != "const_item"@,
        "trait_item"@ != "static_item"@,
        "impl_item"@ != "mod_item"@,
        "impl_item"@ != "use_declaration"@,
        "impl_item"@ != "const_item"@,
        "impl_item"@ != "static_item"@,
        "mod_item"@ != "use_declaration"@,
        "mod_item"@ != "const_item"@,
        "mod_item"@ != "static_item"@,
        "use_declaration"@ != "const_item"@,
        "use_declaration"@ != "static_item"@,
{
    reveal_strlit("function_item");
    reveal_strlit("struct_item");
    reveal_strlit("enum_item");
    reveal_strlit("trait_item");
    reveal_strlit("impl_item");
    reveal_strlit("mod_item");
    reveal_strlit("use_declaration");
    reveal_strlit("const_item");
    reveal_strlit("static_item");
    assert("function_item"@.len() == 13 && "struct_item"@.len() == 11 && "enum_item"@.len() == 9);
    assert("trait_item"@.len() == 10 && "impl_item"@.len() == 9 && "mod_item"@.len() == 8);
    assert("use_declaration"@.len() == 15 && "const_item"@.len() == 10 && "static_item"@.len()
        == 11);
    assert("struct_item"@[2] == 'r' && "static_item"@[2] == 'a');
    assert("enum_item"@[0] == 'e' && "impl_item"@[0] == 'i');
    assert("trait_item"@[0] == 't' && "const_item"@[0] == 'c');
}

// ── What is kept ────────────────────────────────────────────────────────────

proof fn lemma_tagged_grows(f: FoundView, c: Option<ChunkView>, tag: Seq<char>)
    ensures
        grows(f, code::tagged_spec(f, c, tag)),
        c is Some ==> code::tagged_spec(f, c, tag).tags.contains(tag)
            && code::tagged_spec(f, c, tag).chunks.last() == c->Some_0 && code::tagged_spec(
            f,
            c,
            tag,
        ).chunks.len() > 0,
{
    if c is Some {
        let l = LinkView { target: tag, display: None, byte_offset: 0 };
        let a = code::with_tag(f, tag);
        lemma_grows(f, tag, c->Some_0, l);
        lemma_grows(a, tag, c->Some_0, l);
    }
}

proof fn lemma_impl_grows(
    t: Seq<ItemView>,
    source: Seq<u8>,
    lang: Seq<char>,
    depth: u8,
    block: int,
    body: int,
    k: int,
    f: FoundView,
)
    requires
        0 <= body < t.len(),
        0 <= k,
    ensures
        grows(f, code::impl_from(t, source, lang, depth, block, body, k, f)),
    decreases syntax::kids_spec(t, body).len() - k,
{
    let kids = syntax::kids_spec(t, body);
    if k < kids.len() {
        let g = impl_step(t, source, lang, depth, block, kids[k], f);
        lemma_impl_step(t, source, lang, depth, block, kids[k], f);
        lemma_impl_grows(t, source, lang, depth, block, body, k + 1, g);
        lemma_grows_on(f, g, code::impl_from(t, source, lang, depth, block, body, k, f));
    }
}

/// What a node in an implementation block adds.
spec fn impl_step(
    t: Seq<ItemView>,
    source: Seq<u8>,
    lang: Seq<char>,
    depth: u8,
    block: int,
    j: int,
    f: FoundView,
) -> FoundView {
    if t[j].kind == "function_item"@ && syntax::field_spec(t, j, "name"@) is Some {
        code::with_tag(
            code::with_chunk(
                f,
                code::chunk_spec(
                    t,
                    j,
                    ChunkKind::Method,
                    code::qualified_spec(
                        syntax::field_text_spec(t, source, block, "type"@),
                        syntax::field_text_spec(t, source, block, "trait"@),
                        syntax::or_empty(syntax::field_text_spec(t, source, j, "name"@)),
                    ),
                    code::deeper_spec(depth),
                    Some(code::signature_spec(t, source, j)),
                    lang,
                    code::rust_visibility_spec(t, source, j),
                ),
            ),
            "kind:method"@,
        )
    } else {
        f
    }
}

proof fn lemma_impl_step(
    t: Seq<ItemView>,
    source: Seq<u8>,
    lang: Seq<char>,
    depth: u8,
    block: int,
    j: int,
    f: FoundView,
)
    ensures
        grows(f, impl_step(t, source, lang, depth, block, j, f)),
        t[j].kind == "function_item"@ && syntax::field_spec(t, j, "name"@) is Some ==> has_chunk(
            impl_step(t, source, lang, depth, block, j, f).chunks,
            t,
            j,
            ChunkKind::Method,
            code::qualified_spec(
                syntax::field_text_spec(t, source, block, "type"@),
                syntax::field_text_spec(t, source, block, "trait"@),
                syntax::or_empty(syntax::field_text_spec(t, source, j, "name"@)),
            ),
            below(depth as int),
            lang,
            code::rust_visibility_spec(t, source, j),
        ) && impl_step(t, source, lang, depth, block, j, f).tags.contains("kind:method"@),
{
    let g = impl_step(t, source, lang, depth, block, j, f);
    if t[j].kind == "function_item"@ && syntax::field_spec(t, j, "name"@) is Some {
        let c = g.chunks.last();
        let l = LinkView { target: lang, display: None, byte_offset: 0 };
        let a = code::with_chunk(f, c);
        lemma_grows(f, "kind:method"@, c, l);
        lemma_grows(a, "kind:method"@, c, l);
        assert(g.chunks[g.chunks.len() - 1] == c);
    } else {
        let l = LinkView { target: lang, display: None, byte_offset: 0 };
        lemma_grows(
            f,
            lang,
            code::whole_file(source, lang),
            l,
        );
    }
}

/// What was found before a node in an implementation block is visited.
proof fn lemma_impl_at(
    t: Seq<ItemView>,
    source: Seq<u8>,
    lang: Seq<char>,
    depth: u8,
    block: int,
    body: int,
    k: int,
    f: FoundView,
    m: int,
) -> (h: FoundView)
    requires
        0 <= body < t.len(),
        0 <= k <= m < syntax::kids_spec(t, body).len(),
    ensures
        grows(
            impl_step(t, source, lang, depth, block, syntax::kids_spec(t, body)[m], h),
            code::impl_from(t, source, lang, depth, block, body, k, f),
        ),
    decreases syntax::kids_spec(t, body).len() - k,
{
    let kids = syntax::kids_spec(t, body);
    let g = impl_step(t, source, lang, depth, block, kids[k], f);
    if k == m {
        lemma_impl_grows(t, source, lang, depth, block, body, k + 1, g);
        f
    } else {
        lemma_impl_at(t, source, lang, depth, block, body, k + 1, g, m)
    }
}

proof fn lemma_item_grows(
    t: Seq<ItemView>,
    source: Seq<u8>,
    lang: Seq<char>,
    depth: u8,
    i: int,
    f: FoundView,
)
    requires
        0 <= i < t.len(),
    ensures
        grows(f, code::rust_item_spec(t, source, lang, depth, i, f)),
    decreases t.len() - i, 0int, 0int,
{
    let r = code::rust_item_spec(t, source, lang, depth, i, f);
    let l = LinkView { target: lang, display: None, byte_offset: 0 };
    let none = code::whole_file(source, lang);
    let kind = t[i].kind;
    lemma_grows(f, lang, none, l);
    if kind == "function_item"@ {
        lemma_function_item(t, source, lang, depth, i, f);
    } else if kind == "struct_item"@ {
        lemma_tagged_grows(
            f,
            code::rust_named_spec(t, source, i, lang, ChunkKind::Class, depth),
            "kind:struct"@,
        );
    } else if kind == "enum_item"@ {
        lemma_tagged_grows(
            f,
            code::rust_named_spec(t, source, i, lang, ChunkKind::Class, depth),
            "kind:enum"@,
        );
    } else if kind == "trait_item"@ {
        lemma_tagged_grows(
            f,
            code::rust_named_spec(t, source, i, lang, ChunkKind::Class, depth),
            "kind:trait"@,
        );
    } else if kind == "impl_item"@ {
        match syntax::field_spec(t, i, "body"@) {
            Some(b) => {
                law_field(t, i, "body"@, b);
                lemma_impl_grows(t, source, lang, depth, i, b, 0, f);
            },
            None => {},
        }
    } else if kind == "mod_item"@ {
        match code::rust_named_spec(t, source, i, lang, ChunkKind::Module, depth) {
            Some(c) => {
                let g = code::with_chunk(f, c);
                lemma_grows(f, lang, c, l);
                match syntax::field_spec(t, i, "body"@) {
                    Some(b) if i < b < t.len() => {
                        lemma_items_grows(t, source, lang, code::deeper_spec(depth), b, 0, g);
                        lemma_grows_on(f, g, r);
                    },
                    _ => {},
                }
            },
            None => {},
        }
    } else if kind == "const_item"@ || kind == "static_item"@ {
        match code::rust_named_spec(t, source, i, lang, ChunkKind::Constant, depth) {
            Some(c) => {
                lemma_grows(f, lang, c, l);
            },
            None => {},
        }
    }
}

proof fn lemma_items_grows(
    t: Seq<ItemView>,
    source: Seq<u8>,
    lang: Seq<char>,
    depth: u8,
    i: int,
    k: int,
    f: FoundView,
)
    requires
        0 <= i < t.len(),
        0 <= k,
    ensures
        grows(f, code::rust_items_from(t, source, lang, depth, i, k, f)),
    decreases t.len() - i, 1int, syntax::kids_spec(t, i).len() - k,
{
    let kids = syntax::kids_spec(t, i);
    if k < kids.len() && i < kids[k] < t.len() {
        let g = code::rust_item_spec(t, source, lang, depth, kids[k], f);
        lemma_item_grows(t, source, lang, depth, kids[k], f);
        lemma_items_grows(t, source, lang, depth, i, k + 1, g);
        lemma_grows_on(f, g, code::rust_items_from(t, source, lang, depth, i, k, f));
    }
}

proof fn lemma_function_item(
    t: Seq<ItemView>,
    source: Seq<u8>,
    lang: Seq<char>,
    depth: u8,
    i: int,
    f: FoundView,
)
    requires
        0 <= i < t.len(),
        t[i].kind == "function_item"@,
    ensures
        grows(f, code::rust_item_spec(t, source, lang, depth, i, f)),
        code::rust_function_spec(t, source, i, lang, depth) matches Some(c) ==> {
            let r = code::rust_item_spec(t, source, lang, depth, i, f);
            &&& r.chunks.len() > 0
            &&& r.chunks.last() == c
            &&& r.tags.contains("kind:function"@)
            &&& code::rust_async_spec(t, source, i) ==> r.tags.contains("async:true"@)
        },
{
    let l = LinkView { target: lang, display: None, byte_offset: 0 };
    match code::rust_function_spec(t, source, i, lang, depth) {
        Some(c) => {
            let g = code::with_tag(f, "kind:function"@);
            let h = if code::rust_async_spec(t, source, i) {
                code::with_tag(g, "async:true"@)
            } else {
                g
            };
            lemma_grows(f, "kind:function"@, c, l);
            lemma_grows(g, "async:true"@, c, l);
            lemma_grows(h, "async:true"@, c, l);
            assert(g.tags.contains("kind:function"@));
            lemma_grows_on(f, g, h);
            lemma_grows_on(f, h, code::with_chunk(h, c));
        },
        None => {
            lemma_grows(f, lang, code::whole_file(source, lang), l);
        },
    }
}

/// What was found before an item is visited.
proof fn lemma_items_at(
    t: Seq<ItemView>,
    source: Seq<u8>,
    lang: Seq<char>,
    depth: u8,
    i: int,
    k: int,
    f: FoundView,
    m: int,
) -> (h: FoundView)
    requires
        0 <= i < t.len(),
        0 <= k <= m < syntax::kids_spec(t, i).len(),
    ensures
        grows(
            code::rust_item_spec(t, source, lang, depth, syntax::kids_spec(t, i)[m], h),
            code::rust_items_from(t, source, lang, depth, i, k, f),
        ),
    decreases syntax::kids_spec(t, i).len() - k,
{
    law_children(t, i);
    let kids = syntax::kids_spec(t, i);
    assert(is_child(t, i, kids[k]));
    let g = code::rust_item_spec(t, source, lang, depth, kids[k], f);
    if k == m {
        lemma_items_grows(t, source, lang, depth, i, k + 1, g);
        f
    } else {
        lemma_items_at(t, source, lang, depth, i, k + 1, g, m)
    }
}

/// What was found before the items of a body are visited.
proof fn lemma_body_found(
    t: Seq<ItemView>,
    source: Seq<u8>,
    path: Seq<char>,
    bs: Seq<int>,
) -> (h: FoundView)
    requires
        paths::extension_spec(path) == Some("rs"@),
        are_bodies(t, source, bs),
    ensures
        0 <= bs.last() < t.len(),
        0 <= depth_in(bs) <= 255,
        grows(
            code::rust_items_from(t, source, "rust"@, depth_in(bs) as u8, bs.last(), 0, h),
            code::found_in(t, source, "rust"@),
        ),
    decreases bs.len(),
{
    lemma_languages();
    lemma_words();
    if bs.len() == 1 {
        let h = code::found_at_start("rust"@);
        let l = LinkView { target: path, display: None, byte_offset: 0 };
        lemma_grows(
            code::found_in(t, source, "rust"@),
            path,
            code::whole_file(source, path),
            l,
        );
        h
    } else {
        let less = bs.drop_last();
        assert(body_follows(t, source, bs, bs.len() - 1));
        assert forall|k: int| 0 < k < less.len() implies #[trigger] body_follows(t, source, less, k) by {
            assert(body_follows(t, source, bs, k));
        }
        let h = lemma_body_found(t, source, path, less);
        let p = less.last();
        let b = bs.last();
        let m = choose|m: int| #[trigger] holds_items(t, source, p, m, b);
        law_children(t, p);
        let n = syntax::kids_spec(t, p).index_of(m);
        let d = depth_in(less) as u8;
        let r = lemma_items_at(t, source, "rust"@, d, p, 0, h, n);
        law_field(t, m, "body"@, b);
        let c = code::rust_named_spec(t, source, m, "rust"@, ChunkKind::Module, d)->Some_0;
        let w = code::with_chunk(r, c);
        assert(code::rust_item_spec(t, source, "rust"@, d, m, r) == code::rust_items_from(
            t,
            source,
            "rust"@,
            code::deeper_spec(d),
            b,
            0,
            w,
        ));
        lemma_grows_on(
            code::rust_items_from(t, source, "rust"@, depth_in(bs) as u8, b, 0, w),
            code::rust_items_from(t, source, "rust"@, d, p, 0, h),
            code::found_in(t, source, "rust"@),
        );
        w
    }
}

/// What was found before an item of a body is visited.
proof fn lemma_item_found(
    t: Seq<ItemView>,
    source: Seq<u8>,
    path: Seq<char>,
    bs: Seq<int>,
    i: int,
) -> (h: FoundView)
    requires
        paths::extension_spec(path) == Some("rs"@),
        are_bodies(t, source, bs),
        is_child(t, bs.last(), i),
    ensures
        0 <= depth_in(bs) <= 255,
        grows(
            code::rust_item_spec(t, source, "rust"@, depth_in(bs) as u8, i, h),
            code::found_in(t, source, "rust"@),
        ),
{
    let h = lemma_body_found(t, source, path, bs);
    let p = bs.last();
    law_children(t, p);
    assert(syntax::kids_spec(t, p).contains(i));
    let n = syntax::kids_spec(t, p).index_of(i);
    let d = depth_in(bs) as u8;
    let r = lemma_items_at(t, source, "rust"@, d, p, 0, h, n);
    lemma_grows_on(
        code::rust_item_spec(t, source, "rust"@, d, i, r),
        code::rust_items_from(t, source, "rust"@, d, p, 0, h),
        code::found_in(t, source, "rust"@),
    );
    r
}

/// A Rust file is tagged with its language.
pub proof fn law_rust_language(t: Seq<ItemView>, source: Seq<u8>, path: Seq<char>)
    requires
        paths::extension_spec(path) == Some("rs"@),
    ensures
        code::tree_outcome(t, source, path).tags.contains("lang:"@ + "rust"@),
{
    lemma_languages();
    let f = code::found_at_start("rust"@);
    assert(f.tags[0] == "lang:"@ + "rust"@);
    assert(f.tags.contains("lang:"@ + "rust"@));
    if t.len() > 0 {
        lemma_items_grows(t, source, "rust"@, 0, 0, 0, f);
    }
    assert(code::found_in(t, source, "rust"@).tags.contains("lang:"@ + "rust"@));
}

// ── Items ───────────────────────────────────────────────────────────────────

/// Every function of a Rust file, and of the modules in it, has a chunk with its bytes and its name.
pub proof fn law_rust_functions(
    t: Seq<ItemView>,
    source: Seq<u8>,
    path: Seq<char>,
    bs: Seq<int>,
    i: int,
    name: Seq<char>,
)
    requires
        paths::extension_spec(path) == Some("rs"@),
        are_bodies(t, source, bs),
        is_child(t, bs.last(), i),
        t[i].kind == "function_item"@,
        field_spells(t, source, i, "name"@, name),
    ensures
        has_chunk(
            code::tree_outcome(t, source, path).chunks,
            t,
            i,
            ChunkKind::Function,
            name,
            depth_in(bs),
            "rust"@,
            code::rust_visibility_spec(t, source, i),
        ),
        code::tree_outcome(t, source, path).tags.contains("kind:function"@),
        has_child(t, i, "async"@) ==> code::tree_outcome(t, source, path).tags.contains(
            "async:true"@,
        ),
{
    lemma_languages();
    lemma_outcome(t, source, path);
    let all = code::found_in(t, source, "rust"@);
    let h = lemma_item_found(t, source, path, bs, i);
    let d = depth_in(bs) as u8;
    lemma_field_text(t, source, i, "name"@, name);
    lemma_has_child(t, i, "async"@);
    lemma_function_item(t, source, "rust"@, d, i, h);
    let g = code::rust_item_spec(t, source, "rust"@, d, i, h);
    assert(g.chunks[g.chunks.len() - 1] == g.chunks.last());
    lemma_kept(
        g,
        all,
        t,
        i,
        ChunkKind::Function,
        name,
        depth_in(bs),
        "rust"@,
        code::rust_visibility_spec(t, source, i),
    );
}

/// How an item of a kind is told: the kind of its chunk, and the tag of the file.
pub open spec fn is_named_kind(word: Seq<char>, kind: ChunkKind, tag: Option<Seq<char>>) -> bool {
    ||| word == "struct_item"@ && kind == ChunkKind::Class && tag == Some("kind:struct"@)
    ||| word == "enum_item"@ && kind == ChunkKind::Class && tag == Some("kind:enum"@)
    ||| word == "trait_item"@ && kind == ChunkKind::Class && tag == Some("kind:trait"@)
    ||| word == "mod_item"@ && kind == ChunkKind::Module && tag is None
    ||| word == "const_item"@ && kind == ChunkKind::Constant && tag is None
    ||| word == "static_item"@ && kind == ChunkKind::Constant && tag is None
}

/// Every structure, enumeration, trait, module, constant and static of a Rust file has a chunk with
/// its bytes and its name. The file is tagged with structures, enumerations and traits.
pub proof fn law_rust_items(
    t: Seq<ItemView>,
    source: Seq<u8>,
    path: Seq<char>,
    bs: Seq<int>,
    i: int,
    name: Seq<char>,
    kind: ChunkKind,
    tag: Option<Seq<char>>,
)
    requires
        paths::extension_spec(path) == Some("rs"@),
        are_bodies(t, source, bs),
        is_child(t, bs.last(), i),
        is_named_kind(t[i].kind, kind, tag),
        field_spells(t, source, i, "name"@, name),
    ensures
        has_chunk(
            code::tree_outcome(t, source, path).chunks,
            t,
            i,
            kind,
            name,
            depth_in(bs),
            "rust"@,
            code::rust_visibility_spec(t, source, i),
        ),
        tag matches Some(x) ==> code::tree_outcome(t, source, path).tags.contains(x),
{
    lemma_words();
    lemma_languages();
    lemma_outcome(t, source, path);
    let all = code::found_in(t, source, "rust"@);
    let h = lemma_item_found(t, source, path, bs, i);
    let d = depth_in(bs) as u8;
    let vis = code::rust_visibility_spec(t, source, i);
    lemma_field_text(t, source, i, "name"@, name);
    let g = code::rust_item_spec(t, source, "rust"@, d, i, h);
    let c = code::rust_named_spec(t, source, i, "rust"@, kind, d)->Some_0;
    let l = LinkView { target: name, display: None, byte_offset: 0 };
    if tag is Some {
        lemma_tagged_grows(h, Some(c), tag->Some_0);
        assert(g == code::tagged_spec(h, Some(c), tag->Some_0));
        assert(g.chunks[g.chunks.len() - 1] == c);
        lemma_kept(g, all, t, i, kind, name, depth_in(bs), "rust"@, vis);
    } else {
        let w = code::with_chunk(h, c);
        lemma_grows(h, name, c, l);
        assert(w.chunks[w.chunks.len() - 1] == c);
        if kind == ChunkKind::Module {
            match syntax::field_spec(t, i, "body"@) {
                Some(b) if i < b < t.len() => {
                    lemma_items_grows(t, source, "rust"@, code::deeper_spec(d), b, 0, w);
                },
                _ => {
                    lemma_grows(w, name, c, l);
                },
            }
        } else {
            lemma_grows(w, name, c, l);
        }
        assert(grows(w, g));
        lemma_kept(w, g, t, i, kind, name, depth_in(bs), "rust"@, vis);
        lemma_kept(g, all, t, i, kind, name, depth_in(bs), "rust"@, vis);
    }
}

/// How a method is called: by its type, and by the trait where it is one's.
pub open spec fn method_label(ty: Seq<char>, tr: Option<Seq<char>>, name: Seq<char>) -> Seq<char> {
    match tr {
        Some(tr) => seq!['<'] + ty + seq![' ', 'a', 's', ' '] + tr + seq!['>', ':', ':'] + name,
        None => ty + seq![':', ':'] + name,
    }
}

/// Every method of an implementation block has a chunk with its bytes, called by its type and its
/// trait, one level below the block.
pub proof fn law_rust_methods(
    t: Seq<ItemView>,
    source: Seq<u8>,
    path: Seq<char>,
    bs: Seq<int>,
    block: int,
    body: int,
    j: int,
    name: Seq<char>,
    ty: Seq<char>,
    tr: Option<Seq<char>>,
)
    requires
        paths::extension_spec(path) == Some("rs"@),
        are_bodies(t, source, bs),
        is_child(t, bs.last(), block),
        t[block].kind == "impl_item"@,
        fills(t, block, "body"@, body),
        is_child(t, body, j),
        t[j].kind == "function_item"@,
        field_spells(t, source, j, "name"@, name),
        field_spells(t, source, block, "type"@, ty),
        match tr {
            Some(x) => field_spells(t, source, block, "trait"@, x),
            None => forall|n: int| !#[trigger] fills(t, block, "trait"@, n),
        },
    ensures
        has_chunk(
            code::tree_outcome(t, source, path).chunks,
            t,
            j,
            ChunkKind::Method,
            method_label(ty, tr, name),
            below(depth_in(bs)),
            "rust"@,
            code::rust_visibility_spec(t, source, j),
        ),
        code::tree_outcome(t, source, path).tags.contains("kind:method"@),
{
    lemma_words();
    lemma_languages();
    lemma_outcome(t, source, path);
    let all = code::found_in(t, source, "rust"@);
    let h = lemma_item_found(t, source, path, bs, block);
    let d = depth_in(bs) as u8;
    law_field(t, block, "body"@, body);
    law_children(t, body);
    assert(syntax::kids_spec(t, body).contains(j));
    let m = syntax::kids_spec(t, body).index_of(j);
    let r = lemma_impl_at(t, source, "rust"@, d, block, body, 0, h, m);
    let g = impl_step(t, source, "rust"@, d, block, j, r);
    lemma_impl_step(t, source, "rust"@, d, block, j, r);
    lemma_field_text(t, source, j, "name"@, name);
    lemma_field_text(t, source, block, "type"@, ty);
    match tr {
        Some(x) => lemma_field_text(t, source, block, "trait"@, x),
        None => {
            if syntax::field_spec(t, block, "trait"@) is Some {
                let n = syntax::field_spec(t, block, "trait"@)->Some_0;
                law_field(t, block, "trait"@, n);
            }
        },
    }
    reveal_strlit("<");
    reveal_strlit(" as ");
    reveal_strlit(">::");
    reveal_strlit("::");
    assert("<"@ =~= seq!['<']);
    assert(" as "@ =~= seq![' ', 'a', 's', ' ']);
    assert(">::"@ =~= seq!['>', ':', ':']);
    assert("::"@ =~= seq![':', ':']);
    let label = method_label(ty, tr, name);
    let item = code::rust_item_spec(t, source, "rust"@, d, block, h);
    lemma_grows_on(g, item, all);
    lemma_kept(
        g,
        all,
        t,
        j,
        ChunkKind::Method,
        label,
        below(depth_in(bs)),
        "rust"@,
        code::rust_visibility_spec(t, source, j),
    );
}

/// The visibility of an item: private without a modifier, internal where the first one speaks of the
/// crate, and public otherwise.
pub proof fn law_rust_visibility(
    t: Seq<ItemView>,
    source: Seq<u8>,
    i: int,
    v: int,
    s: Seq<char>,
    word: Seq<char>,
)
    requires
        0 <= i < t.len(),
        word == seq!['c', 'r', 'a', 't', 'e'],
    ensures
        (forall|c: int|
            #[trigger] is_child(t, i, c) ==> t[c].kind != "visibility_modifier"@)
            ==> code::rust_visibility_spec(t, source, i) == Visibility::Private,
        is_child(t, i, v) && t[v].kind == "visibility_modifier"@ && (forall|c: int|
            #[trigger] is_child(t, i, c) && c < v ==> t[c].kind != "visibility_modifier"@)
            && spells(t, source, v, s) ==> {
            let inner = exists|k: int|
                0 <= k <= s.len() - 5 && #[trigger] s.subrange(k, k + 5) == word;
            code::rust_visibility_spec(t, source, i) == if inner {
                Visibility::Internal
            } else {
                Visibility::Public
            }
        },
{
    lemma_kid_of_kind(t, i, "visibility_modifier"@, 0);
    law_children(t, i);
    let kids = syntax::kids_spec(t, i);
    reveal_strlit("crate");
    assert("crate"@ =~= word);
    text::lemma_find(s, "crate"@, 0);
    match code::kid_of_kind_from(t, i, "visibility_modifier"@, 0) {
        Some(j) => {
            assert(is_child(t, i, j));
        },
        None => {},
    }
    if is_child(t, i, v) && t[v].kind == "visibility_modifier"@ {
        assert(kids.contains(v));
        let n = kids.index_of(v);
        assert(kids[n] == v);
        if spells(t, source, v, s) {
            law_node_text(t, source, v, s);
        }
    }
    if exists|k: int| 0 <= k <= s.len() - 5 && #[trigger] s.subrange(k, k + 5) == word {
        let k = choose|k: int| 0 <= k <= s.len() - 5 && #[trigger] s.subrange(k, k + 5) == word;
        assert(text::occurs_at(s, "crate"@, k));
    }
    match text::find_spec(s, "crate"@, 0) {
        Some(p) => {
            assert(s.subrange(p, p + 5) == word);
        },
        None => {},
    }
}

/// The first child of a kind.
pub proof fn lemma_kid_of_kind(t: Seq<ItemView>, i: int, kind: Seq<char>, k: int)
    requires
        0 <= i < t.len(),
        0 <= k,
    ensures
        match code::kid_of_kind_from(t, i, kind, k) {
            Some(j) => is_child(t, i, j) && t[j].kind == kind && (exists|n: int|
                k <= n < syntax::kids_spec(t, i).len() && #[trigger] syntax::kids_spec(t, i)[n]
                    == j) && forall|n: int|
                k <= n < syntax::kids_spec(t, i).len() && #[trigger] syntax::kids_spec(t, i)[n] < j
                    ==> t[syntax::kids_spec(t, i)[n]].kind != kind,
            None => forall|n: int|
                k <= n < syntax::kids_spec(t, i).len() ==> t[#[trigger] syntax::kids_spec(
                    t,
                    i,
                )[n]].kind != kind,
        },
    decreases syntax::kids_spec(t, i).len() - k,
{
    law_children(t, i);
    let kids = syntax::kids_spec(t, i);
    if k < kids.len() {
        if t[kids[k]].kind != kind {
            lemma_kid_of_kind(t, i, kind, k + 1);
        } else {
            assert(is_child(t, i, kids[k]));
            assert forall|n: int| k <= n < kids.len() && #[trigger] kids[n] < kids[k] implies t[kids[n]].kind
                != kind by {
                if n > k {
                    assert(kids[k] < kids[n]);
                }
            }
        }
    }
}

// ── Imports ─────────────────────────────────────────────────────────────────

/// Every `use` of another crate is a link to that crate, at the start of the declaration. A path
/// within the crate is none.
pub proof fn law_rust_imports(
    t: Seq<ItemView>,
    source: Seq<u8>,
    path: Seq<char>,
    bs: Seq<int>,
    i: int,
    name: Seq<char>,
    rest: Seq<char>,
)
    requires
        paths::extension_spec(path) == Some("rs"@),
        are_bodies(t, source, bs),
        is_child(t, bs.last(), i),
        t[i].kind == "use_declaration"@,
        field_spells(t, source, i, "argument"@, name + rest),
        text_laws::is_trimmed(name),
        name.len() > 0,
        !name.contains(':'),
        rest.len() == 0 || (rest.len() >= 2 && rest[0] == ':' && rest[1] == ':'),
        name != "self"@ && name != "crate"@ && name != "super"@,
    ensures
        has_link(code::tree_outcome(t, source, path).links, t, i, name),
{
    lemma_words();
    lemma_languages();
    lemma_outcome(t, source, path);
    let all = code::found_in(t, source, "rust"@);
    let h = lemma_item_found(t, source, path, bs, i);
    let d = depth_in(bs) as u8;
    lemma_field_text(t, source, i, "argument"@, name + rest);
    lemma_crate_name(name, rest);
    reveal_strlit("");
    let g = code::rust_item_spec(t, source, "rust"@, d, i, h);
    assert(g == code::with_link(h, code::import_spec(t, source, i, name)));
    assert(g.links[g.links.len() - 1].target == name);
    lemma_link_kept(g, all, t, i, name);
}

proof fn lemma_crate_name(name: Seq<char>, rest: Seq<char>)
    requires
        text_laws::is_trimmed(name),
        name.len() > 0,
        !name.contains(':'),
        rest.len() == 0 || (rest.len() >= 2 && rest[0] == ':' && rest[1] == ':'),
    ensures
        code::crate_name_spec(name + rest) == name,
{
    reveal_strlit("::");
    let s = name + rest;
    let n = name.len() as int;
    text::lemma_find(s, "::"@, 0);
    text_laws::lemma_trimmed(name);
    if rest.len() == 0 {
        assert(s =~= name);
        if text::find_spec(s, "::"@, 0) is Some {
            let p = text::find_spec(s, "::"@, 0)->Some_0;
            assert(s.subrange(p, p + 2)[0] == s[p]);
            assert(name.contains(name[p]));
        }
    } else {
        assert(s.subrange(n, n + 2) =~= "::"@);
        assert(text::occurs_at(s, "::"@, n));
        let p = text::find_spec(s, "::"@, 0)->Some_0;
        if p < n {
            assert(s.subrange(p, p + 2)[0] == s[p]);
            assert(name.contains(name[p]));
        }
        assert(s.take(n) =~= name);
    }
}

} // verus!
