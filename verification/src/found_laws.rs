//! Nothing is found in source code but what its syntax tree holds.

use vstd::prelude::*;

use crate::code;
use crate::code::FoundView;
use crate::code_laws::{is_child, is_convention, law_children, law_field, lemma_languages, py_seen};
use crate::paths;
use crate::syntax;
use crate::syntax::ItemView;
use crate::text;
use crate::types::{ChunkKind, ChunkView, LinkView, Visibility};

verus! {

// ── What is told ────────────────────────────────────────────────────────────

/// The kinds of chunks that a kind of node gives in a language.
pub open spec fn kind_told(lang: Seq<char>, word: Seq<char>, kind: ChunkKind) -> bool {
    ||| lang == "rust"@ && {
        ||| word == "function_item"@ && (kind == ChunkKind::Function || kind == ChunkKind::Method)
        ||| (word == "struct_item"@ || word == "enum_item"@ || word == "trait_item"@) && kind
            == ChunkKind::Class
        ||| word == "mod_item"@ && kind == ChunkKind::Module
        ||| (word == "const_item"@ || word == "static_item"@) && kind == ChunkKind::Constant
    }
    ||| (lang == "typescript"@ || lang == "javascript"@) && {
        ||| word == "function_declaration"@ && kind == ChunkKind::Function
        ||| word == "method_definition"@ && kind == ChunkKind::Method
        ||| (word == "lexical_declaration"@ || word == "variable_declaration"@) && (kind
            == ChunkKind::Function || kind == ChunkKind::Constant)
        ||| (word == "class_declaration"@ || word == "interface_declaration"@ || word
            == "enum_declaration"@) && kind == ChunkKind::Class
        ||| word == "type_alias_declaration"@ && kind == ChunkKind::Constant
    }
    ||| lang == "python"@ && {
        ||| word == "function_definition"@ && (kind == ChunkKind::Function || kind
            == ChunkKind::Method)
        ||| word == "class_definition"@ && kind == ChunkKind::Class
        ||| word == "expression_statement"@ && kind == ChunkKind::Constant
    }
}

/// Whether a chunk is that of a node: it has its bytes, a label, and for a function its signature.
pub open spec fn is_told(
    t: Seq<ItemView>,
    source: Seq<u8>,
    lang: Seq<char>,
    c: ChunkView,
    i: int,
) -> bool {
    &&& 0 <= i < t.len()
    &&& c.start == t[i].start
    &&& c.end == t[i].end
    &&& c.label is Some
    &&& c.metadata.language == Some(lang)
    &&& c.metadata.visibility is Some
    &&& c.metadata.signature == if c.kind == ChunkKind::Function || c.kind == ChunkKind::Method {
        Some(code::signature_spec(t, source, i))
    } else {
        None
    }
    &&& kind_told(lang, t[i].kind, c.kind)
    &&& lang == "rust"@ ==> c.metadata.visibility == Some(code::rust_visibility_spec(t, source, i))
    &&& lang == "python"@ ==> c.metadata.visibility == Some(py_seen(c.label->Some_0))
    &&& lang == "python"@ && c.kind == ChunkKind::Constant ==> c.label->Some_0.len() > 0 && forall|
        k: int,
    |
        0 <= k < c.label->Some_0.len() ==> text::uppercase(#[trigger] c.label->Some_0[k])
            || c.label->Some_0[k] == '_' || '0' <= c.label->Some_0[k] <= '9'
}

/// Whether a chunk is that of some node.
pub open spec fn chunk_told(t: Seq<ItemView>, source: Seq<u8>, lang: Seq<char>, c: ChunkView) -> bool {
    exists|i: int| #[trigger] is_told(t, source, lang, c, i)
}

/// Whether a link is that of an import, to something outside the file's own package.
pub open spec fn is_import(
    t: Seq<ItemView>,
    source: Seq<u8>,
    lang: Seq<char>,
    l: LinkView,
    i: int,
) -> bool {
    &&& 0 <= i < t.len()
    &&& l.byte_offset == t[i].start
    &&& l.display == Some(
        text::trim_spec(syntax::or_empty(syntax::item_text_spec(t, source, i))),
    )
    &&& {
        ||| lang == "rust"@ && t[i].kind == "use_declaration"@ && l.target.len() > 0 && l.target
            != "self"@ && l.target != "crate"@ && l.target != "super"@
        ||| (lang == "typescript"@ || lang == "javascript"@) && t[i].kind == "import_statement"@
            && !(l.target.len() > 0 && l.target[0] == '.')
        ||| lang == "python"@ && (t[i].kind == "import_statement"@ || t[i].kind
            == "import_from_statement"@) && l.target.len() > 0 && !l.target.contains('.')
    }
}

/// Whether a link is that of some import.
pub open spec fn link_told(t: Seq<ItemView>, source: Seq<u8>, lang: Seq<char>, l: LinkView) -> bool {
    exists|i: int| #[trigger] is_import(t, source, lang, l, i)
}

/// Whether a node is a reason for a tag.
pub open spec fn is_reason(t: Seq<ItemView>, source: Seq<u8>, x: Seq<char>, i: int) -> bool {
    let word = t[i].kind;
    &&& 0 <= i < t.len()
    &&& {
        ||| x == "kind:function"@ && (word == "function_item"@ || word == "function_declaration"@
            || word == "function_definition"@ || word == "lexical_declaration"@ || word
            == "variable_declaration"@)
        ||| x == "kind:method"@ && (word == "function_item"@ || word == "method_definition"@
            || word == "function_definition"@)
        ||| x == "kind:struct"@ && word == "struct_item"@
        ||| x == "kind:enum"@ && (word == "enum_item"@ || word == "enum_declaration"@)
        ||| x == "kind:trait"@ && word == "trait_item"@
        ||| x == "kind:class"@ && (word == "class_declaration"@ || word == "class_definition"@)
        ||| x == "kind:interface"@ && word == "interface_declaration"@
        ||| x == "kind:type"@ && word == "type_alias_declaration"@
        ||| x == "async:true"@ && (syntax::has_kid_spec(t, i, "async"@) || word == "function_item"@
            && code::rust_async_spec(t, source, i))
        ||| word == "decorator"@ && is_convention(
            code::decorator_name_spec(syntax::or_empty(syntax::item_text_spec(t, source, i))),
            x,
        )
    }
}

/// Whether a tag is the language, or has a reason.
pub open spec fn tag_told(t: Seq<ItemView>, source: Seq<u8>, lang: Seq<char>, x: Seq<char>) -> bool {
    x == "lang:"@ + lang || exists|i: int| #[trigger] is_reason(t, source, x, i)
}

/// Whether all that is found is told by the tree.
spec fn all_told(t: Seq<ItemView>, source: Seq<u8>, lang: Seq<char>, f: FoundView) -> bool {
    &&& forall|k: int| 0 <= k < f.chunks.len() ==> chunk_told(t, source, lang, #[trigger] f.chunks[k])
    &&& forall|k: int| 0 <= k < f.links.len() ==> link_told(t, source, lang, #[trigger] f.links[k])
    &&& forall|x: Seq<char>| #[trigger] f.tags.contains(x) ==> tag_told(t, source, lang, x)
}

proof fn lemma_chunk(
    t: Seq<ItemView>,
    source: Seq<u8>,
    lang: Seq<char>,
    f: FoundView,
    c: ChunkView,
    i: int,
)
    requires
        all_told(t, source, lang, f),
        is_told(t, source, lang, c, i),
    ensures
        all_told(t, source, lang, code::with_chunk(f, c)),
{
    let g = code::with_chunk(f, c);
    assert forall|k: int| 0 <= k < g.chunks.len() implies chunk_told(
        t,
        source,
        lang,
        #[trigger] g.chunks[k],
    ) by {
        if k < f.chunks.len() {
            assert(g.chunks[k] == f.chunks[k]);
        }
    }
}

proof fn lemma_link(
    t: Seq<ItemView>,
    source: Seq<u8>,
    lang: Seq<char>,
    f: FoundView,
    l: LinkView,
    i: int,
)
    requires
        all_told(t, source, lang, f),
        is_import(t, source, lang, l, i),
    ensures
        all_told(t, source, lang, code::with_link(f, l)),
{
    let g = code::with_link(f, l);
    assert forall|k: int| 0 <= k < g.links.len() implies link_told(t, source, lang, #[trigger] g.links[k]) by {
        if k < f.links.len() {
            assert(g.links[k] == f.links[k]);
        }
    }
}

proof fn lemma_tag(
    t: Seq<ItemView>,
    source: Seq<u8>,
    lang: Seq<char>,
    f: FoundView,
    x: Seq<char>,
    i: int,
)
    requires
        all_told(t, source, lang, f),
        is_reason(t, source, x, i),
    ensures
        all_told(t, source, lang, code::with_tag(f, x)),
{
    text::lemma_add_once(f.tags, x);
    let g = code::with_tag(f, x);
    assert forall|y: Seq<char>| #[trigger] g.tags.contains(y) implies tag_told(t, source, lang, y) by {
        if y != x {
            assert(f.tags.contains(y));
        }
    }
}

proof fn lemma_tagged(
    t: Seq<ItemView>,
    source: Seq<u8>,
    lang: Seq<char>,
    f: FoundView,
    c: Option<ChunkView>,
    x: Seq<char>,
    i: int,
)
    requires
        all_told(t, source, lang, f),
        is_reason(t, source, x, i),
        c is Some ==> is_told(t, source, lang, c->Some_0, i),
    ensures
        all_told(t, source, lang, code::tagged_spec(f, c, x)),
{
    if c is Some {
        lemma_tag(t, source, lang, f, x, i);
        lemma_chunk(t, source, lang, code::with_tag(f, x), c->Some_0, i);
    }
}

// ── Rust ────────────────────────────────────────────────────────────────────

proof fn lemma_impl_told(
    t: Seq<ItemView>,
    source: Seq<u8>,
    depth: u8,
    block: int,
    body: int,
    k: int,
    f: FoundView,
)
    requires
        0 <= body < t.len(),
        0 <= k,
        all_told(t, source, "rust"@, f),
    ensures
        all_told(
            t,
            source,
            "rust"@,
            code::impl_from(t, source, "rust"@, depth, block, body, k, f),
        ),
    decreases syntax::kids_spec(t, body).len() - k,
{
    lemma_languages();
    let lang = "rust"@;
    law_children(t, body);
    let kids = syntax::kids_spec(t, body);
    if k < kids.len() {
        let j = kids[k];
        assert(is_child(t, body, j));
        if t[j].kind == "function_item"@ && syntax::field_spec(t, j, "name"@) is Some {
            let label = code::qualified_spec(
                syntax::field_text_spec(t, source, block, "type"@),
                syntax::field_text_spec(t, source, block, "trait"@),
                syntax::or_empty(syntax::field_text_spec(t, source, j, "name"@)),
            );
            let c = code::chunk_spec(
                t,
                j,
                ChunkKind::Method,
                label,
                code::deeper_spec(depth),
                Some(code::signature_spec(t, source, j)),
                lang,
                code::rust_visibility_spec(t, source, j),
            );
            let g = code::with_chunk(f, c);
            assert(is_told(t, source, lang, c, j));
            lemma_chunk(t, source, lang, f, c, j);
            assert(is_reason(t, source, "kind:method"@, j));
            lemma_tag(t, source, lang, g, "kind:method"@, j);
            lemma_impl_told(
                t,
                source,
                depth,
                block,
                body,
                k + 1,
                code::with_tag(g, "kind:method"@),
            );
        } else {
            lemma_impl_told(t, source, depth, block, body, k + 1, f);
        }
    }
}

proof fn lemma_item_told(t: Seq<ItemView>, source: Seq<u8>, depth: u8, i: int, f: FoundView)
    requires
        0 <= i < t.len(),
        all_told(t, source, "rust"@, f),
    ensures
        all_told(t, source, "rust"@, code::rust_item_spec(t, source, "rust"@, depth, i, f)),
    decreases t.len() - i, 0int, 0int,
{
    lemma_languages();
    let lang = "rust"@;
    let kind = t[i].kind;
    let class = code::rust_named_spec(t, source, i, lang, ChunkKind::Class, depth);
    if kind == "function_item"@ {
        match code::rust_function_spec(t, source, i, lang, depth) {
            Some(c) => {
                let g = code::with_tag(f, "kind:function"@);
                assert(is_reason(t, source, "kind:function"@, i));
                lemma_tag(t, source, lang, f, "kind:function"@, i);
                assert(is_told(t, source, lang, c, i));
                if code::rust_async_spec(t, source, i) {
                    assert(is_reason(t, source, "async:true"@, i));
                    lemma_tag(t, source, lang, g, "async:true"@, i);
                    lemma_chunk(t, source, lang, code::with_tag(g, "async:true"@), c, i);
                } else {
                    lemma_chunk(t, source, lang, g, c, i);
                }
            },
            None => {},
        }
    } else if kind == "struct_item"@ {
        assert(is_reason(t, source, "kind:struct"@, i));
        lemma_tagged(t, source, lang, f, class, "kind:struct"@, i);
    } else if kind == "enum_item"@ {
        assert(is_reason(t, source, "kind:enum"@, i));
        lemma_tagged(t, source, lang, f, class, "kind:enum"@, i);
    } else if kind == "trait_item"@ {
        assert(is_reason(t, source, "kind:trait"@, i));
        lemma_tagged(t, source, lang, f, class, "kind:trait"@, i);
    } else if kind == "impl_item"@ {
        match syntax::field_spec(t, i, "body"@) {
            Some(b) => {
                law_field(t, i, "body"@, b);
                lemma_impl_told(t, source, depth, i, b, 0, f);
            },
            None => {},
        }
    } else if kind == "mod_item"@ {
        match code::rust_named_spec(t, source, i, lang, ChunkKind::Module, depth) {
            Some(c) => {
                assert(is_told(t, source, lang, c, i));
                lemma_chunk(t, source, lang, f, c, i);
                let g = code::with_chunk(f, c);
                match syntax::field_spec(t, i, "body"@) {
                    Some(b) if i < b < t.len() => {
                        lemma_items_told(t, source, code::deeper_spec(depth), b, 0, g);
                    },
                    _ => {},
                }
            },
            None => {},
        }
    } else if kind == "use_declaration"@ {
        match syntax::field_spec(t, i, "argument"@) {
            Some(a) => {
                let name = code::crate_name_spec(
                    syntax::or_empty(syntax::item_text_spec(t, source, a)),
                );
                if !code::is_own_path(name) {
                    reveal_strlit("");
                    assert(""@.len() == 0);
                    if name.len() == 0 {
                        assert(name =~= ""@);
                    }
                    let l = code::import_spec(t, source, i, name);
                    assert(is_import(t, source, lang, l, i));
                    lemma_link(t, source, lang, f, l, i);
                }
            },
            None => {},
        }
    } else if kind == "const_item"@ || kind == "static_item"@ {
        match code::rust_named_spec(t, source, i, lang, ChunkKind::Constant, depth) {
            Some(c) => {
                assert(is_told(t, source, lang, c, i));
                lemma_chunk(t, source, lang, f, c, i);
            },
            None => {},
        }
    }
}

proof fn lemma_items_told(
    t: Seq<ItemView>,
    source: Seq<u8>,
    depth: u8,
    i: int,
    k: int,
    f: FoundView,
)
    requires
        0 <= i < t.len(),
        0 <= k,
        all_told(t, source, "rust"@, f),
    ensures
        all_told(
            t,
            source,
            "rust"@,
            code::rust_items_from(t, source, "rust"@, depth, i, k, f),
        ),
    decreases t.len() - i, 1int, syntax::kids_spec(t, i).len() - k,
{
    let kids = syntax::kids_spec(t, i);
    if k < kids.len() && i < kids[k] < t.len() {
        lemma_item_told(t, source, depth, kids[k], f);
        lemma_items_told(
            t,
            source,
            depth,
            i,
            k + 1,
            code::rust_item_spec(t, source, "rust"@, depth, kids[k], f),
        );
    }
}

// ── TypeScript and JavaScript ───────────────────────────────────────────────

/// Whether a language is one of the two.
spec fn is_script_language(lang: Seq<char>) -> bool {
    lang == "typescript"@ || lang == "javascript"@
}

proof fn lemma_scripts()
    ensures
        "typescript"@ != "rust"@,
        "typescript"@ != "python"@,
        "javascript"@ != "rust"@,
        "javascript"@ != "python"@,
{
    lemma_languages();
}

proof fn lemma_members_told(
    t: Seq<ItemView>,
    source: Seq<u8>,
    lang: Seq<char>,
    depth: u8,
    body: int,
    k: int,
    f: FoundView,
)
    requires
        is_script_language(lang),
        0 <= body < t.len(),
        0 <= k,
        all_told(t, source, lang, f),
    ensures
        all_told(t, source, lang, code::ts_members_from(t, source, lang, depth, body, k, f)),
    decreases syntax::kids_spec(t, body).len() - k,
{
    lemma_scripts();
    law_children(t, body);
    let kids = syntax::kids_spec(t, body);
    if k < kids.len() {
        let j = kids[k];
        assert(is_child(t, body, j));
        let label = syntax::or_empty(syntax::field_text_spec(t, source, j, "name"@));
        if t[j].kind == "method_definition"@ && label.len() > 0 {
            let c = code::chunk_spec(
                t,
                j,
                ChunkKind::Method,
                label,
                depth,
                Some(code::signature_spec(t, source, j)),
                lang,
                Visibility::Public,
            );
            let g = code::with_chunk(f, c);
            assert(is_told(t, source, lang, c, j));
            lemma_chunk(t, source, lang, f, c, j);
            assert(is_reason(t, source, "kind:method"@, j));
            lemma_tag(t, source, lang, g, "kind:method"@, j);
            lemma_members_told(
                t,
                source,
                lang,
                depth,
                body,
                k + 1,
                code::with_tag(g, "kind:method"@),
            );
        } else {
            lemma_members_told(t, source, lang, depth, body, k + 1, f);
        }
    }
}

proof fn lemma_declaration_told(
    t: Seq<ItemView>,
    source: Seq<u8>,
    lang: Seq<char>,
    depth: u8,
    vis: Visibility,
    i: int,
    f: FoundView,
)
    requires
        is_script_language(lang),
        0 <= i < t.len(),
        all_told(t, source, lang, f),
    ensures
        all_told(t, source, lang, code::ts_declaration_spec(t, source, lang, depth, vis, i, f)),
{
    lemma_scripts();
    let kind = t[i].kind;
    let class = code::ts_named_spec(t, source, i, lang, ChunkKind::Class, depth, vis);
    let constant = code::ts_named_spec(t, source, i, lang, ChunkKind::Constant, depth, vis);
    if kind == "class_declaration"@ {
        assert(is_reason(t, source, "kind:class"@, i));
        lemma_tagged(t, source, lang, f, class, "kind:class"@, i);
        let g = code::tagged_spec(f, class, "kind:class"@);
        match syntax::field_spec(t, i, "body"@) {
            Some(body) => {
                law_field(t, i, "body"@, body);
                lemma_members_told(t, source, lang, code::deeper_spec(depth), body, 0, g);
            },
            None => {},
        }
    } else if kind == "interface_declaration"@ {
        assert(is_reason(t, source, "kind:interface"@, i));
        lemma_tagged(t, source, lang, f, class, "kind:interface"@, i);
    } else if kind == "type_alias_declaration"@ {
        assert(is_reason(t, source, "kind:type"@, i));
        lemma_tagged(t, source, lang, f, constant, "kind:type"@, i);
    } else if kind == "enum_declaration"@ {
        assert(is_reason(t, source, "kind:enum"@, i));
        lemma_tagged(t, source, lang, f, class, "kind:enum"@, i);
    }
}

proof fn lemma_declarator_told(
    t: Seq<ItemView>,
    source: Seq<u8>,
    lang: Seq<char>,
    depth: u8,
    vis: Visibility,
    i: int,
    j: int,
    f: FoundView,
)
    requires
        is_script_language(lang),
        0 <= i < t.len(),
        t[i].kind == "lexical_declaration"@ || t[i].kind == "variable_declaration"@,
        is_child(t, i, j),
        all_told(t, source, lang, f),
    ensures
        all_told(t, source, lang, code::ts_declarator_spec(t, source, lang, depth, vis, i, j, f)),
{
    lemma_scripts();
    let label = syntax::or_empty(syntax::field_text_spec(t, source, j, "name"@));
    match syntax::field_spec(t, j, "value"@) {
        Some(v) => if t[j].kind == "variable_declarator"@ && label.len() > 0 {
            law_field(t, j, "value"@, v);
            if code::is_ts_function(t, v) {
                let c = code::chunk_spec(
                    t,
                    i,
                    ChunkKind::Function,
                    label,
                    depth,
                    Some(code::signature_spec(t, source, i)),
                    lang,
                    vis,
                );
                let g = code::with_chunk(f, c);
                assert(is_told(t, source, lang, c, i));
                lemma_chunk(t, source, lang, f, c, i);
                assert(is_reason(t, source, "kind:function"@, i));
                lemma_tag(t, source, lang, g, "kind:function"@, i);
                if t[v].kind == "arrow_function"@ && syntax::has_kid_spec(t, v, "async"@) {
                    assert(is_reason(t, source, "async:true"@, v));
                    lemma_tag(
                        t,
                        source,
                        lang,
                        code::with_tag(g, "kind:function"@),
                        "async:true"@,
                        v,
                    );
                }
            } else {
                let c = code::chunk_spec(
                    t,
                    i,
                    ChunkKind::Constant,
                    label,
                    depth,
                    None,
                    lang,
                    vis,
                );
                assert(is_told(t, source, lang, c, i));
                lemma_chunk(t, source, lang, f, c, i);
            }
        },
        None => {},
    }
}

proof fn lemma_declarators_told(
    t: Seq<ItemView>,
    source: Seq<u8>,
    lang: Seq<char>,
    depth: u8,
    vis: Visibility,
    i: int,
    k: int,
    f: FoundView,
)
    requires
        is_script_language(lang),
        0 <= i < t.len(),
        t[i].kind == "lexical_declaration"@ || t[i].kind == "variable_declaration"@,
        0 <= k,
        all_told(t, source, lang, f),
    ensures
        all_told(t, source, lang, code::ts_declarators_from(t, source, lang, depth, vis, i, k, f)),
    decreases syntax::kids_spec(t, i).len() - k,
{
    law_children(t, i);
    let kids = syntax::kids_spec(t, i);
    if k < kids.len() {
        assert(is_child(t, i, kids[k]));
        lemma_declarator_told(t, source, lang, depth, vis, i, kids[k], f);
        lemma_declarators_told(
            t,
            source,
            lang,
            depth,
            vis,
            i,
            k + 1,
            code::ts_declarator_spec(t, source, lang, depth, vis, i, kids[k], f),
        );
    }
}

proof fn lemma_last_public_told(t: Seq<ItemView>, source: Seq<u8>, lang: Seq<char>, f: FoundView)
    requires
        is_script_language(lang),
        all_told(t, source, lang, f),
    ensures
        all_told(t, source, lang, code::last_public(f)),
{
    let g = code::last_public(f);
    lemma_languages();
    lemma_scripts();
    assert forall|k: int| 0 <= k < g.chunks.len() implies chunk_told(
        t,
        source,
        lang,
        #[trigger] g.chunks[k],
    ) by {
        let c = f.chunks[k];
        let i = choose|i: int| #[trigger] is_told(t, source, lang, c, i);
        assert(is_told(t, source, lang, g.chunks[k], i));
    }
}

proof fn lemma_export_told(
    t: Seq<ItemView>,
    source: Seq<u8>,
    lang: Seq<char>,
    depth: u8,
    i: int,
    k: int,
    f: FoundView,
)
    requires
        is_script_language(lang),
        0 <= i < t.len(),
        0 <= k,
        all_told(t, source, lang, f),
    ensures
        all_told(t, source, lang, code::ts_export_from(t, source, lang, depth, i, k, f)),
    decreases syntax::kids_spec(t, i).len() - k,
{
    lemma_scripts();
    law_children(t, i);
    let kids = syntax::kids_spec(t, i);
    if k < kids.len() {
        let j = kids[k];
        let kind = t[j].kind;
        assert(is_child(t, i, j));
        if kind == "function_declaration"@ {
            let c = code::ts_function_spec(t, source, j, lang, depth, Visibility::Public);
            assert(is_reason(t, source, "kind:function"@, j));
            lemma_tagged(t, source, lang, f, c, "kind:function"@, j);
            lemma_export_told(
                t,
                source,
                lang,
                depth,
                i,
                k + 1,
                code::tagged_spec(f, c, "kind:function"@),
            );
        } else if kind == "lexical_declaration"@ || kind == "variable_declaration"@ {
            let vis = code::ts_visibility_spec(t, i);
            let g = code::ts_declarators_from(t, source, lang, depth, vis, j, 0, f);
            lemma_declarators_told(t, source, lang, depth, vis, j, 0, f);
            lemma_last_public_told(t, source, lang, g);
            lemma_export_told(t, source, lang, depth, i, k + 1, code::last_public(g));
        } else {
            lemma_declaration_told(t, source, lang, depth, Visibility::Public, j, f);
            lemma_export_told(
                t,
                source,
                lang,
                depth,
                i,
                k + 1,
                code::ts_declaration_spec(t, source, lang, depth, Visibility::Public, j, f),
            );
        }
    }
}

/// What a node of the file adds.
spec fn script_step(
    t: Seq<ItemView>,
    source: Seq<u8>,
    lang: Seq<char>,
    depth: u8,
    i: int,
    j: int,
    f: FoundView,
) -> FoundView {
    let kind = t[j].kind;
    let vis = code::ts_visibility_spec(t, i);
    if kind == "function_declaration"@ {
        match code::ts_function_spec(t, source, j, lang, depth, vis) {
            Some(c) => {
                let a = code::with_tag(f, "kind:function"@);
                let b = if syntax::has_kid_spec(t, j, "async"@) {
                    code::with_tag(a, "async:true"@)
                } else {
                    a
                };
                code::with_chunk(b, c)
            },
            None => f,
        }
    } else if kind == "lexical_declaration"@ || kind == "variable_declaration"@ {
        code::ts_declarators_from(t, source, lang, depth, vis, j, 0, f)
    } else if kind == "import_statement"@ {
        code::ts_import_spec(t, source, j, f)
    } else if kind == "export_statement"@ {
        code::ts_export_from(t, source, lang, depth, j, 0, f)
    } else {
        code::ts_declaration_spec(t, source, lang, depth, vis, j, f)
    }
}

proof fn lemma_script_step_told(
    t: Seq<ItemView>,
    source: Seq<u8>,
    lang: Seq<char>,
    depth: u8,
    i: int,
    j: int,
    f: FoundView,
)
    requires
        is_script_language(lang),
        0 <= j < t.len(),
        all_told(t, source, lang, f),
    ensures
        all_told(t, source, lang, script_step(t, source, lang, depth, i, j, f)),
{
    lemma_scripts();
    let kind = t[j].kind;
    let vis = code::ts_visibility_spec(t, i);
    if kind == "function_declaration"@ {
        match code::ts_function_spec(t, source, j, lang, depth, vis) {
            Some(c) => {
                let a = code::with_tag(f, "kind:function"@);
                assert(is_reason(t, source, "kind:function"@, j));
                lemma_tag(t, source, lang, f, "kind:function"@, j);
                assert(is_told(t, source, lang, c, j));
                if syntax::has_kid_spec(t, j, "async"@) {
                    assert(is_reason(t, source, "async:true"@, j));
                    lemma_tag(t, source, lang, a, "async:true"@, j);
                    lemma_chunk(t, source, lang, code::with_tag(a, "async:true"@), c, j);
                } else {
                    lemma_chunk(t, source, lang, a, c, j);
                }
            },
            None => {},
        }
    } else if kind == "lexical_declaration"@ || kind == "variable_declaration"@ {
        lemma_declarators_told(t, source, lang, depth, vis, j, 0, f);
    } else if kind == "import_statement"@ {
        let module = code::unquote_spec(
            syntax::or_empty(syntax::field_text_spec(t, source, j, "source"@)),
        );
        if !(module.len() == 0 || module[0] == '.') {
            let l = code::import_spec(t, source, j, code::package_spec(module));
            let e = text::next_sep(module, '/', 0);
            text::lemma_next_sep(module, '/', 0);
            if e < module.len() {
                text::lemma_next_sep(module, '/', e + 1);
            }
            assert(l.target.len() > 0 ==> l.target[0] == module[0]);
            assert(is_import(t, source, lang, l, j));
            lemma_link(t, source, lang, f, l, j);
        }
    } else if kind == "export_statement"@ {
        lemma_export_told(t, source, lang, depth, j, 0, f);
    } else {
        lemma_declaration_told(t, source, lang, depth, vis, j, f);
    }
}

proof fn lemma_script_told(
    t: Seq<ItemView>,
    source: Seq<u8>,
    lang: Seq<char>,
    depth: u8,
    i: int,
    k: int,
    f: FoundView,
)
    requires
        is_script_language(lang),
        0 <= i < t.len(),
        0 <= k,
        all_told(t, source, lang, f),
    ensures
        all_told(t, source, lang, code::ts_nodes_from(t, source, lang, depth, i, k, f)),
    decreases syntax::kids_spec(t, i).len() - k,
{
    law_children(t, i);
    let kids = syntax::kids_spec(t, i);
    if k < kids.len() {
        let j = kids[k];
        assert(is_child(t, i, j));
        lemma_script_step_told(t, source, lang, depth, i, j, f);
        lemma_script_told(
            t,
            source,
            lang,
            depth,
            i,
            k + 1,
            script_step(t, source, lang, depth, i, j, f),
        );
    }
}

// ── Python ──────────────────────────────────────────────────────────────────

proof fn lemma_function_told(t: Seq<ItemView>, source: Seq<u8>, depth: u8, i: int, f: FoundView)
    requires
        0 <= i < t.len(),
        t[i].kind == "function_definition"@,
        all_told(t, source, "python"@, f),
    ensures
        all_told(t, source, "python"@, code::py_function_spec(t, source, "python"@, depth, i, f)),
{
    lemma_languages();
    let lang = "python"@;
    if syntax::field_spec(t, i, "name"@) is Some {
        let name = syntax::or_empty(syntax::field_text_spec(t, source, i, "name"@));
        let g = if syntax::has_kid_spec(t, i, "async"@) {
            code::with_tag(f, "async:true"@)
        } else {
            f
        };
        if syntax::has_kid_spec(t, i, "async"@) {
            assert(is_reason(t, source, "async:true"@, i));
            lemma_tag(t, source, lang, f, "async:true"@, i);
        }
        let x = if depth > 0 {
            "kind:method"@
        } else {
            "kind:function"@
        };
        let kind = if depth > 0 {
            ChunkKind::Method
        } else {
            ChunkKind::Function
        };
        assert(is_reason(t, source, x, i));
        lemma_tag(t, source, lang, g, x, i);
        let c = code::chunk_spec(
            t,
            i,
            kind,
            name,
            depth,
            Some(code::signature_spec(t, source, i)),
            lang,
            code::py_visibility_spec(name),
        );
        assert(is_told(t, source, lang, c, i));
        lemma_chunk(t, source, lang, code::with_tag(g, x), c, i);
    }
}

proof fn lemma_is_convention(name: Seq<char>)
    requires
        code::convention_spec(name) is Some,
    ensures
        is_convention(name, code::convention_spec(name)->Some_0),
{
    reveal_strlit("pytest.fixture");
    reveal_strlit("app.route");
    reveal_strlit("router.");
    if text::starts_with_spec(name, "pytest.fixture"@) {
        assert(name.take(14) =~= name.subrange(0, 14));
    } else if text::starts_with_spec(name, "app.route"@) {
        assert(name.take(9) =~= name.subrange(0, 9));
    } else if text::starts_with_spec(name, "router."@) {
        assert(name.take(7) =~= name.subrange(0, 7));
    }
}

proof fn lemma_conventions_told(
    t: Seq<ItemView>,
    source: Seq<u8>,
    i: int,
    k: int,
    f: FoundView,
)
    requires
        0 <= i < t.len(),
        0 <= k,
        all_told(t, source, "python"@, f),
    ensures
        all_told(t, source, "python"@, code::conventions_from(t, source, i, k, f)),
    decreases syntax::kids_spec(t, i).len() - k,
{
    let lang = "python"@;
    law_children(t, i);
    let kids = syntax::kids_spec(t, i);
    if k < kids.len() {
        let j = kids[k];
        assert(is_child(t, i, j));
        let name = code::decorator_name_spec(
            syntax::or_empty(syntax::item_text_spec(t, source, j)),
        );
        if t[j].kind == "decorator"@ && code::convention_spec(name) is Some {
            let x = code::convention_spec(name)->Some_0;
            lemma_is_convention(name);
            assert(is_reason(t, source, x, j));
            lemma_tag(t, source, lang, f, x, j);
            lemma_conventions_told(t, source, i, k + 1, code::with_tag(f, x));
        } else {
            lemma_conventions_told(t, source, i, k + 1, f);
        }
    }
}

proof fn lemma_class_told(t: Seq<ItemView>, source: Seq<u8>, depth: u8, i: int, f: FoundView)
    requires
        0 <= i < t.len(),
        t[i].kind == "class_definition"@,
        all_told(t, source, "python"@, f),
    ensures
        all_told(t, source, "python"@, code::py_class_spec(t, source, "python"@, depth, i, f)),
    decreases t.len() - i, 0int, 0int,
{
    lemma_languages();
    let lang = "python"@;
    if syntax::field_spec(t, i, "name"@) is Some {
        let name = syntax::or_empty(syntax::field_text_spec(t, source, i, "name"@));
        let c = code::chunk_spec(
            t,
            i,
            ChunkKind::Class,
            name,
            depth,
            None,
            lang,
            code::py_visibility_spec(name),
        );
        assert(is_reason(t, source, "kind:class"@, i));
        assert(is_told(t, source, lang, c, i));
        lemma_tagged(t, source, lang, f, Some(c), "kind:class"@, i);
        let g = code::tagged_spec(f, Some(c), "kind:class"@);
        match syntax::field_spec(t, i, "body"@) {
            Some(b) if i < b < t.len() => {
                lemma_body_told(t, source, code::deeper_spec(depth), b, 0, g);
            },
            _ => {},
        }
    }
}

proof fn lemma_body_told(
    t: Seq<ItemView>,
    source: Seq<u8>,
    depth: u8,
    i: int,
    k: int,
    f: FoundView,
)
    requires
        0 <= i < t.len(),
        0 <= k,
        all_told(t, source, "python"@, f),
    ensures
        all_told(
            t,
            source,
            "python"@,
            code::py_body_from(t, source, "python"@, depth, i, k, f),
        ),
    decreases t.len() - i, 1int, syntax::kids_spec(t, i).len() - k,
{
    let lang = "python"@;
    let kids = syntax::kids_spec(t, i);
    if k < kids.len() && i < kids[k] < t.len() {
        let j = kids[k];
        let g = if t[j].kind == "function_definition"@ {
            code::py_function_spec(t, source, lang, depth, j, f)
        } else if t[j].kind == "decorated_definition"@ {
            code::py_decorated_from(t, source, lang, depth, j, 0, f)
        } else {
            f
        };
        if t[j].kind == "function_definition"@ {
            lemma_function_told(t, source, depth, j, f);
        } else if t[j].kind == "decorated_definition"@ {
            lemma_decorated_told(t, source, depth, j, 0, f);
        }
        lemma_body_told(t, source, depth, i, k + 1, g);
    }
}

proof fn lemma_decorated_told(
    t: Seq<ItemView>,
    source: Seq<u8>,
    depth: u8,
    i: int,
    k: int,
    f: FoundView,
)
    requires
        0 <= i < t.len(),
        0 <= k,
        all_told(t, source, "python"@, f),
    ensures
        all_told(
            t,
            source,
            "python"@,
            code::py_decorated_from(t, source, "python"@, depth, i, k, f),
        ),
    decreases t.len() - i, 1int, syntax::kids_spec(t, i).len() - k,
{
    let lang = "python"@;
    let kids = syntax::kids_spec(t, i);
    if k < kids.len() && i < kids[k] < t.len() {
        let j = kids[k];
        let w = code::py_function_spec(t, source, lang, depth, j, f);
        let g = if t[j].kind == "function_definition"@ {
            code::conventions_from(t, source, i, 0, w)
        } else if t[j].kind == "class_definition"@ {
            code::py_class_spec(t, source, lang, depth, j, f)
        } else {
            f
        };
        if t[j].kind == "function_definition"@ {
            lemma_function_told(t, source, depth, j, f);
            lemma_conventions_told(t, source, i, 0, w);
        } else if t[j].kind == "class_definition"@ {
            lemma_class_told(t, source, depth, j, f);
        }
        lemma_decorated_told(t, source, depth, i, k + 1, g);
    }
}

proof fn lemma_constants_told(t: Seq<ItemView>, source: Seq<u8>, i: int, k: int, f: FoundView)
    requires
        0 <= i < t.len(),
        t[i].kind == "expression_statement"@,
        0 <= k,
        all_told(t, source, "python"@, f),
    ensures
        all_told(
            t,
            source,
            "python"@,
            code::py_constants_from(t, source, "python"@, i, k, f),
        ),
    decreases syntax::kids_spec(t, i).len() - k,
{
    lemma_languages();
    let lang = "python"@;
    let kids = syntax::kids_spec(t, i);
    if k < kids.len() {
        let j = kids[k];
        let name = syntax::or_empty(syntax::field_text_spec(t, source, j, "left"@));
        if t[j].kind == "assignment"@ && code::is_constant_name(name) {
            let c = code::chunk_spec(
                t,
                i,
                ChunkKind::Constant,
                name,
                0,
                None,
                lang,
                code::py_visibility_spec(name),
            );
            assert(is_told(t, source, lang, c, i));
            lemma_chunk(t, source, lang, f, c, i);
            lemma_constants_told(t, source, i, k + 1, code::with_chunk(f, c));
        } else {
            lemma_constants_told(t, source, i, k + 1, f);
        }
    }
}

proof fn lemma_top_name(s: Seq<char>)
    ensures
        !code::before_spec(s, '.').contains('.'),
{
    text::lemma_next_sep(s, '.', 0);
    let r = code::before_spec(s, '.');
    if r.contains('.') {
        let k = r.index_of('.');
        assert(s[k] == '.');
    }
}

proof fn lemma_module_told(
    t: Seq<ItemView>,
    source: Seq<u8>,
    depth: u8,
    i: int,
    k: int,
    f: FoundView,
)
    requires
        0 <= i < t.len(),
        0 <= k,
        all_told(t, source, "python"@, f),
    ensures
        all_told(
            t,
            source,
            "python"@,
            code::py_nodes_from(t, source, "python"@, depth, i, k, f),
        ),
    decreases syntax::kids_spec(t, i).len() - k,
{
    let lang = "python"@;
    law_children(t, i);
    let kids = syntax::kids_spec(t, i);
    if k < kids.len() {
        let j = kids[k];
        assert(is_child(t, i, j));
        let kind = t[j].kind;
        if kind == "function_definition"@ {
            lemma_function_told(t, source, depth, j, f);
            lemma_module_told(
                t,
                source,
                depth,
                i,
                k + 1,
                code::py_function_spec(t, source, lang, depth, j, f),
            );
        } else if kind == "class_definition"@ {
            lemma_class_told(t, source, depth, j, f);
            lemma_module_told(
                t,
                source,
                depth,
                i,
                k + 1,
                code::py_class_spec(t, source, lang, depth, j, f),
            );
        } else if kind == "import_statement"@ {
            match code::kid_of_kind_from(t, j, "dotted_name"@, 0) {
                Some(d) => {
                    let s = syntax::or_empty(syntax::item_text_spec(t, source, d));
                    let top = code::before_spec(s, '.');
                    if top.len() > 0 {
                        lemma_top_name(s);
                        let l = code::import_spec(t, source, j, top);
                        assert(is_import(t, source, lang, l, j));
                        lemma_link(t, source, lang, f, l, j);
                    }
                },
                None => {},
            }
            lemma_module_told(
                t,
                source,
                depth,
                i,
                k + 1,
                code::py_import_spec(t, source, j, f),
            );
        } else if kind == "import_from_statement"@ {
            let s = syntax::or_empty(syntax::field_text_spec(t, source, j, "module_name"@));
            let top = code::before_spec(s, '.');
            if !(top.len() == 0 || top[0] == '.') {
                lemma_top_name(s);
                let l = code::import_spec(t, source, j, top);
                assert(is_import(t, source, lang, l, j));
                lemma_link(t, source, lang, f, l, j);
            }
            lemma_module_told(
                t,
                source,
                depth,
                i,
                k + 1,
                code::py_import_from_spec(t, source, j, f),
            );
        } else if kind == "expression_statement"@ {
            if depth == 0 {
                lemma_constants_told(t, source, j, 0, f);
                lemma_module_told(
                    t,
                    source,
                    depth,
                    i,
                    k + 1,
                    code::py_constants_from(t, source, lang, j, 0, f),
                );
            } else {
                lemma_module_told(t, source, depth, i, k + 1, f);
            }
        } else if kind == "decorated_definition"@ {
            lemma_decorated_told(t, source, depth, j, 0, f);
            lemma_module_told(
                t,
                source,
                depth,
                i,
                k + 1,
                code::py_decorated_from(t, source, lang, depth, j, 0, f),
            );
        } else {
            lemma_module_told(t, source, depth, i, k + 1, f);
        }
    }
}

// ── The file ────────────────────────────────────────────────────────────────

/// Whether a chunk is the whole file, with no name.
pub open spec fn is_whole(source: Seq<u8>, lang: Seq<char>, c: ChunkView) -> bool {
    &&& c.start == 0
    &&& c.end == source.len()
    &&& c.kind == ChunkKind::Body
    &&& c.label is None
    &&& c.depth == 0
    &&& c.metadata.language == Some(lang)
}

/// Each chunk of a source file is that of a node, or the only one and the whole file. Each link is
/// that of an import, and each tag is the language or has a node for its reason.
pub proof fn law_found_is_told(t: Seq<ItemView>, source: Seq<u8>, path: Seq<char>, lang: Seq<char>)
    requires
        lang == code::language_of_extension(paths::extension_spec(path)),
    ensures
        ({
            let o = code::tree_outcome(t, source, path);
            &&& o.chunks.len() > 0
            &&& (forall|k: int|
                0 <= k < o.chunks.len() ==> chunk_told(t, source, lang, #[trigger] o.chunks[k])) || (
            o.chunks.len() == 1 && is_whole(source, lang, o.chunks[0]))
            &&& forall|k: int| 0 <= k < o.links.len() ==> link_told(t, source, lang, #[trigger] o.links[k])
            &&& forall|x: Seq<char>| #[trigger] o.tags.contains(x) ==> tag_told(t, source, lang, x)
            &&& o.frontmatter.dom() =~= Set::empty()
        }),
{
    lemma_languages();
    let f = code::found_at_start(lang);
    assert(f.tags[0] == "lang:"@ + lang);
    assert(all_told(t, source, lang, f)) by {
        assert forall|x: Seq<char>| #[trigger] f.tags.contains(x) implies tag_told(
            t,
            source,
            lang,
            x,
        ) by {
            assert(x == "lang:"@ + lang);
        }
    }
    if t.len() > 0 {
        if lang == "rust"@ {
            lemma_items_told(t, source, 0, 0, 0, f);
        } else if is_script_language(lang) {
            lemma_script_told(t, source, lang, 0, 0, 0, f);
        } else if lang == "python"@ {
            lemma_module_told(t, source, 0, 0, 0, f);
        }
    }
    assert(all_told(t, source, lang, code::found_in(t, source, lang)));
}

} // verus!
