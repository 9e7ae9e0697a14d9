//! What is found in TypeScript and JavaScript source code, stated over the nodes of its syntax tree.

use vstd::prelude::*;

use crate::code;
use crate::code::FoundView;
use crate::code_laws::{
    below, field_spells, fills, grows, has_child, has_chunk, has_link, is_child, is_chunk_of,
    law_children, law_field, lemma_field_text, lemma_grows, lemma_grows_on, lemma_has_child,
    lemma_languages, lemma_outcome,
};
use crate::paths;
use crate::syntax;
use crate::syntax::ItemView;
use crate::text;
use crate::types::{ChunkKind, ChunkView, LinkView, Visibility};

verus! {

// ── Where nodes stand ───────────────────────────────────────────────────────

/// Whether a path is that of a file in one of the two languages.
pub open spec fn is_script(path: Seq<char>, lang: Seq<char>) -> bool {
    let ext = paths::extension_spec(path);
    ||| (ext == Some("ts"@) || ext == Some("tsx"@)) && lang == "typescript"@
    ||| (ext == Some("js"@) || ext == Some("jsx"@)) && lang == "javascript"@
}

/// Whether a node stands in the file itself.
pub open spec fn stands_bare(t: Seq<ItemView>, j: int) -> bool {
    0 < t.len() && t[0].kind != "export_statement"@ && is_child(t, 0, j)
}

/// Whether a node stands in an export of the file.
pub open spec fn stands_exported(t: Seq<ItemView>, j: int) -> bool {
    0 < t.len() && exists|e: int| #[trigger] exports(t, e, j)
}

/// Whether a node of the file exports another.
pub open spec fn exports(t: Seq<ItemView>, e: int, j: int) -> bool {
    is_child(t, 0, e) && t[e].kind == "export_statement"@ && is_child(t, e, j)
}

/// Whether a node has a chunk, private or public. A later export may make it public.
pub open spec fn has_private_chunk(
    chunks: Seq<ChunkView>,
    t: Seq<ItemView>,
    i: int,
    kind: ChunkKind,
    label: Seq<char>,
    depth: int,
    lang: Seq<char>,
) -> bool {
    ||| has_chunk(chunks, t, i, kind, label, depth, lang, Visibility::Private)
    ||| has_chunk(chunks, t, i, kind, label, depth, lang, Visibility::Public)
}

proof fn lemma_words()
    ensures
        "function_declaration"@ != "lexical_declaration"@,
        "function_declaration"@ != "variable_declaration"@,
        "function_declaration"@ != "import_statement"@,
        "function_declaration"@ != "export_statement"@,
        "function_declaration"@ != "class_declaration"@,
        "function_declaration"@ != "interface_declaration"@,
        "function_declaration"@ != "type_alias_declaration"@,
        "function_declaration"@ != "enum_declaration"@,
        "lexical_declaration"@ != "import_statement"@,
        "lexical_declaration"@ != "export_statement"@,
        "lexical_declaration"@ != "class_declaration"@,
        "lexical_declaration"@ != "interface_declaration"@,
        "lexical_declaration"@ != "type_alias_declaration"@,
        "lexical_declaration"@ != "enum_declaration"@,
        "variable_declaration"@ != "import_statement"@,
        "variable_declaration"@ != "export_statement"@,
        "variable_declaration"@ != "class_declaration"@,
        "variable_declaration"@ != "interface_declaration"@,
        "variable_declaration"@ != "type_alias_declaration"@,
        "variable_declaration"@ != "enum_declaration"@,
        "import_statement"@ != "export_statement"@,
        "import_statement"@ != "class_declaration"@,
        "import_statement"@ != "interface_declaration"@,
        "import_statement"@ != "type_alias_declaration"@,
        "import_statement"@ != "enum_declaration"@,
        "export_statement"@ != "class_declaration"@,
        "export_statement"@ != "interface_declaration"@,
        "export_statement"@ != "type_alias_declaration"@,
        "export_statement"@ != "enum_declaration"@,
        "class_declaration"@ != "interface_declaration"@,
        "class_declaration"@ != "type_alias_declaration"@,
        "class_declaration"@ != "enum_declaration"@,
        "interface_declaration"@ != "type_alias_declaration"@,
        "interface_declaration"@ != "enum_declaration"@,
        "type_alias_declaration"@ != "enum_declaration"@,
        "typescript"@ != "rust"@,
        "javascript"@ != "rust"@,
{
    reveal_strlit("function_declaration");
    reveal_strlit("lexical_declaration");
    reveal_strlit("variable_declaration");
    reveal_strlit("import_statement");
    reveal_strlit("export_statement");
    reveal_strlit("class_declaration");
    reveal_strlit("interface_declaration");
    reveal_strlit("type_alias_declaration");
    reveal_strlit("enum_declaration");
    lemma_languages();
    assert("function_declaration"@[0] == 'f' && "lexical_declaration"@[0] == 'l');
    assert("variable_declaration"@[0] == 'v' && "class_declaration"@[0] == 'c');
    assert("type_alias_declaration"@[0] == 't');
    assert("import_statement"@[0] == 'i' && "import_statement"@[1] == 'm');
    assert("interface_declaration"@[0] == 'i' && "interface_declaration"@[1] == 'n');
    assert("export_statement"@[0] == 'e' && "export_statement"@[1] == 'x');
    assert("enum_declaration"@[0] == 'e' && "enum_declaration"@[1] == 'n');
}

// ── What is kept ────────────────────────────────────────────────────────────

/// Whether a chunk is another one, or that one made public.
spec fn same_chunk(c: ChunkView, d: ChunkView) -> bool {
    &&& d.start == c.start
    &&& d.end == c.end
    &&& d.kind == c.kind
    &&& d.label == c.label
    &&& d.depth == c.depth
    &&& d.metadata.language == c.metadata.language
    &&& d.metadata.visibility == c.metadata.visibility || d.metadata.visibility == Some(
        Visibility::Public,
    )
}

/// Whether what is found holds what was found before, some of it perhaps made public.
spec fn keeps(f: FoundView, g: FoundView) -> bool {
    &&& f.chunks.len() <= g.chunks.len()
    &&& forall|k: int| 0 <= k < f.chunks.len() ==> same_chunk(f.chunks[k], #[trigger] g.chunks[k])
    &&& f.links.len() <= g.links.len()
    &&& forall|k: int| 0 <= k < f.links.len() ==> f.links[k] == #[trigger] g.links[k]
    &&& forall|x: Seq<char>| #[trigger] f.tags.contains(x) ==> g.tags.contains(x)
}

proof fn lemma_keeps(f: FoundView, g: FoundView, h: FoundView)
    requires
        keeps(f, g),
        keeps(g, h),
    ensures
        keeps(f, h),
{
    assert forall|k: int| 0 <= k < f.chunks.len() implies same_chunk(
        f.chunks[k],
        #[trigger] h.chunks[k],
    ) by {
        assert(same_chunk(f.chunks[k], g.chunks[k]));
        assert(same_chunk(g.chunks[k], h.chunks[k]));
    }
    assert forall|k: int| 0 <= k < f.links.len() implies f.links[k] == #[trigger] h.links[k] by {
        assert(f.links[k] == g.links[k]);
        assert(g.links[k] == h.links[k]);
    }
}

proof fn lemma_chunk_kept(
    f: FoundView,
    g: FoundView,
    t: Seq<ItemView>,
    i: int,
    kind: ChunkKind,
    label: Seq<char>,
    depth: int,
    lang: Seq<char>,
    visibility: Visibility,
)
    requires
        keeps(f, g),
        has_chunk(f.chunks, t, i, kind, label, depth, lang, visibility),
    ensures
        has_chunk(g.chunks, t, i, kind, label, depth, lang, visibility) || has_chunk(
            g.chunks,
            t,
            i,
            kind,
            label,
            depth,
            lang,
            Visibility::Public,
        ),
{
    let k = choose|k: int|
        0 <= k < f.chunks.len() && is_chunk_of(
            #[trigger] f.chunks[k],
            t,
            i,
            kind,
            label,
            depth,
            lang,
            visibility,
        );
    assert(same_chunk(f.chunks[k], g.chunks[k]));
}

proof fn lemma_tagged(f: FoundView, c: Option<ChunkView>, tag: Seq<char>)
    ensures
        grows(f, code::tagged_spec(f, c, tag)),
        c is Some ==> code::tagged_spec(f, c, tag).tags.contains(tag) && code::tagged_spec(
            f,
            c,
            tag,
        ).chunks.len() > 0 && code::tagged_spec(f, c, tag).chunks.last() == c->Some_0,
{
    let l = LinkView { target: tag, display: None, byte_offset: 0 };
    if c is Some {
        let a = code::with_tag(f, tag);
        lemma_grows(f, tag, c->Some_0, l);
        lemma_grows(a, tag, c->Some_0, l);
    }
}

/// What a member of a class adds.
spec fn member_step(
    t: Seq<ItemView>,
    source: Seq<u8>,
    lang: Seq<char>,
    depth: u8,
    j: int,
    f: FoundView,
) -> FoundView {
    let label = syntax::or_empty(syntax::field_text_spec(t, source, j, "name"@));
    if t[j].kind == "method_definition"@ && label.len() > 0 {
        code::with_tag(
            code::with_chunk(
                f,
                code::chunk_spec(
                    t,
                    j,
                    ChunkKind::Method,
                    label,
                    depth,
                    Some(code::signature_spec(t, source, j)),
                    lang,
                    Visibility::Public,
                ),
            ),
            "kind:method"@,
        )
    } else {
        f
    }
}

proof fn lemma_member_step(
    t: Seq<ItemView>,
    source: Seq<u8>,
    lang: Seq<char>,
    depth: u8,
    j: int,
    f: FoundView,
)
    ensures
        grows(f, member_step(t, source, lang, depth, j, f)),
        ({
            let label = syntax::or_empty(syntax::field_text_spec(t, source, j, "name"@));
            let g = member_step(t, source, lang, depth, j, f);
            t[j].kind == "method_definition"@ && label.len() > 0 ==> has_chunk(
                g.chunks,
                t,
                j,
                ChunkKind::Method,
                label,
                depth as int,
                lang,
                Visibility::Public,
            ) && g.tags.contains("kind:method"@)
        }),
{
    let g = member_step(t, source, lang, depth, j, f);
    let l = LinkView { target: lang, display: None, byte_offset: 0 };
    let label = syntax::or_empty(syntax::field_text_spec(t, source, j, "name"@));
    lemma_grows(f, lang, code::whole_file(source, lang), l);
    if t[j].kind == "method_definition"@ && label.len() > 0 {
        let c = g.chunks.last();
        let a = code::with_chunk(f, c);
        lemma_grows(f, "kind:method"@, c, l);
        lemma_grows(a, "kind:method"@, c, l);
        assert(g.chunks[g.chunks.len() - 1] == c);
    }
}

proof fn lemma_members_grow(
    t: Seq<ItemView>,
    source: Seq<u8>,
    lang: Seq<char>,
    depth: u8,
    body: int,
    k: int,
    f: FoundView,
)
    requires
        0 <= k,
    ensures
        grows(f, code::ts_members_from(t, source, lang, depth, body, k, f)),
    decreases syntax::kids_spec(t, body).len() - k,
{
    let kids = syntax::kids_spec(t, body);
    lemma_grows(
        f,
        lang,
        code::whole_file(source, lang),
        LinkView { target: lang, display: None, byte_offset: 0 },
    );
    if k < kids.len() {
        let g = member_step(t, source, lang, depth, kids[k], f);
        lemma_member_step(t, source, lang, depth, kids[k], f);
        lemma_members_grow(t, source, lang, depth, body, k + 1, g);
        lemma_grows_on(f, g, code::ts_members_from(t, source, lang, depth, body, k, f));
    }
}

proof fn lemma_members_at(
    t: Seq<ItemView>,
    source: Seq<u8>,
    lang: Seq<char>,
    depth: u8,
    body: int,
    k: int,
    f: FoundView,
    m: int,
) -> (h: FoundView)
    requires
        0 <= k <= m < syntax::kids_spec(t, body).len(),
    ensures
        grows(
            member_step(t, source, lang, depth, syntax::kids_spec(t, body)[m], h),
            code::ts_members_from(t, source, lang, depth, body, k, f),
        ),
    decreases syntax::kids_spec(t, body).len() - k,
{
    let kids = syntax::kids_spec(t, body);
    let g = member_step(t, source, lang, depth, kids[k], f);
    if k == m {
        lemma_members_grow(t, source, lang, depth, body, k + 1, g);
        f
    } else {
        lemma_members_at(t, source, lang, depth, body, k + 1, g, m)
    }
}

proof fn lemma_class_grows(
    t: Seq<ItemView>,
    source: Seq<u8>,
    lang: Seq<char>,
    depth: u8,
    visibility: Visibility,
    i: int,
    f: FoundView,
)
    ensures
        ({
            let g = code::tagged_spec(
                f,
                code::ts_named_spec(t, source, i, lang, ChunkKind::Class, depth, visibility),
                "kind:class"@,
            );
            let r = code::ts_class_spec(t, source, lang, depth, visibility, i, f);
            grows(f, g) && grows(g, r) && grows(f, r)
        }),
{
    let c = code::ts_named_spec(t, source, i, lang, ChunkKind::Class, depth, visibility);
    let g = code::tagged_spec(f, c, "kind:class"@);
    let r = code::ts_class_spec(t, source, lang, depth, visibility, i, f);
    lemma_tagged(f, c, "kind:class"@);
    lemma_grows(
        g,
        lang,
        code::whole_file(source, lang),
        LinkView { target: lang, display: None, byte_offset: 0 },
    );
    match syntax::field_spec(t, i, "body"@) {
        Some(body) => {
            lemma_members_grow(t, source, lang, code::deeper_spec(depth), body, 0, g);
        },
        None => {},
    }
    lemma_grows_on(f, g, r);
}

proof fn lemma_declaration_grows(
    t: Seq<ItemView>,
    source: Seq<u8>,
    lang: Seq<char>,
    depth: u8,
    visibility: Visibility,
    i: int,
    f: FoundView,
)
    ensures
        grows(f, code::ts_declaration_spec(t, source, lang, depth, visibility, i, f)),
{
    let kind = t[i].kind;
    let class = code::ts_named_spec(t, source, i, lang, ChunkKind::Class, depth, visibility);
    let constant = code::ts_named_spec(t, source, i, lang, ChunkKind::Constant, depth, visibility);
    lemma_grows(
        f,
        lang,
        code::whole_file(source, lang),
        LinkView { target: lang, display: None, byte_offset: 0 },
    );
    if kind == "class_declaration"@ {
        lemma_class_grows(t, source, lang, depth, visibility, i, f);
    } else if kind == "interface_declaration"@ {
        lemma_tagged(f, class, "kind:interface"@);
    } else if kind == "type_alias_declaration"@ {
        lemma_tagged(f, constant, "kind:type"@);
    } else if kind == "enum_declaration"@ {
        lemma_tagged(f, class, "kind:enum"@);
    }
}

/// Whether the value of a variable is a function.
pub open spec fn is_function_value(t: Seq<ItemView>, v: int) -> bool {
    t[v].kind == "arrow_function"@ || t[v].kind == "function"@ || t[v].kind
        == "function_expression"@
}

proof fn lemma_declarator(
    t: Seq<ItemView>,
    source: Seq<u8>,
    lang: Seq<char>,
    depth: u8,
    visibility: Visibility,
    i: int,
    j: int,
    f: FoundView,
)
    ensures
        grows(f, code::ts_declarator_spec(t, source, lang, depth, visibility, i, j, f)),
        ({
            let label = syntax::or_empty(syntax::field_text_spec(t, source, j, "name"@));
            let v = syntax::field_spec(t, j, "value"@);
            let g = code::ts_declarator_spec(t, source, lang, depth, visibility, i, j, f);
            v is Some && t[j].kind == "variable_declarator"@ && label.len() > 0 ==> {
                &&& has_chunk(
                    g.chunks,
                    t,
                    i,
                    if is_function_value(t, v->Some_0) {
                        ChunkKind::Function
                    } else {
                        ChunkKind::Constant
                    },
                    label,
                    depth as int,
                    lang,
                    visibility,
                )
                &&& is_function_value(t, v->Some_0) ==> g.tags.contains("kind:function"@)
                &&& t[v->Some_0].kind == "arrow_function"@ && syntax::has_kid_spec(
                    t,
                    v->Some_0,
                    "async"@,
                ) ==> g.tags.contains("async:true"@)
            }
        }),
{
    let label = syntax::or_empty(syntax::field_text_spec(t, source, j, "name"@));
    let g = code::ts_declarator_spec(t, source, lang, depth, visibility, i, j, f);
    let l = LinkView { target: lang, display: None, byte_offset: 0 };
    lemma_grows(f, lang, code::whole_file(source, lang), l);
    match syntax::field_spec(t, j, "value"@) {
        Some(v) => if t[j].kind == "variable_declarator"@ && label.len() > 0 {
            if code::is_ts_function(t, v) {
                let c = code::chunk_spec(
                    t,
                    i,
                    ChunkKind::Function,
                    label,
                    depth,
                    Some(code::signature_spec(t, source, i)),
                    lang,
                    visibility,
                );
                let a = code::with_chunk(f, c);
                let b = code::with_tag(a, "kind:function"@);
                lemma_grows(f, lang, c, l);
                lemma_grows(a, "kind:function"@, c, l);
                lemma_grows(b, "async:true"@, c, l);
                lemma_grows_on(f, a, b);
                lemma_grows_on(f, b, g);
                assert(b.tags.contains("kind:function"@));
                assert(g.chunks[f.chunks.len() as int] == c);
            } else {
                let c = code::chunk_spec(
                    t,
                    i,
                    ChunkKind::Constant,
                    label,
                    depth,
                    None,
                    lang,
                    visibility,
                );
                lemma_grows(f, lang, c, l);
                assert(g.chunks[f.chunks.len() as int] == c);
            }
        },
        None => {},
    }
}

proof fn lemma_declarators_grow(
    t: Seq<ItemView>,
    source: Seq<u8>,
    lang: Seq<char>,
    depth: u8,
    visibility: Visibility,
    i: int,
    k: int,
    f: FoundView,
)
    requires
        0 <= k,
    ensures
        grows(f, code::ts_declarators_from(t, source, lang, depth, visibility, i, k, f)),
    decreases syntax::kids_spec(t, i).len() - k,
{
    let kids = syntax::kids_spec(t, i);
    lemma_grows(
        f,
        lang,
        code::whole_file(source, lang),
        LinkView { target: lang, display: None, byte_offset: 0 },
    );
    if k < kids.len() {
        let g = code::ts_declarator_spec(t, source, lang, depth, visibility, i, kids[k], f);
        lemma_declarator(t, source, lang, depth, visibility, i, kids[k], f);
        lemma_declarators_grow(t, source, lang, depth, visibility, i, k + 1, g);
        lemma_grows_on(
            f,
            g,
            code::ts_declarators_from(t, source, lang, depth, visibility, i, k, f),
        );
    }
}

proof fn lemma_declarators_at(
    t: Seq<ItemView>,
    source: Seq<u8>,
    lang: Seq<char>,
    depth: u8,
    visibility: Visibility,
    i: int,
    k: int,
    f: FoundView,
    m: int,
) -> (h: FoundView)
    requires
        0 <= k <= m < syntax::kids_spec(t, i).len(),
    ensures
        grows(
            code::ts_declarator_spec(
                t,
                source,
                lang,
                depth,
                visibility,
                i,
                syntax::kids_spec(t, i)[m],
                h,
            ),
            code::ts_declarators_from(t, source, lang, depth, visibility, i, k, f),
        ),
    decreases syntax::kids_spec(t, i).len() - k,
{
    let kids = syntax::kids_spec(t, i);
    let g = code::ts_declarator_spec(t, source, lang, depth, visibility, i, kids[k], f);
    if k == m {
        lemma_declarators_grow(t, source, lang, depth, visibility, i, k + 1, g);
        f
    } else {
        lemma_declarators_at(t, source, lang, depth, visibility, i, k + 1, g, m)
    }
}

/// What a node in an export adds.
spec fn export_step(
    t: Seq<ItemView>,
    source: Seq<u8>,
    lang: Seq<char>,
    e: int,
    j: int,
    f: FoundView,
) -> FoundView {
    let kind = t[j].kind;
    if kind == "function_declaration"@ {
        code::tagged_spec(
            f,
            code::ts_function_spec(t, source, j, lang, 0, Visibility::Public),
            "kind:function"@,
        )
    } else if kind == "lexical_declaration"@ || kind == "variable_declaration"@ {
        code::last_public(
            code::ts_declarators_from(
                t,
                source,
                lang,
                0,
                code::ts_visibility_spec(t, e),
                j,
                0,
                f,
            ),
        )
    } else {
        code::ts_declaration_spec(t, source, lang, 0, Visibility::Public, j, f)
    }
}

proof fn lemma_export_step(
    t: Seq<ItemView>,
    source: Seq<u8>,
    lang: Seq<char>,
    e: int,
    j: int,
    f: FoundView,
)
    ensures
        keeps(f, export_step(t, source, lang, e, j, f)),
{
    let kind = t[j].kind;
    if kind == "function_declaration"@ {
        lemma_tagged(
            f,
            code::ts_function_spec(t, source, j, lang, 0, Visibility::Public),
            "kind:function"@,
        );
    } else if kind == "lexical_declaration"@ || kind == "variable_declaration"@ {
        let vis = code::ts_visibility_spec(t, e);
        lemma_declarators_grow(t, source, lang, 0, vis, j, 0, f);
        let g = code::ts_declarators_from(t, source, lang, 0, vis, j, 0, f);
        assert(keeps(f, g));
        lemma_last_public(g);
        lemma_keeps(f, g, code::last_public(g));
    } else {
        lemma_declaration_grows(t, source, lang, 0, Visibility::Public, j, f);
    }
}

proof fn lemma_last_public(f: FoundView)
    ensures
        keeps(f, code::last_public(f)),
{
}

proof fn lemma_export_keeps(
    t: Seq<ItemView>,
    source: Seq<u8>,
    lang: Seq<char>,
    e: int,
    k: int,
    f: FoundView,
)
    requires
        0 <= k,
    ensures
        keeps(f, code::ts_export_from(t, source, lang, 0, e, k, f)),
    decreases syntax::kids_spec(t, e).len() - k,
{
    let kids = syntax::kids_spec(t, e);
    if k < kids.len() {
        let g = export_step(t, source, lang, e, kids[k], f);
        lemma_export_step(t, source, lang, e, kids[k], f);
        lemma_export_keeps(t, source, lang, e, k + 1, g);
        lemma_keeps(f, g, code::ts_export_from(t, source, lang, 0, e, k, f));
    }
}

proof fn lemma_export_at(
    t: Seq<ItemView>,
    source: Seq<u8>,
    lang: Seq<char>,
    e: int,
    k: int,
    f: FoundView,
    m: int,
) -> (h: FoundView)
    requires
        0 <= k <= m < syntax::kids_spec(t, e).len(),
    ensures
        keeps(
            export_step(t, source, lang, e, syntax::kids_spec(t, e)[m], h),
            code::ts_export_from(t, source, lang, 0, e, k, f),
        ),
    decreases syntax::kids_spec(t, e).len() - k,
{
    let kids = syntax::kids_spec(t, e);
    let g = export_step(t, source, lang, e, kids[k], f);
    if k == m {
        lemma_export_keeps(t, source, lang, e, k + 1, g);
        f
    } else {
        lemma_export_at(t, source, lang, e, k + 1, g, m)
    }
}

/// What a node of the file adds.
spec fn node_step(
    t: Seq<ItemView>,
    source: Seq<u8>,
    lang: Seq<char>,
    j: int,
    f: FoundView,
) -> FoundView {
    let kind = t[j].kind;
    let vis = code::ts_visibility_spec(t, 0);
    if kind == "function_declaration"@ {
        match code::ts_function_spec(t, source, j, lang, 0, vis) {
            Some(c) => {
                let a = code::with_tag(f, "kind:function"@);
                let b = if syntax::has_kid_spec(t, j, "async"@) {
                    code::with_tag(a, "async:true"@)
                } else {
                    a
                };
                code::with_chunk(b, c)
            },
            None => f,
        }
    } else if kind == "lexical_declaration"@ || kind == "variable_declaration"@ {
        code::ts_declarators_from(t, source, lang, 0, vis, j, 0, f)
    } else if kind == "import_statement"@ {
        code::ts_import_spec(t, source, j, f)
    } else if kind == "export_statement"@ {
        code::ts_export_from(t, source, lang, 0, j, 0, f)
    } else {
        code::ts_declaration_spec(t, source, lang, 0, vis, j, f)
    }
}

proof fn lemma_function_step(
    t: Seq<ItemView>,
    source: Seq<u8>,
    lang: Seq<char>,
    j: int,
    f: FoundView,
)
    requires
        t[j].kind == "function_declaration"@,
    ensures
        grows(f, node_step(t, source, lang, j, f)),
        code::ts_function_spec(t, source, j, lang, 0, code::ts_visibility_spec(t, 0)) matches Some(
            c,
        ) ==> {
            let g = node_step(t, source, lang, j, f);
            &&& g.chunks.len() > 0
            &&& g.chunks.last() == c
            &&& g.tags.contains("kind:function"@)
            &&& syntax::has_kid_spec(t, j, "async"@) ==> g.tags.contains("async:true"@)
        },
{
    let l = LinkView { target: lang, display: None, byte_offset: 0 };
    lemma_grows(f, lang, code::whole_file(source, lang), l);
    match code::ts_function_spec(t, source, j, lang, 0, code::ts_visibility_spec(t, 0)) {
        Some(c) => {
            let a = code::with_tag(f, "kind:function"@);
            let b = if syntax::has_kid_spec(t, j, "async"@) {
                code::with_tag(a, "async:true"@)
            } else {
                a
            };
            lemma_grows(f, "kind:function"@, c, l);
            lemma_grows(a, "async:true"@, c, l);
            lemma_grows(b, "async:true"@, c, l);
            assert(a.tags.contains("kind:function"@));
            lemma_grows_on(f, a, b);
            lemma_grows_on(f, b, code::with_chunk(b, c));
        },
        None => {},
    }
}

proof fn lemma_node_step(t: Seq<ItemView>, source: Seq<u8>, lang: Seq<char>, j: int, f: FoundView)
    ensures
        keeps(f, node_step(t, source, lang, j, f)),
{
    let kind = t[j].kind;
    let vis = code::ts_visibility_spec(t, 0);
    if kind == "function_declaration"@ {
        lemma_function_step(t, source, lang, j, f);
    } else if kind == "lexical_declaration"@ || kind == "variable_declaration"@ {
        lemma_declarators_grow(t, source, lang, 0, vis, j, 0, f);
    } else if kind == "import_statement"@ {
    } else if kind == "export_statement"@ {
        lemma_export_keeps(t, source, lang, j, 0, f);
    } else {
        lemma_declaration_grows(t, source, lang, 0, vis, j, f);
    }
}

proof fn lemma_nodes_keep(
    t: Seq<ItemView>,
    source: Seq<u8>,
    lang: Seq<char>,
    k: int,
    f: FoundView,
)
    requires
        0 <= k,
    ensures
        keeps(f, code::ts_nodes_from(t, source, lang, 0, 0, k, f)),
    decreases syntax::kids_spec(t, 0).len() - k,
{
    let kids = syntax::kids_spec(t, 0);
    if k < kids.len() {
        let g = node_step(t, source, lang, kids[k], f);
        lemma_node_step(t, source, lang, kids[k], f);
        lemma_nodes_keep(t, source, lang, k + 1, g);
        lemma_keeps(f, g, code::ts_nodes_from(t, source, lang, 0, 0, k, f));
    }
}

proof fn lemma_nodes_at(
    t: Seq<ItemView>,
    source: Seq<u8>,
    lang: Seq<char>,
    k: int,
    f: FoundView,
    m: int,
) -> (h: FoundView)
    requires
        0 <= k <= m < syntax::kids_spec(t, 0).len(),
    ensures
        keeps(
            node_step(t, source, lang, syntax::kids_spec(t, 0)[m], h),
            code::ts_nodes_from(t, source, lang, 0, 0, k, f),
        ),
    decreases syntax::kids_spec(t, 0).len() - k,
{
    let kids = syntax::kids_spec(t, 0);
    let g = node_step(t, source, lang, kids[k], f);
    if k == m {
        lemma_nodes_keep(t, source, lang, k + 1, g);
        f
    } else {
        lemma_nodes_at(t, source, lang, k + 1, g, m)
    }
}

/// What was found before a node of the file is visited.
proof fn lemma_node_found(
    t: Seq<ItemView>,
    source: Seq<u8>,
    path: Seq<char>,
    lang: Seq<char>,
    j: int,
) -> (h: FoundView)
    requires
        is_script(path, lang),
        0 < t.len(),
        is_child(t, 0, j),
    ensures
        code::language_of_extension(paths::extension_spec(path)) == lang,
        keeps(node_step(t, source, lang, j, h), code::found_in(t, source, lang)),
{
    lemma_languages();
    lemma_words();
    law_children(t, 0);
    assert(syntax::kids_spec(t, 0).contains(j));
    let m = syntax::kids_spec(t, 0).index_of(j);
    lemma_nodes_at(t, source, lang, 0, code::found_at_start(lang), m)
}

/// What was found before a node in an export is visited.
proof fn lemma_exported_found(
    t: Seq<ItemView>,
    source: Seq<u8>,
    path: Seq<char>,
    lang: Seq<char>,
    e: int,
    j: int,
) -> (h: FoundView)
    requires
        is_script(path, lang),
        0 < t.len(),
        exports(t, e, j),
    ensures
        code::language_of_extension(paths::extension_spec(path)) == lang,
        keeps(export_step(t, source, lang, e, j, h), code::found_in(t, source, lang)),
{
    lemma_words();
    let g = lemma_node_found(t, source, path, lang, e);
    law_children(t, e);
    assert(syntax::kids_spec(t, e).contains(j));
    let m = syntax::kids_spec(t, e).index_of(j);
    let h = lemma_export_at(t, source, lang, e, 0, g, m);
    lemma_keeps(
        export_step(t, source, lang, e, j, h),
        node_step(t, source, lang, e, g),
        code::found_in(t, source, lang),
    );
    h
}

/// A file of one of the two languages is tagged with it.
pub proof fn law_script_language(
    t: Seq<ItemView>,
    source: Seq<u8>,
    path: Seq<char>,
    lang: Seq<char>,
)
    requires
        is_script(path, lang),
    ensures
        code::tree_outcome(t, source, path).tags.contains("lang:"@ + lang),
{
    lemma_words();
    lemma_languages();
    let f = code::found_at_start(lang);
    assert(f.tags[0] == "lang:"@ + lang);
    assert(f.tags.contains("lang:"@ + lang));
    lemma_nodes_keep(t, source, lang, 0, f);
    assert(code::found_in(t, source, lang).tags.contains("lang:"@ + lang));
}

// ── Declarations ────────────────────────────────────────────────────────────

/// Every function of the file has a chunk with its bytes and its name, public where it is exported.
/// The file is tagged with it.
pub proof fn law_script_functions(
    t: Seq<ItemView>,
    source: Seq<u8>,
    path: Seq<char>,
    lang: Seq<char>,
    j: int,
    name: Seq<char>,
)
    requires
        is_script(path, lang),
        stands_bare(t, j) || stands_exported(t, j),
        t[j].kind == "function_declaration"@,
        field_spells(t, source, j, "name"@, name),
    ensures
        ({
            let o = code::tree_outcome(t, source, path);
            &&& stands_exported(t, j) ==> has_chunk(
                o.chunks,
                t,
                j,
                ChunkKind::Function,
                name,
                0,
                lang,
                Visibility::Public,
            )
            &&& has_private_chunk(o.chunks, t, j, ChunkKind::Function, name, 0, lang)
            &&& o.tags.contains("kind:function"@)
            &&& stands_bare(t, j) && has_child(t, j, "async"@) ==> o.tags.contains("async:true"@)
        }),
{
    lemma_words();
    lemma_outcome(t, source, path);
    lemma_field_text(t, source, j, "name"@, name);
    let all = code::found_in(t, source, lang);
    if stands_exported(t, j) {
        let e = choose|e: int| #[trigger] exports(t, e, j);
        let h = lemma_exported_found(t, source, path, lang, e, j);
        let c = code::ts_function_spec(t, source, j, lang, 0, Visibility::Public);
        let g = export_step(t, source, lang, e, j, h);
        lemma_tagged(h, c, "kind:function"@);
        assert(g.chunks[g.chunks.len() - 1] == c->Some_0);
        lemma_chunk_kept(
            g,
            all,
            t,
            j,
            ChunkKind::Function,
            name,
            0,
            lang,
            Visibility::Public,
        );
    }
    if stands_bare(t, j) {
        let h = lemma_node_found(t, source, path, lang, j);
        let g = node_step(t, source, lang, j, h);
        lemma_function_step(t, source, lang, j, h);
        lemma_has_child(t, j, "async"@);
        assert(g.chunks[g.chunks.len() - 1] == g.chunks.last());
        lemma_chunk_kept(
            g,
            all,
            t,
            j,
            ChunkKind::Function,
            name,
            0,
            lang,
            Visibility::Private,
        );
    }
}

/// How a declaration is told: the kind of its chunk and the tag of the file.
pub open spec fn is_declared_kind(word: Seq<char>, kind: ChunkKind, tag: Seq<char>) -> bool {
    ||| word == "class_declaration"@ && kind == ChunkKind::Class && tag == "kind:class"@
    ||| word == "interface_declaration"@ && kind == ChunkKind::Class && tag == "kind:interface"@
    ||| word == "type_alias_declaration"@ && kind == ChunkKind::Constant && tag == "kind:type"@
    ||| word == "enum_declaration"@ && kind == ChunkKind::Class && tag == "kind:enum"@
}

proof fn lemma_declared(
    t: Seq<ItemView>,
    source: Seq<u8>,
    lang: Seq<char>,
    vis: Visibility,
    j: int,
    f: FoundView,
    name: Seq<char>,
    kind: ChunkKind,
    tag: Seq<char>,
)
    requires
        is_declared_kind(t[j].kind, kind, tag),
        syntax::field_text_spec(t, source, j, "name"@) == Some(name),
    ensures
        ({
            let g = code::ts_declaration_spec(t, source, lang, 0, vis, j, f);
            &&& has_chunk(g.chunks, t, j, kind, name, 0, lang, vis)
            &&& g.tags.contains(tag)
        }),
{
    lemma_words();
    let c = code::ts_named_spec(t, source, j, lang, kind, 0, vis);
    let w = code::tagged_spec(f, c, tag);
    let g = code::ts_declaration_spec(t, source, lang, 0, vis, j, f);
    lemma_tagged(f, c, tag);
    lemma_grows(
        w,
        lang,
        code::whole_file(source, lang),
        LinkView { target: lang, display: None, byte_offset: 0 },
    );
    if t[j].kind == "class_declaration"@ {
        lemma_class_grows(t, source, lang, 0, vis, j, f);
    }
    assert(grows(w, g));
    assert(w.chunks[w.chunks.len() - 1] == c->Some_0);
    assert(g.chunks[w.chunks.len() - 1] == c->Some_0);
    assert(w.tags.contains(tag));
}

/// Every class, interface, type and enumeration of the file has a chunk with its bytes and its name,
/// public where it is exported. The file is tagged with it.
pub proof fn law_script_declarations(
    t: Seq<ItemView>,
    source: Seq<u8>,
    path: Seq<char>,
    lang: Seq<char>,
    j: int,
    name: Seq<char>,
    kind: ChunkKind,
    tag: Seq<char>,
)
    requires
        is_script(path, lang),
        stands_bare(t, j) || stands_exported(t, j),
        is_declared_kind(t[j].kind, kind, tag),
        field_spells(t, source, j, "name"@, name),
    ensures
        ({
            let o = code::tree_outcome(t, source, path);
            &&& stands_exported(t, j) ==> has_chunk(
                o.chunks,
                t,
                j,
                kind,
                name,
                0,
                lang,
                Visibility::Public,
            )
            &&& has_private_chunk(o.chunks, t, j, kind, name, 0, lang)
            &&& o.tags.contains(tag)
        }),
{
    lemma_words();
    lemma_outcome(t, source, path);
    lemma_field_text(t, source, j, "name"@, name);
    let all = code::found_in(t, source, lang);
    if stands_exported(t, j) {
        let e = choose|e: int| #[trigger] exports(t, e, j);
        let h = lemma_exported_found(t, source, path, lang, e, j);
        let g = export_step(t, source, lang, e, j, h);
        lemma_declared(t, source, lang, Visibility::Public, j, h, name, kind, tag);
        lemma_chunk_kept(g, all, t, j, kind, name, 0, lang, Visibility::Public);
    }
    if stands_bare(t, j) {
        let h = lemma_node_found(t, source, path, lang, j);
        let g = node_step(t, source, lang, j, h);
        lemma_declared(t, source, lang, Visibility::Private, j, h, name, kind, tag);
        lemma_chunk_kept(g, all, t, j, kind, name, 0, lang, Visibility::Private);
    }
}

/// Every method of a class of the file has a chunk with its bytes and its name, one level below.
pub proof fn law_script_methods(
    t: Seq<ItemView>,
    source: Seq<u8>,
    path: Seq<char>,
    lang: Seq<char>,
    class: int,
    body: int,
    j: int,
    name: Seq<char>,
)
    requires
        is_script(path, lang),
        stands_bare(t, class) || stands_exported(t, class),
        t[class].kind == "class_declaration"@,
        fills(t, class, "body"@, body),
        is_child(t, body, j),
        t[j].kind == "method_definition"@,
        field_spells(t, source, j, "name"@, name),
        name.len() > 0,
    ensures
        has_chunk(
            code::tree_outcome(t, source, path).chunks,
            t,
            j,
            ChunkKind::Method,
            name,
            below(0),
            lang,
            Visibility::Public,
        ),
        code::tree_outcome(t, source, path).tags.contains("kind:method"@),
{
    lemma_words();
    lemma_outcome(t, source, path);
    lemma_field_text(t, source, j, "name"@, name);
    law_field(t, class, "body"@, body);
    law_children(t, body);
    assert(syntax::kids_spec(t, body).contains(j));
    let m = syntax::kids_spec(t, body).index_of(j);
    let all = code::found_in(t, source, lang);
    let vis = if stands_exported(t, class) {
        Visibility::Public
    } else {
        Visibility::Private
    };
    let h = if stands_exported(t, class) {
        let e = choose|e: int| #[trigger] exports(t, e, class);
        lemma_exported_found(t, source, path, lang, e, class)
    } else {
        lemma_node_found(t, source, path, lang, class)
    };
    let g = code::ts_class_spec(t, source, lang, 0, vis, class, h);
    assert(keeps(g, all));
    let w = code::tagged_spec(
        h,
        code::ts_named_spec(t, source, class, lang, ChunkKind::Class, 0, vis),
        "kind:class"@,
    );
    let r = lemma_members_at(t, source, lang, code::deeper_spec(0), body, 0, w, m);
    let s = member_step(t, source, lang, code::deeper_spec(0), j, r);
    lemma_member_step(t, source, lang, code::deeper_spec(0), j, r);
    assert(grows(s, g));
    assert(keeps(s, g));
    lemma_keeps(s, g, all);
    lemma_chunk_kept(
        s,
        all,
        t,
        j,
        ChunkKind::Method,
        name,
        below(0),
        lang,
        Visibility::Public,
    );
}

/// Every variable of the file with a name and a value has a chunk with the bytes of its declaration:
/// a function where the value is one, and a constant otherwise. It is public where it is exported.
pub proof fn law_script_variables(
    t: Seq<ItemView>,
    source: Seq<u8>,
    path: Seq<char>,
    lang: Seq<char>,
    i: int,
    j: int,
    v: int,
    name: Seq<char>,
)
    requires
        is_script(path, lang),
        stands_bare(t, i) || stands_exported(t, i),
        t[i].kind == "lexical_declaration"@ || t[i].kind == "variable_declaration"@,
        is_child(t, i, j),
        t[j].kind == "variable_declarator"@,
        field_spells(t, source, j, "name"@, name),
        name.len() > 0,
        fills(t, j, "value"@, v),
    ensures
        ({
            let o = code::tree_outcome(t, source, path);
            let kind = if is_function_value(t, v) {
                ChunkKind::Function
            } else {
                ChunkKind::Constant
            };
            &&& stands_exported(t, i) ==> has_chunk(
                o.chunks,
                t,
                i,
                kind,
                name,
                0,
                lang,
                Visibility::Public,
            )
            &&& has_private_chunk(o.chunks, t, i, kind, name, 0, lang)
            &&& is_function_value(t, v) ==> o.tags.contains("kind:function"@)
            &&& t[v].kind == "arrow_function"@ && has_child(t, v, "async"@) ==> o.tags.contains(
                "async:true"@,
            )
        }),
{
    lemma_words();
    lemma_outcome(t, source, path);
    lemma_field_text(t, source, j, "name"@, name);
    law_field(t, j, "value"@, v);
    lemma_has_child(t, v, "async"@);
    law_children(t, i);
    assert(syntax::kids_spec(t, i).contains(j));
    let m = syntax::kids_spec(t, i).index_of(j);
    let all = code::found_in(t, source, lang);
    let kind = if is_function_value(t, v) {
        ChunkKind::Function
    } else {
        ChunkKind::Constant
    };
    if stands_exported(t, i) {
        let vis = Visibility::Public;
        let e = choose|e: int| #[trigger] exports(t, e, i);
        let h = lemma_exported_found(t, source, path, lang, e, i);
        let r = lemma_declarators_at(t, source, lang, 0, vis, i, 0, h, m);
        let s = code::ts_declarator_spec(t, source, lang, 0, vis, i, j, r);
        let g = code::ts_declarators_from(t, source, lang, 0, vis, i, 0, h);
        lemma_declarator(t, source, lang, 0, vis, i, j, r);
        assert(keeps(s, g));
        lemma_last_public(g);
        lemma_keeps(s, g, code::last_public(g));
        lemma_keeps(s, code::last_public(g), all);
        lemma_chunk_kept(s, all, t, i, kind, name, 0, lang, vis);
    }
    if stands_bare(t, i) {
        let vis = Visibility::Private;
        let h = lemma_node_found(t, source, path, lang, i);
        let r = lemma_declarators_at(t, source, lang, 0, vis, i, 0, h, m);
        let s = code::ts_declarator_spec(t, source, lang, 0, vis, i, j, r);
        let g = code::ts_declarators_from(t, source, lang, 0, vis, i, 0, h);
        lemma_declarator(t, source, lang, 0, vis, i, j, r);
        assert(keeps(s, g));
        lemma_keeps(s, g, all);
        lemma_chunk_kept(s, all, t, i, kind, name, 0, lang, vis);
    }
}

// ── Imports ─────────────────────────────────────────────────────────────────

/// Whether a name is that of a package: one word, or a scope with a word.
pub open spec fn is_package(name: Seq<char>) -> bool {
    &&& name.len() > 0
    &&& name[0] != '.'
    &&& if name[0] == '@' {
        exists|p: int|
            0 <= p < name.len() && #[trigger] name[p] == '/' && forall|q: int|
                0 <= q < name.len() && q != p ==> #[trigger] name[q] != '/'
    } else {
        !name.contains('/')
    }
}

/// Every import from a package is a link to that package, at the start of the statement, whatever
/// path within the package is imported.
pub proof fn law_script_imports(
    t: Seq<ItemView>,
    source: Seq<u8>,
    path: Seq<char>,
    lang: Seq<char>,
    j: int,
    name: Seq<char>,
    rest: Seq<char>,
    quote: char,
)
    requires
        is_script(path, lang),
        0 < t.len(),
        is_child(t, 0, j),
        t[j].kind == "import_statement"@,
        is_package(name),
        rest.len() == 0 || rest[0] == '/',
        quote == '\'' || quote == '"',
        name[0] != '\'' && name[0] != '"',
        (name + rest).last() != '\'' && (name + rest).last() != '"',
        field_spells(t, source, j, "source"@, seq![quote] + name + rest + seq![quote]),
    ensures
        has_link(code::tree_outcome(t, source, path).links, t, j, name),
{
    lemma_words();
    lemma_outcome(t, source, path);
    let s = seq![quote] + name + rest + seq![quote];
    lemma_field_text(t, source, j, "source"@, s);
    let all = code::found_in(t, source, lang);
    let h = lemma_node_found(t, source, path, lang, j);
    lemma_unquoted(name + rest, quote);
    assert(seq![quote] + (name + rest) + seq![quote] =~= s);
    lemma_package(name, rest);
    let g = node_step(t, source, lang, j, h);
    assert((name + rest)[0] == name[0]);
    assert(g == code::with_link(h, code::import_spec(t, source, j, name)));
    assert(g.links[g.links.len() - 1].target == name);
    assert(all.links[g.links.len() - 1] == g.links[g.links.len() - 1]);
}

proof fn lemma_unquoted(s: Seq<char>, quote: char)
    requires
        quote == '\'' || quote == '"',
        s.len() > 0,
        s[0] != '\'' && s[0] != '"',
        s.last() != '\'' && s.last() != '"',
    ensures
        code::unquote_spec(seq![quote] + s + seq![quote]) == s,
{
    let q = seq![quote] + s + seq![quote];
    let a = s + seq![quote];
    assert(q.subrange(1, q.len() as int) =~= a);
    assert(a[0] == s[0]);
    assert(code::unquote_start(a) == a);
    assert(code::unquote_start(q) == a);
    assert(a.drop_last() =~= s);
    assert(a.last() == quote);
    assert(code::unquote_end(s) == s);
}

proof fn lemma_package(name: Seq<char>, rest: Seq<char>)
    requires
        is_package(name),
        rest.len() == 0 || rest[0] == '/',
    ensures
        code::package_spec(name + rest) == name,
{
    let s = name + rest;
    let n = name.len() as int;
    let e = text::next_sep(s, '/', 0);
    text::lemma_next_sep(s, '/', 0);
    assert(s[0] == name[0]);
    if name[0] == '@' {
        let p = choose|p: int|
            0 <= p < name.len() && #[trigger] name[p] == '/' && forall|q: int|
                0 <= q < name.len() && q != p ==> #[trigger] name[q] != '/';
        assert(s[p] == '/');
        if e < p {
            assert(s[e] == name[e]);
        }
        assert(e == p);
        let f = text::next_sep(s, '/', e + 1);
        text::lemma_next_sep(s, '/', e + 1);
        if f < n {
            assert(s[f] == name[f]);
        }
        if rest.len() > 0 {
            assert(s[n] == rest[0]);
        }
        assert(f == n);
    } else {
        if e < n {
            assert(s[e] == name[e]);
            assert(name.contains(name[e]));
        }
        if rest.len() > 0 {
            assert(s[n] == rest[0]);
        }
        assert(e == n);
    }
    assert(s.take(n) =~= name);
}

} // verus!
