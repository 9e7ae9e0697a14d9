//! What is found in source code, stated over the nodes of its syntax tree.
//!
//! The statements speak of nodes, their levels and the bytes they cover, and of the words of each
//! language.

use vstd::prelude::*;
use vstd::utf8::*;

use crate::code;
use crate::code::FoundView;
use crate::paths;
use crate::syntax;
use crate::syntax::ItemView;
use crate::text;
use crate::text_laws;
use crate::types::{ChunkKind, ChunkView, LinkView, Visibility};

verus! {

// ── Nodes ───────────────────────────────────────────────────────────────────

/// Whether a node is a child of another: it is one level deeper, and all nodes between are deeper
/// than the parent.
pub open spec fn is_child(t: Seq<ItemView>, p: int, c: int) -> bool {
    &&& 0 <= p < c < t.len()
    &&& t[c].level == t[p].level + 1
    &&& forall|j: int| p < j < c ==> (#[trigger] t[j]).level > t[p].level
}

/// Whether a node is the first child of another that fills a field.
pub open spec fn fills(t: Seq<ItemView>, p: int, field: Seq<char>, n: int) -> bool {
    &&& is_child(t, p, n)
    &&& t[n].field == Some(field)
    &&& forall|j: int| j < n && #[trigger] is_child(t, p, j) ==> t[j].field != Some(field)
}

/// Whether a node covers the bytes of a text.
pub open spec fn spells(t: Seq<ItemView>, source: Seq<u8>, n: int, s: Seq<char>) -> bool {
    0 <= t[n].start <= t[n].end <= source.len() && source.subrange(t[n].start, t[n].end)
        == encode_utf8(s)
}

/// Whether the child of a node that fills a field covers the bytes of a text.
pub open spec fn field_spells(
    t: Seq<ItemView>,
    source: Seq<u8>,
    i: int,
    field: Seq<char>,
    s: Seq<char>,
) -> bool {
    exists|n: int| #[trigger] fills(t, i, field, n) && spells(t, source, n, s)
}

/// Whether a child of a node has a kind.
pub open spec fn has_child(t: Seq<ItemView>, p: int, kind: Seq<char>) -> bool {
    exists|c: int| #[trigger] is_child(t, p, c) && t[c].kind == kind
}

proof fn lemma_kids_from(t: Seq<ItemView>, i: int, j: int)
    requires
        0 <= i < j,
        forall|m: int| i < m < j ==> (#[trigger] t[m]).level > t[i].level,
    ensures
        forall|c: int| j <= c ==> (syntax::kids_from(t, i, j).contains(c) <==> #[trigger] is_child(
            t,
            i,
            c,
        )),
        forall|a: int|
            0 <= a < syntax::kids_from(t, i, j).len() ==> j <= #[trigger] syntax::kids_from(
                t,
                i,
                j,
            )[a] < t.len(),
        forall|a: int, b: int|
            0 <= a < b < syntax::kids_from(t, i, j).len() ==> #[trigger] syntax::kids_from(
                t,
                i,
                j,
            )[a] < #[trigger] syntax::kids_from(t, i, j)[b],
    decreases t.len() - j,
{
    let all = syntax::kids_from(t, i, j);
    if j >= t.len() || t[j].level <= t[i].level {
        assert forall|c: int| j <= c implies (all.contains(c) <==> #[trigger] is_child(t, i, c)) by {
            if is_child(t, i, c) && j < c {
                assert(t[j].level > t[i].level);
            }
        }
    } else {
        lemma_kids_from(t, i, j + 1);
        let rest = syntax::kids_from(t, i, j + 1);
        let own = t[j].level == t[i].level + 1;
        assert forall|c: int| j <= c implies (all.contains(c) <==> #[trigger] is_child(t, i, c)) by {
            if own {
                assert(all =~= seq![j] + rest);
                assert(all[0] == j);
                if rest.contains(c) {
                    let k = rest.index_of(c);
                    assert(all[k + 1] == c);
                }
                if all.contains(c) && c > j {
                    let k = all.index_of(c);
                    assert(rest[k - 1] == c);
                }
            } else {
                assert(all == rest);
                if c == j && rest.contains(c) {
                    let k = rest.index_of(c);
                }
            }
        }
    }
}

/// The children of a node are those that the levels make its children, in order.
pub proof fn law_children(t: Seq<ItemView>, i: int)
    requires
        0 <= i < t.len(),
    ensures
        forall|c: int| syntax::kids_spec(t, i).contains(c) <==> #[trigger] is_child(t, i, c),
        forall|a: int, b: int|
            0 <= a < b < syntax::kids_spec(t, i).len() ==> #[trigger] syntax::kids_spec(t, i)[a]
                < #[trigger] syntax::kids_spec(t, i)[b],
        forall|a: int|
            0 <= a < syntax::kids_spec(t, i).len() ==> is_child(
                t,
                i,
                #[trigger] syntax::kids_spec(t, i)[a],
            ),
{
    lemma_kids_from(t, i, i + 1);
    let kids = syntax::kids_spec(t, i);
    assert forall|c: int| kids.contains(c) <==> #[trigger] is_child(t, i, c) by {
        if kids.contains(c) {
            let k = kids.index_of(c);
            assert(kids[k] == c);
        }
    }
    assert forall|a: int| 0 <= a < kids.len() implies is_child(t, i, #[trigger] kids[a]) by {
        assert(kids.contains(kids[a]));
    }
}

proof fn lemma_field_from(t: Seq<ItemView>, i: int, field: Seq<char>, k: int)
    requires
        0 <= i < t.len(),
        0 <= k <= syntax::kids_spec(t, i).len(),
        forall|a: int|
            0 <= a < k ==> t[#[trigger] syntax::kids_spec(t, i)[a]].field != Some(field),
    ensures
        match syntax::field_from(t, syntax::kids_spec(t, i), field, k) {
            Some(n) => fills(t, i, field, n),
            None => forall|n: int| !#[trigger] fills(t, i, field, n),
        },
    decreases syntax::kids_spec(t, i).len() - k,
{
    law_children(t, i);
    let kids = syntax::kids_spec(t, i);
    if k < kids.len() {
        if t[kids[k]].field == Some(field) {
            let n = kids[k];
            assert forall|j: int| j < n && #[trigger] is_child(t, i, j) implies t[j].field != Some(
                field,
            ) by {
                assert(kids.contains(j));
                let a = kids.index_of(j);
                if a >= k {
                    if a > k {
                        assert(kids[k] < kids[a]);
                    }
                }
            }
        } else {
            lemma_field_from(t, i, field, k + 1);
        }
    } else {
        assert forall|n: int| !#[trigger] fills(t, i, field, n) by {
            if fills(t, i, field, n) {
                assert(kids.contains(n));
                let a = kids.index_of(n);
                assert(kids[a] == n);
            }
        }
    }
}

/// A field is filled by the first child that says so, and by no other.
pub proof fn law_field(t: Seq<ItemView>, i: int, field: Seq<char>, n: int)
    requires
        0 <= i < t.len(),
    ensures
        fills(t, i, field, n) <==> syntax::field_spec(t, i, field) == Some(n),
{
    lemma_field_from(t, i, field, 0);
    match syntax::field_spec(t, i, field) {
        Some(m) => {
            if fills(t, i, field, n) && m != n {
                if m < n {
                    assert(is_child(t, i, m));
                } else {
                    assert(is_child(t, i, n));
                }
            }
        },
        None => {},
    }
}

/// The text of a node is what its bytes encode.
pub proof fn law_node_text(t: Seq<ItemView>, source: Seq<u8>, n: int, s: Seq<char>)
    ensures
        spells(t, source, n, s) <==> syntax::item_text_spec(t, source, n) == Some(s),
{
    if spells(t, source, n, s) {
        encode_utf8_valid_utf8(s);
        encode_utf8_decode_utf8(s);
    }
    if syntax::item_text_spec(t, source, n) == Some(s) {
        decode_utf8_encode_utf8(source.subrange(t[n].start, t[n].end));
    }
}

pub proof fn lemma_field_text(
    t: Seq<ItemView>,
    source: Seq<u8>,
    i: int,
    field: Seq<char>,
    s: Seq<char>,
)
    requires
        0 <= i < t.len(),
    ensures
        field_spells(t, source, i, field, s) <==> syntax::field_text_spec(t, source, i, field)
            == Some(s),
{
    if field_spells(t, source, i, field, s) {
        let n = choose|n: int| #[trigger] fills(t, i, field, n) && spells(t, source, n, s);
        law_field(t, i, field, n);
        law_node_text(t, source, n, s);
    }
    if syntax::field_text_spec(t, source, i, field) == Some(s) {
        let n = syntax::field_spec(t, i, field)->Some_0;
        law_field(t, i, field, n);
        law_node_text(t, source, n, s);
    }
}

pub proof fn lemma_has_child(t: Seq<ItemView>, i: int, kind: Seq<char>)
    requires
        0 <= i < t.len(),
    ensures
        has_child(t, i, kind) <==> syntax::has_kid_spec(t, i, kind),
{
    law_children(t, i);
    let kids = syntax::kids_spec(t, i);
    if has_child(t, i, kind) {
        let c = choose|c: int| #[trigger] is_child(t, i, c) && t[c].kind == kind;
        assert(kids.contains(c));
        let k = kids.index_of(c);
        assert(kids[k] == c);
    }
    if syntax::has_kid_spec(t, i, kind) {
        let k = choose|k: int| 0 <= k < kids.len() && t[#[trigger] kids[k]].kind == kind;
        assert(is_child(t, i, kids[k]));
    }
}

// ── What is found ───────────────────────────────────────────────────────────

/// Whether a chunk is that of a node: it covers the bytes of the node, and has a kind, a label, a
/// depth, a language and a visibility.
pub open spec fn is_chunk_of(
    c: ChunkView,
    t: Seq<ItemView>,
    i: int,
    kind: ChunkKind,
    label: Seq<char>,
    depth: int,
    lang: Seq<char>,
    visibility: Visibility,
) -> bool {
    &&& c.start == t[i].start
    &&& c.end == t[i].end
    &&& c.kind == kind
    &&& c.label == Some(label)
    &&& c.depth == depth
    &&& c.metadata.language == Some(lang)
    &&& c.metadata.visibility == Some(visibility)
}

/// Whether a node has a chunk among some.
pub open spec fn has_chunk(
    chunks: Seq<ChunkView>,
    t: Seq<ItemView>,
    i: int,
    kind: ChunkKind,
    label: Seq<char>,
    depth: int,
    lang: Seq<char>,
    visibility: Visibility,
) -> bool {
    exists|k: int|
        0 <= k < chunks.len() && is_chunk_of(
            #[trigger] chunks[k],
            t,
            i,
            kind,
            label,
            depth,
            lang,
            visibility,
        )
}

/// Whether a link to a target, at the start of a node, is among some.
pub open spec fn has_link(links: Seq<LinkView>, t: Seq<ItemView>, i: int, target: Seq<char>) -> bool {
    exists|k: int|
        0 <= k < links.len() && (#[trigger] links[k]).target == target && links[k].byte_offset
            == t[i].start
}

/// Whether what is found holds what was found before.
pub open spec fn grows(f: FoundView, g: FoundView) -> bool {
    &&& f.chunks.len() <= g.chunks.len()
    &&& forall|k: int| 0 <= k < f.chunks.len() ==> f.chunks[k] == #[trigger] g.chunks[k]
    &&& f.links.len() <= g.links.len()
    &&& forall|k: int| 0 <= k < f.links.len() ==> f.links[k] == #[trigger] g.links[k]
    &&& forall|x: Seq<char>| #[trigger] f.tags.contains(x) ==> g.tags.contains(x)
}

pub proof fn lemma_grows(f: FoundView, tag: Seq<char>, c: ChunkView, l: LinkView)
    ensures
        grows(f, f),
        grows(f, code::with_tag(f, tag)),
        code::with_tag(f, tag).tags.contains(tag),
        code::with_tag(f, tag).chunks == f.chunks,
        code::with_tag(f, tag).links == f.links,
        grows(f, code::with_chunk(f, c)),
        code::with_chunk(f, c).chunks.last() == c,
        grows(f, code::with_link(f, l)),
        code::with_link(f, l).links.last() == l,
{
    text::lemma_add_once(f.tags, tag);
}

pub proof fn lemma_kept(
    f: FoundView,
    g: FoundView,
    t: Seq<ItemView>,
    i: int,
    kind: ChunkKind,
    label: Seq<char>,
    depth: int,
    lang: Seq<char>,
    visibility: Visibility,
)
    requires
        grows(f, g),
        has_chunk(f.chunks, t, i, kind, label, depth, lang, visibility),
    ensures
        has_chunk(g.chunks, t, i, kind, label, depth, lang, visibility),
{
    let k = choose|k: int|
        0 <= k < f.chunks.len() && is_chunk_of(
            #[trigger] f.chunks[k],
            t,
            i,
            kind,
            label,
            depth,
            lang,
            visibility,
        );
    assert(g.chunks[k] == f.chunks[k]);
}

pub proof fn lemma_link_kept(
    f: FoundView,
    g: FoundView,
    t: Seq<ItemView>,
    i: int,
    target: Seq<char>,
)
    requires
        grows(f, g),
        has_link(f.links, t, i, target),
    ensures
        has_link(g.links, t, i, target),
{
    let k = choose|k: int|
        0 <= k < f.links.len() && (#[trigger] f.links[k]).target == target
            && f.links[k].byte_offset == t[i].start;
    assert(g.links[k] == f.links[k]);
}

// ── Python ──────────────────────────────────────────────────────────────────

/// The visibility that a Python name tells.
pub open spec fn py_seen(name: Seq<char>) -> Visibility {
    if name.len() > 0 && name[0] == '_' {
        Visibility::Private
    } else {
        Visibility::Public
    }
}

/// One more than a depth, up to the greatest that fits in eight bits.
pub open spec fn below(depth: int) -> int {
    if depth < 255 {
        depth + 1
    } else {
        255
    }
}

/// Whether a node stands in another, alone or decorated.
pub open spec fn stands_in(t: Seq<ItemView>, p: int, i: int) -> bool {
    is_child(t, p, i) || decorated_in(t, p, i)
}

/// Whether a node is decorated, and stands so in another.
pub open spec fn decorated_in(t: Seq<ItemView>, p: int, i: int) -> bool {
    exists|d: int| #[trigger]
        is_child(t, d, i) && t[d].kind == "decorated_definition"@ && is_child(t, p, d)
}

/// Whether a node stands decorated in the body of another.
pub open spec fn nested_in(t: Seq<ItemView>, q: int, i: int) -> bool {
    exists|b: int| #[trigger] fills(t, q, "body"@, b) && decorated_in(t, b, i)
}

/// Whether a node is a class with a name.
pub open spec fn is_py_class(t: Seq<ItemView>, c: int) -> bool {
    0 <= c < t.len() && t[c].kind == "class_definition"@ && exists|n: int| #[trigger]
        fills(t, c, "name"@, n)
}

/// Whether nodes are classes of a Python module, each decorated in the body of the one before. The
/// first stands in the module.
pub open spec fn py_classes(t: Seq<ItemView>, qs: Seq<int>) -> bool {
    &&& qs.len() > 0
    &&& stands_in(t, 0, qs[0])
    &&& forall|k: int| 0 <= k < qs.len() ==> is_py_class(t, #[trigger] qs[k])
    &&& forall|k: int| 0 < k < qs.len() ==> #[trigger] follows(t, qs, k)
}

/// Whether the `k`-th of some nodes stands decorated in the one before.
pub open spec fn follows(t: Seq<ItemView>, qs: Seq<int>, k: int) -> bool {
    nested_in(t, qs[k - 1], qs[k])
}

/// The depth of the last of some classes that lie in one another.
pub open spec fn depth_of(qs: Seq<int>) -> int {
    if qs.len() <= 255 {
        qs.len() - 1
    } else {
        255
    }
}

proof fn lemma_py_words()
    ensures
        "function_definition"@ != "decorated_definition"@,
        "function_definition"@ != "class_definition"@,
        "function_definition"@ != "import_statement"@,
        "function_definition"@ != "import_from_statement"@,
        "function_definition"@ != "expression_statement"@,
        "class_definition"@ != "decorated_definition"@,
        "class_definition"@ != "import_statement"@,
        "class_definition"@ != "import_from_statement"@,
        "class_definition"@ != "expression_statement"@,
        "import_statement"@ != "import_from_statement"@,
        "import_statement"@ != "expression_statement"@,
        "import_statement"@ != "decorated_definition"@,
        "import_from_statement"@ != "expression_statement"@,
        "import_from_statement"@ != "decorated_definition"@,
        "expression_statement"@ != "decorated_definition"@,
{
    reveal_strlit("function_definition");
    reveal_strlit("decorated_definition");
    reveal_strlit("class_definition");
    reveal_strlit("import_statement");
    reveal_strlit("import_from_statement");
    reveal_strlit("expression_statement");
    assert("class_definition"@[0] != "import_statement"@[0]);
    assert("expression_statement"@[0] != "decorated_definition"@[0]);
    assert("function_definition"@[0] != "import_from_statement"@[0]);
    assert("import_statement"@.len() != "import_from_statement"@.len());
}

proof fn lemma_py_function(
    t: Seq<ItemView>,
    source: Seq<u8>,
    lang: Seq<char>,
    depth: u8,
    i: int,
    f: FoundView,
)
    requires
        0 <= i < t.len(),
    ensures
        grows(f, code::py_function_spec(t, source, lang, depth, i, f)),
        forall|name: Seq<char>| #[trigger]
            field_spells(t, source, i, "name"@, name) ==> {
                let g = code::py_function_spec(t, source, lang, depth, i, f);
                &&& depth == 0 ==> has_chunk(
                    g.chunks,
                    t,
                    i,
                    ChunkKind::Function,
                    name,
                    0,
                    lang,
                    py_seen(name),
                ) && g.tags.contains("kind:function"@)
                &&& depth > 0 ==> has_chunk(
                    g.chunks,
                    t,
                    i,
                    ChunkKind::Method,
                    name,
                    depth as int,
                    lang,
                    py_seen(name),
                ) && g.tags.contains("kind:method"@)
                &&& has_child(t, i, "async"@) ==> g.tags.contains("async:true"@)
            },
{
    let g = code::py_function_spec(t, source, lang, depth, i, f);
    lemma_has_child(t, i, "async"@);
    if syntax::field_spec(t, i, "name"@) is Some {
        let name = syntax::or_empty(syntax::field_text_spec(t, source, i, "name"@));
        let c = g.chunks.last();
        let a = if syntax::has_kid_spec(t, i, "async"@) {
            code::with_tag(f, "async:true"@)
        } else {
            f
        };
        let tag = if depth > 0 {
            "kind:method"@
        } else {
            "kind:function"@
        };
        let b = code::with_tag(a, tag);
        let l = LinkView { target: tag, display: None, byte_offset: 0 };
        lemma_grows(f, "async:true"@, c, l);
        lemma_grows(a, tag, c, l);
        lemma_grows(b, tag, c, l);
        assert(g == code::with_chunk(b, c));
        assert(grows(a, b) && grows(b, g));
        assert(grows(f, g));
        assert forall|x: Seq<char>| #[trigger]
            field_spells(t, source, i, "name"@, x) implies x == name && g.chunks[g.chunks.len() - 1]
            == c by {
            lemma_field_text(t, source, i, "name"@, x);
        }
    } else {
        assert forall|x: Seq<char>| !#[trigger] field_spells(t, source, i, "name"@, x) by {
            lemma_field_text(t, source, i, "name"@, x);
        }
    }
}

proof fn lemma_conventions(t: Seq<ItemView>, source: Seq<u8>, i: int, k: int, f: FoundView, m: int)
    requires
        0 <= i < t.len(),
        0 <= k,
    ensures
        grows(f, code::conventions_from(t, source, i, k, f)),
        code::conventions_from(t, source, i, k, f).chunks == f.chunks,
        code::conventions_from(t, source, i, k, f).links == f.links,
        k <= m < syntax::kids_spec(t, i).len() && t[syntax::kids_spec(t, i)[m]].kind
            == "decorator"@ ==> match code::convention_spec(
            code::decorator_name_spec(
                syntax::or_empty(syntax::item_text_spec(t, source, syntax::kids_spec(t, i)[m])),
            ),
        ) {
            Some(tag) => code::conventions_from(t, source, i, k, f).tags.contains(tag),
            None => true,
        },
    decreases syntax::kids_spec(t, i).len() - k,
{
    let kids = syntax::kids_spec(t, i);
    if k < kids.len() {
        let name = code::decorator_name_spec(
            syntax::or_empty(syntax::item_text_spec(t, source, kids[k])),
        );
        let own = code::convention_spec(name);
        let g = if t[kids[k]].kind == "decorator"@ && own is Some {
            code::with_tag(f, own->Some_0)
        } else {
            f
        };
        if own is Some {
            text::lemma_add_once(f.tags, own->Some_0);
        }
        lemma_conventions(t, source, i, k + 1, g, m);
    }
}

proof fn lemma_py_class_grows(
    t: Seq<ItemView>,
    source: Seq<u8>,
    lang: Seq<char>,
    depth: u8,
    i: int,
    f: FoundView,
)
    requires
        0 <= i < t.len(),
    ensures
        grows(f, code::py_class_spec(t, source, lang, depth, i, f)),
    decreases t.len() - i, 0int, 0int,
{
    if syntax::field_spec(t, i, "name"@) is Some {
        let g = py_class_start(t, source, lang, depth, i, f);
        lemma_py_class_start(t, source, lang, depth, i, f);
        match syntax::field_spec(t, i, "body"@) {
            Some(b) if i < b < t.len() => {
                lemma_py_body_grows(t, source, lang, code::deeper_spec(depth), b, 0, g);
            },
            _ => {},
        }
    }
}

proof fn lemma_py_body_grows(
    t: Seq<ItemView>,
    source: Seq<u8>,
    lang: Seq<char>,
    depth: u8,
    i: int,
    k: int,
    f: FoundView,
)
    requires
        0 <= i < t.len(),
        0 <= k,
    ensures
        grows(f, code::py_body_from(t, source, lang, depth, i, k, f)),
    decreases t.len() - i, 1int, syntax::kids_spec(t, i).len() - k,
{
    let kids = syntax::kids_spec(t, i);
    if k < kids.len() && i < kids[k] < t.len() {
        let j = kids[k];
        if t[j].kind == "function_definition"@ {
            lemma_py_function(t, source, lang, depth, j, f);
            lemma_py_body_grows(
                t,
                source,
                lang,
                depth,
                i,
                k + 1,
                code::py_function_spec(t, source, lang, depth, j, f),
            );
        } else if t[j].kind == "decorated_definition"@ {
            lemma_py_decorated_grows(t, source, lang, depth, j, 0, f);
            lemma_py_body_grows(
                t,
                source,
                lang,
                depth,
                i,
                k + 1,
                code::py_decorated_from(t, source, lang, depth, j, 0, f),
            );
        } else {
            lemma_py_body_grows(t, source, lang, depth, i, k + 1, f);
        }
    }
}

proof fn lemma_py_decorated_grows(
    t: Seq<ItemView>,
    source: Seq<u8>,
    lang: Seq<char>,
    depth: u8,
    i: int,
    k: int,
    f: FoundView,
)
    requires
        0 <= i < t.len(),
        0 <= k,
    ensures
        grows(f, code::py_decorated_from(t, source, lang, depth, i, k, f)),
    decreases t.len() - i, 1int, syntax::kids_spec(t, i).len() - k,
{
    let kids = syntax::kids_spec(t, i);
    if k < kids.len() && i < kids[k] < t.len() {
        let j = kids[k];
        if t[j].kind == "function_definition"@ {
            let a = code::py_function_spec(t, source, lang, depth, j, f);
            lemma_py_function(t, source, lang, depth, j, f);
            lemma_conventions(t, source, i, 0, a, 0);
            lemma_py_decorated_grows(
                t,
                source,
                lang,
                depth,
                i,
                k + 1,
                code::conventions_from(t, source, i, 0, a),
            );
        } else if t[j].kind == "class_definition"@ {
            lemma_py_class_grows(t, source, lang, depth, j, f);
            lemma_py_decorated_grows(
                t,
                source,
                lang,
                depth,
                i,
                k + 1,
                code::py_class_spec(t, source, lang, depth, j, f),
            );
        } else {
            lemma_py_decorated_grows(t, source, lang, depth, i, k + 1, f);
        }
    }
}

/// What a class adds before its body is visited.
spec fn py_class_start(
    t: Seq<ItemView>,
    source: Seq<u8>,
    lang: Seq<char>,
    depth: u8,
    i: int,
    f: FoundView,
) -> FoundView {
    let name = syntax::or_empty(syntax::field_text_spec(t, source, i, "name"@));
    code::with_chunk(
        code::with_tag(f, "kind:class"@),
        code::chunk_spec(
            t,
            i,
            ChunkKind::Class,
            name,
            depth,
            None,
            lang,
            code::py_visibility_spec(name),
        ),
    )
}

proof fn lemma_py_class_start(
    t: Seq<ItemView>,
    source: Seq<u8>,
    lang: Seq<char>,
    depth: u8,
    i: int,
    f: FoundView,
)
    requires
        0 <= i < t.len(),
    ensures
        grows(f, py_class_start(t, source, lang, depth, i, f)),
        py_class_start(t, source, lang, depth, i, f).tags.contains("kind:class"@),
        forall|name: Seq<char>| #[trigger]
            field_spells(t, source, i, "name"@, name) ==> has_chunk(
                py_class_start(t, source, lang, depth, i, f).chunks,
                t,
                i,
                ChunkKind::Class,
                name,
                depth as int,
                lang,
                py_seen(name),
            ),
{
    let g = py_class_start(t, source, lang, depth, i, f);
    let a = code::with_tag(f, "kind:class"@);
    let l = LinkView { target: lang, display: None, byte_offset: 0 };
    lemma_grows(f, "kind:class"@, g.chunks.last(), l);
    lemma_grows(a, "kind:class"@, g.chunks.last(), l);
    assert forall|x: Seq<char>| #[trigger]
        field_spells(t, source, i, "name"@, x) implies has_chunk(
        g.chunks,
        t,
        i,
        ChunkKind::Class,
        x,
        depth as int,
        lang,
        py_seen(x),
    ) by {
        lemma_field_text(t, source, i, "name"@, x);
        assert(is_chunk_of(
            g.chunks[g.chunks.len() - 1],
            t,
            i,
            ChunkKind::Class,
            x,
            depth as int,
            lang,
            py_seen(x),
        ));
    }
}

/// What was found before a child of a class body is visited.
proof fn lemma_py_body_at(
    t: Seq<ItemView>,
    source: Seq<u8>,
    lang: Seq<char>,
    depth: u8,
    i: int,
    k: int,
    f: FoundView,
    c: int,
    m: int,
) -> (h: FoundView)
    requires
        0 <= i < t.len(),
        0 <= k <= m < syntax::kids_spec(t, i).len(),
        c == syntax::kids_spec(t, i)[m],
    ensures
        t[c].kind == "function_definition"@ ==> grows(
            code::py_function_spec(t, source, lang, depth, c, h),
            code::py_body_from(t, source, lang, depth, i, k, f),
        ),
        t[c].kind == "decorated_definition"@ ==> grows(
            code::py_decorated_from(t, source, lang, depth, c, 0, h),
            code::py_body_from(t, source, lang, depth, i, k, f),
        ),
    decreases syntax::kids_spec(t, i).len() - k,
{
    lemma_py_words();
    law_children(t, i);
    let kids = syntax::kids_spec(t, i);
    let j = kids[k];
    assert(is_child(t, i, j));
    let g = if t[j].kind == "function_definition"@ {
        code::py_function_spec(t, source, lang, depth, j, f)
    } else if t[j].kind == "decorated_definition"@ {
        code::py_decorated_from(t, source, lang, depth, j, 0, f)
    } else {
        f
    };
    assert(code::py_body_from(t, source, lang, depth, i, k, f) == code::py_body_from(
        t,
        source,
        lang,
        depth,
        i,
        k + 1,
        g,
    ));
    if k == m {
        lemma_py_body_grows(t, source, lang, depth, i, k + 1, g);
        f
    } else {
        lemma_py_body_at(t, source, lang, depth, i, k + 1, g, c, m)
    }
}

/// What was found before a child of a decorated definition is visited.
proof fn lemma_py_decorated_at(
    t: Seq<ItemView>,
    source: Seq<u8>,
    lang: Seq<char>,
    depth: u8,
    i: int,
    k: int,
    f: FoundView,
    c: int,
    m: int,
) -> (h: FoundView)
    requires
        0 <= i < t.len(),
        0 <= k <= m < syntax::kids_spec(t, i).len(),
        c == syntax::kids_spec(t, i)[m],
    ensures
        t[c].kind == "function_definition"@ ==> grows(
            code::conventions_from(
                t,
                source,
                i,
                0,
                code::py_function_spec(t, source, lang, depth, c, h),
            ),
            code::py_decorated_from(t, source, lang, depth, i, k, f),
        ),
        t[c].kind == "class_definition"@ ==> grows(
            code::py_class_spec(t, source, lang, depth, c, h),
            code::py_decorated_from(t, source, lang, depth, i, k, f),
        ),
    decreases syntax::kids_spec(t, i).len() - k,
{
    lemma_py_words();
    law_children(t, i);
    let kids = syntax::kids_spec(t, i);
    let j = kids[k];
    assert(is_child(t, i, j));
    let g = if t[j].kind == "function_definition"@ {
        code::conventions_from(
            t,
            source,
            i,
            0,
            code::py_function_spec(t, source, lang, depth, j, f),
        )
    } else if t[j].kind == "class_definition"@ {
        code::py_class_spec(t, source, lang, depth, j, f)
    } else {
        f
    };
    assert(code::py_decorated_from(t, source, lang, depth, i, k, f) == code::py_decorated_from(
        t,
        source,
        lang,
        depth,
        i,
        k + 1,
        g,
    ));
    if k == m {
        lemma_py_decorated_grows(t, source, lang, depth, i, k + 1, g);
        f
    } else {
        lemma_py_decorated_at(t, source, lang, depth, i, k + 1, g, c, m)
    }
}

/// What a statement of a module adds.
spec fn py_statement(
    t: Seq<ItemView>,
    source: Seq<u8>,
    lang: Seq<char>,
    j: int,
    f: FoundView,
) -> FoundView {
    let kind = t[j].kind;
    if kind == "function_definition"@ {
        code::py_function_spec(t, source, lang, 0, j, f)
    } else if kind == "class_definition"@ {
        code::py_class_spec(t, source, lang, 0, j, f)
    } else if kind == "import_statement"@ {
        code::py_import_spec(t, source, j, f)
    } else if kind == "import_from_statement"@ {
        code::py_import_from_spec(t, source, j, f)
    } else if kind == "expression_statement"@ {
        code::py_constants_from(t, source, lang, j, 0, f)
    } else if kind == "decorated_definition"@ {
        code::py_decorated_from(t, source, lang, 0, j, 0, f)
    } else {
        f
    }
}

proof fn lemma_py_constants(
    t: Seq<ItemView>,
    source: Seq<u8>,
    lang: Seq<char>,
    i: int,
    k: int,
    f: FoundView,
    m: int,
    name: Seq<char>,
)
    requires
        0 <= i < t.len(),
        0 <= k,
    ensures
        grows(f, code::py_constants_from(t, source, lang, i, k, f)),
        code::py_constants_from(t, source, lang, i, k, f).tags == f.tags,
        code::py_constants_from(t, source, lang, i, k, f).links == f.links,
        k <= m < syntax::kids_spec(t, i).len() && t[syntax::kids_spec(t, i)[m]].kind
            == "assignment"@ && syntax::field_text_spec(
            t,
            source,
            syntax::kids_spec(t, i)[m],
            "left"@,
        ) == Some(name) && code::is_constant_name(name) ==> has_chunk(
            code::py_constants_from(t, source, lang, i, k, f).chunks,
            t,
            i,
            ChunkKind::Constant,
            name,
            0,
            lang,
            py_seen(name),
        ),
    decreases syntax::kids_spec(t, i).len() - k,
{
    let kids = syntax::kids_spec(t, i);
    if k < kids.len() {
        let j = kids[k];
        let own = syntax::or_empty(syntax::field_text_spec(t, source, j, "left"@));
        let c = code::chunk_spec(
            t,
            i,
            ChunkKind::Constant,
            own,
            0,
            None,
            lang,
            code::py_visibility_spec(own),
        );
        let takes = t[j].kind == "assignment"@ && code::is_constant_name(own);
        let g = if takes {
            code::with_chunk(f, c)
        } else {
            f
        };
        lemma_py_constants(t, source, lang, i, k + 1, g, m, name);
        if takes && own == name {
            assert(g.chunks[g.chunks.len() - 1] == c);
            assert(has_chunk(
                g.chunks,
                t,
                i,
                ChunkKind::Constant,
                name,
                0,
                lang,
                py_seen(name),
            ));
            lemma_kept(
                g,
                code::py_constants_from(t, source, lang, i, k, f),
                t,
                i,
                ChunkKind::Constant,
                name,
                0,
                lang,
                py_seen(name),
            );
        }
    }
}

proof fn lemma_py_statement_grows(
    t: Seq<ItemView>,
    source: Seq<u8>,
    lang: Seq<char>,
    j: int,
    f: FoundView,
)
    requires
        0 <= j < t.len(),
    ensures
        grows(f, py_statement(t, source, lang, j, f)),
{
    lemma_py_function(t, source, lang, 0, j, f);
    lemma_py_class_grows(t, source, lang, 0, j, f);
    lemma_py_decorated_grows(t, source, lang, 0, j, 0, f);
    lemma_py_constants(t, source, lang, j, 0, f, 0, lang);
}

proof fn lemma_py_nodes_grows(
    t: Seq<ItemView>,
    source: Seq<u8>,
    lang: Seq<char>,
    k: int,
    f: FoundView,
)
    requires
        0 < t.len(),
        0 <= k,
    ensures
        grows(f, code::py_nodes_from(t, source, lang, 0, 0, k, f)),
    decreases syntax::kids_spec(t, 0).len() - k,
{
    law_children(t, 0);
    let kids = syntax::kids_spec(t, 0);
    if k < kids.len() {
        assert(is_child(t, 0, kids[k]));
        let g = py_statement(t, source, lang, kids[k], f);
        lemma_py_statement_grows(t, source, lang, kids[k], f);
        lemma_py_nodes_grows(t, source, lang, k + 1, g);
    }
}

/// What was found before a statement of a module is visited.
proof fn lemma_py_nodes_at(
    t: Seq<ItemView>,
    source: Seq<u8>,
    lang: Seq<char>,
    k: int,
    f: FoundView,
    c: int,
    m: int,
) -> (h: FoundView)
    requires
        0 < t.len(),
        0 <= k <= m < syntax::kids_spec(t, 0).len(),
        c == syntax::kids_spec(t, 0)[m],
    ensures
        grows(
            py_statement(t, source, lang, c, h),
            code::py_nodes_from(t, source, lang, 0, 0, k, f),
        ),
    decreases syntax::kids_spec(t, 0).len() - k,
{
    law_children(t, 0);
    let kids = syntax::kids_spec(t, 0);
    assert(is_child(t, 0, kids[k]));
    let g = py_statement(t, source, lang, kids[k], f);
    if k == m {
        lemma_py_nodes_grows(t, source, lang, k + 1, g);
        f
    } else {
        lemma_py_nodes_at(t, source, lang, k + 1, g, c, m)
    }
}

/// What is found in a Python file.
proof fn lemma_py_statement_found(t: Seq<ItemView>, source: Seq<u8>, path: Seq<char>, c: int) -> (h:
    FoundView)
    requires
        paths::extension_spec(path) == Some("py"@),
        is_child(t, 0, c),
    ensures
        grows(
            py_statement(t, source, "python"@, c, h),
            code::found_in(t, source, "python"@),
        ),
        code::language_of_extension(Some("py"@)) == "python"@,
{
    lemma_languages();
    law_children(t, 0);
    let kids = syntax::kids_spec(t, 0);
    assert(kids.contains(c));
    let m = kids.index_of(c);
    lemma_py_nodes_at(t, source, "python"@, 0, code::found_at_start("python"@), c, m)
}

/// The language of a file follows from its extension.
pub proof fn lemma_languages()
    ensures
        code::language_of_extension(Some("rs"@)) == "rust"@,
        code::language_of_extension(Some("ts"@)) == "typescript"@,
        code::language_of_extension(Some("tsx"@)) == "typescript"@,
        code::language_of_extension(Some("py"@)) == "python"@,
        code::language_of_extension(Some("js"@)) == "javascript"@,
        code::language_of_extension(Some("jsx"@)) == "javascript"@,
        code::language_of_extension(Some("go"@)) == "go"@,
        code::language_of_extension(Some("java"@)) == "java"@,
        code::language_of_extension(None) == "unknown"@,
        "python"@ != "rust"@,
        "python"@ != "typescript"@,
        "python"@ != "javascript"@,
        "rust"@ != "typescript"@,
        "rust"@ != "javascript"@,
{
    reveal_strlit("rs");
    reveal_strlit("ts");
    reveal_strlit("tsx");
    reveal_strlit("py");
    reveal_strlit("js");
    reveal_strlit("jsx");
    reveal_strlit("go");
    reveal_strlit("java");
    reveal_strlit("python");
    reveal_strlit("rust");
    reveal_strlit("typescript");
    reveal_strlit("javascript");
    assert("python"@.len() == 6 && "rust"@.len() == 4);
    assert("typescript"@.len() == 10 && "javascript"@.len() == 10);
    assert("rs"@[0] == 'r' && "ts"@[0] == 't' && "tsx"@.len() == 3 && "py"@[0] == 'p' && "js"@[0]
        == 'j' && "jsx"@[0] == 'j' && "go"@[0] == 'g');
}

/// What was found before a class that stands in the module is visited.
proof fn lemma_py_first_class(t: Seq<ItemView>, source: Seq<u8>, path: Seq<char>, c: int) -> (h:
    FoundView)
    requires
        paths::extension_spec(path) == Some("py"@),
        t[c].kind == "class_definition"@,
        stands_in(t, 0, c),
    ensures
        grows(
            code::py_class_spec(t, source, "python"@, 0, c, h),
            code::found_in(t, source, "python"@),
        ),
{
    lemma_py_words();
    if is_child(t, 0, c) {
        lemma_py_statement_found(t, source, path, c)
    } else {
        let d = choose|d: int| #[trigger]
            is_child(t, d, c) && t[d].kind == "decorated_definition"@ && is_child(t, 0, d);
        let h = lemma_py_statement_found(t, source, path, d);
        law_children(t, d);
        assert(syntax::kids_spec(t, d).contains(c));
        let m = syntax::kids_spec(t, d).index_of(c);
        let r = lemma_py_decorated_at(t, source, "python"@, 0, d, 0, h, c, m);
        lemma_grows_on(
            code::py_class_spec(t, source, "python"@, 0, c, r),
            code::py_decorated_from(t, source, "python"@, 0, d, 0, h),
            code::found_in(t, source, "python"@),
        );
        r
    }
}

/// What was found before a class that stands decorated in another is visited.
proof fn lemma_py_inner_class(
    t: Seq<ItemView>,
    source: Seq<u8>,
    depth: u8,
    q: int,
    c: int,
    h: FoundView,
) -> (r: FoundView)
    requires
        is_py_class(t, q),
        t[c].kind == "class_definition"@,
        nested_in(t, q, c),
    ensures
        grows(
            code::py_class_spec(t, source, "python"@, code::deeper_spec(depth), c, r),
            code::py_class_spec(t, source, "python"@, depth, q, h),
        ),
{
    lemma_py_words();
    let b = choose|b: int| #[trigger] fills(t, q, "body"@, b) && decorated_in(t, b, c);
    let d = choose|d: int| #[trigger]
        is_child(t, d, c) && t[d].kind == "decorated_definition"@ && is_child(t, b, d);
    let u = code::deeper_spec(depth);
    let r = lemma_py_in_body(t, source, depth, q, b, d, h);
    law_children(t, d);
    assert(syntax::kids_spec(t, d).contains(c));
    let m = syntax::kids_spec(t, d).index_of(c);
    let w = lemma_py_decorated_at(t, source, "python"@, u, d, 0, r, c, m);
    lemma_grows_on(
        code::py_class_spec(t, source, "python"@, u, c, w),
        code::py_decorated_from(t, source, "python"@, u, d, 0, r),
        code::py_class_spec(t, source, "python"@, depth, q, h),
    );
    w
}

pub proof fn lemma_grows_on(f: FoundView, g: FoundView, h: FoundView)
    requires
        grows(f, g),
        grows(g, h),
    ensures
        grows(f, h),
{
    assert forall|k: int| 0 <= k < f.chunks.len() implies f.chunks[k] == #[trigger] h.chunks[k] by {
        assert(f.chunks[k] == g.chunks[k]);
    }
    assert forall|k: int| 0 <= k < f.links.len() implies f.links[k] == #[trigger] h.links[k] by {
        assert(f.links[k] == g.links[k]);
    }
}

proof fn lemma_py_front(t: Seq<ItemView>, qs: Seq<int>)
    requires
        py_classes(t, qs),
        qs.len() > 1,
    ensures
        py_classes(t, qs.drop_last()),
        nested_in(t, qs.drop_last().last(), qs.last()),
        is_py_class(t, qs.drop_last().last()),
        is_py_class(t, qs.last()),
{
    let less = qs.drop_last();
    assert forall|k: int| 0 <= k < less.len() implies is_py_class(t, #[trigger] less[k]) by {
        assert(is_py_class(t, qs[k]));
    }
    assert forall|k: int| 0 < k < less.len() implies #[trigger] follows(t, less, k) by {
        assert(follows(t, qs, k));
    }
    assert(follows(t, qs, qs.len() - 1));
    assert(is_py_class(t, qs[qs.len() - 1 - 1]));
    assert(is_py_class(t, qs[qs.len() - 1]));
}

/// What was found before a class is visited.
proof fn lemma_py_class_found(
    t: Seq<ItemView>,
    source: Seq<u8>,
    path: Seq<char>,
    qs: Seq<int>,
) -> (h: FoundView)
    requires
        paths::extension_spec(path) == Some("py"@),
        py_classes(t, qs),
    ensures
        0 <= depth_of(qs) <= 255,
        grows(
            code::py_class_spec(t, source, "python"@, depth_of(qs) as u8, qs.last(), h),
            code::found_in(t, source, "python"@),
        ),
    decreases qs.len(),
{
    let c = qs.last();
    if qs.len() == 1 {
        assert(is_py_class(t, qs[0]));
        lemma_py_first_class(t, source, path, c)
    } else {
        let less = qs.drop_last();
        lemma_py_front(t, qs);
        let h = lemma_py_class_found(t, source, path, less);
        let r = lemma_py_inner_class(t, source, depth_of(less) as u8, less.last(), c, h);
        lemma_grows_on(
            code::py_class_spec(t, source, "python"@, depth_of(qs) as u8, c, r),
            code::py_class_spec(t, source, "python"@, depth_of(less) as u8, less.last(), h),
            code::found_in(t, source, "python"@),
        );
        r
    }
}

/// What was found before a child of the body of a class is visited.
proof fn lemma_py_in_body(
    t: Seq<ItemView>,
    source: Seq<u8>,
    depth: u8,
    q: int,
    b: int,
    d: int,
    h: FoundView,
) -> (r: FoundView)
    requires
        0 <= q < t.len(),
        exists|n: int| #[trigger] fills(t, q, "name"@, n),
        fills(t, q, "body"@, b),
        is_child(t, b, d),
    ensures
        t[d].kind == "function_definition"@ ==> grows(
            code::py_function_spec(t, source, "python"@, code::deeper_spec(depth), d, r),
            code::py_class_spec(t, source, "python"@, depth, q, h),
        ),
        t[d].kind == "decorated_definition"@ ==> grows(
            code::py_decorated_from(t, source, "python"@, code::deeper_spec(depth), d, 0, r),
            code::py_class_spec(t, source, "python"@, depth, q, h),
        ),
        code::deeper_spec(depth) == below(depth as int),
{
    let n = choose|n: int| #[trigger] fills(t, q, "name"@, n);
    law_field(t, q, "name"@, n);
    law_field(t, q, "body"@, b);
    law_children(t, b);
    let m = syntax::kids_spec(t, b).index_of(d);
    let g = py_class_start(t, source, "python"@, depth, q, h);
    lemma_py_body_at(t, source, "python"@, code::deeper_spec(depth), b, 0, g, d, m)
}

/// The chunks of a file in which something is found are those that are found.
pub proof fn lemma_outcome(t: Seq<ItemView>, source: Seq<u8>, path: Seq<char>)
    ensures
        ({
            let lang = code::language_of_extension(paths::extension_spec(path));
            let f = code::found_in(t, source, lang);
            let o = code::tree_outcome(t, source, path);
            &&& f.chunks.len() > 0 ==> o.chunks == f.chunks
            &&& o.tags == f.tags
            &&& o.links == f.links
        }),
{
}

/// Every function of a Python module has a chunk with its bytes and its name. The file is tagged
/// with it, and with `async` where one is asynchronous.
pub proof fn law_python_functions(
    t: Seq<ItemView>,
    source: Seq<u8>,
    path: Seq<char>,
    i: int,
    name: Seq<char>,
)
    requires
        paths::extension_spec(path) == Some("py"@),
        stands_in(t, 0, i),
        t[i].kind == "function_definition"@,
        field_spells(t, source, i, "name"@, name),
    ensures
        has_chunk(
            code::tree_outcome(t, source, path).chunks,
            t,
            i,
            ChunkKind::Function,
            name,
            0,
            "python"@,
            py_seen(name),
        ),
        code::tree_outcome(t, source, path).tags.contains("kind:function"@),
        has_child(t, i, "async"@) ==> code::tree_outcome(t, source, path).tags.contains(
            "async:true"@,
        ),
{
    lemma_py_words();
    lemma_languages();
    lemma_outcome(t, source, path);
    let all = code::found_in(t, source, "python"@);
    if is_child(t, 0, i) {
        let h = lemma_py_statement_found(t, source, path, i);
        lemma_py_function(t, source, "python"@, 0, i, h);
        let g = code::py_function_spec(t, source, "python"@, 0, i, h);
        lemma_kept(g, all, t, i, ChunkKind::Function, name, 0, "python"@, py_seen(name));
        assert(g.tags.contains("kind:function"@));
    } else {
        let d = choose|d: int| #[trigger]
            is_child(t, d, i) && t[d].kind == "decorated_definition"@ && is_child(t, 0, d);
        let h = lemma_py_statement_found(t, source, path, d);
        law_children(t, d);
        let m = syntax::kids_spec(t, d).index_of(i);
        let r = lemma_py_decorated_at(t, source, "python"@, 0, d, 0, h, i, m);
        lemma_py_function(t, source, "python"@, 0, i, r);
        let g = code::py_function_spec(t, source, "python"@, 0, i, r);
        lemma_conventions(t, source, d, 0, g, 0);
        assert(grows(g, all));
        lemma_kept(g, all, t, i, ChunkKind::Function, name, 0, "python"@, py_seen(name));
        assert(g.tags.contains("kind:function"@));
    }
}

/// Every class of a Python file has a chunk with its bytes and its name.
pub proof fn law_python_classes(
    t: Seq<ItemView>,
    source: Seq<u8>,
    path: Seq<char>,
    qs: Seq<int>,
    name: Seq<char>,
)
    requires
        paths::extension_spec(path) == Some("py"@),
        py_classes(t, qs),
        field_spells(t, source, qs.last(), "name"@, name),
    ensures
        has_chunk(
            code::tree_outcome(t, source, path).chunks,
            t,
            qs.last(),
            ChunkKind::Class,
            name,
            depth_of(qs),
            "python"@,
            py_seen(name),
        ),
        code::tree_outcome(t, source, path).tags.contains("kind:class"@),
{
    let c = qs.last();
    let depth = depth_of(qs);
    assert(is_py_class(t, qs[qs.len() - 1]));
    lemma_languages();
    lemma_outcome(t, source, path);
    let all = code::found_in(t, source, "python"@);
    let h = lemma_py_class_found(t, source, path, qs);
    let d = depth as u8;
    let g = py_class_start(t, source, "python"@, d, c, h);
    lemma_py_class_start(t, source, "python"@, d, c, h);
    lemma_field_text(t, source, c, "name"@, name);
    let r = code::py_class_spec(t, source, "python"@, d, c, h);
    match syntax::field_spec(t, c, "body"@) {
        Some(b) if c < b < t.len() => {
            lemma_py_body_grows(t, source, "python"@, code::deeper_spec(d), b, 0, g);
        },
        _ => {},
    }
    assert(grows(g, r));
    lemma_kept(g, r, t, c, ChunkKind::Class, name, depth, "python"@, py_seen(name));
    lemma_kept(r, all, t, c, ChunkKind::Class, name, depth, "python"@, py_seen(name));
    assert(g.tags.contains("kind:class"@) && r.tags.contains("kind:class"@));
}

/// Every method of a Python class, decorated or not, has a chunk with its bytes and its name, one
/// level below its class.
pub proof fn law_python_methods(
    t: Seq<ItemView>,
    source: Seq<u8>,
    path: Seq<char>,
    qs: Seq<int>,
    b: int,
    i: int,
    name: Seq<char>,
)
    requires
        paths::extension_spec(path) == Some("py"@),
        py_classes(t, qs),
        fills(t, qs.last(), "body"@, b),
        stands_in(t, b, i),
        t[i].kind == "function_definition"@,
        field_spells(t, source, i, "name"@, name),
    ensures
        has_chunk(
            code::tree_outcome(t, source, path).chunks,
            t,
            i,
            ChunkKind::Method,
            name,
            below(depth_of(qs)),
            "python"@,
            py_seen(name),
        ),
        code::tree_outcome(t, source, path).tags.contains("kind:method"@),
        has_child(t, i, "async"@) ==> code::tree_outcome(t, source, path).tags.contains(
            "async:true"@,
        ),
{
    let c = qs.last();
    let depth = depth_of(qs);
    assert(is_py_class(t, qs[qs.len() - 1]));
    lemma_py_words();
    lemma_languages();
    lemma_outcome(t, source, path);
    let all = code::found_in(t, source, "python"@);
    let lang = "python"@;
    let h = lemma_py_class_found(t, source, path, qs);
    let u = code::deeper_spec(depth as u8);
    let k = ChunkKind::Method;
    let n = below(depth);
    if is_child(t, b, i) {
        let r = lemma_py_in_body(t, source, depth as u8, c, b, i, h);
        let g = code::py_function_spec(t, source, lang, u, i, r);
        lemma_py_function(t, source, lang, u, i, r);
        assert(grows(g, all));
        lemma_kept(g, all, t, i, k, name, n, lang, py_seen(name));
        assert(g.tags.contains("kind:method"@));
    } else {
        let d = choose|d: int| #[trigger]
            is_child(t, d, i) && t[d].kind == "decorated_definition"@ && is_child(t, b, d);
        let q = lemma_py_in_body(t, source, depth as u8, c, b, d, h);
        law_children(t, d);
        let m = syntax::kids_spec(t, d).index_of(i);
        let r = lemma_py_decorated_at(t, source, lang, u, d, 0, q, i, m);
        let g = code::py_function_spec(t, source, lang, u, i, r);
        lemma_py_function(t, source, lang, u, i, r);
        lemma_conventions(t, source, d, 0, g, 0);
        let w = code::conventions_from(t, source, d, 0, g);
        assert(grows(w, code::py_decorated_from(t, source, lang, u, d, 0, q)));
        assert(grows(g, all));
        lemma_kept(g, all, t, i, k, name, n, lang, py_seen(name));
        assert(g.tags.contains("kind:method"@));
    }
}

/// What a decorator tells of the function below it.
pub open spec fn is_convention(name: Seq<char>, tag: Seq<char>) -> bool {
    ||| name.len() >= 14 && name.take(14) == "pytest.fixture"@ && tag == "convention:fixture"@
    ||| name.len() >= 9 && name.take(9) == "app.route"@ && tag == "convention:route"@
    ||| name.len() >= 7 && name.take(7) == "router."@ && tag == "convention:route"@
    ||| name == "staticmethod"@ && tag == "convention:staticmethod"@
    ||| name == "classmethod"@ && tag == "convention:classmethod"@
    ||| name == "property"@ && tag == "convention:property"@
}

proof fn lemma_convention(name: Seq<char>, tag: Seq<char>)
    requires
        is_convention(name, tag),
    ensures
        code::convention_spec(name) == Some(tag),
{
    reveal_strlit("pytest.fixture");
    reveal_strlit("app.route");
    reveal_strlit("router.");
    reveal_strlit("staticmethod");
    reveal_strlit("classmethod");
    reveal_strlit("property");
    assert("pytest.fixture"@.len() == 14 && "pytest.fixture"@[0] == 'p' && "pytest.fixture"@[1]
        == 'y');
    assert("app.route"@.len() == 9 && "app.route"@[0] == 'a');
    assert("router."@.len() == 7 && "router."@[0] == 'r');
    assert("staticmethod"@[0] == 's' && "classmethod"@[0] == 'c');
    assert("property"@[0] == 'p' && "property"@[1] == 'r' && "property"@.len() == 8);
    if name.len() >= 14 {
        assert(name.subrange(0, 14) =~= name.take(14));
        assert(name.take(14)[0] == name[0] && name.subrange(0, 14)[0] == name[0]);
    }
    if name.len() >= 9 {
        assert(name.subrange(0, 9) =~= name.take(9));
        assert(name.take(9)[0] == name[0] && name.subrange(0, 9)[0] == name[0]);
    }
    if name.len() >= 7 {
        assert(name.subrange(0, 7) =~= name.take(7));
        assert(name.take(7)[0] == name[0] && name.subrange(0, 7)[0] == name[0]);
    }
}

/// The tag that a decorator tells is among those of what is found below it.
proof fn lemma_decorator(
    t: Seq<ItemView>,
    source: Seq<u8>,
    d: int,
    e: int,
    name: Seq<char>,
    tag: Seq<char>,
    f: FoundView,
)
    requires
        is_child(t, d, e),
        t[e].kind == "decorator"@,
        text_laws::is_trimmed(name),
        name.len() > 0 && name[0] != '@',
        spells(t, source, e, seq!['@'] + name),
        is_convention(name, tag),
    ensures
        code::conventions_from(t, source, d, 0, f).tags.contains(tag),
        grows(f, code::conventions_from(t, source, d, 0, f)),
{
    law_children(t, d);
    assert(syntax::kids_spec(t, d).contains(e));
    let m = syntax::kids_spec(t, d).index_of(e);
    let s = seq!['@'] + name;
    law_node_text(t, source, e, s);
    assert(s[0] == '@' && s.last() == name.last());
    text_laws::law_white_space('@');
    text_laws::lemma_trimmed(s);
    assert(s.subrange(1, s.len() as int) =~= name);
    assert(code::without_at(name) == name);
    assert(code::without_at(s) == name);
    lemma_convention(name, tag);
    lemma_conventions(t, source, d, 0, f, m);
}

/// The decorators of a function of a Python module tell the conventions that the file is tagged with.
pub proof fn law_python_conventions(
    t: Seq<ItemView>,
    source: Seq<u8>,
    path: Seq<char>,
    d: int,
    i: int,
    e: int,
    name: Seq<char>,
    tag: Seq<char>,
)
    requires
        paths::extension_spec(path) == Some("py"@),
        is_child(t, 0, d),
        t[d].kind == "decorated_definition"@,
        is_child(t, d, i),
        t[i].kind == "function_definition"@,
        is_child(t, d, e),
        t[e].kind == "decorator"@,
        text_laws::is_trimmed(name),
        name.len() > 0 && name[0] != '@',
        spells(t, source, e, seq!['@'] + name),
        is_convention(name, tag),
    ensures
        code::tree_outcome(t, source, path).tags.contains(tag),
{
    lemma_py_words();
    lemma_languages();
    lemma_outcome(t, source, path);
    let lang = "python"@;
    let h = lemma_py_statement_found(t, source, path, d);
    law_children(t, d);
    let m = syntax::kids_spec(t, d).index_of(i);
    let r = lemma_py_decorated_at(t, source, lang, 0, d, 0, h, i, m);
    lemma_decorator(
        t,
        source,
        d,
        e,
        name,
        tag,
        code::py_function_spec(t, source, lang, 0, i, r),
    );
    assert(code::py_decorated_from(t, source, lang, 0, d, 0, h).tags.contains(tag));
}

/// The decorators of a method of a Python class tell the conventions that the file is tagged with.
pub proof fn law_python_method_conventions(
    t: Seq<ItemView>,
    source: Seq<u8>,
    path: Seq<char>,
    qs: Seq<int>,
    b: int,
    d: int,
    i: int,
    e: int,
    name: Seq<char>,
    tag: Seq<char>,
)
    requires
        paths::extension_spec(path) == Some("py"@),
        py_classes(t, qs),
        fills(t, qs.last(), "body"@, b),
        is_child(t, b, d),
        t[d].kind == "decorated_definition"@,
        is_child(t, d, i),
        t[i].kind == "function_definition"@,
        is_child(t, d, e),
        t[e].kind == "decorator"@,
        text_laws::is_trimmed(name),
        name.len() > 0 && name[0] != '@',
        spells(t, source, e, seq!['@'] + name),
        is_convention(name, tag),
    ensures
        code::tree_outcome(t, source, path).tags.contains(tag),
{
    assert(is_py_class(t, qs[qs.len() - 1]));
    lemma_py_words();
    lemma_languages();
    lemma_outcome(t, source, path);
    let lang = "python"@;
    let c = qs.last();
    let depth = depth_of(qs);
    let h = lemma_py_class_found(t, source, path, qs);
    let u = code::deeper_spec(depth as u8);
    let q = lemma_py_in_body(t, source, depth as u8, c, b, d, h);
    law_children(t, d);
    let m = syntax::kids_spec(t, d).index_of(i);
    let r = lemma_py_decorated_at(t, source, lang, u, d, 0, q, i, m);
    lemma_decorator(
        t,
        source,
        d,
        e,
        name,
        tag,
        code::py_function_spec(t, source, lang, u, i, r),
    );
    assert(code::py_decorated_from(t, source, lang, u, d, 0, q).tags.contains(tag));
    assert(code::py_class_spec(t, source, lang, depth as u8, c, h).tags.contains(tag));
}

/// A name of upper case letters, digits and underscores to which a Python module assigns has a chunk
/// with the bytes of the statement.
pub proof fn law_python_constants(
    t: Seq<ItemView>,
    source: Seq<u8>,
    path: Seq<char>,
    i: int,
    a: int,
    name: Seq<char>,
)
    requires
        paths::extension_spec(path) == Some("py"@),
        is_child(t, 0, i),
        t[i].kind == "expression_statement"@,
        is_child(t, i, a),
        t[a].kind == "assignment"@,
        field_spells(t, source, a, "left"@, name),
        name.len() > 0,
        forall|k: int|
            0 <= k < name.len() ==> text::uppercase(#[trigger] name[k]) || name[k] == '_' || '0'
                <= name[k] <= '9',
    ensures
        has_chunk(
            code::tree_outcome(t, source, path).chunks,
            t,
            i,
            ChunkKind::Constant,
            name,
            0,
            "python"@,
            py_seen(name),
        ),
{
    lemma_py_words();
    lemma_languages();
    lemma_outcome(t, source, path);
    let lang = "python"@;
    let h = lemma_py_statement_found(t, source, path, i);
    law_children(t, i);
    assert(syntax::kids_spec(t, i).contains(a));
    let m = syntax::kids_spec(t, i).index_of(a);
    lemma_field_text(t, source, a, "left"@, name);
    lemma_py_constants(t, source, lang, i, 0, h, m, name);
    let g = code::py_constants_from(t, source, lang, i, 0, h);
    let all = code::found_in(t, source, lang);
    assert(g == py_statement(t, source, lang, i, h));
    lemma_kept(g, all, t, i, ChunkKind::Constant, name, 0, lang, py_seen(name));
}

proof fn lemma_top_name(name: Seq<char>, rest: Seq<char>)
    requires
        !name.contains('.'),
        rest.len() == 0 || rest[0] == '.',
    ensures
        code::before_spec(name + rest, '.') == name,
{
    let s = name + rest;
    let n = name.len() as int;
    let e = text::next_sep(s, '.', 0);
    text::lemma_next_sep(s, '.', 0);
    if e < n {
        assert(s[e] == name[e]);
        assert(name.contains(name[e]));
    }
    if rest.len() > 0 {
        assert(s[n] == rest[0]);
    }
    assert(s.take(n) =~= name);
}

/// Every `import` of a Python module is a link to the package it begins with.
pub proof fn law_python_imports(
    t: Seq<ItemView>,
    source: Seq<u8>,
    path: Seq<char>,
    i: int,
    d: int,
    name: Seq<char>,
    rest: Seq<char>,
)
    requires
        paths::extension_spec(path) == Some("py"@),
        is_child(t, 0, i),
        t[i].kind == "import_statement"@,
        is_child(t, i, d),
        t[d].kind == "dotted_name"@,
        forall|c: int| #[trigger] is_child(t, i, c) && c < d ==> t[c].kind != "dotted_name"@,
        spells(t, source, d, name + rest),
        name.len() > 0,
        !name.contains('.'),
        rest.len() == 0 || rest[0] == '.',
    ensures
        has_link(code::tree_outcome(t, source, path).links, t, i, name),
{
    lemma_py_words();
    lemma_languages();
    lemma_outcome(t, source, path);
    let lang = "python"@;
    let h = lemma_py_statement_found(t, source, path, i);
    law_children(t, i);
    assert(syntax::kids_spec(t, i).contains(d));
    lemma_first_of_kind(t, i, "dotted_name"@, d, 0);
    law_node_text(t, source, d, name + rest);
    lemma_top_name(name, rest);
    let g = py_statement(t, source, lang, i, h);
    assert(g == code::with_link(h, code::import_spec(t, source, i, name)));
    assert(g.links[g.links.len() - 1].target == name);
    lemma_link_kept(g, code::found_in(t, source, lang), t, i, name);
}

/// The first child of a kind is the one that is found.
proof fn lemma_first_of_kind(t: Seq<ItemView>, i: int, kind: Seq<char>, d: int, k: int)
    requires
        is_child(t, i, d),
        t[d].kind == kind,
        forall|c: int| #[trigger] is_child(t, i, c) && c < d ==> t[c].kind != kind,
        0 <= k <= syntax::kids_spec(t, i).index_of(d),
    ensures
        code::kid_of_kind_from(t, i, kind, k) == Some(d),
    decreases syntax::kids_spec(t, i).len() - k,
{
    law_children(t, i);
    let kids = syntax::kids_spec(t, i);
    assert(kids.contains(d));
    let m = kids.index_of(d);
    assert(is_child(t, i, kids[k]));
    if k < m {
        assert(kids[k] < kids[m]);
        lemma_first_of_kind(t, i, kind, d, k + 1);
    }
}

/// Every `from .. import` of a Python module is a link to the package it begins with.
pub proof fn law_python_imports_from(
    t: Seq<ItemView>,
    source: Seq<u8>,
    path: Seq<char>,
    i: int,
    name: Seq<char>,
    rest: Seq<char>,
)
    requires
        paths::extension_spec(path) == Some("py"@),
        is_child(t, 0, i),
        t[i].kind == "import_from_statement"@,
        field_spells(t, source, i, "module_name"@, name + rest),
        name.len() > 0,
        !name.contains('.'),
        rest.len() == 0 || rest[0] == '.',
    ensures
        has_link(code::tree_outcome(t, source, path).links, t, i, name),
{
    lemma_py_words();
    lemma_languages();
    lemma_outcome(t, source, path);
    let lang = "python"@;
    let h = lemma_py_statement_found(t, source, path, i);
    lemma_field_text(t, source, i, "module_name"@, name + rest);
    lemma_top_name(name, rest);
    let g = py_statement(t, source, lang, i, h);
    assert(name.contains(name[0]));
    assert(g == code::with_link(h, code::import_spec(t, source, i, name)));
    assert(g.links[g.links.len() - 1].target == name);
    lemma_link_kept(g, code::found_in(t, source, lang), t, i, name);
}

/// A Python file is tagged with its language.
pub proof fn law_python_language(t: Seq<ItemView>, source: Seq<u8>, path: Seq<char>)
    requires
        paths::extension_spec(path) == Some("py"@),
    ensures
        code::tree_outcome(t, source, path).tags.contains("lang:"@ + "python"@),
{
    lemma_languages();
    let f = code::found_at_start("python"@);
    assert(f.tags[0] == "lang:"@ + "python"@);
    assert(f.tags.contains("lang:"@ + "python"@));
    if t.len() > 0 {
        lemma_py_nodes_grows(t, source, "python"@, 0, f);
    }
    assert(code::found_in(t, source, "python"@).tags.contains("lang:"@ + "python"@));
}

} // verus!
