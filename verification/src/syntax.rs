//! Concrete syntax trees of source files.
//!
//! A tree is a list of its nodes in the order in which they open, each with its level: the root
//! has level 0, and the children of a node are one level deeper.

use tree_sitter::Tree;
use vstd::prelude::*;
use vstd::utf8::*;

use crate::text;
use crate::types;

verus! {

/// A grammar that source files can be parsed with.
#[derive(Clone, Copy, Debug, PartialEq, Eq, Structural)]
pub enum Grammar {
    Rust,
    TypeScript,
    Tsx,
    Python,
}

/// A node of a syntax tree.
#[derive(Debug)]
pub struct SyntaxItem {
    /// The kind of node, as the grammar names it.
    pub kind: String,
    /// The field of its parent that the node fills.
    pub field: Option<String>,
    /// First byte of the node.
    pub start: usize,
    /// First byte behind the node.
    pub end: usize,
    /// How many nodes enclose it.
    pub level: u32,
}

/// A node with its strings taken as texts.
#[verifier::ext_equal]
pub struct ItemView {
    pub kind: Seq<char>,
    pub field: Option<Seq<char>>,
    pub start: int,
    pub end: int,
    pub level: int,
}

impl View for SyntaxItem {
    type V = ItemView;

    open spec fn view(&self) -> ItemView {
        ItemView {
            kind: self.kind@,
            field: types::text_of(self.field),
            start: self.start as int,
            end: self.end as int,
            level: self.level as int,
        }
    }
}

/// What parsing gives, with strings taken as texts.
pub open spec fn items_outcome(r: Result<Vec<SyntaxItem>, String>) -> Result<
    Seq<ItemView>,
    Seq<char>,
> {
    match r {
        Ok(v) => Ok(types::views(v@)),
        Err(e) => Err(e@),
    }
}

/// The syntax tree of a file under a grammar, or why there is none.
pub uninterp spec fn syntax_items(grammar: Grammar, content: Seq<u8>) -> Result<
    Seq<ItemView>,
    Seq<char>,
>;

/// `tree_sitter::Tree`, a syntax tree.
#[verifier::external_type_specification]
#[verifier::external_body]
pub struct ExTree(tree_sitter::Tree);

/// The nodes of a tree in the order in which they open.
pub uninterp spec fn tree_items(tree: Tree) -> Seq<ItemView>;

/// What parsing gives, with the tree taken by its nodes and the message as a text.
pub open spec fn tree_outcome(r: Result<Tree, String>) -> Result<Seq<ItemView>, Seq<char>> {
    match r {
        Ok(t) => Ok(tree_items(t)),
        Err(e) => Err(e@),
    }
}

/// Calls `tree_sitter::Parser::parse` with one of the grammars. The tree depends on the grammar
/// and the bytes alone.
#[verifier::external_body]
fn parse_source(grammar: Grammar, content: &[u8]) -> (r: Result<Tree, String>)
    ensures
        tree_outcome(r) == syntax_items(grammar, content@),
{
    let language: tree_sitter::Language = match grammar {
        Grammar::Rust => tree_sitter_rust::LANGUAGE.into(),
        Grammar::TypeScript => tree_sitter_typescript::LANGUAGE_TYPESCRIPT.into(),
        Grammar::Tsx => tree_sitter_typescript::LANGUAGE_TSX.into(),
        Grammar::Python => tree_sitter_python::LANGUAGE.into(),
    };
    let mut parser = tree_sitter::Parser::new();
    parser.set_language(&language).map_err(|e| format!("tree-sitter language error: {e}"))?;
    parser.parse(content, None).ok_or("tree-sitter parse failed".to_string())
}

/// Walks a tree with `tree_sitter::TreeCursor`: the nodes in the order in which they open, each
/// with its kind, the field it fills, its bytes and its depth.
#[verifier::external_body]
fn list_items(tree: &Tree) -> (r: Vec<SyntaxItem>)
    ensures
        types::views(r@) == tree_items(*tree),
{
    let (mut c, mut items) = (tree.walk(), Vec::new());
    loop {
        let (kind, field) = (c.node().kind().to_string(), c.field_name().map(str::to_string));
        let bytes = c.node().byte_range();
        items.push(SyntaxItem { kind, field, start: bytes.start, end: bytes.end, level: c.depth() });
        if c.goto_first_child() { continue; }
        while !c.goto_next_sibling() {
            if !c.goto_parent() { return items; }
        }
    }
}

/// The nodes of a file under a grammar, or why there are none.
pub(crate) fn parse_syntax(grammar: Grammar, content: &[u8]) -> (r: Result<Vec<SyntaxItem>, String>)
    ensures
        items_outcome(r) == syntax_items(grammar, content@),
{
    match parse_source(grammar, content) {
        Ok(tree) => Ok(list_items(&tree)),
        Err(e) => Err(e),
    }
}

/// The nodes from `j` on that are children of the node at `i`.
pub open spec fn kids_from(t: Seq<ItemView>, i: int, j: int) -> Seq<int>
    decreases t.len() - j,
{
    if j < 0 || j >= t.len() || t[j].level <= t[i].level {
        Seq::empty()
    } else if t[j].level == t[i].level + 1 {
        seq![j] + kids_from(t, i, j + 1)
    } else {
        kids_from(t, i, j + 1)
    }
}

/// The children of the node at `i`, in order.
pub open spec fn kids_spec(t: Seq<ItemView>, i: int) -> Seq<int> {
    kids_from(t, i, i + 1)
}

/// The first of some nodes, from `k` on, that fills a field of its parent.
pub open spec fn field_from(t: Seq<ItemView>, kids: Seq<int>, field: Seq<char>, k: int) -> Option<
    int,
>
    decreases kids.len() - k,
{
    if k < 0 || k >= kids.len() {
        None
    } else if t[kids[k]].field == Some(field) {
        Some(kids[k])
    } else {
        field_from(t, kids, field, k + 1)
    }
}

/// The first child of the node at `i` that fills a field.
pub open spec fn field_spec(t: Seq<ItemView>, i: int, field: Seq<char>) -> Option<int> {
    field_from(t, kids_spec(t, i), field, 0)
}

/// Whether a child of the node at `i` has a kind.
pub open spec fn has_kid_spec(t: Seq<ItemView>, i: int, kind: Seq<char>) -> bool {
    exists|k: int| 0 <= k < kids_spec(t, i).len() && t[#[trigger] kids_spec(t, i)[k]].kind == kind
}

/// Children come behind their parent.
pub proof fn lemma_kids_from(t: Seq<ItemView>, i: int, j: int)
    requires
        0 <= i < j,
    ensures
        forall|k: int|
            0 <= k < kids_from(t, i, j).len() ==> j <= #[trigger] kids_from(t, i, j)[k] < t.len(),
        forall|k: int|
            0 <= k < kids_from(t, i, j).len() ==> t[#[trigger] kids_from(t, i, j)[k]].level
                == t[i].level + 1,
    decreases t.len() - j,
{
    if j < t.len() && t[j].level > t[i].level {
        lemma_kids_from(t, i, j + 1);
    }
}

/// Positions taken as integers.
pub open spec fn positions(v: Seq<usize>) -> Seq<int> {
    Seq::new(v.len(), |i: int| v[i] as int)
}

/// The children of the node at `i`, in order.
pub fn kids(t: &Vec<SyntaxItem>, i: usize) -> (r: Vec<usize>)
    requires
        i < t@.len(),
    ensures
        positions(r@) == kids_spec(types::views(t@), i as int),
        forall|k: int| 0 <= k < r@.len() ==> i < #[trigger] r@[k] < t@.len(),
{
    let ghost tv = types::views(t@);
    let mut out: Vec<usize> = Vec::new();
    let n = t.len();
    let mut j: usize = i + 1;
    assert(positions(out@) + kids_from(tv, i as int, j as int) =~= kids_spec(tv, i as int));
    while j < n
        invariant
            n == t@.len(),
            tv == types::views(t@),
            i < j <= t@.len(),
            positions(out@) + kids_from(tv, i as int, j as int) == kids_spec(tv, i as int),
            forall|k: int| 0 <= k < out@.len() ==> i < #[trigger] out@[k] < t@.len(),
        ensures
            positions(out@) == kids_spec(tv, i as int),
            forall|k: int| 0 <= k < out@.len() ==> i < #[trigger] out@[k] < t@.len(),
        decreases t@.len() - j,
    {
        assert(tv[j as int] == t@[j as int]@ && tv[i as int] == t@[i as int]@);
        if t[j].level <= t[i].level {
            assert(positions(out@) + Seq::<int>::empty() =~= positions(out@));
            break;
        }
        let ghost rest = kids_from(tv, i as int, j + 1);
        if t[j].level - t[i].level == 1 {
            proof {
                assert(positions(out@.push(j)) + rest =~= positions(out@) + (seq![j as int] + rest));
            }
            out.push(j);
        }
        j += 1;
        proof {
            if j == t@.len() {
                assert(positions(out@) + Seq::<int>::empty() =~= positions(out@));
            }
        }
    }
    assert(positions(out@) =~= kids_spec(tv, i as int));
    out
}

/// Whether the node at `i` has a kind.
pub fn is_kind(t: &Vec<SyntaxItem>, i: usize, kind: &str) -> (r: bool)
    requires
        i < t@.len(),
    ensures
        r == (types::views(t@)[i as int].kind == kind@),
{
    text::str_eq(t[i].kind.as_str(), kind)
}

/// The first child of the node at `i` that fills a field.
pub fn field(t: &Vec<SyntaxItem>, i: usize, name: &str) -> (r: Option<usize>)
    requires
        i < t@.len(),
    ensures
        match r {
            Some(j) => field_spec(types::views(t@), i as int, name@) == Some(j as int) && i < j
                < t@.len(),
            None => field_spec(types::views(t@), i as int, name@) is None,
        },
{
    let ghost tv = types::views(t@);
    let ks = kids(t, i);
    let ghost kv = kids_spec(tv, i as int);
    let mut k: usize = 0;
    while k < ks.len()
        invariant
            tv == types::views(t@),
            kv == positions(ks@),
            kv == kids_spec(tv, i as int),
            i < t@.len(),
            k <= ks@.len(),
            forall|m: int| 0 <= m < ks@.len() ==> i < #[trigger] ks@[m] < t@.len(),
            field_from(tv, kv, name@, 0) == field_from(tv, kv, name@, k as int),
        decreases ks@.len() - k,
    {
        let j = ks[k];
        assert(kv[k as int] == j);
        assert(tv[j as int] == t@[j as int]@);
        let found = match &t[j].field {
            Some(f) => text::str_eq(f.as_str(), name),
            None => false,
        };
        if found {
            return Some(j);
        }
        k += 1;
    }
    None
}

/// Whether a child of the node at `i` has a kind.
pub fn has_kid(t: &Vec<SyntaxItem>, i: usize, kind: &str) -> (r: bool)
    requires
        i < t@.len(),
    ensures
        r == has_kid_spec(types::views(t@), i as int, kind@),
{
    let ghost tv = types::views(t@);
    let ks = kids(t, i);
    let ghost kv = kids_spec(tv, i as int);
    let mut k: usize = 0;
    while k < ks.len()
        invariant
            tv == types::views(t@),
            kv == positions(ks@),
            kv == kids_spec(tv, i as int),
            k <= ks@.len(),
            forall|m: int| 0 <= m < ks@.len() ==> i < #[trigger] ks@[m] < t@.len(),
            forall|m: int| 0 <= m < k ==> tv[#[trigger] kv[m]].kind != kind@,
        decreases ks@.len() - k,
    {
        assert(kv[k as int] == ks@[k as int]);
        if is_kind(t, ks[k], kind) {
            assert(tv[kids_spec(tv, i as int)[k as int]].kind == kind@);
            return true;
        }
        k += 1;
    }
    false
}

/// The text of a range of bytes, where they encode one.
pub open spec fn text_at(source: Seq<u8>, start: int, end: int) -> Option<Seq<char>> {
    if 0 <= start <= end <= source.len() && valid_utf8(source.subrange(start, end)) {
        Some(decode_utf8(source.subrange(start, end)))
    } else {
        None
    }
}

/// The text of a range of bytes, where they encode one.
pub fn text_in(source: &[u8], start: usize, end: usize) -> (r: Option<String>)
    ensures
        types::text_of(r) == text_at(source@, start as int, end as int),
{
    if start > end || end > source.len() {
        return None;
    }
    let bytes = vstd::slice::slice_subrange(source, start, end);
    match text::utf8_str(bytes) {
        Some(s) => {
            proof {
                encode_utf8_decode_utf8(s@);
            }
            Some(s.to_owned())
        },
        None => None,
    }
}

/// A text, or none where there is not one.
pub open spec fn or_empty(o: Option<Seq<char>>) -> Seq<char> {
    match o {
        Some(s) => s,
        None => Seq::empty(),
    }
}

/// The text of the node at `i`.
pub open spec fn item_text_spec(t: Seq<ItemView>, source: Seq<u8>, i: int) -> Option<Seq<char>> {
    text_at(source, t[i].start, t[i].end)
}

/// The text of the node at `i`.
pub fn item_text(t: &Vec<SyntaxItem>, source: &[u8], i: usize) -> (r: Option<String>)
    requires
        i < t@.len(),
    ensures
        types::text_of(r) == item_text_spec(types::views(t@), source@, i as int),
{
    text_in(source, t[i].start, t[i].end)
}

/// The text of the node at `i`; empty where there is none.
pub fn item_text_or_empty(t: &Vec<SyntaxItem>, source: &[u8], i: usize) -> (r: String)
    requires
        i < t@.len(),
    ensures
        r@ == or_empty(item_text_spec(types::views(t@), source@, i as int)),
{
    match item_text(t, source, i) {
        Some(s) => s,
        None => {
            let s = String::new();
            assert(s@ =~= Seq::<char>::empty());
            s
        },
    }
}

/// The text of the first child of the node at `i` that fills a field.
pub open spec fn field_text_spec(
    t: Seq<ItemView>,
    source: Seq<u8>,
    i: int,
    field: Seq<char>,
) -> Option<Seq<char>> {
    match field_spec(t, i, field) {
        Some(j) => item_text_spec(t, source, j),
        None => None,
    }
}

/// The text of the first child of the node at `i` that fills a field.
pub fn field_text(t: &Vec<SyntaxItem>, source: &[u8], i: usize, name: &str) -> (r: Option<String>)
    requires
        i < t@.len(),
    ensures
        types::text_of(r) == field_text_spec(types::views(t@), source@, i as int, name@),
{
    match field(t, i, name) {
        Some(j) => item_text(t, source, j),
        None => None,
    }
}

} // verus!
