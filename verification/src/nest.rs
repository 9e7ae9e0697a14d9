//! Chunk pointers, and their arrangement into a table of contents.

use vstd::prelude::*;

use crate::text;
use crate::types;
use crate::types::ChunkId;

verus! {

/// A pointer to a chunk within a document.
#[derive(Debug)]
pub struct ChunkPointer {
    pub chunk_id: ChunkId,
    pub kind: String,
    pub byte_start: u32,
    pub byte_end: u32,
    pub label: Option<String>,
    /// Heading level for documents, scope depth for code. Frontmatter and body chunks have
    /// depth 0.
    pub depth: u8,
    /// Pointers to the chunks below this one. Filled by [`nest_chunks`].
    pub children: Vec<ChunkPointer>,
}

/// A chunk pointer with its strings taken as texts.
#[verifier::ext_equal]
pub struct PointerView {
    pub chunk_id: ChunkId,
    pub kind: Seq<char>,
    pub byte_start: u32,
    pub byte_end: u32,
    pub label: Option<Seq<char>>,
    pub depth: u8,
    pub children: Seq<PointerView>,
}

impl ChunkPointer {
    /// The pointer with its strings taken as texts.
    pub open spec fn model(&self) -> PointerView
        decreases self,
    {
        PointerView {
            chunk_id: self.chunk_id,
            kind: self.kind@,
            byte_start: self.byte_start,
            byte_end: self.byte_end,
            label: types::text_of(self.label),
            depth: self.depth,
            children: Seq::new(
                self.children@.len(),
                |i: int|
                    if 0 <= i < self.children@.len() {
                        self.children@[i].model()
                    } else {
                        empty_pointer()
                    },
            ),
        }
    }
}

/// A pointer to nothing.
pub open spec fn empty_pointer() -> PointerView {
    PointerView {
        chunk_id: 0,
        kind: Seq::empty(),
        byte_start: 0,
        byte_end: 0,
        label: None,
        depth: 0,
        children: Seq::empty(),
    }
}

/// The models of pointers.
pub open spec fn models(s: Seq<ChunkPointer>) -> Seq<PointerView> {
    Seq::new(s.len(), |i: int| s[i].model())
}

// ── Order ───────────────────────────────────────────────────────────────────

/// A pointer put into a list before the first one that does not start earlier.
pub open spec fn put_in_order(x: PointerView, s: Seq<PointerView>) -> Seq<PointerView>
    decreases s.len(),
{
    if s.len() == 0 || x.byte_start <= s[0].byte_start {
        seq![x] + s
    } else {
        seq![s[0]] + put_in_order(x, s.subrange(1, s.len() as int))
    }
}

/// The pointers in ascending order of their start. Those with equal starts keep their order.
pub open spec fn in_order(s: Seq<PointerView>) -> Seq<PointerView>
    decreases s.len(),
{
    if s.len() == 0 {
        s
    } else {
        put_in_order(s[0], in_order(s.subrange(1, s.len() as int)))
    }
}

proof fn lemma_put_in_order(x: PointerView, s: Seq<PointerView>)
    requires
        forall|i: int, j: int|
            0 <= i < j < s.len() ==> (#[trigger] s[i]).byte_start <= (#[trigger] s[j]).byte_start,
    ensures
        put_in_order(x, s).len() == s.len() + 1,
        put_in_order(x, s).to_multiset() == s.to_multiset().insert(x),
        put_in_order(x, s)[0] == x || (s.len() > 0 && put_in_order(x, s)[0] == s[0] && s[0].byte_start
            <= x.byte_start),
        forall|i: int, j: int|
            0 <= i < j < put_in_order(x, s).len() ==> (#[trigger] put_in_order(x, s)[i]).byte_start
                <= (#[trigger] put_in_order(x, s)[j]).byte_start,
        forall|k: u32|
            with_start(put_in_order(x, s), k) == if x.byte_start == k {
                seq![x] + with_start(s, k)
            } else {
                with_start(s, k)
            },
    decreases s.len(),
{
    broadcast use vstd::seq_lib::group_to_multiset_ensures;

    let r = put_in_order(x, s);
    if s.len() == 0 || x.byte_start <= s[0].byte_start {
        assert(r =~= s.insert(0, x));
        assert forall|k: u32| with_start(r, k) == (if x.byte_start == k {
            seq![x] + with_start(s, k)
        } else {
            with_start(s, k)
        }) by {
            assert(r.subrange(1, r.len() as int) =~= s);
            assert(Seq::<PointerView>::empty() + with_start(s, k) =~= with_start(s, k));
        }
    } else {
        let t = s.subrange(1, s.len() as int);
        let q = put_in_order(x, t);
        lemma_put_in_order(x, t);
        assert(s =~= t.insert(0, s[0]));
        assert(r =~= q.insert(0, s[0]));
        assert(r.to_multiset() =~= s.to_multiset().insert(x));
        assert forall|i: int, j: int| 0 <= i < j < r.len() implies (#[trigger] r[i]).byte_start <= (
        #[trigger] r[j]).byte_start by {
            assert(r[j] == q[j - 1]);
            if i > 0 {
                assert(r[i] == q[i - 1]);
            } else if j > 1 {
                assert(q[0].byte_start <= q[j - 1].byte_start);
                assert(s[0].byte_start <= q[0].byte_start) by {
                    if t.len() > 0 {
                        assert(s[0].byte_start <= s[1].byte_start);
                        assert(t[0] == s[1]);
                    }
                }
            } else {
                if t.len() > 0 {
                    assert(s[0].byte_start <= s[1].byte_start);
                    assert(t[0] == s[1]);
                }
            }
        }
        assert forall|k: u32| with_start(r, k) == (if x.byte_start == k {
            seq![x] + with_start(s, k)
        } else {
            with_start(s, k)
        }) by {
            assert(r.subrange(1, r.len() as int) =~= q);
            assert(with_start(q, k) == (if x.byte_start == k {
                seq![x] + with_start(t, k)
            } else {
                with_start(t, k)
            }));
            if x.byte_start == k {
                assert(with_start(r, k) =~= seq![x] + with_start(s, k));
            } else {
                assert(with_start(r, k) =~= with_start(s, k));
            }
        }
    }
}

/// The pointers that start at `k`, in the order of the list.
pub open spec fn with_start(s: Seq<PointerView>, k: u32) -> Seq<PointerView>
    decreases s.len(),
{
    if s.len() == 0 {
        Seq::empty()
    } else {
        let rest = with_start(s.subrange(1, s.len() as int), k);
        if s[0].byte_start == k {
            seq![s[0]] + rest
        } else {
            rest
        }
    }
}

/// Ordering keeps the pointers, ascends by start, and keeps the order of those that start
/// together.
pub proof fn law_in_order(s: Seq<PointerView>)
    ensures
        in_order(s).len() == s.len(),
        in_order(s).to_multiset() == s.to_multiset(),
        forall|i: int, j: int|
            0 <= i < j < in_order(s).len() ==> (#[trigger] in_order(s)[i]).byte_start <= (
            #[trigger] in_order(s)[j]).byte_start,
        forall|k: u32| with_start(in_order(s), k) == with_start(s, k),
    decreases s.len(),
{
    broadcast use vstd::seq_lib::group_to_multiset_ensures;

    if s.len() > 0 {
        let t = s.subrange(1, s.len() as int);
        law_in_order(t);
        lemma_put_in_order(s[0], in_order(t));
        assert(s =~= t.insert(0, s[0]));
        assert(in_order(s).to_multiset() =~= s.to_multiset());
        assert forall|k: u32| with_start(in_order(s), k) == with_start(s, k) by {
            assert(with_start(in_order(t), k) == with_start(t, k));
        }
    }
}

// ── Nesting ─────────────────────────────────────────────────────────────────

/// Whether a chunk of this kind may have others below it. Frontmatter and body hold prose, not
/// scopes.
pub open spec fn can_parent(kind: Seq<char>) -> bool {
    kind != "Frontmatter"@ && kind != "Body"@
}

/// A pointer with further children.
pub open spec fn adopt(p: PointerView, kids: Seq<PointerView>) -> PointerView {
    PointerView { children: p.children + kids, ..p }
}

/// The trees that the pointers from `i` on form below a scope of depth `d`, and the position of
/// the first pointer that lies outside the scope. A pointer opens a scope of its own depth for
/// those behind it, if it may have children.
pub open spec fn forest(c: Seq<PointerView>, i: int, d: int) -> (Seq<PointerView>, int)
    decreases c.len() - i,
{
    if i < 0 || i >= c.len() || c[i].depth <= d {
        (Seq::empty(), i)
    } else if can_parent(c[i].kind) {
        let (kids, j) = forest(c, i + 1, c[i].depth as int);
        if i < j <= c.len() {
            let (rest, k) = forest(c, j, d);
            (seq![adopt(c[i], kids)] + rest, k)
        } else {
            (Seq::empty(), i)
        }
    } else {
        let (rest, k) = forest(c, i + 1, d);
        (seq![c[i]] + rest, k)
    }
}

/// The table of contents of a flat list of pointers.
pub open spec fn nest_spec(flat: Seq<PointerView>) -> Seq<PointerView> {
    forest(in_order(flat), 0, -1).0
}

proof fn lemma_forest_bounds(c: Seq<PointerView>, i: int, d: int)
    requires
        0 <= i <= c.len(),
    ensures
        i <= forest(c, i, d).1 <= c.len(),
        forest(c, i, d).1 < c.len() ==> c[forest(c, i, d).1].depth <= d,
    decreases c.len() - i,
{
    if i < c.len() && c[i].depth > d {
        if can_parent(c[i].kind) {
            lemma_forest_bounds(c, i + 1, c[i].depth as int);
            lemma_forest_bounds(c, forest(c, i + 1, c[i].depth as int).1, d);
        } else {
            lemma_forest_bounds(c, i + 1, d);
        }
    }
}

/// A list with one more tree, below the last open scope or at the top.
pub open spec fn attach(
    roots: Seq<PointerView>,
    open: Seq<PointerView>,
    x: PointerView,
) -> (Seq<PointerView>, Seq<PointerView>) {
    if open.len() == 0 {
        (roots.push(x), open)
    } else {
        (roots, open.update(open.len() - 1, adopt(open.last(), seq![x])))
    }
}

/// The trees that come out where `roots` are finished, `open` are the scopes still open, from
/// the outermost inwards, and the pointers from `i` on are yet to come.
spec fn finish(
    c: Seq<PointerView>,
    roots: Seq<PointerView>,
    open: Seq<PointerView>,
    i: int,
) -> Seq<PointerView>
    decreases open.len(),
{
    if open.len() == 0 {
        roots + forest(c, i, -1).0
    } else {
        let (kids, j) = forest(c, i, open.last().depth as int);
        let (r, o) = attach(roots, open.drop_last(), adopt(open.last(), kids));
        finish(c, r, o, j)
    }
}

/// Taking in a pointer that may have children opens its scope.
proof fn lemma_finish_open(
    c: Seq<PointerView>,
    roots: Seq<PointerView>,
    open: Seq<PointerView>,
    i: int,
)
    requires
        0 <= i < c.len(),
        open.len() > 0 ==> c[i].depth > open.last().depth,
        can_parent(c[i].kind),
    ensures
        finish(c, roots, open, i) == finish(c, roots, open.push(c[i]), i + 1),
{
    reveal_with_fuel(finish, 3);
    let (kids, j) = forest(c, i + 1, c[i].depth as int);
    lemma_forest_bounds(c, i + 1, c[i].depth as int);
    let node = adopt(c[i], kids);
    assert(open.push(c[i]).drop_last() =~= open);
    if open.len() == 0 {
        let rest = forest(c, j, -1).0;
        assert(roots + (seq![node] + rest) =~= roots.push(node) + rest);
    } else {
        let d = open.last().depth as int;
        let (rest, k) = forest(c, j, d);
        let o2 = open.update(open.len() - 1, adopt(open.last(), seq![node]));
        assert(o2.drop_last() =~= open.drop_last());
        assert(adopt(open.last(), seq![node] + rest) =~= adopt(o2.last(), rest)) by {
            assert(open.last().children + (seq![node] + rest) =~= (open.last().children
                + seq![node]) + rest);
        }
    }
}

/// Taking in a pointer that may not have children attaches it.
proof fn lemma_finish_leaf(
    c: Seq<PointerView>,
    roots: Seq<PointerView>,
    open: Seq<PointerView>,
    i: int,
)
    requires
        0 <= i < c.len(),
        open.len() > 0 ==> c[i].depth > open.last().depth,
        !can_parent(c[i].kind),
    ensures
        finish(c, roots, open, i) == finish(
            c,
            attach(roots, open, c[i]).0,
            attach(roots, open, c[i]).1,
            i + 1,
        ),
{
    if open.len() == 0 {
        let rest = forest(c, i + 1, -1).0;
        assert(roots + (seq![c[i]] + rest) =~= roots.push(c[i]) + rest);
    } else {
        let d = open.last().depth as int;
        let (rest, k) = forest(c, i + 1, d);
        let o2 = open.update(open.len() - 1, adopt(open.last(), seq![c[i]]));
        assert(o2.drop_last() =~= open.drop_last());
        assert(adopt(open.last(), seq![c[i]] + rest) =~= adopt(o2.last(), rest)) by {
            assert(open.last().children + (seq![c[i]] + rest) =~= (open.last().children
                + seq![c[i]]) + rest);
        }
    }
}

/// Closing a scope that nothing further lies in changes nothing.
proof fn lemma_finish_close(
    c: Seq<PointerView>,
    roots: Seq<PointerView>,
    open: Seq<PointerView>,
    i: int,
)
    requires
        0 <= i <= c.len(),
        open.len() > 0,
        i < c.len() ==> c[i].depth <= open.last().depth,
    ensures
        finish(c, roots, open, i) == finish(
            c,
            attach(roots, open.drop_last(), open.last()).0,
            attach(roots, open.drop_last(), open.last()).1,
            i,
        ),
{
    assert(forest(c, i, open.last().depth as int) == (Seq::<PointerView>::empty(), i));
    assert(adopt(open.last(), Seq::empty()) =~= open.last()) by {
        assert(open.last().children + Seq::<PointerView>::empty() =~= open.last().children);
    }
}

/// Puts a tree below the last open scope, or at the top.
fn attach_tree(roots: &mut Vec<ChunkPointer>, open: &mut Vec<ChunkPointer>, x: ChunkPointer)
    ensures
        (models(final(roots)@), models(final(open)@)) == attach(
            models(old(roots)@),
            models(old(open)@),
            x.model(),
        ),
        final(open)@.len() == old(open)@.len(),
{
    let ghost r0 = roots@;
    let ghost o0 = open@;
    match open.pop() {
        Some(top) => {
            let mut parent = top;
            let ghost before = parent.model();
            let ghost kids = parent.children@;
            parent.children.push(x);
            proof {
                assert(parent.model() =~= adopt(before, seq![x.model()])) by {
                    assert(parent.model().children =~= before.children + seq![x.model()]);
                }
            }
            open.push(parent);
            proof {
                assert(models(open@) =~= models(o0).update(
                    o0.len() - 1,
                    adopt(models(o0).last(), seq![x.model()]),
                ));
            }
        },
        None => {
            roots.push(x);
            proof {
                assert(models(roots@) =~= models(r0).push(x.model()));
            }
        },
    }
}

/// Closes the last open scope.
fn close_scope(roots: &mut Vec<ChunkPointer>, open: &mut Vec<ChunkPointer>)
    requires
        old(open)@.len() > 0,
    ensures
        (models(final(roots)@), models(final(open)@)) == attach(
            models(old(roots)@),
            models(old(open)@).drop_last(),
            models(old(open)@).last(),
        ),
        final(open)@.len() == old(open)@.len() - 1,
{
    let ghost o0 = open@;
    match open.pop() {
        Some(top) => {
            proof {
                assert(models(open@) =~= models(o0).drop_last());
            }
            attach_tree(roots, open, top);
        },
        None => {},
    }
}

/// The pointers in ascending order of their start, stably.
fn sort_by_start(flat: Vec<ChunkPointer>) -> (r: Vec<ChunkPointer>)
    ensures
        models(r@) == in_order(models(flat@)),
{
    let ghost all = models(flat@);
    let mut rest = flat;
    let mut out: Vec<ChunkPointer> = Vec::new();
    proof {
        assert(all.subrange(all.len() as int, all.len() as int) =~= Seq::<PointerView>::empty());
        assert(models(out@) =~= Seq::<PointerView>::empty());
    }
    while rest.len() > 0
        invariant
            rest@.len() <= all.len(),
            models(rest@) == all.take(rest@.len() as int),
            models(out@) == in_order(all.subrange(rest@.len() as int, all.len() as int)),
        decreases rest@.len(),
    {
        let ghost n = rest@.len() - 1;
        let ghost before = models(out@);
        match rest.pop() {
            Some(x) => {
                proof {
                    assert(all.take(n + 1)[n] == x.model());
                    assert(models(rest@) =~= all.take(n));
                    let t = all.subrange(n, all.len() as int);
                    assert(t.subrange(1, t.len() as int) =~= all.subrange(n + 1, all.len() as int));
                    assert(t[0] == x.model());
                }
                insert_by_start(&mut out, x);
            },
            None => {},
        }
    }
    proof {
        assert(all.subrange(0, all.len() as int) =~= all);
    }
    out
}

/// Puts a pointer before the first one that does not start earlier.
fn insert_by_start(out: &mut Vec<ChunkPointer>, x: ChunkPointer)
    ensures
        models(final(out)@) == put_in_order(x.model(), models(old(out)@)),
{
    let ghost s = models(out@);
    let ghost o0 = out@;
    let mut pos: usize = 0;
    proof {
        assert(s.subrange(0, s.len() as int) =~= s);
        assert(s.take(0) + put_in_order(x.model(), s) =~= put_in_order(x.model(), s));
    }
    while pos < out.len() && out[pos].byte_start < x.byte_start
        invariant
            pos <= out@.len(),
            out@ == o0,
            s == models(o0),
            put_in_order(x.model(), s) == s.take(pos as int) + put_in_order(
                x.model(),
                s.subrange(pos as int, s.len() as int),
            ),
        decreases out@.len() - pos,
    {
        proof {
            let t = s.subrange(pos as int, s.len() as int);
            assert(t[0] == out@[pos as int].model());
            assert(t.subrange(1, t.len() as int) =~= s.subrange(pos + 1, s.len() as int));
            assert(s.take(pos as int) + put_in_order(x.model(), t) =~= s.take(pos + 1)
                + put_in_order(x.model(), s.subrange(pos + 1, s.len() as int)));
        }
        pos += 1;
    }
    proof {
        let t = s.subrange(pos as int, s.len() as int);
        if pos < o0.len() {
            assert(t[0] == o0[pos as int].model());
        }
        assert(put_in_order(x.model(), t) == seq![x.model()] + t);
        assert(s.take(pos as int) + (seq![x.model()] + t) =~= s.insert(pos as int, x.model()));
    }
    out.insert(pos, x);
    proof {
        assert(models(out@) =~= s.insert(pos as int, x.model()));
    }
}

/// Arrange a flat list of pointers into a table of contents.
///
/// The pointers are first put in order of their start. Each then belongs to the nearest earlier
/// pointer that is strictly shallower, may have children, and has not been closed by a pointer
/// as shallow as itself in between; without one it is a root.
pub fn nest_chunks(flat: Vec<ChunkPointer>) -> (r: Vec<ChunkPointer>)
    ensures
        models(r@) == nest_spec(models(flat@)),
{
    let ghost c = in_order(models(flat@));
    let mut rest = sort_by_start(flat);
    rest = reversed(rest);
    let mut roots: Vec<ChunkPointer> = Vec::new();
    let mut open: Vec<ChunkPointer> = Vec::new();
    let ghost mut i: int = 0;
    proof {
        assert(models(roots@) =~= Seq::<PointerView>::empty());
        assert(models(open@) =~= Seq::<PointerView>::empty());
        assert(Seq::<PointerView>::empty() + forest(c, 0, -1).0 =~= forest(c, 0, -1).0);
    }
    while rest.len() > 0
        invariant
            0 <= i <= c.len(),
            rest@.len() == c.len() - i,
            forall|k: int|
                0 <= k < rest@.len() ==> (#[trigger] rest@[k]).model() == c[c.len() - 1 - k],
            finish(c, models(roots@), models(open@), i) == forest(c, 0, -1).0,
        decreases rest@.len(),
    {
        match rest.pop() {
            Some(chunk) => {
                assert(chunk.model() == c[i]);
                while open.len() > 0 && open[open.len() - 1].depth >= chunk.depth
                    invariant
                        0 <= i < c.len(),
                        chunk.model() == c[i],
                        finish(c, models(roots@), models(open@), i) == forest(c, 0, -1).0,
                    decreases open@.len(),
                {
                    proof {
                        assert(models(open@).last() == open@[open@.len() - 1].model());
                        lemma_finish_close(c, models(roots@), models(open@), i);
                    }
                    close_scope(&mut roots, &mut open);
                }
                proof {
                    if open@.len() > 0 {
                        assert(models(open@).last() == open@[open@.len() - 1].model());
                    }
                }
                if !text::str_eq(chunk.kind.as_str(), "Frontmatter") && !text::str_eq(
                    chunk.kind.as_str(),
                    "Body",
                ) {
                    let ghost o0 = open@;
                    proof {
                        lemma_finish_open(c, models(roots@), models(open@), i);
                    }
                    open.push(chunk);
                    proof {
                        assert(models(open@) =~= models(o0).push(c[i]));
                    }
                } else {
                    proof {
                        lemma_finish_leaf(c, models(roots@), models(open@), i);
                    }
                    attach_tree(&mut roots, &mut open, chunk);
                }
                proof {
                    i = i + 1;
                }
            },
            None => {},
        }
    }
    while open.len() > 0
        invariant
            i == c.len(),
            finish(c, models(roots@), models(open@), i) == forest(c, 0, -1).0,
        decreases open@.len(),
    {
        proof {
            lemma_finish_close(c, models(roots@), models(open@), i);
        }
        close_scope(&mut roots, &mut open);
    }
    proof {
        assert(models(roots@) + forest(c, i, -1).0 =~= models(roots@));
    }
    roots
}

/// The pointers in reverse.
fn reversed(v: Vec<ChunkPointer>) -> (r: Vec<ChunkPointer>)
    ensures
        r@ == v@.reverse(),
{
    let ghost all = v@;
    let mut rest = v;
    let mut out: Vec<ChunkPointer> = Vec::new();
    while rest.len() > 0
        invariant
            rest@.len() <= all.len(),
            rest@ == all.take(rest@.len() as int),
            out@ == all.reverse().take(all.len() - rest@.len()),
        decreases rest@.len(),
    {
        let ghost n = rest@.len() - 1;
        match rest.pop() {
            Some(x) => {
                proof {
                    assert(all.reverse()[all.len() - 1 - n] == x);
                }
                out.push(x);
                proof {
                    assert(rest@ =~= all.take(n));
                    assert(out@ =~= all.reverse().take(all.len() - n));
                }
            },
            None => {},
        }
    }
    proof {
        assert(all.reverse().take(all.len() as int) =~= all.reverse());
    }
    out
}

// ── Laws ────────────────────────────────────────────────────────────────────

/// A pointer without its children.
pub open spec fn bare(p: PointerView) -> PointerView {
    PointerView { children: Seq::empty(), ..p }
}

/// The pointers of a tree, each before those below it.
pub open spec fn preorder(p: PointerView) -> Seq<PointerView>
    decreases p,
{
    seq![bare(p)] + preorder_all(p.children)
}

/// The pointers of trees, each before those below it.
pub open spec fn preorder_all(s: Seq<PointerView>) -> Seq<PointerView>
    decreases s,
{
    if s.len() == 0 {
        Seq::empty()
    } else {
        preorder(s[0]) + preorder_all(s.subrange(1, s.len() as int))
    }
}

/// Whether every pointer of a tree is deeper than the one above it, and only those that may have
/// children do.
pub open spec fn well_nested(p: PointerView) -> bool
    decreases p,
{
    &&& p.children.len() > 0 ==> can_parent(p.kind)
    &&& forall|i: int|
        #![trigger p.children[i]]
        0 <= i < p.children.len() ==> p.children[i].depth > p.depth && well_nested(p.children[i])
}

proof fn lemma_forest_laws(c: Seq<PointerView>, i: int, d: int)
    requires
        0 <= i <= c.len(),
        forall|k: int| 0 <= k < c.len() ==> (#[trigger] c[k]).children.len() == 0,
    ensures
        preorder_all(forest(c, i, d).0) == c.subrange(i, forest(c, i, d).1),
        forall|k: int|
            #![trigger forest(c, i, d).0[k]]
            0 <= k < forest(c, i, d).0.len() ==> forest(c, i, d).0[k].depth > d && well_nested(
                forest(c, i, d).0[k],
            ),
    decreases c.len() - i,
{
    lemma_forest_bounds(c, i, d);
    let (f, n) = forest(c, i, d);
    if i < c.len() && c[i].depth > d {
        assert(c[i].children =~= Seq::<PointerView>::empty());
        assert(bare(c[i]) =~= c[i]);
        if can_parent(c[i].kind) {
            let (kids, j) = forest(c, i + 1, c[i].depth as int);
            lemma_forest_bounds(c, i + 1, c[i].depth as int);
            lemma_forest_laws(c, i + 1, c[i].depth as int);
            let (rest, k) = forest(c, j, d);
            lemma_forest_bounds(c, j, d);
            lemma_forest_laws(c, j, d);
            let node = adopt(c[i], kids);
            assert(node.children =~= kids);
            assert(bare(node) =~= c[i]);
            assert(f =~= seq![node] + rest);
            assert(f.subrange(1, f.len() as int) =~= rest);
            assert(preorder(node) =~= seq![c[i]] + c.subrange(i + 1, j));
            assert(preorder_all(f) =~= c.subrange(i, n));
            assert(well_nested(node));
        } else {
            let (rest, k) = forest(c, i + 1, d);
            lemma_forest_bounds(c, i + 1, d);
            lemma_forest_laws(c, i + 1, d);
            assert(f =~= seq![c[i]] + rest);
            assert(f.subrange(1, f.len() as int) =~= rest);
            assert(preorder_all(c[i].children) =~= Seq::<PointerView>::empty());
            assert(preorder(c[i]) =~= seq![c[i]]);
            assert(preorder_all(f) =~= c.subrange(i, n));
        }
    } else {
        assert(c.subrange(i, i) =~= Seq::<PointerView>::empty());
    }
}

/// Nesting loses and reorders nothing: read in pre-order, the table of contents is the list of
/// pointers in order of their start. Every pointer is deeper than the one above it, and neither
/// frontmatter nor body has children.
pub proof fn law_nest_preorder(flat: Seq<PointerView>)
    requires
        forall|k: int| 0 <= k < flat.len() ==> (#[trigger] flat[k]).children.len() == 0,
    ensures
        preorder_all(nest_spec(flat)) == in_order(flat),
        forall|k: int|
            #![trigger nest_spec(flat)[k]]
            0 <= k < nest_spec(flat).len() ==> well_nested(nest_spec(flat)[k]),
{
    let c = in_order(flat);
    law_in_order(flat);
    assert forall|k: int| 0 <= k < c.len() implies (#[trigger] c[k]).children.len() == 0 by {
        broadcast use vstd::seq_lib::group_to_multiset_ensures;

        assert(c.to_multiset().count(c[k]) > 0) by {
            assert(c.contains(c[k]));
        }
        assert(flat.contains(c[k]));
    }
    lemma_forest_bounds(c, 0, -1);
    lemma_forest_laws(c, 0, -1);
    assert(c.subrange(0, c.len() as int) =~= c);
}

} // verus!
