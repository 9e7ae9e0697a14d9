//! How a table of contents is nested.

use vstd::prelude::*;

use crate::nest;
use crate::nest::PointerView;

verus! {

/// Whether a list of pointers lies as deep as it can, with all that lies below: a pointer that follows
/// one which may have children is not deeper than it.
pub open spec fn lies_deep(s: Seq<PointerView>) -> bool
    decreases s,
{
    &&& forall|i: int, j: int|
        #![trigger s[i], s[j]]
        0 <= i && j == i + 1 && j < s.len() && s[i].kind != "Frontmatter"@ && s[i].kind != "Body"@
            ==> s[j].depth <= s[i].depth
    &&& forall|i: int| #![trigger s[i]] 0 <= i < s.len() ==> lies_deep(s[i].children)
}

proof fn lemma_bounds(c: Seq<PointerView>, i: int, d: int)
    requires
        0 <= i <= c.len(),
    ensures
        i <= nest::forest(c, i, d).1 <= c.len(),
        nest::forest(c, i, d).1 < c.len() ==> c[nest::forest(c, i, d).1].depth <= d,
        nest::forest(c, i, d).0.len() > 0 ==> i < c.len() && nest::forest(c, i, d).0[0].depth
            == c[i].depth,
    decreases c.len() - i,
{
    if i < c.len() && c[i].depth > d {
        if nest::can_parent(c[i].kind) {
            lemma_bounds(c, i + 1, c[i].depth as int);
            lemma_bounds(c, nest::forest(c, i + 1, c[i].depth as int).1, d);
        } else {
            lemma_bounds(c, i + 1, d);
        }
    }
}

proof fn lemma_lies_deep(c: Seq<PointerView>, i: int, d: int)
    requires
        0 <= i <= c.len(),
        forall|k: int| 0 <= k < c.len() ==> (#[trigger] c[k]).children.len() == 0,
    ensures
        lies_deep(nest::forest(c, i, d).0),
    decreases c.len() - i,
{
    lemma_bounds(c, i, d);
    let f = nest::forest(c, i, d).0;
    if i < c.len() && c[i].depth > d {
        assert(c[i].children =~= Seq::<PointerView>::empty());
        if nest::can_parent(c[i].kind) {
            let (kids, j) = nest::forest(c, i + 1, c[i].depth as int);
            lemma_bounds(c, i + 1, c[i].depth as int);
            lemma_lies_deep(c, i + 1, c[i].depth as int);
            let rest = nest::forest(c, j, d).0;
            lemma_bounds(c, j, d);
            lemma_lies_deep(c, j, d);
            let node = nest::adopt(c[i], kids);
            assert(node.children =~= kids);
            assert(f =~= seq![node] + rest);
            lemma_joined(node, rest);
        } else {
            let rest = nest::forest(c, i + 1, d).0;
            lemma_bounds(c, i + 1, d);
            lemma_lies_deep(c, i + 1, d);
            assert(f =~= seq![c[i]] + rest);
            assert(lies_deep(c[i].children));
            lemma_joined(c[i], rest);
        }
    }
}

proof fn lemma_joined(x: PointerView, rest: Seq<PointerView>)
    requires
        lies_deep(x.children),
        lies_deep(rest),
        rest.len() > 0 && x.kind != "Frontmatter"@ && x.kind != "Body"@ ==> rest[0].depth <= x.depth,
    ensures
        lies_deep(seq![x] + rest),
{
    let s = seq![x] + rest;
    assert forall|i: int, j: int|
        #![trigger s[i], s[j]]
        0 <= i && j == i + 1 && j < s.len() && s[i].kind != "Frontmatter"@ && s[i].kind != "Body"@ implies s[j].depth
        <= s[i].depth by {
        if i > 0 {
            assert(s[i] == rest[i - 1] && s[j] == rest[j - 1]);
        } else {
            assert(s[j] == rest[0]);
        }
    }
    assert forall|i: int| #![trigger s[i]] 0 <= i < s.len() implies lies_deep(s[i].children) by {
        if i > 0 {
            assert(s[i] == rest[i - 1]);
        }
    }
}

/// A pointer lies below the one before it wherever it is deeper, unless that one is frontmatter or a
/// body.
pub proof fn law_nest_deep(flat: Seq<PointerView>)
    requires
        forall|k: int| 0 <= k < flat.len() ==> (#[trigger] flat[k]).children.len() == 0,
    ensures
        lies_deep(nest::nest_spec(flat)),
{
    let c = nest::in_order(flat);
    nest::law_in_order(flat);
    assert forall|k: int| 0 <= k < c.len() implies (#[trigger] c[k]).children.len() == 0 by {
        broadcast use vstd::seq_lib::group_to_multiset_ensures;

        assert(c.to_multiset().count(c[k]) > 0) by {
            assert(c.contains(c[k]));
        }
        assert(flat.contains(c[k]));
    }
    lemma_lies_deep(c, 0, -1);
}

} // verus!
