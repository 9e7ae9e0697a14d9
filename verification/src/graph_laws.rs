//! What is found in a graph of documents.

use vstd::prelude::*;

use crate::graph;
use crate::graph::{Direction, Edge, EdgeCategory, EdgeFilter, UnresolvedEdge};
use crate::graph_commands;
use crate::types::{DocId, Timestamp};

verus! {

// ── Filters ─────────────────────────────────────────────────────────────────

/// Which edges a filter lets pass.
pub proof fn law_edge_filters(e: Edge, c: EdgeCategory, kinds: Vec<String>, v: Vec<EdgeFilter>)
    ensures
        graph::passes(EdgeFilter::Any, e),
        graph::passes(EdgeFilter::Category(c), e) <==> e.category == c,
        graph::passes(EdgeFilter::Kinds(kinds), e) <==> kinds.deep_view().contains(e.kind@),
        graph::passes(EdgeFilter::And(v), e) <==> forall|i: int|
            0 <= i < v@.len() ==> graph::passes(#[trigger] v@[i], e),
        graph::passes(EdgeFilter::Or(v), e) <==> exists|i: int|
            0 <= i < v@.len() && graph::passes(#[trigger] v@[i], e),
{
    let each = graph::passes_each(v, e);
    if graph::all_yes(each) {
        assert forall|i: int| 0 <= i < v@.len() implies graph::passes(#[trigger] v@[i], e) by {
            assert(each[i]);
        }
    }
    if graph::some_yes(each) {
        let i = choose|i: int| 0 <= i < each.len() && #[trigger] each[i];
        assert(graph::passes(v@[i], e));
    }
    if exists|i: int| 0 <= i < v@.len() && graph::passes(#[trigger] v@[i], e) {
        let i = choose|i: int| 0 <= i < v@.len() && graph::passes(#[trigger] v@[i], e);
        assert(each[i]);
    }
}

// ── Neighbours ──────────────────────────────────────────────────────────────

/// Whether an edge leads from a document to another, in a direction.
pub open spec fn joins(e: Edge, id: DocId, d: Direction, x: DocId) -> bool {
    ||| (d == Direction::Outgoing || d == Direction::Both) && e.from == id && e.to == x
    ||| (d == Direction::Incoming || d == Direction::Both) && e.to == id && e.from == x
}

/// The neighbours of a document are the other ends of its edges, in the direction and through the
/// filter that are asked for: all of them, and no others.
pub proof fn law_neighbours(
    s: Seq<Edge>,
    id: DocId,
    d: Direction,
    f: EdgeFilter,
    x: DocId,
    e: Edge,
)
    ensures
        graph::neighbours_of(s, id, d, f).contains((x, e)) <==> s.contains(e) && graph::passes(f, e)
            && joins(e, id, d, x),
    decreases s.len(),
{
    let all = graph::neighbours_of(s, id, d, f);
    if s.len() == 0 {
        assert(all.len() == 0);
    } else {
        let front = s.drop_last();
        let l = s.last();
        let rest = graph::neighbours_of(front, id, d, f);
        law_neighbours(front, id, d, f, x, e);
        let out = if graph::passes(f, l) && l.from == id && graph::goes_out(d) {
            rest.push((l.to, l))
        } else {
            rest
        };
        assert(s.contains(e) <==> front.contains(e) || e == l) by {
            if s.contains(e) {
                let k = s.index_of(e);
                if k < front.len() {
                    assert(front[k] == e);
                }
            }
            if front.contains(e) {
                let k = front.index_of(e);
                assert(s[k] == e);
            }
            assert(s[s.len() - 1] == l);
        }
        lemma_pushed(rest, (l.to, l), (x, e));
        lemma_pushed(out, (l.from, l), (x, e));
    }
}

proof fn lemma_pushed<T>(s: Seq<T>, x: T, y: T)
    ensures
        s.push(x).contains(y) <==> s.contains(y) || y == x,
{
    let t = s.push(x);
    if t.contains(y) {
        let k = t.index_of(y);
        if k < s.len() {
            assert(s[k] == y);
        }
    }
    if s.contains(y) {
        let k = s.index_of(y);
        assert(t[k] == y);
    }
    assert(t[s.len() as int] == x);
}

// ── Documents that leave and arrive ─────────────────────────────────────────

proof fn lemma_kept(s: Seq<Edge>, keep: spec_fn(Edge) -> bool, e: Edge)
    ensures
        graph::kept(s, keep).contains(e) <==> s.contains(e) && keep(e),
    decreases s.len(),
{
    if s.len() > 0 {
        let front = s.drop_last();
        lemma_kept(front, keep, e);
        lemma_pushed(graph::kept(front, keep), s.last(), e);
        lemma_pushed(front, s.last(), e);
        assert(front.push(s.last()) =~= s);
    }
}

/// Which edges stand at a document, which stand apart from it, and which do not start there.
pub proof fn law_edges_of_document(s: Seq<Edge>, id: DocId, e: Edge)
    ensures
        graph::edges_at(s, id).contains(e) <==> s.contains(e) && (e.from == id || e.to == id),
        graph::edges_apart(s, id).contains(e) <==> s.contains(e) && e.from != id && e.to != id,
        graph::edges_not_from(s, id).contains(e) <==> s.contains(e) && e.from != id,
{
    lemma_kept(s, |e: Edge| e.from == id || e.to == id, e);
    lemma_kept(s, |e: Edge| e.from != id && e.to != id, e);
    lemma_kept(s, |e: Edge| e.from != id, e);
}

/// Whether an edge is what becomes of a pending one.
pub open spec fn comes_from(e: Edge, u: UnresolvedEdge, to: DocId, now: Timestamp) -> bool {
    &&& e.from == u.from
    &&& e.to == to
    &&& e.category == u.category
    &&& e.kind == u.kind
    &&& e.byte_offset == u.byte_offset
    &&& e.created_at == now
}

/// When a document arrives, each pending edge that names it becomes an edge to it, and is no longer
/// pending. The others stay pending.
pub proof fn law_pending(
    s: Seq<UnresolvedEdge>,
    to: DocId,
    target: Seq<char>,
    now: Timestamp,
    k: int,
)
    requires
        0 <= k < s.len(),
    ensures
        s[k].target_ref@ == target || crate::paths::file_stem_spec(target) == Some(
            s[k].target_ref@,
        ) ==> exists|j: int|
            0 <= j < graph::promoted(s, to, target, now).len() && comes_from(
                #[trigger] graph::promoted(s, to, target, now)[j],
                s[k],
                to,
                now,
            ),
        !(s[k].target_ref@ == target || crate::paths::file_stem_spec(target) == Some(
            s[k].target_ref@,
        )) ==> graph::still_pending(s, target).contains(s[k]),
        graph::promoted(s, to, target, now).len() + graph::still_pending(s, target).len() == s.len(),
    decreases s.len(),
{
    let front = s.drop_last();
    let p = graph::promoted(front, to, target, now);
    let q = graph::still_pending(front, target);
    let all = graph::promoted(s, to, target, now);
    if front.len() > 0 {
        law_pending(front, to, target, now, if k < front.len() {
            k
        } else {
            0
        });
    }
    if k < front.len() {
        assert(front[k] == s[k]);
        if graph::is_target(s[k].target_ref@, target) {
            let j = choose|j: int|
                0 <= j < p.len() && comes_from(#[trigger] p[j], s[k], to, now);
            assert(all[j] == p[j]);
        } else {
            lemma_pushed(q, s.last(), s[k]);
        }
    } else {
        assert(s[k] == s.last());
        if graph::is_target(s[k].target_ref@, target) {
            assert(comes_from(all[p.len() as int], s[k], to, now));
        } else {
            lemma_pushed(q, s.last(), s[k]);
        }
    }
}

// ── Words ───────────────────────────────────────────────────────────────────

/// The words for directions.
pub proof fn law_direction_words(w: Seq<char>)
    ensures
        graph_commands::direction_named("outgoing"@) == Some(Direction::Outgoing),
        graph_commands::direction_named("out"@) == Some(Direction::Outgoing),
        graph_commands::direction_named("incoming"@) == Some(Direction::Incoming),
        graph_commands::direction_named("in"@) == Some(Direction::Incoming),
        graph_commands::direction_named("both"@) == Some(Direction::Both),
        graph_commands::direction_named(w) is Some ==> w == "outgoing"@ || w == "out"@ || w
            == "incoming"@ || w == "in"@ || w == "both"@,
{
    reveal_strlit("outgoing");
    reveal_strlit("out");
    reveal_strlit("incoming");
    reveal_strlit("in");
    reveal_strlit("both");
    assert("outgoing"@[0] == 'o' && "out"@[0] == 'o');
    assert("incoming"@[0] == 'i' && "in"@[0] == 'i' && "both"@[0] == 'b');
}

/// The words for categories of edges.
pub proof fn law_category_words()
    ensures
        graph::category_named("reference"@) == Some(EdgeCategory::Reference),
        graph::category_named("dependency"@) == Some(EdgeCategory::Dependency),
        graph::category_named("hierarchy"@) == Some(EdgeCategory::Hierarchy),
        graph::category_named("workflow"@) == Some(EdgeCategory::Workflow),
        graph::category_named("provenance"@) == Some(EdgeCategory::Provenance),
{
    reveal_strlit("reference");
    reveal_strlit("dependency");
    reveal_strlit("hierarchy");
    reveal_strlit("workflow");
    reveal_strlit("provenance");
    assert("reference"@[0] == 'r' && "dependency"@[0] == 'd' && "hierarchy"@[0] == 'h');
    assert("workflow"@[0] == 'w' && "provenance"@[0] == 'p');
}

/// The degree of a document counts the edges at one of its sides: an edge more counts where it starts
/// or ends there.
pub proof fn law_degree(s: Seq<Edge>, e: Edge, x: DocId)
    ensures
        graph::degree(Seq::empty(), true, x) == 0,
        graph::degree(Seq::empty(), false, x) == 0,
        graph::degree(s.push(e), true, x) == graph::degree(s, true, x) + if e.to == x {
            1int
        } else {
            0int
        },
        graph::degree(s.push(e), false, x) == graph::degree(s, false, x) + if e.from == x {
            1int
        } else {
            0int
        },
{
    assert(s.push(e).drop_last() =~= s);
}

} // verus!
