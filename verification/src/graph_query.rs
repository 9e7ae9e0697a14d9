//! Queries of the link graph as values: a request says what is asked, and the result lists
//! documents and edges.

use std::time::Instant;

use roaring::RoaringBitmap;
use vstd::prelude::*;

use crate::bitmap;
use crate::clock;
use crate::graph;
use crate::graph::{
    CentralityAlgorithm, Direction, Edge, EdgeFilter, EdgeRef, ExpandSpec, GraphError, GraphNodeRef,
    GraphOp, GraphQueryEngine, GraphQueryRequest, GraphQueryResult, GraphStore, InMemoryGraphStore,
};
use crate::graph_commands;
use crate::query;
use crate::types::DocId;

verus! {

// ── What is answered ────────────────────────────────────────────────────────

/// The first items of a list, at most `limit` where there is one.
pub open spec fn at_most<T>(s: Seq<T>, limit: Option<u32>) -> Seq<T> {
    match limit {
        Some(n) => graph_commands::limited(s, n),
        None => s,
    }
}

/// Whether a node is that of a document. The graph knows no paths, sources and labels.
pub open spec fn is_node(n: GraphNodeRef, id: DocId) -> bool {
    n.doc_id == id && n.file_path@ == ""@ && n.source_type@ == ""@ && n.label is None
}

/// Whether nodes are those of documents, without scores and distances.
pub open spec fn are_nodes(v: Seq<GraphNodeRef>, ids: Seq<DocId>) -> bool {
    &&& v.len() == ids.len()
    &&& forall|i: int|
        0 <= i < v.len() ==> is_node(#[trigger] v[i], ids[i]) && v[i].score is None
            && v[i].hop_distance is None
}

/// Whether nodes are those of documents, each with its distance from some.
pub open spec fn are_distant(
    v: Seq<GraphNodeRef>,
    ids: Seq<DocId>,
    s: Seq<Edge>,
    seeds: Set<DocId>,
    spec: ExpandSpec,
) -> bool {
    &&& v.len() == ids.len()
    &&& forall|i: int|
        0 <= i < v.len() ==> is_node(#[trigger] v[i], ids[i]) && v[i].score is None && (
        v[i].hop_distance matches Some(h) && graph::is_hop(
            s,
            spec.direction,
            spec.edge_filter,
            seeds,
            ids[i],
            h as nat,
        ))
}

/// Whether nodes are those of ranked documents, each with its degree.
pub open spec fn are_scored(v: Seq<GraphNodeRef>, rank: Seq<(DocId, u64)>) -> bool {
    &&& v.len() == rank.len()
    &&& forall|i: int|
        0 <= i < v.len() ==> is_node(#[trigger] v[i], rank[i].0) && v[i].score == Some(rank[i].1)
            && v[i].hop_distance is None
}

/// The set of a list of documents.
pub open spec fn opt_set(v: Option<Vec<DocId>>) -> Option<Set<DocId>> {
    match v {
        Some(v) => Some(v@.to_set()),
        None => None,
    }
}

/// Whether a result answers a request. An expansion follows its own filter; the limit of a request
/// does not shorten a path.
pub open spec fn answers_query(
    s: Seq<Edge>,
    request: GraphQueryRequest,
    q: GraphQueryResult,
) -> bool {
    match request.op {
        GraphOp::Neighbours { from, direction } => {
            let found = at_most(
                graph::neighbours_of(s, from, direction, request.edge_filter),
                request.limit,
            );
            &&& graph_commands::are_edges_of(q.edges@, found)
            &&& are_nodes(q.nodes@, graph_commands::distinct_ids(found))
        },
        GraphOp::Expand { seeds, spec } => {
            let start = seeds@.to_set();
            &&& q.edges@.len() == 0
            &&& graph::added_by(s, start, spec).finite()
            &&& spec.max_nodes matches Some(cap) ==> graph::added_by(s, start, spec).len() <= cap
            &&& exists|ids: Seq<DocId>| #[trigger]
                query::is_listing(ids, graph::expanded(s, start, spec)) && are_distant(
                    q.nodes@,
                    at_most(ids, request.limit),
                    s,
                    start,
                    spec,
                )
        },
        GraphOp::ShortestPath { from, to } => {
            &&& q.edges@.len() == 0
            &&& exists|p: Seq<DocId>| #[trigger]
                graph::is_shortest(s, request.edge_filter, from, to, p) && are_nodes(q.nodes@, p)
        },
        GraphOp::TopCentral { algorithm, restrict_to, k } => {
            &&& q.edges@.len() == 0
            &&& !(algorithm is PageRank)
            &&& exists|rank: Seq<(DocId, u64)>| #[trigger]
                graph::is_ranking(
                    rank,
                    s,
                    algorithm is InDegree,
                    graph::ranked_docs(s, opt_set(restrict_to)),
                ) && are_scored(
                    q.nodes@,
                    at_most(graph_commands::limited(rank, k), request.limit),
                )
        },
        GraphOp::Reachable { from, direction } => {
            &&& q.edges@.len() == 0
            &&& exists|ids: Seq<DocId>| #[trigger]
                query::is_listing(
                    ids,
                    graph::closure(s, direction, request.edge_filter, set![from]).remove(from),
                ) && are_nodes(q.nodes@, at_most(ids, request.limit))
        },
    }
}

/// Whether an error is why a request has no answer: an expansion adds too many documents, there is
/// no path, or page rank is asked for, which takes fractions.
pub open spec fn refuses_query(s: Seq<Edge>, request: GraphQueryRequest, e: GraphError) -> bool {
    match (request.op, e) {
        (
            GraphOp::Expand { seeds, spec },
            GraphError::ExpansionLimit(cap),
        ) => spec.max_nodes == Some(cap) && graph::added_by(s, seeds@.to_set(), spec).len() > cap,
        (GraphOp::ShortestPath { from, to }, GraphError::NoPath(a, b)) => a == from && b == to
            && !graph::closure(
            s,
            Direction::Outgoing,
            request.edge_filter,
            set![from],
        ).contains(to),
        (
            GraphOp::TopCentral { algorithm, restrict_to, k },
            GraphError::Storage(m),
        ) => algorithm is PageRank && m@ == "page rank is not computed by this engine"@,
        _ => false,
    }
}

// ── Answering ───────────────────────────────────────────────────────────────

fn node(doc_id: DocId, score: Option<u64>, hop_distance: Option<u8>) -> (r: GraphNodeRef)
    ensures
        is_node(r, doc_id),
        r.score == score,
        r.hop_distance == hop_distance,
{
    GraphNodeRef {
        doc_id,
        file_path: "".to_owned(),
        source_type: "".to_owned(),
        label: None,
        score,
        hop_distance,
    }
}

/// How many of `n` items a limit leaves.
fn shown(n: usize, limit: Option<u32>) -> (r: usize)
    ensures
        r <= n,
        forall|s: Seq<DocId>| s.len() == n ==> #[trigger] at_most(s, limit) == s.take(r as int),
        forall|s: Seq<(DocId, u64)>|
            s.len() == n ==> #[trigger] at_most(s, limit) == s.take(r as int),
        forall|s: Seq<(DocId, Edge)>|
            s.len() == n ==> #[trigger] at_most(s, limit) == s.take(r as int),
{
    let r: usize = match limit {
        Some(k) => if k as usize <= n {
            k as usize
        } else {
            n
        },
        None => n,
    };
    proof {
        assert forall|s: Seq<DocId>| s.len() == n implies #[trigger] at_most(s, limit) == s.take(
            r as int,
        ) by {
            assert(s.take(n as int) =~= s);
        }
        assert forall|s: Seq<(DocId, u64)>| s.len() == n implies #[trigger] at_most(s, limit)
            == s.take(r as int) by {
            assert(s.take(n as int) =~= s);
        }
        assert forall|s: Seq<(DocId, Edge)>| s.len() == n implies #[trigger] at_most(s, limit)
            == s.take(r as int) by {
            assert(s.take(n as int) =~= s);
        }
    }
    r
}

/// The nodes of the first `n` of some documents.
fn nodes_of(ids: &Vec<DocId>, n: usize) -> (r: Vec<GraphNodeRef>)
    requires
        n <= ids@.len(),
    ensures
        are_nodes(r@, ids@.take(n as int)),
{
    let mut out: Vec<GraphNodeRef> = Vec::new();
    let mut i: usize = 0;
    while i < n
        invariant
            i <= n <= ids@.len(),
            out@.len() == i,
            forall|k: int|
                0 <= k < i ==> is_node(#[trigger] out@[k], ids@[k]) && out@[k].score is None
                    && out@[k].hop_distance is None,
        decreases n - i,
    {
        out.push(node(ids[i], None, None));
        i += 1;
    }
    out
}

/// The bitmap of some documents.
fn bitmap_of_docs(ids: &Vec<DocId>) -> (r: RoaringBitmap)
    ensures
        bitmap::ids(r) == ids@.to_set(),
{
    let mut b = RoaringBitmap::new();
    let mut i: usize = 0;
    assert(bitmap::ids(b) =~= ids@.take(0).to_set());
    while i < ids.len()
        invariant
            i <= ids@.len(),
            bitmap::ids(b) == ids@.take(i as int).to_set(),
        decreases ids@.len() - i,
    {
        let x = ids[i];
        let ghost before = ids@.take(i as int);
        let ghost after = ids@.take(i + 1);
        b.insert(x);
        proof {
            assert(after =~= before.push(x));
            assert forall|y: DocId| after.to_set().contains(y) <==> before.to_set().insert(
                x,
            ).contains(y) by {
                bitmap::lemma_push_contains(before, x, y);
            }
            assert(bitmap::ids(b) =~= after.to_set());
        }
        i += 1;
    }
    assert(ids@.take(i as int) =~= ids@);
    b
}

fn elapsed(start: Instant, nodes: Vec<GraphNodeRef>, edges: Vec<EdgeRef>) -> (r: GraphQueryResult)
    ensures
        r.nodes == nodes,
        r.edges == edges,
{
    GraphQueryResult { nodes, edges, elapsed_us: clock::micros_since(start) }
}

/// The neighbours of a document, each once, and the edges to them, at most `limit`.
pub(crate) fn neighbours(
    g: &InMemoryGraphStore,
    from: DocId,
    direction: Direction,
    filter: &EdgeFilter,
    limit: Option<u32>,
) -> (r: (Vec<DocId>, Vec<EdgeRef>))
    ensures
        ({
            let found = at_most(graph::neighbours_of(g.edges(), from, direction, *filter), limit);
            &&& graph_commands::are_edges_of(r.1@, found)
            &&& r.0@ == graph_commands::distinct_ids(found)
        }),
{
    let all = match g.neighbours(from, direction, filter) {
        Ok(v) => v,
        Err(_) => Vec::new(),
    };
    let n = shown(all.len(), limit);
    let ghost found = all@.take(n as int);
    assert(at_most(all@, limit) == found);
    let mut ids: Vec<DocId> = Vec::new();
    let mut edges: Vec<EdgeRef> = Vec::new();
    let mut i: usize = 0;
    assert(ids@ =~= graph_commands::distinct_ids(found.take(0)));
    while i < n
        invariant
            n <= all@.len(),
            found == all@.take(n as int),
            i <= n,
            ids@ == graph_commands::distinct_ids(found.take(i as int)),
            edges@.len() == i,
            forall|k: int|
                0 <= k < i ==> (#[trigger] edges@[k]).from == found[k].1.from && edges@[k].to
                    == found[k].1.to && edges@[k].kind@ == found[k].1.kind@ && edges@[k].weight
                    == found[k].1.weight,
        decreases n - i,
    {
        proof {
            let t = found.take(i + 1);
            assert(t.drop_last() =~= found.take(i as int));
            assert(t.last() == all@[i as int]);
        }
        let id = all[i].0;
        let e = &all[i].1;
        edges.push(EdgeRef { from: e.from, to: e.to, kind: e.kind.clone(), weight: e.weight });
        if !has_id(&ids, id) {
            ids.push(id);
        }
        i += 1;
    }
    assert(found.take(n as int) =~= found);
    (ids, edges)
}

fn has_id(v: &Vec<DocId>, x: DocId) -> (r: bool)
    ensures
        r == v@.contains(x),
{
    let mut i: usize = 0;
    while i < v.len()
        invariant
            i <= v@.len(),
            forall|j: int| 0 <= j < i ==> #[trigger] v@[j] != x,
        decreases v@.len() - i,
    {
        if v[i] == x {
            return true;
        }
        i += 1;
    }
    false
}

/// The documents of an expansion, at most `limit` of them, each with its distance.
fn expansion(
    g: &InMemoryGraphStore,
    seeds: &Vec<DocId>,
    spec: &ExpandSpec,
    limit: Option<u32>,
) -> (r: Result<Vec<GraphNodeRef>, GraphError>)
    ensures
        match r {
            Ok(nodes) => {
                let added = graph::added_by(g.edges(), seeds@.to_set(), *spec);
                &&& added.finite()
                &&& spec.max_nodes matches Some(cap) ==> added.len() <= cap
                &&& exists|ids: Seq<DocId>| #[trigger]
                    query::is_listing(
                        ids,
                        graph::expanded(g.edges(), seeds@.to_set(), *spec),
                    ) && are_distant(
                        nodes@,
                        at_most(ids, limit),
                        g.edges(),
                        seeds@.to_set(),
                        *spec,
                    )
            },
            Err(GraphError::ExpansionLimit(cap)) => spec.max_nodes == Some(cap) && graph::added_by(
                g.edges(),
                seeds@.to_set(),
                *spec,
            ).len() > cap,
            Err(_) => false,
        },
{
    let ghost s = g.edges();
    let ghost start = seeds@.to_set();
    let reached = match g.expand(&bitmap_of_docs(seeds), spec) {
        Ok(b) => b,
        Err(e) => {
            return Err(e);
        },
    };
    let ids = bitmap::bitmap_values(&reached);
    let hops = g.levels(seeds, spec.direction, &spec.edge_filter, Some(spec.hops as u32));
    let n = shown(ids.len(), limit);
    let mut nodes: Vec<GraphNodeRef> = Vec::new();
    let mut i: usize = 0;
    while i < n
        invariant
            s == g.edges(),
            start == seeds@.to_set(),
            ids@.to_set() == graph::expanded(s, start, *spec),
            hops.wf(),
            hops@.dom() == graph::within(
                s,
                spec.direction,
                spec.edge_filter,
                start,
                spec.hops as nat,
            ),
            forall|x: DocId| #[trigger]
                hops@.dom().contains(x) ==> graph::is_hop(
                    s,
                    spec.direction,
                    spec.edge_filter,
                    start,
                    x,
                    hops@[x] as nat,
                ),
            i <= n <= ids@.len(),
            nodes@.len() == i,
            forall|k: int|
                0 <= k < i ==> is_node(#[trigger] nodes@[k], ids@[k]) && nodes@[k].score is None
                    && (nodes@[k].hop_distance matches Some(h) && graph::is_hop(
                    s,
                    spec.direction,
                    spec.edge_filter,
                    start,
                    ids@[k],
                    h as nat,
                )),
        decreases n - i,
    {
        let id = ids[i];
        proof {
            assert(ids@.contains(id));
            assert(ids@.to_set().contains(id));
            assert(hops@.dom().contains(id));
            graph::lemma_hop_at_most(
                s,
                spec.direction,
                spec.edge_filter,
                start,
                id,
                hops@[id] as nat,
                spec.hops as nat,
            );
        }
        let h: u64 = match hops.get(id) {
            Some(h) => *h,
            None => 0,
        };
        nodes.push(node(id, None, Some(h as u8)));
        i += 1;
    }
    let r: Result<Vec<GraphNodeRef>, GraphError> = Ok(nodes);
    proof {
        assert(query::is_listing(ids@, graph::expanded(s, start, *spec)));
        assert(at_most(ids@, limit) == ids@.take(n as int));
        assert(are_distant((r->Ok_0)@, at_most(ids@, limit), s, start, *spec));
    }
    r
}

/// The documents that rank highest by degree, each with its degree.
fn ranking(
    g: &InMemoryGraphStore,
    incoming: bool,
    restrict_to: &Option<Vec<DocId>>,
    k: u32,
    limit: Option<u32>,
) -> (r: Result<Vec<GraphNodeRef>, GraphError>)
    ensures
        r matches Ok(nodes) && exists|rank: Seq<(DocId, u64)>| #[trigger]
            graph::is_ranking(
                rank,
                g.edges(),
                incoming,
                graph::ranked_docs(g.edges(), opt_set(*restrict_to)),
            ) && are_scored(nodes@, at_most(graph_commands::limited(rank, k), limit)),
{
    let ranked = match restrict_to {
        Some(v) => {
            let b = bitmap_of_docs(v);
            g.degree_centrality(incoming, Some(&b))
        },
        None => g.degree_centrality(incoming, None),
    };
    let all = match ranked {
        Ok(v) => v,
        Err(e) => {
            return Err(e);
        },
    };
    let m: usize = if k as usize <= all.len() {
        k as usize
    } else {
        all.len()
    };
    let n = shown(m, limit);
    let ghost first = graph_commands::limited(all@, k);
    assert(first =~= all@.take(m as int));
    let mut nodes: Vec<GraphNodeRef> = Vec::new();
    let mut i: usize = 0;
    while i < n
        invariant
            i <= n <= m <= all@.len(),
            nodes@.len() == i,
            forall|j: int|
                0 <= j < i ==> is_node(#[trigger] nodes@[j], all@[j].0) && nodes@[j].score == Some(
                    all@[j].1,
                ) && nodes@[j].hop_distance is None,
        decreases n - i,
    {
        nodes.push(node(all[i].0, Some(all[i].1), None));
        i += 1;
    }
    let r: Result<Vec<GraphNodeRef>, GraphError> = Ok(nodes);
    proof {
        assert(at_most(first, limit) == first.take(n as int));
        assert(are_scored((r->Ok_0)@, at_most(graph_commands::limited(all@, k), limit)));
    }
    r
}

/// Answers a request to a graph.
pub(crate) fn run_query(g: &InMemoryGraphStore, request: GraphQueryRequest) -> (r: Result<
    GraphQueryResult,
    GraphError,
>)
    ensures
        match r {
            Ok(q) => answers_query(g.edges(), request, q),
            Err(e) => refuses_query(g.edges(), request, e),
        },
{
    let start = Instant::now();
    let none: Vec<EdgeRef> = Vec::new();
    match &request.op {
        GraphOp::Neighbours { from, direction } => {
            let (ids, edges) = neighbours(
                g,
                *from,
                *direction,
                &request.edge_filter,
                request.limit,
            );
            let nodes = nodes_of(&ids, ids.len());
            assert(ids@.take(ids@.len() as int) =~= ids@);
            Ok(elapsed(start, nodes, edges))
        },
        GraphOp::Expand { seeds, spec } => match expansion(g, seeds, spec, request.limit) {
            Ok(nodes) => Ok(elapsed(start, nodes, none)),
            Err(e) => Err(e),
        },
        GraphOp::ShortestPath { from, to } => match g.shortest_path(
            *from,
            *to,
            &request.edge_filter,
        ) {
            Ok(p) => {
                let nodes = nodes_of(&p, p.len());
                assert(p@.take(p@.len() as int) =~= p@);
                Ok(elapsed(start, nodes, none))
            },
            Err(e) => Err(e),
        },
        GraphOp::TopCentral { algorithm, restrict_to, k } => {
            let incoming = match algorithm {
                CentralityAlgorithm::InDegree => true,
                CentralityAlgorithm::OutDegree => false,
                CentralityAlgorithm::PageRank { iterations, damping } => {
                    return Err(
                        GraphError::Storage("page rank is not computed by this engine".to_owned()),
                    );
                },
            };
            match ranking(g, incoming, restrict_to, *k, request.limit) {
                Ok(nodes) => Ok(elapsed(start, nodes, none)),
                Err(e) => Err(e),
            }
        },
        GraphOp::Reachable { from, direction } => match g.reachable(
            *from,
            *direction,
            &request.edge_filter,
        ) {
            Ok(b) => {
                let ids = bitmap::bitmap_values(&b);
                let n = shown(ids.len(), request.limit);
                let nodes = nodes_of(&ids, n);
                assert(query::is_listing(
                    ids@,
                    graph::closure(g.edges(), *direction, request.edge_filter, set![*from]).remove(
                        *from,
                    ),
                ));
                assert(at_most(ids@, request.limit) == ids@.take(n as int));
                Ok(elapsed(start, nodes, none))
            },
            Err(e) => Err(e),
        },
    }
}

} // verus!
