//! Questions to the link graph, as the command line and the server tools ask them, and their
//! answers.

use vstd::prelude::*;

use crate::bitmap;
use crate::dates;
use crate::graph;
use crate::graph::{
    CentralityAlgorithm, Direction, Edge, EdgeCategory, EdgeFilter, EdgeRef, ExpandSpec, GraphError,
    GraphQueryEngine, GraphStore, InMemoryGraphStore, DEFAULT_DAMPING,
};
use crate::graph_query;
use crate::paths;
use crate::registry;
use crate::registry::{Registry, RegistryError, RegistryState};
use crate::text;
use crate::types;
use crate::types::DocId;

verus! {

// ── Words ───────────────────────────────────────────────────────────────────

/// The filter of an optional category.
pub fn parse_edge_filter(category: Option<&str>) -> (r: Result<EdgeFilter, String>)
    ensures
        match (category, r) {
            (None, Ok(f)) => f is Any,
            (Some(s), Ok(EdgeFilter::Category(c))) => graph::category_named(s@) == Some(c),
            (Some(s), Err(m)) => graph::category_named(s@) is None && m@ == "unknown category '"@
                + s@ + "'. Valid: reference, dependency, hierarchy, workflow, provenance"@,
            _ => false,
        },
{
    match category {
        None => Ok(EdgeFilter::Any),
        Some(s) => match EdgeCategory::from_name(s) {
            Ok(c) => Ok(EdgeFilter::Category(c)),
            Err(_) => {
                let a = text::concat("unknown category '", s);
                Err(
                    text::concat(
                        a.as_str(),
                        "'. Valid: reference, dependency, hierarchy, workflow, provenance",
                    ),
                )
            },
        },
    }
}

/// The direction with a name.
pub open spec fn direction_named(s: Seq<char>) -> Option<Direction> {
    if s == "outgoing"@ || s == "out"@ {
        Some(Direction::Outgoing)
    } else if s == "incoming"@ || s == "in"@ {
        Some(Direction::Incoming)
    } else if s == "both"@ {
        Some(Direction::Both)
    } else {
        None
    }
}

/// The direction with a name.
pub fn parse_direction(s: &str) -> (r: Result<Direction, String>)
    ensures
        match r {
            Ok(d) => direction_named(s@) == Some(d),
            Err(m) => direction_named(s@) is None && m@ == "unknown direction '"@ + s@
                + "'. Valid: outgoing, incoming, both"@,
        },
{
    if text::str_eq(s, "outgoing") || text::str_eq(s, "out") {
        Ok(Direction::Outgoing)
    } else if text::str_eq(s, "incoming") || text::str_eq(s, "in") {
        Ok(Direction::Incoming)
    } else if text::str_eq(s, "both") {
        Ok(Direction::Both)
    } else {
        let a = text::concat("unknown direction '", s);
        Err(text::concat(a.as_str(), "'. Valid: outgoing, incoming, both"))
    }
}

/// The name of a direction.
pub open spec fn direction_name_spec(d: Direction) -> Seq<char> {
    match d {
        Direction::Outgoing => "Outgoing"@,
        Direction::Incoming => "Incoming"@,
        Direction::Both => "Both"@,
    }
}

/// The name of a direction.
pub fn direction_name(d: Direction) -> (r: &'static str)
    ensures
        r@ == direction_name_spec(d),
{
    match d {
        Direction::Outgoing => "Outgoing",
        Direction::Incoming => "Incoming",
        Direction::Both => "Both",
    }
}

/// PageRank as it is asked for by default.
pub open spec fn default_page_rank() -> CentralityAlgorithm {
    CentralityAlgorithm::PageRank { iterations: 100, damping: DEFAULT_DAMPING }
}

/// The ranking with a name.
pub open spec fn algorithm_named(s: Seq<char>) -> Option<CentralityAlgorithm> {
    if s == "pagerank"@ || s == "pr"@ {
        Some(default_page_rank())
    } else if s == "indegree"@ || s == "in"@ {
        Some(CentralityAlgorithm::InDegree)
    } else if s == "outdegree"@ || s == "out"@ {
        Some(CentralityAlgorithm::OutDegree)
    } else {
        None
    }
}

/// The ranking with a name.
pub fn parse_algorithm(s: &str) -> (r: Result<CentralityAlgorithm, String>)
    ensures
        match r {
            Ok(a) => algorithm_named(s@) == Some(a),
            Err(m) => algorithm_named(s@) is None && m@ == "unknown algorithm '"@ + s@
                + "'. Valid: pagerank, indegree, outdegree"@,
        },
{
    if text::str_eq(s, "pagerank") || text::str_eq(s, "pr") {
        Ok(CentralityAlgorithm::PageRank { iterations: 100, damping: DEFAULT_DAMPING })
    } else if text::str_eq(s, "indegree") || text::str_eq(s, "in") {
        Ok(CentralityAlgorithm::InDegree)
    } else if text::str_eq(s, "outdegree") || text::str_eq(s, "out") {
        Ok(CentralityAlgorithm::OutDegree)
    } else {
        let a = text::concat("unknown algorithm '", s);
        Err(text::concat(a.as_str(), "'. Valid: pagerank, indegree, outdegree"))
    }
}

/// The message of a graph error.
pub open spec fn graph_error_message(e: GraphError) -> Seq<char> {
    match e {
        GraphError::Storage(m) => "graph storage error: "@ + m@,
        GraphError::NotFound(id) => "doc not in graph: "@ + dates::decimal_spec(id as nat),
        GraphError::ExpansionLimit(n) => "expansion exceeded max_nodes cap of "@
            + dates::decimal_spec(n as nat),
        GraphError::NoPath(a, b) => "no path found between "@ + dates::decimal_spec(a as nat)
            + " and "@ + dates::decimal_spec(b as nat),
        GraphError::Bitmap(e) => bitmap::bitmap_error_message(e),
        GraphError::Registry(e) => registry::registry_error_message(e),
    }
}

/// The message of a graph error.
pub fn graph_message(e: &GraphError) -> (r: String)
    ensures
        r@ == graph_error_message(*e),
{
    match e {
        GraphError::Storage(m) => text::concat("graph storage error: ", m.as_str()),
        GraphError::NotFound(id) => text::concat(
            "doc not in graph: ",
            dates::decimal(*id as u64).as_str(),
        ),
        GraphError::ExpansionLimit(n) => text::concat(
            "expansion exceeded max_nodes cap of ",
            dates::decimal(*n as u64).as_str(),
        ),
        GraphError::NoPath(a, b) => {
            let x = text::concat("no path found between ", dates::decimal(*a as u64).as_str());
            let y = text::concat(x.as_str(), " and ");
            text::concat(y.as_str(), dates::decimal(*b as u64).as_str())
        },
        GraphError::Bitmap(e) => e.message(),
        GraphError::Registry(e) => e.message(),
    }
}

// ── Documents ───────────────────────────────────────────────────────────────

/// The document at a path: by its canonical form, or else as it was given.
pub open spec fn doc_at(s: RegistryState, canonical: Seq<char>, path: Seq<char>) -> Option<DocId> {
    if s.paths.dom().contains(paths::normal_spec(canonical)) {
        Some(s.paths[paths::normal_spec(canonical)])
    } else if s.paths.dom().contains(paths::normal_spec(path)) {
        Some(s.paths[paths::normal_spec(path)])
    } else {
        None
    }
}

/// The document at a path: by its canonical form, or else by the path as it was given. `canonical`
/// is none where there is no such file. An error of the first lookup is handed on; one of the
/// second counts as if nothing was found.
pub fn lookup_doc_id(registry: &Box<dyn Registry>, canonical: Option<&str>, path: &str) -> (r: Result<
    DocId,
    String,
>)
    requires
        registry.wf(),
    ensures
        canonical is None ==> (r matches Err(m) && m@ == "path not found: "@ + path@),
        canonical matches Some(c) ==> match r {
            Ok(id) => doc_at(registry.state(), c@, path@) == Some(id),
            Err(m) => {
                ||| !registry.infallible() && exists|e: RegistryError| #[trigger]
                    registry.lookup_fails(c@, e) && m@ == registry::registry_error_message(e)
                ||| m@ == "not indexed: "@ + path@ && !registry.state().paths.dom().contains(
                    paths::normal_spec(c@),
                ) && (doc_at(registry.state(), c@, path@) is None || !registry.infallible() && exists|
                    e: RegistryError,
                | #[trigger]
                    registry.lookup_fails(path@, e))
            },
        },
{
    let c = match canonical {
        Some(c) => c,
        None => {
            return Err(text::concat("path not found: ", path));
        },
    };
    match registry.lookup_by_path(c) {
        Ok(Some(d)) => {
            return Ok(d.doc_id);
        },
        Ok(None) => {},
        Err(e) => {
            return Err(e.message());
        },
    }
    if let Ok(Some(d)) = registry.lookup_by_path(path) {
        return Ok(d.doc_id);
    }
    Err(text::concat("not indexed: ", path))
}

/// How a document is called that no path is known of.
pub open spec fn id_label_spec(id: DocId) -> Seq<char> {
    "[doc:"@ + dates::decimal_spec(id as nat) + "]"@
}

/// How a document is called: by its path, or by its id where it is not registered.
pub open spec fn doc_label_spec(s: RegistryState, id: DocId) -> Seq<char> {
    if s.docs.dom().contains(id) {
        s.docs[id].file_path@
    } else {
        id_label_spec(id)
    }
}

/// Whether a text is how a document is called. Where the registry may fail it may also be called by
/// its id.
pub open spec fn is_label(s: RegistryState, sure: bool, id: DocId, label: Seq<char>) -> bool {
    label == doc_label_spec(s, id) || !sure && label == id_label_spec(id)
}

/// How a document is called.
pub fn doc_path_str(registry: &Box<dyn Registry>, doc_id: DocId) -> (r: String)
    requires
        registry.wf(),
    ensures
        is_label(registry.state(), registry.infallible(), doc_id, r@),
{
    if let Ok(Some(d)) = registry.lookup_by_id(doc_id) {
        return d.file_path;
    }
    let a = text::concat("[doc:", dates::decimal(doc_id as u64).as_str());
    text::concat(a.as_str(), "]")
}

/// A document and what it is called.
#[derive(Debug)]
pub struct NamedDoc {
    pub doc_id: DocId,
    pub path: String,
}

/// Whether documents are named as a registry names them, which may fail unless it is sure.
pub open spec fn are_named(
    v: Seq<NamedDoc>,
    ids: Seq<DocId>,
    s: RegistryState,
    sure: bool,
) -> bool {
    &&& v.len() == ids.len()
    &&& forall|i: int|
        0 <= i < v.len() ==> (#[trigger] v[i]).doc_id == ids[i] && is_label(
            s,
            sure,
            ids[i],
            v[i].path@,
        )
}

fn name_docs(registry: &Box<dyn Registry>, ids: &Vec<DocId>) -> (r: Vec<NamedDoc>)
    requires
        registry.wf(),
    ensures
        are_named(r@, ids@, registry.state(), registry.infallible()),
{
    let mut out: Vec<NamedDoc> = Vec::new();
    let mut i: usize = 0;
    while i < ids.len()
        invariant
            registry.wf(),
            i <= ids@.len(),
            out@.len() == i,
            forall|j: int|
                0 <= j < i ==> (#[trigger] out@[j]).doc_id == ids@[j] && is_label(
                    registry.state(),
                    registry.infallible(),
                    ids@[j],
                    out@[j].path@,
                ),
        decreases ids@.len() - i,
    {
        out.push(NamedDoc { doc_id: ids[i], path: doc_path_str(registry, ids[i]) });
        i += 1;
    }
    out
}

// ── Statistics ──────────────────────────────────────────────────────────────

/// The number of edges of a category.
pub open spec fn category_count(s: Seq<Edge>, c: EdgeCategory) -> nat
    decreases s.len(),
{
    if s.len() == 0 {
        0
    } else {
        category_count(s.drop_last(), c) + if s.last().category == c {
            1nat
        } else {
            0nat
        }
    }
}

/// The categories in the order of their names.
pub open spec fn categories() -> Seq<EdgeCategory> {
    seq![
        EdgeCategory::Dependency,
        EdgeCategory::Hierarchy,
        EdgeCategory::Provenance,
        EdgeCategory::Reference,
        EdgeCategory::Workflow,
    ]
}

/// The categories, among the first `n`, that have edges, with the number of edges.
pub open spec fn counted(s: Seq<Edge>, n: int) -> Seq<(Seq<char>, u64)>
    decreases n,
{
    if n <= 0 {
        Seq::empty()
    } else {
        let c = categories()[n - 1];
        let rest = counted(s, n - 1);
        if category_count(s, c) > 0 {
            rest.push((graph::category_name(c), category_count(s, c) as u64))
        } else {
            rest
        }
    }
}

/// Counts with names taken as texts.
pub open spec fn counts_view(v: Seq<(String, u64)>) -> Seq<(Seq<char>, u64)> {
    Seq::new(v.len(), |i: int| (v[i].0@, v[i].1))
}

fn count_category(edges: &Vec<Edge>, c: EdgeCategory) -> (r: u64)
    ensures
        r == category_count(edges@, c),
{
    let mut n: u64 = 0;
    let mut i: usize = 0;
    while i < edges.len()
        invariant
            i <= edges@.len(),
            n <= i,
            n == category_count(edges@.take(i as int), c),
        decreases edges@.len() - i,
    {
        proof {
            let t = edges@.take(i + 1);
            assert(t.drop_last() =~= edges@.take(i as int));
            assert(t.last() == edges@[i as int]);
        }
        if edges[i].category == c {
            n += 1;
        }
        i += 1;
    }
    assert(edges@.take(i as int) =~= edges@);
    n
}

/// The number of edges of each category that has some.
pub fn count_categories(edges: &Vec<Edge>) -> (r: Vec<(String, u64)>)
    ensures
        counts_view(r@) == counted(edges@, 5),
{
    let all = vec![
        EdgeCategory::Dependency,
        EdgeCategory::Hierarchy,
        EdgeCategory::Provenance,
        EdgeCategory::Reference,
        EdgeCategory::Workflow,
    ];
    assert(all@ =~= categories());
    let mut out: Vec<(String, u64)> = Vec::new();
    let mut i: usize = 0;
    assert(counts_view(out@) =~= counted(edges@, 0));
    while i < 5
        invariant
            all@ == categories(),
            i <= 5,
            counts_view(out@) == counted(edges@, i as int),
        decreases 5 - i,
    {
        let c = all[i];
        let n = count_category(edges, c);
        let ghost before = counts_view(out@);
        if n > 0 {
            out.push((c.as_str().to_owned(), n));
            assert(counts_view(out@) =~= before.push((graph::category_name(c), n)));
        }
        i += 1;
    }
    out
}

// ── Questions and answers ───────────────────────────────────────────────────

/// A question to the graph. Paths come with their canonical form, where the file exists.
#[derive(Debug)]
pub enum GraphCommand {
    Stats,
    Neighbours {
        path: String,
        canonical: Option<String>,
        incoming: bool,
        both: bool,
        category: Option<String>,
        limit: u32,
    },
    Expand {
        path: String,
        canonical: Option<String>,
        hops: u8,
        direction: String,
        category: Option<String>,
        max_nodes: Option<u32>,
    },
    Path {
        from: String,
        from_canonical: Option<String>,
        to: String,
        to_canonical: Option<String>,
        category: Option<String>,
    },
    Central { algorithm: String, limit: u32 },
}

/// An answer of the graph.
#[derive(Debug)]
pub enum GraphAnswer {
    Stats { node_count: u64, edge_count: u64, by_category: Vec<(String, u64)> },
    Neighbours { path: String, nodes: Vec<NamedDoc>, edges: Vec<EdgeRef> },
    /// The documents that were reached, and how many hops away each of them is.
    Expanded {
        path: String,
        hops: u8,
        direction: Direction,
        nodes: Vec<NamedDoc>,
        distances: Vec<u64>,
    },
    Path { nodes: Vec<NamedDoc> },
    Ranked { algorithm: String, nodes: Vec<NamedDoc>, degrees: Vec<u64> },
    /// Documents are to be ranked by PageRank, the first `limit` of them.
    PageRank { algorithm: String, iterations: u16, damping: u32, limit: u32 },
}

/// The direction in which neighbours are asked for.
pub open spec fn neighbour_direction_spec(incoming: bool, both: bool) -> Direction {
    if both {
        Direction::Both
    } else if incoming {
        Direction::Incoming
    } else {
        Direction::Outgoing
    }
}

/// The direction in which neighbours are asked for.
pub fn neighbour_direction(incoming: bool, both: bool) -> (r: Direction)
    ensures
        r == neighbour_direction_spec(incoming, both),
{
    if both {
        Direction::Both
    } else if incoming {
        Direction::Incoming
    } else {
        Direction::Outgoing
    }
}

/// The first of some neighbours, at most `limit`.
pub open spec fn limited<T>(s: Seq<T>, limit: u32) -> Seq<T> {
    if limit <= s.len() {
        s.take(limit as int)
    } else {
        s
    }
}

/// The ids of neighbours, each once.
pub open spec fn distinct_ids(s: Seq<(DocId, Edge)>) -> Seq<DocId>
    decreases s.len(),
{
    if s.len() == 0 {
        Seq::empty()
    } else {
        let front = distinct_ids(s.drop_last());
        if front.contains(s.last().0) {
            front
        } else {
            front.push(s.last().0)
        }
    }
}

/// Whether edges are those of neighbours.
pub open spec fn are_edges_of(v: Seq<EdgeRef>, s: Seq<(DocId, Edge)>) -> bool {
    &&& v.len() == s.len()
    &&& forall|i: int|
        0 <= i < v.len() ==> (#[trigger] v[i]).from == s[i].1.from && v[i].to == s[i].1.to
            && v[i].kind@ == s[i].1.kind@ && v[i].weight == s[i].1.weight
}

/// The neighbours of a document, named, with the edges to them.
fn answer_neighbours(
    graph: &InMemoryGraphStore,
    registry: &Box<dyn Registry>,
    from: DocId,
    direction: Direction,
    filter: &EdgeFilter,
    limit: u32,
) -> (r: (Vec<NamedDoc>, Vec<EdgeRef>))
    requires
        registry.wf(),
    ensures
        ({
            let found = limited(
                graph::neighbours_of(graph.edges(), from, direction, *filter),
                limit,
            );
            &&& are_edges_of(r.1@, found)
            &&& are_named(r.0@, distinct_ids(found), registry.state(), registry.infallible())
        }),
{
    let (ids, edges) = graph_query::neighbours(graph, from, direction, filter, Some(limit));
    let nodes = name_docs(registry, &ids);
    (nodes, edges)
}

/// What a question asks for cannot be answered for this reason.
pub open spec fn refusal(
    command: GraphCommand,
    s: RegistryState,
    edges: Seq<Edge>,
) -> Option<Seq<char>> {
    match command {
        GraphCommand::Stats => None,
        GraphCommand::Neighbours { path, canonical, category, .. } => first_of(
            doc_refusal(s, canonical, path),
            category_refusal(category),
        ),
        GraphCommand::Expand { path, canonical, hops, direction, category, max_nodes } => first_of(
            first_of(
                doc_refusal(s, canonical, path),
                first_of(direction_refusal(direction), category_refusal(category)),
            ),
            expand_refusal(
                s,
                edges,
                canonical,
                path,
                hops,
                direction,
                category,
                max_nodes,
            ),
        ),
        GraphCommand::Path { from, from_canonical, to, to_canonical, category } => first_of(
            first_of(
                doc_refusal(s, from_canonical, from),
                first_of(doc_refusal(s, to_canonical, to), category_refusal(category)),
            ),
            path_refusal(s, edges, from_canonical, from, to_canonical, to, category),
        ),
        GraphCommand::Central { algorithm, .. } => if algorithm_named(algorithm@) is Some {
            None
        } else {
            Some(
                "unknown algorithm '"@ + algorithm@ + "'. Valid: pagerank, indegree, outdegree"@,
            )
        },
    }
}

/// The first reason of two.
pub open spec fn first_of(a: Option<Seq<char>>, b: Option<Seq<char>>) -> Option<Seq<char>> {
    match a {
        Some(_) => a,
        None => b,
    }
}

/// Why there is no document at a path.
pub open spec fn doc_refusal(s: RegistryState, canonical: Option<String>, path: String) -> Option<
    Seq<char>,
> {
    match canonical {
        None => Some("path not found: "@ + path@),
        Some(c) => if doc_at(s, c@, path@) is Some {
            None
        } else {
            Some("not indexed: "@ + path@)
        },
    }
}

/// Why a category is none.
pub open spec fn category_refusal(category: Option<String>) -> Option<Seq<char>> {
    match category {
        None => None,
        Some(c) => if graph::category_named(c@) is Some {
            None
        } else {
            Some(
                "unknown category '"@ + c@
                    + "'. Valid: reference, dependency, hierarchy, workflow, provenance"@,
            )
        },
    }
}

/// Why a direction is none.
pub open spec fn direction_refusal(direction: String) -> Option<Seq<char>> {
    if direction_named(direction@) is Some {
        None
    } else {
        Some("unknown direction '"@ + direction@ + "'. Valid: outgoing, incoming, both"@)
    }
}

/// The filter of an optional category.
pub open spec fn category_filter(category: Option<String>) -> EdgeFilter {
    match category {
        None => EdgeFilter::Any,
        Some(c) => EdgeFilter::Category(graph::category_named(c@)->Some_0),
    }
}

/// How an expansion is asked for.
pub open spec fn expansion(
    hops: u8,
    direction: String,
    category: Option<String>,
    max_nodes: Option<u32>,
) -> ExpandSpec {
    ExpandSpec {
        hops,
        direction: direction_named(direction@)->Some_0,
        edge_filter: category_filter(category),
        max_nodes,
        include_seeds: false,
    }
}

/// Why an expansion is refused: it adds more documents than it may.
pub open spec fn expand_refusal(
    s: RegistryState,
    edges: Seq<Edge>,
    canonical: Option<String>,
    path: String,
    hops: u8,
    direction: String,
    category: Option<String>,
    max_nodes: Option<u32>,
) -> Option<Seq<char>> {
    let id = doc_at(s, canonical->Some_0@, path@)->Some_0;
    match max_nodes {
        Some(cap) => if graph::added_by(
            edges,
            set![id],
            expansion(hops, direction, category, max_nodes),
        ).len() > cap {
            Some("expansion exceeded max_nodes cap of "@ + dates::decimal_spec(cap as nat))
        } else {
            None
        },
        None => None,
    }
}

/// Why there is no path.
pub open spec fn path_refusal(
    s: RegistryState,
    edges: Seq<Edge>,
    from_canonical: Option<String>,
    from: String,
    to_canonical: Option<String>,
    to: String,
    category: Option<String>,
) -> Option<Seq<char>> {
    let a = doc_at(s, from_canonical->Some_0@, from@)->Some_0;
    let b = doc_at(s, to_canonical->Some_0@, to@)->Some_0;
    if graph::closure(edges, Direction::Outgoing, category_filter(category), set![a]).contains(b) {
        None
    } else {
        Some(
            "no path found between "@ + dates::decimal_spec(a as nat) + " and "@
                + dates::decimal_spec(b as nat),
        )
    }
}

/// Whether documents are those that an expansion adds, in ascending order, with their distances.
pub open spec fn names_expansion(
    nodes: Seq<NamedDoc>,
    distances: Seq<u64>,
    ids: Seq<DocId>,
    s: RegistryState,
    sure: bool,
    edges: Seq<Edge>,
    seed: DocId,
    spec: ExpandSpec,
) -> bool {
    &&& are_named(nodes, ids, s, sure)
    &&& crate::query::is_listing(ids, graph::added_by(edges, set![seed], spec))
    &&& distances.len() == ids.len()
    &&& forall|i: int|
        0 <= i < ids.len() ==> graph::is_hop(
            edges,
            spec.direction,
            spec.edge_filter,
            set![seed],
            #[trigger] ids[i],
            distances[i] as nat,
        )
}

/// Whether documents are those of a shortest path.
pub open spec fn names_path(
    nodes: Seq<NamedDoc>,
    ids: Seq<DocId>,
    s: RegistryState,
    sure: bool,
    edges: Seq<Edge>,
    filter: EdgeFilter,
    from: DocId,
    to: DocId,
) -> bool {
    are_named(nodes, ids, s, sure) && graph::is_shortest(edges, filter, from, to, ids)
}

/// Whether an answer is that to a question. A registry that is not sure may leave documents without
/// their paths.
pub open spec fn answers(
    answer: GraphAnswer,
    command: GraphCommand,
    s: RegistryState,
    sure: bool,
    edges: Seq<Edge>,
) -> bool {
    match (command, answer) {
        (
            GraphCommand::Stats,
            GraphAnswer::Stats { node_count, edge_count, by_category },
        ) => graph::nodes_of(edges).finite() && node_count == graph::nodes_of(edges).len()
            && edge_count == edges.len() && counts_view(by_category@) == counted(edges, 5),
        (
            GraphCommand::Neighbours { path, canonical, incoming, both, category, limit },
            GraphAnswer::Neighbours { path: p, nodes, edges: es },
        ) => {
            let found = limited(
                graph::neighbours_of(
                    edges,
                    doc_at(s, canonical->Some_0@, path@)->Some_0,
                    neighbour_direction_spec(incoming, both),
                    category_filter(category),
                ),
                limit,
            );
            p@ == path@ && are_named(nodes@, distinct_ids(found), s, sure) && are_edges_of(
                es@,
                found,
            )
        },
        (
            GraphCommand::Expand { path, canonical, hops, direction, category, max_nodes },
            GraphAnswer::Expanded { path: p, hops: h, direction: d, nodes, distances },
        ) => {
            let id = doc_at(s, canonical->Some_0@, path@)->Some_0;
            &&& p@ == path@
            &&& h == hops
            &&& direction_named(direction@) == Some(d)
            &&& exists|ids: Seq<DocId>| #[trigger]
                names_expansion(
                    nodes@,
                    distances@,
                    ids,
                    s,
                    sure,
                    edges,
                    id,
                    expansion(hops, direction, category, max_nodes),
                )
        },
        (
            GraphCommand::Path { from, from_canonical, to, to_canonical, category },
            GraphAnswer::Path { nodes },
        ) => exists|ids: Seq<DocId>| #[trigger]
            names_path(
                nodes@,
                ids,
                s,
                sure,
                edges,
                category_filter(category),
                doc_at(s, from_canonical->Some_0@, from@)->Some_0,
                doc_at(s, to_canonical->Some_0@, to@)->Some_0,
            ),
        (
            GraphCommand::Central { algorithm, limit },
            GraphAnswer::Ranked { algorithm: a, nodes, degrees },
        ) => {
            &&& a@ == algorithm@
            &&& algorithm_named(algorithm@) == Some(CentralityAlgorithm::InDegree)
                || algorithm_named(algorithm@) == Some(CentralityAlgorithm::OutDegree)
            &&& exists|rank: Seq<(DocId, u64)>|
                #![trigger limited(rank, limit)]
                graph::is_ranking(
                    rank,
                    edges,
                    algorithm_named(algorithm@) == Some(CentralityAlgorithm::InDegree),
                    graph::nodes_of(edges),
                ) && degrees@ == limited(rank, limit).map_values(|x: (DocId, u64)| x.1)
                    && are_named(
                    nodes@,
                    limited(rank, limit).map_values(|x: (DocId, u64)| x.0),
                    s,
                    sure,
                )
        },
        (
            GraphCommand::Central { algorithm, limit },
            GraphAnswer::PageRank { algorithm: a, iterations, damping, limit: l },
        ) => a@ == algorithm@ && algorithm_named(algorithm@) == Some(
            CentralityAlgorithm::PageRank { iterations, damping },
        ) && l == limit,
        _ => false,
    }
}

fn opt_as_str(o: &Option<String>) -> (r: Option<&str>)
    ensures
        bitmap::opt_str(r) == types::text_of(*o),
{
    match o {
        Some(s) => Some(s.as_str()),
        None => None,
    }
}

/// Whether a path has no answer because the registry failed: its error is handed on, or the document
/// counts as not indexed.
pub open spec fn doc_unanswered(
    registry: &Box<dyn Registry>,
    canonical: Option<String>,
    path: String,
    m: Seq<char>,
) -> bool {
    &&& !registry.infallible()
    &&& canonical matches Some(c) && {
        ||| exists|e: RegistryError| #[trigger]
            registry.lookup_fails(c@, e) && m == registry::registry_error_message(e)
        ||| m == "not indexed: "@ + path@ && exists|e: RegistryError| #[trigger]
            registry.lookup_fails(path@, e)
    }
}

/// Whether a question has no answer because the registry failed. Statistics and rankings ask it
/// for nothing that they need.
pub open spec fn is_unanswered(
    command: GraphCommand,
    registry: &Box<dyn Registry>,
    m: Seq<char>,
) -> bool {
    match command {
        GraphCommand::Neighbours { path, canonical, .. } => doc_unanswered(
            registry,
            canonical,
            path,
            m,
        ),
        GraphCommand::Expand { path, canonical, .. } => doc_unanswered(
            registry,
            canonical,
            path,
            m,
        ),
        GraphCommand::Path { from, from_canonical, to, to_canonical, .. } => doc_unanswered(
            registry,
            from_canonical,
            from,
            m,
        ) || doc_unanswered(registry, to_canonical, to, m),
        _ => false,
    }
}

/// The document that a question names.
fn asked_doc(registry: &Box<dyn Registry>, canonical: &Option<String>, path: &String) -> (r: Result<
    DocId,
    String,
>)
    requires
        registry.wf(),
    ensures
        match r {
            Ok(id) => doc_refusal(registry.state(), *canonical, *path) is None && doc_at(
                registry.state(),
                canonical->Some_0@,
                path@,
            ) == Some(id),
            Err(m) => doc_refusal(registry.state(), *canonical, *path) == Some(m@)
                || doc_unanswered(registry, *canonical, *path, m@),
        },
{
    match canonical {
        Some(c) => lookup_doc_id(registry, Some(c.as_str()), path.as_str()),
        None => lookup_doc_id(registry, None, path.as_str()),
    }
}

/// Answers a question to the graph, or says why there is no answer.
pub fn cmd_graph(
    command: &GraphCommand,
    graph: &InMemoryGraphStore,
    registry: &Box<dyn Registry>,
) -> (r: Result<GraphAnswer, String>)
    requires
        registry.wf(),
    ensures
        match r {
            Ok(a) => is_whole(a) && refusal(*command, registry.state(), graph.edges()) is None
                && answers(
                a,
                *command,
                registry.state(),
                registry.infallible(),
                graph.edges(),
            ),
            Err(m) => refusal(*command, registry.state(), graph.edges()) == Some(m@)
                || is_unanswered(*command, registry, m@),
        },
{
    match command {
        GraphCommand::Stats => {
            match GraphStore::stats(graph) {
                Ok(g) => Ok(
                    GraphAnswer::Stats {
                        node_count: g.node_count,
                        edge_count: g.edge_count,
                        by_category: g.edges_by_category,
                    },
                ),
                Err(e) => Err(graph_message(&e)),
            }
        },
        GraphCommand::Neighbours { path, canonical, incoming, both, category, limit } => {
            let from = match asked_doc(registry, canonical, path) {
                Ok(id) => id,
                Err(m) => {
                    return Err(m);
                },
            };
            let direction = neighbour_direction(*incoming, *both);
            let filter = match parse_edge_filter(opt_as_str(category)) {
                Ok(f) => f,
                Err(m) => {
                    return Err(m);
                },
            };
            assert(filter == category_filter(*category));
            let (nodes, edges) = answer_neighbours(
                graph,
                registry,
                from,
                direction,
                &filter,
                *limit,
            );
            Ok(GraphAnswer::Neighbours { path: path.clone(), nodes, edges })
        },
        GraphCommand::Expand { path, canonical, hops, direction, category, max_nodes } => {
            let seed = match asked_doc(registry, canonical, path) {
                Ok(id) => id,
                Err(m) => {
                    return Err(m);
                },
            };
            let dir = match parse_direction(direction.as_str()) {
                Ok(d) => d,
                Err(m) => {
                    return Err(m);
                },
            };
            let edge_filter = match parse_edge_filter(opt_as_str(category)) {
                Ok(f) => f,
                Err(m) => {
                    return Err(m);
                },
            };
            assert(edge_filter == category_filter(*category));
            let spec = ExpandSpec {
                hops: *hops,
                direction: dir,
                edge_filter,
                max_nodes: *max_nodes,
                include_seeds: false,
            };
            assert(spec == expansion(*hops, *direction, *category, *max_nodes));
            match graph.expand_from(seed, &spec) {
                Ok((ids, distances)) => {
                    let nodes = name_docs(registry, &ids);
                    let answer = GraphAnswer::Expanded {
                        path: path.clone(),
                        hops: *hops,
                        direction: dir,
                        nodes,
                        distances,
                    };
                    proof {
                        let s = registry.state();
                        let sure = registry.infallible();
                        assert(names_expansion(
                            answer->Expanded_nodes@,
                            answer->distances@,
                            ids@,
                            s,
                            sure,
                            graph.edges(),
                            doc_at(s, canonical->Some_0@, path@)->Some_0,
                            expansion(*hops, *direction, *category, *max_nodes),
                        ));
                        assert(answers(answer, *command, s, sure, graph.edges()));
                    }
                    Ok(answer)
                },
                Err(e) => Err(graph_message(&e)),
            }
        },
        GraphCommand::Path { from, from_canonical, to, to_canonical, category } => {
            let a = match asked_doc(registry, from_canonical, from) {
                Ok(id) => id,
                Err(m) => {
                    return Err(m);
                },
            };
            let b = match asked_doc(registry, to_canonical, to) {
                Ok(id) => id,
                Err(m) => {
                    return Err(m);
                },
            };
            let filter = match parse_edge_filter(opt_as_str(category)) {
                Ok(f) => f,
                Err(m) => {
                    return Err(m);
                },
            };
            assert(filter == category_filter(*category));
            match graph.shortest_path(a, b, &filter) {
                Ok(ids) => {
                    let nodes = name_docs(registry, &ids);
                    let answer = GraphAnswer::Path { nodes };
                    proof {
                        lemma_closure_of_hop(graph.edges(), filter, a, b, ids@);
                        let s = registry.state();
                        let sure = registry.infallible();
                        assert(names_path(
                            answer->Path_nodes@,
                            ids@,
                            s,
                            sure,
                            graph.edges(),
                            category_filter(*category),
                            doc_at(s, from_canonical->Some_0@, from@)->Some_0,
                            doc_at(s, to_canonical->Some_0@, to@)->Some_0,
                        ));
                        assert(answers(answer, *command, s, sure, graph.edges()));
                    }
                    Ok(answer)
                },
                Err(e) => Err(graph_message(&e)),
            }
        },
        GraphCommand::Central { algorithm, limit } => {
            let kind = match parse_algorithm(algorithm.as_str()) {
                Ok(k) => k,
                Err(m) => {
                    return Err(m);
                },
            };
            let incoming = match kind {
                CentralityAlgorithm::PageRank { iterations, damping } => {
                    return Ok(
                        GraphAnswer::PageRank {
                            algorithm: algorithm.clone(),
                            iterations,
                            damping,
                            limit: *limit,
                        },
                    );
                },
                CentralityAlgorithm::InDegree => true,
                CentralityAlgorithm::OutDegree => false,
            };
            let ranked = match graph.degree_centrality(incoming, None) {
                Ok(v) => v,
                Err(_) => Vec::new(),
            };
            let n: usize = if ranked.len() >= *limit as usize {
                *limit as usize
            } else {
                ranked.len()
            };
            let ghost top = limited(ranked@, *limit);
            assert(top =~= ranked@.take(n as int));
            let mut ids: Vec<DocId> = Vec::new();
            let mut degrees: Vec<u64> = Vec::new();
            let mut i: usize = 0;
            while i < n
                invariant
                    n <= ranked@.len(),
                    i <= n,
                    ids@.len() == i,
                    degrees@.len() == i,
                    forall|k: int|
                        0 <= k < i ==> #[trigger] ids@[k] == ranked@[k].0,
                    forall|k: int|
                        0 <= k < i ==> #[trigger] degrees@[k] == ranked@[k].1,
                decreases n - i,
            {
                ids.push(ranked[i].0);
                degrees.push(ranked[i].1);
                i += 1;
            }
            let nodes = name_docs(registry, &ids);
            proof {
                assert(ids@ =~= top.map_values(|x: (DocId, u64)| x.0));
                assert(degrees@ =~= top.map_values(|x: (DocId, u64)| x.1));
                assert(graph::is_ranking(
                    ranked@,
                    graph.edges(),
                    incoming,
                    graph::nodes_of(graph.edges()),
                ));
            }
            Ok(GraphAnswer::Ranked { algorithm: algorithm.clone(), nodes, degrees })
        },
    }
}

/// The end of a shortest path can be reached.
pub proof fn lemma_closure_of_hop(s: Seq<Edge>, f: EdgeFilter, a: DocId, b: DocId, p: Seq<DocId>)
    requires
        graph::is_shortest(s, f, a, b, p),
    ensures
        graph::closure(s, Direction::Outgoing, f, set![a]).contains(b),
{
    assert(graph::within(s, Direction::Outgoing, f, set![a], (p.len() - 1) as nat).contains(b));
}

// ── Lines ───────────────────────────────────────────────────────────────────

/// A number as text.
pub open spec fn num(n: int) -> Seq<char> {
    dates::decimal_spec(n as nat)
}

/// The line of a category.
pub open spec fn category_line(c: (Seq<char>, u64)) -> Seq<char> {
    "    "@ + c.0 + ": "@ + num(c.1 as int)
}

/// The line of a neighbour.
pub open spec fn neighbour_line(d: NamedDoc) -> Seq<char> {
    "  "@ + num(d.doc_id as int) + " "@ + d.path@
}

/// The line of an edge.
pub open spec fn edge_line(e: EdgeRef) -> Seq<char> {
    "  "@ + num(e.from as int) + " -> "@ + num(e.to as int) + " ("@ + e.kind@ + ")"@
}

/// The line of a document that an expansion reached.
pub open spec fn reached_line(d: NamedDoc, hops: u64) -> Seq<char> {
    "  "@ + d.path@ + " (hop "@ + num(hops as int) + ")"@
}

/// A rank, right-aligned to two places.
pub open spec fn rank_text(n: int) -> Seq<char> {
    if num(n).len() < 2 {
        " "@ + num(n)
    } else {
        num(n)
    }
}

/// The line of a ranked document.
pub open spec fn rank_line(rank: int, score: Seq<char>, path: Seq<char>) -> Seq<char> {
    "  "@ + rank_text(rank) + ". "@ + score + "  "@ + path
}

/// A degree with four decimal places.
pub open spec fn degree_text(d: u64) -> Seq<char> {
    num(d as int) + ".0000"@
}

/// The lines of an answer.
pub open spec fn lines_spec(a: GraphAnswer) -> Seq<Seq<char>> {
    match a {
        GraphAnswer::Stats { node_count, edge_count, by_category } => {
            let head = seq![
                "Graph Statistics"@,
                "  nodes:  "@ + num(node_count as int),
                "  edges:  "@ + num(edge_count as int),
            ];
            let counts = counts_view(by_category@);
            if counts.len() == 0 {
                head
            } else {
                head + seq!["  by category:"@] + Seq::new(
                    counts.len(),
                    |i: int| category_line(counts[i]),
                )
            }
        },
        GraphAnswer::Neighbours { path, nodes, edges } => seq![
            num(nodes@.len() as int) + " neighbour(s) of "@ + path@ + ":"@,
        ] + Seq::new(nodes@.len(), |i: int| neighbour_line(nodes@[i])) + Seq::new(
            edges@.len(),
            |i: int| edge_line(edges@[i]),
        ),
        GraphAnswer::Expanded { path, hops, direction, nodes, distances } => seq![
            num(nodes@.len() as int) + " nodes reachable from "@ + path@ + " ("@ + num(hops as int)
                + " hop(s), "@ + direction_name_spec(direction) + "):"@,
        ] + Seq::new(nodes@.len(), |i: int| reached_line(nodes@[i], distances@[i])),
        GraphAnswer::Path { nodes } => seq![
            "Shortest path: "@ + num(
                if nodes@.len() > 0 {
                    nodes@.len() - 1
                } else {
                    0
                },
            ) + " hop(s)"@,
        ] + Seq::new(nodes@.len(), |i: int| "  "@ + nodes@[i].path@),
        GraphAnswer::Ranked { algorithm, nodes, degrees } => seq![
            "Top "@ + num(nodes@.len() as int) + " by "@ + algorithm@ + " centrality:"@,
        ] + Seq::new(
            nodes@.len(),
            |i: int| rank_line(i + 1, degree_text(degrees@[i]), nodes@[i].path@),
        ),
        GraphAnswer::PageRank { .. } => Seq::empty(),
    }
}

fn cat3(a: &str, b: &str, c: &str) -> (r: String)
    ensures
        r@ == a@ + b@ + c@,
{
    let x = text::concat(a, b);
    text::concat(x.as_str(), c)
}

fn cat4(a: &str, b: &str, c: &str, d: &str) -> (r: String)
    ensures
        r@ == a@ + b@ + c@ + d@,
{
    let x = cat3(a, b, c);
    text::concat(x.as_str(), d)
}

fn number(n: u64) -> (r: String)
    ensures
        r@ == num(n as int),
{
    dates::decimal(n)
}

/// A rank, right-aligned to two places.
pub fn rank_label(n: u64) -> (r: String)
    ensures
        r@ == rank_text(n as int),
{
    let s = number(n);
    let v = text::chars_of(s.as_str());
    if v.len() < 2 {
        text::concat(" ", s.as_str())
    } else {
        s
    }
}

/// The line of a ranked document, with its score as text.
pub fn ranking_line(rank: u64, score: &str, path: &str) -> (r: String)
    ensures
        r@ == rank_line(rank as int, score@, path@),
{
    let label = rank_label(rank);
    let a = cat4("  ", label.as_str(), ". ", score);
    cat3(a.as_str(), "  ", path)
}

fn stats_lines(node_count: u64, edge_count: u64, by_category: &Vec<(String, u64)>) -> (r: Vec<String>)
    ensures
        r.deep_view() == ({
            let head = seq![
                "Graph Statistics"@,
                "  nodes:  "@ + num(node_count as int),
                "  edges:  "@ + num(edge_count as int),
            ];
            let counts = counts_view(by_category@);
            if counts.len() == 0 {
                head
            } else {
                head + seq!["  by category:"@] + Seq::new(
                    counts.len(),
                    |i: int| category_line(counts[i]),
                )
            }
        }),
{
    let ghost counts = counts_view(by_category@);
    let mut out: Vec<String> = Vec::new();
    out.push("Graph Statistics".to_owned());
    out.push(text::concat("  nodes:  ", number(node_count).as_str()));
    out.push(text::concat("  edges:  ", number(edge_count).as_str()));
    let ghost head = seq![
        "Graph Statistics"@,
        "  nodes:  "@ + num(node_count as int),
        "  edges:  "@ + num(edge_count as int),
    ];
    assert(out.deep_view() =~= head);
    if by_category.len() > 0 {
        out.push("  by category:".to_owned());
        let ghost base = head + seq!["  by category:"@];
        let ghost rows = Seq::new(counts.len(), |i: int| category_line(counts[i]));
        let mut i: usize = 0;
        assert(out.deep_view() =~= base + rows.take(0));
        while i < by_category.len()
            invariant
                counts == counts_view(by_category@),
                rows == Seq::new(counts.len(), |i: int| category_line(counts[i])),
                i <= by_category@.len(),
                out.deep_view() == base + rows.take(i as int),
            decreases by_category@.len() - i,
        {
            let ghost before = out.deep_view();
            let c = &by_category[i];
            out.push(cat4("    ", c.0.as_str(), ": ", number(c.1).as_str()));
            assert(out.deep_view() =~= before.push(rows[i as int]));
            assert(base + rows.take(i + 1) =~= before.push(rows[i as int]));
            i += 1;
        }
        assert(rows.take(i as int) =~= rows);
    }
    out
}

fn push_neighbours(out: &mut Vec<String>, nodes: &Vec<NamedDoc>)
    ensures
        final(out).deep_view() == old(out).deep_view() + Seq::new(
            nodes@.len(),
            |i: int| neighbour_line(nodes@[i]),
        ),
{
    let ghost base = out.deep_view();
    let ghost rows = Seq::new(nodes@.len(), |i: int| neighbour_line(nodes@[i]));
    let mut i: usize = 0;
    assert(out.deep_view() =~= base + rows.take(0));
    while i < nodes.len()
        invariant
            rows == Seq::new(nodes@.len(), |i: int| neighbour_line(nodes@[i])),
            i <= nodes@.len(),
            out.deep_view() == base + rows.take(i as int),
        decreases nodes@.len() - i,
    {
        let ghost before = out.deep_view();
        let d = &nodes[i];
        out.push(cat4("  ", number(d.doc_id as u64).as_str(), " ", d.path.as_str()));
        assert(out.deep_view() =~= before.push(rows[i as int]));
        assert(base + rows.take(i + 1) =~= before.push(rows[i as int]));
        i += 1;
    }
    assert(rows.take(i as int) =~= rows);
}

fn push_edges(out: &mut Vec<String>, edges: &Vec<EdgeRef>)
    ensures
        final(out).deep_view() == old(out).deep_view() + Seq::new(
            edges@.len(),
            |i: int| edge_line(edges@[i]),
        ),
{
    let ghost base = out.deep_view();
    let ghost rows = Seq::new(edges@.len(), |i: int| edge_line(edges@[i]));
    let mut i: usize = 0;
    assert(out.deep_view() =~= base + rows.take(0));
    while i < edges.len()
        invariant
            rows == Seq::new(edges@.len(), |i: int| edge_line(edges@[i])),
            i <= edges@.len(),
            out.deep_view() == base + rows.take(i as int),
        decreases edges@.len() - i,
    {
        let ghost before = out.deep_view();
        let e = &edges[i];
        let a = cat4(
            "  ",
            number(e.from as u64).as_str(),
            " -> ",
            number(e.to as u64).as_str(),
        );
        out.push(cat4(a.as_str(), " (", e.kind.as_str(), ")"));
        assert(out.deep_view() =~= before.push(rows[i as int]));
        assert(base + rows.take(i + 1) =~= before.push(rows[i as int]));
        i += 1;
    }
    assert(rows.take(i as int) =~= rows);
}

fn push_reached(out: &mut Vec<String>, nodes: &Vec<NamedDoc>, distances: &Vec<u64>)
    requires
        distances@.len() == nodes@.len(),
    ensures
        final(out).deep_view() == old(out).deep_view() + Seq::new(
            nodes@.len(),
            |i: int| reached_line(nodes@[i], distances@[i]),
        ),
{
    let ghost base = out.deep_view();
    let ghost rows = Seq::new(nodes@.len(), |i: int| reached_line(nodes@[i], distances@[i]));
    let mut i: usize = 0;
    assert(out.deep_view() =~= base + rows.take(0));
    while i < nodes.len()
        invariant
            distances@.len() == nodes@.len(),
            rows == Seq::new(nodes@.len(), |i: int| reached_line(nodes@[i], distances@[i])),
            i <= nodes@.len(),
            out.deep_view() == base + rows.take(i as int),
        decreases nodes@.len() - i,
    {
        let ghost before = out.deep_view();
        let d = &nodes[i];
        let a = cat4("  ", d.path.as_str(), " (hop ", number(distances[i]).as_str());
        out.push(text::concat(a.as_str(), ")"));
        assert(out.deep_view() =~= before.push(rows[i as int]));
        assert(base + rows.take(i + 1) =~= before.push(rows[i as int]));
        i += 1;
    }
    assert(rows.take(i as int) =~= rows);
}

fn push_path(out: &mut Vec<String>, nodes: &Vec<NamedDoc>)
    ensures
        final(out).deep_view() == old(out).deep_view() + Seq::new(
            nodes@.len(),
            |i: int| "  "@ + nodes@[i].path@,
        ),
{
    let ghost base = out.deep_view();
    let ghost rows = Seq::new(nodes@.len(), |i: int| "  "@ + nodes@[i].path@);
    let mut i: usize = 0;
    assert(out.deep_view() =~= base + rows.take(0));
    while i < nodes.len()
        invariant
            rows == Seq::new(nodes@.len(), |i: int| "  "@ + nodes@[i].path@),
            i <= nodes@.len(),
            out.deep_view() == base + rows.take(i as int),
        decreases nodes@.len() - i,
    {
        let ghost before = out.deep_view();
        out.push(text::concat("  ", nodes[i].path.as_str()));
        assert(out.deep_view() =~= before.push(rows[i as int]));
        assert(base + rows.take(i + 1) =~= before.push(rows[i as int]));
        i += 1;
    }
    assert(rows.take(i as int) =~= rows);
}

fn push_ranked(out: &mut Vec<String>, nodes: &Vec<NamedDoc>, degrees: &Vec<u64>)
    requires
        degrees@.len() == nodes@.len(),
    ensures
        final(out).deep_view() == old(out).deep_view() + Seq::new(
            nodes@.len(),
            |i: int| rank_line(i + 1, degree_text(degrees@[i]), nodes@[i].path@),
        ),
{
    let ghost base = out.deep_view();
    let ghost rows = Seq::new(
        nodes@.len(),
        |i: int| rank_line(i + 1, degree_text(degrees@[i]), nodes@[i].path@),
    );
    let n = nodes.len();
    let mut i: usize = 0;
    assert(out.deep_view() =~= base + rows.take(0));
    while i < n
        invariant
            n == nodes@.len(),
            degrees@.len() == nodes@.len(),
            rows == Seq::new(
                nodes@.len(),
                |i: int| rank_line(i + 1, degree_text(degrees@[i]), nodes@[i].path@),
            ),
            i <= n,
            out.deep_view() == base + rows.take(i as int),
        decreases n - i,
    {
        let ghost before = out.deep_view();
        let score = text::concat(number(degrees[i]).as_str(), ".0000");
        out.push(ranking_line((i + 1) as u64, score.as_str(), nodes[i].path.as_str()));
        assert(out.deep_view() =~= before.push(rows[i as int]));
        assert(base + rows.take(i + 1) =~= before.push(rows[i as int]));
        i += 1;
    }
    assert(rows.take(i as int) =~= rows);
}

/// Whether the lists of an answer fit each other.
pub open spec fn is_whole(a: GraphAnswer) -> bool {
    match a {
        GraphAnswer::Expanded { nodes, distances, .. } => distances@.len() == nodes@.len(),
        GraphAnswer::Ranked { nodes, degrees, .. } => degrees@.len() == nodes@.len(),
        _ => true,
    }
}

/// The lines of an answer, as they are shown to people.
pub fn answer_lines(a: &GraphAnswer) -> (r: Vec<String>)
    requires
        is_whole(*a),
    ensures
        r.deep_view() == lines_spec(*a),
{
    match a {
        GraphAnswer::Stats { node_count, edge_count, by_category } => stats_lines(
            *node_count,
            *edge_count,
            by_category,
        ),
        GraphAnswer::Neighbours { path, nodes, edges } => {
            let mut out: Vec<String> = Vec::new();
            out.push(
                cat4(number(nodes.len() as u64).as_str(), " neighbour(s) of ", path.as_str(), ":"),
            );
            let ghost head = seq![num(nodes@.len() as int) + " neighbour(s) of "@ + path@ + ":"@];
            assert(out.deep_view() =~= head);
            push_neighbours(&mut out, nodes);
            push_edges(&mut out, edges);
            out
        },
        GraphAnswer::Expanded { path, hops, direction, nodes, distances } => {
            let mut out: Vec<String> = Vec::new();
            let x = cat4(
                number(nodes.len() as u64).as_str(),
                " nodes reachable from ",
                path.as_str(),
                " (",
            );
            let y = cat4(
                x.as_str(),
                number(*hops as u64).as_str(),
                " hop(s), ",
                direction_name(*direction),
            );
            out.push(text::concat(y.as_str(), "):"));
            let ghost head = seq![
                num(nodes@.len() as int) + " nodes reachable from "@ + path@ + " ("@ + num(
                    *hops as int,
                ) + " hop(s), "@ + direction_name_spec(*direction) + "):"@,
            ];
            assert(out.deep_view() =~= head);
            push_reached(&mut out, nodes, distances);
            out
        },
        GraphAnswer::Path { nodes } => {
            let mut out: Vec<String> = Vec::new();
            let hops: u64 = if nodes.len() > 0 {
                (nodes.len() - 1) as u64
            } else {
                0
            };
            out.push(cat3("Shortest path: ", number(hops).as_str(), " hop(s)"));
            let ghost head = seq!["Shortest path: "@ + num(hops as int) + " hop(s)"@];
            assert(out.deep_view() =~= head);
            push_path(&mut out, nodes);
            out
        },
        GraphAnswer::Ranked { algorithm, nodes, degrees } => {
            let mut out: Vec<String> = Vec::new();
            let x = cat4(
                "Top ",
                number(nodes.len() as u64).as_str(),
                " by ",
                algorithm.as_str(),
            );
            out.push(text::concat(x.as_str(), " centrality:"));
            let ghost head = seq![
                "Top "@ + num(nodes@.len() as int) + " by "@ + algorithm@ + " centrality:"@,
            ];
            assert(out.deep_view() =~= head);
            push_ranked(&mut out, nodes, degrees);
            out
        },
        GraphAnswer::PageRank { .. } => {
            let out: Vec<String> = Vec::new();
            assert(out.deep_view() =~= Seq::<Seq<char>>::empty());
            out
        },
    }
}

} // verus!
