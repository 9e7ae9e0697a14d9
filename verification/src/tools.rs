//! What the server tools are asked for, and what they answer.

use vstd::prelude::*;

use crate::base64;
use crate::dates;
use crate::graph;
use crate::graph::{
    CentralityAlgorithm, Direction, Edge, EdgeFilter, ExpandSpec, GraphQueryEngine, GraphStore,
    InMemoryGraphStore, DEFAULT_DAMPING,
};
use crate::graph_commands;
use crate::text;
use crate::types::DocId;

verus! {

// ── Parameters ──────────────────────────────────────────────────────────────

/// A search for documents.
#[derive(Debug)]
pub struct SearchParams {
    /// Bitmap keys.
    pub filters: Vec<String>,
    /// `and` or `or`.
    pub op: String,
    /// Maximum number of results.
    pub limit: u32,
}

/// A question about a file.
#[derive(Debug)]
pub struct InspectParams {
    pub file_path: String,
}

/// A question about the filter keys.
#[derive(Debug)]
pub struct FiltersParams {
    /// `tag`, `folder`, `link`, `type` or `source`.
    pub category: Option<String>,
}

/// A question to the graph.
#[derive(Debug)]
pub struct GraphParams {
    /// `neighbours`, `expand`, `path`, `central` or `stats`.
    pub operation: String,
    pub doc_id: Option<u32>,
    pub to_doc_id: Option<u32>,
    pub hops: u8,
    /// `outgoing`, `incoming` or `both`.
    pub direction: String,
    /// `pagerank`, `indegree` or `outdegree`.
    pub algorithm: String,
    /// Maximum number of results.
    pub k: u32,
}

/// A document to ingest.
#[derive(Debug)]
pub struct RemoteIngestParams {
    /// The path under which it is ingested.
    pub path: String,
    /// Its bytes in base64.
    pub content_b64: String,
}

/// How filters are joined where nothing is said.
pub fn default_op() -> (r: String)
    ensures
        r@ == "and"@,
{
    "and".to_owned()
}

/// How many results a search gives where nothing is said.
pub fn default_limit() -> (r: u32)
    ensures
        r == 20,
{
    20
}

/// How many hops an expansion takes where nothing is said.
pub fn default_hops() -> (r: u8)
    ensures
        r == 1,
{
    1
}

/// Which way edges are followed where nothing is said.
pub fn default_direction() -> (r: String)
    ensures
        r@ == "outgoing"@,
{
    "outgoing".to_owned()
}

/// How documents are ranked where nothing is said.
pub fn default_algorithm() -> (r: String)
    ensures
        r@ == "pagerank"@,
{
    "pagerank".to_owned()
}

/// How many results the graph gives where nothing is said.
pub fn default_k() -> (r: u32)
    ensures
        r == 10,
{
    10
}

/// How many results a semantic search gives where nothing is said.
pub fn default_top_k() -> (r: usize)
    ensures
        r == 10,
{
    10
}

// ── Replies ─────────────────────────────────────────────────────────────────

/// The reply that tells of an error.
pub open spec fn error_reply_spec(message: Seq<char>) -> Seq<char> {
    "{\"error\":\""@ + message + "\"}"@
}

/// The reply that tells of an error.
pub fn error_reply(message: &str) -> (r: String)
    ensures
        r@ == error_reply_spec(message@),
{
    let a = text::concat("{\"error\":\"", message);
    text::concat(a.as_str(), "\"}")
}

/// The reply that tells that a path is not in the index.
pub fn not_found_reply(path: &str) -> (r: String)
    ensures
        r@ == "{\"error\":\"not found\",\"path\":\""@ + path@ + "\"}"@,
{
    let a = text::concat("{\"error\":\"not found\",\"path\":\"", path);
    text::concat(a.as_str(), "\"}")
}

/// The content of a document to ingest, or why it cannot be read.
pub fn ingest_content(params: &RemoteIngestParams) -> (r: Result<Vec<u8>, String>)
    ensures
        match r {
            Ok(b) => base64::decode_spec(params.content_b64@) == Ok::<Seq<u8>, base64::Base64Error>(b@),
            Err(m) => match base64::decode_spec(params.content_b64@) {
                Err(e) => m@ == "invalid base64: "@ + base64::error_message(e),
                Ok(_) => false,
            },
        },
{
    match base64::base64_decode(params.content_b64.as_str()) {
        Ok(b) => Ok(b),
        Err(e) => Err(text::concat("invalid base64: ", e.message().as_str())),
    }
}

/// What the webhook answers to content that cannot be read.
pub fn webhook_content(content_b64: &str) -> (r: Result<Vec<u8>, String>)
    ensures
        match r {
            Ok(b) => base64::decode_spec(content_b64@) == Ok::<Seq<u8>, base64::Base64Error>(b@),
            Err(m) => match base64::decode_spec(content_b64@) {
                Err(e) => m@ == "invalid base64: "@ + base64::webhook_error_message(e),
                Ok(_) => false,
            },
        },
{
    match base64::base64_decode(content_b64) {
        Ok(b) => Ok(b),
        Err(e) => Err(text::concat("invalid base64: ", e.webhook_message().as_str())),
    }
}

// ── The graph tool ──────────────────────────────────────────────────────────

/// What the graph tool answers.
#[derive(Debug)]
pub enum GraphReply {
    Neighbours { found: Vec<(DocId, Edge)> },
    Expanded { ids: Vec<DocId>, distances: Vec<u64> },
    Path { path: Vec<DocId> },
    Central { ranked: Vec<(DocId, u64)> },
    /// Documents are to be ranked by PageRank, the first `k` of them.
    PageRank { iterations: u16, damping: u32, k: u32 },
    Stats { node_count: u64, edge_count: u64, by_category: Vec<(String, u64)> },
}

/// The direction that a word stands for; outgoing where it stands for no other.
pub open spec fn lenient_direction(s: Seq<char>) -> Direction {
    if s == "incoming"@ || s == "in"@ {
        Direction::Incoming
    } else if s == "both"@ {
        Direction::Both
    } else {
        Direction::Outgoing
    }
}

fn read_direction(s: &str) -> (r: Direction)
    ensures
        r == lenient_direction(s@),
{
    if text::str_eq(s, "incoming") || text::str_eq(s, "in") {
        Direction::Incoming
    } else if text::str_eq(s, "both") {
        Direction::Both
    } else {
        Direction::Outgoing
    }
}

/// The ranking that a word stands for; PageRank where it stands for no other.
pub open spec fn lenient_algorithm(s: Seq<char>) -> CentralityAlgorithm {
    if s == "indegree"@ || s == "in"@ {
        CentralityAlgorithm::InDegree
    } else if s == "outdegree"@ || s == "out"@ {
        CentralityAlgorithm::OutDegree
    } else {
        graph_commands::default_page_rank()
    }
}

fn read_algorithm(s: &str) -> (r: CentralityAlgorithm)
    ensures
        r == lenient_algorithm(s@),
{
    if text::str_eq(s, "indegree") || text::str_eq(s, "in") {
        CentralityAlgorithm::InDegree
    } else if text::str_eq(s, "outdegree") || text::str_eq(s, "out") {
        CentralityAlgorithm::OutDegree
    } else {
        CentralityAlgorithm::PageRank { iterations: 100, damping: DEFAULT_DAMPING }
    }
}

/// The operations of the graph tool.
pub enum Operation {
    Neighbours,
    Expand,
    Path,
    Central,
    Stats,
}

/// The operation with a name.
pub open spec fn operation_named(s: Seq<char>) -> Option<Operation> {
    if s == "neighbours"@ {
        Some(Operation::Neighbours)
    } else if s == "expand"@ {
        Some(Operation::Expand)
    } else if s == "path"@ {
        Some(Operation::Path)
    } else if s == "central"@ {
        Some(Operation::Central)
    } else if s == "stats"@ {
        Some(Operation::Stats)
    } else {
        None
    }
}

fn read_operation(s: &str) -> (r: Option<Operation>)
    ensures
        r == operation_named(s@),
{
    if text::str_eq(s, "neighbours") {
        Some(Operation::Neighbours)
    } else if text::str_eq(s, "expand") {
        Some(Operation::Expand)
    } else if text::str_eq(s, "path") {
        Some(Operation::Path)
    } else if text::str_eq(s, "central") {
        Some(Operation::Central)
    } else if text::str_eq(s, "stats") {
        Some(Operation::Stats)
    } else {
        None
    }
}

/// The expansion that the tool asks for: at most 500 documents, without the one it starts from.
pub open spec fn tool_expansion(p: GraphParams) -> ExpandSpec {
    ExpandSpec {
        hops: p.hops,
        direction: lenient_direction(p.direction@),
        edge_filter: EdgeFilter::Any,
        max_nodes: Some(500),
        include_seeds: false,
    }
}

/// Why the tool gives no answer.
pub open spec fn tool_refusal(p: GraphParams, edges: Option<Seq<Edge>>) -> Option<Seq<char>> {
    match edges {
        None => Some("graph engine not wired — start locusd with graph support"@),
        Some(s) => match operation_named(p.operation@) {
            None => Some(
                "unknown operation '"@ + p.operation@
                    + "'. Valid: neighbours, expand, path, central, stats"@,
            ),
            Some(Operation::Neighbours) => if p.doc_id is None {
                Some("doc_id required for neighbours"@)
            } else {
                None
            },
            Some(Operation::Expand) => match p.doc_id {
                None => Some("doc_id required for expand"@),
                Some(id) => if graph::added_by(s, set![id], tool_expansion(p)).len() > 500 {
                    Some("expansion exceeded max_nodes cap of "@ + dates::decimal_spec(500))
                } else {
                    None
                },
            },
            Some(Operation::Path) => match (p.doc_id, p.to_doc_id) {
                (None, _) => Some("doc_id required for path"@),
                (_, None) => Some("to_doc_id required for path"@),
                (Some(a), Some(b)) => if graph::closure(
                    s,
                    Direction::Outgoing,
                    EdgeFilter::Any,
                    set![a],
                ).contains(b) {
                    None
                } else {
                    Some(
                        "no path found between "@ + dates::decimal_spec(a as nat) + " and "@
                            + dates::decimal_spec(b as nat),
                    )
                },
            },
            Some(Operation::Central) => None,
            Some(Operation::Stats) => None,
        },
    }
}

/// Whether the tool's answer is that to its parameters.
pub open spec fn tool_answers(r: GraphReply, p: GraphParams, s: Seq<Edge>) -> bool {
    match (operation_named(p.operation@), r) {
        (Some(Operation::Neighbours), GraphReply::Neighbours { found }) => found@
            == graph_commands::limited(
            graph::neighbours_of(
                s,
                p.doc_id->Some_0,
                lenient_direction(p.direction@),
                EdgeFilter::Any,
            ),
            p.k,
        ),
        (Some(Operation::Expand), GraphReply::Expanded { ids, distances }) => {
            let id = p.doc_id->Some_0;
            &&& crate::query::is_listing(ids@, graph::added_by(s, set![id], tool_expansion(p)))
            &&& distances@.len() == ids@.len()
            &&& forall|i: int|
                0 <= i < ids@.len() ==> graph::is_hop(
                    s,
                    lenient_direction(p.direction@),
                    EdgeFilter::Any,
                    set![id],
                    #[trigger] ids@[i],
                    distances@[i] as nat,
                )
        },
        (Some(Operation::Path), GraphReply::Path { path }) => graph::is_shortest(
            s,
            EdgeFilter::Any,
            p.doc_id->Some_0,
            p.to_doc_id->Some_0,
            path@,
        ),
        (Some(Operation::Central), GraphReply::Central { ranked }) => {
            &&& lenient_algorithm(p.algorithm@) == CentralityAlgorithm::InDegree
                || lenient_algorithm(p.algorithm@) == CentralityAlgorithm::OutDegree
            &&& exists|rank: Seq<(DocId, u64)>|
                ranked@ == #[trigger] graph_commands::limited(rank, p.k) && graph::is_ranking(
                    rank,
                    s,
                    lenient_algorithm(p.algorithm@) == CentralityAlgorithm::InDegree,
                    graph::nodes_of(s),
                )
        },
        (
            Some(Operation::Central),
            GraphReply::PageRank { iterations, damping, k },
        ) => lenient_algorithm(p.algorithm@) == (CentralityAlgorithm::PageRank {
            iterations,
            damping,
        }) && k == p.k,
        (
            Some(Operation::Stats),
            GraphReply::Stats { node_count, edge_count, by_category },
        ) => graph::nodes_of(s).finite() && node_count == graph::nodes_of(s).len() && edge_count
            == s.len() && graph_commands::counts_view(by_category@) == graph_commands::counted(s, 5),
        _ => false,
    }
}

/// The edges of a graph, where there is one.
pub open spec fn opt_edges(g: Option<&InMemoryGraphStore>) -> Option<Seq<Edge>> {
    match g {
        Some(g) => Some(g.edges()),
        None => None,
    }
}

/// Answers a question to the graph, or says why there is no answer.
pub fn graph_query(params: &GraphParams, graph: Option<&InMemoryGraphStore>) -> (r: Result<
    GraphReply,
    String,
>)
    ensures
        match r {
            Ok(a) => tool_refusal(*params, opt_edges(graph)) is None && tool_answers(
                a,
                *params,
                graph->Some_0.edges(),
            ),
            Err(m) => tool_refusal(*params, opt_edges(graph)) == Some(m@),
        },
{
    let g = match graph {
        Some(g) => g,
        None => {
            return Err("graph engine not wired — start locusd with graph support".to_owned());
        },
    };
    let direction = read_direction(params.direction.as_str());
    match read_operation(params.operation.as_str()) {
        Some(Operation::Neighbours) => {
            let id = match params.doc_id {
                Some(id) => id,
                None => {
                    return Err("doc_id required for neighbours".to_owned());
                },
            };
            let mut found = match g.neighbours(id, direction, &EdgeFilter::Any) {
                Ok(v) => v,
                Err(_) => Vec::new(),
            };
            let ghost all = found@;
            if found.len() > params.k as usize {
                found.truncate(params.k as usize);
            }
            assert(found@ =~= graph_commands::limited(all, params.k));
            Ok(GraphReply::Neighbours { found })
        },
        Some(Operation::Expand) => {
            let id = match params.doc_id {
                Some(id) => id,
                None => {
                    return Err("doc_id required for expand".to_owned());
                },
            };
            let spec = ExpandSpec {
                hops: params.hops,
                direction,
                edge_filter: EdgeFilter::Any,
                max_nodes: Some(500),
                include_seeds: false,
            };
            match g.expand_from(id, &spec) {
                Ok((ids, distances)) => Ok(GraphReply::Expanded { ids, distances }),
                Err(e) => Err(graph_commands::graph_message(&e)),
            }
        },
        Some(Operation::Path) => {
            let from = match params.doc_id {
                Some(id) => id,
                None => {
                    return Err("doc_id required for path".to_owned());
                },
            };
            let to = match params.to_doc_id {
                Some(id) => id,
                None => {
                    return Err("to_doc_id required for path".to_owned());
                },
            };
            match g.shortest_path(from, to, &EdgeFilter::Any) {
                Ok(path) => {
                    proof {
                        graph_commands::lemma_closure_of_hop(
                            g.edges(),
                            EdgeFilter::Any,
                            from,
                            to,
                            path@,
                        );
                    }
                    Ok(GraphReply::Path { path })
                },
                Err(e) => Err(graph_commands::graph_message(&e)),
            }
        },
        Some(Operation::Central) => {
            let incoming = match read_algorithm(params.algorithm.as_str()) {
                CentralityAlgorithm::PageRank { iterations, damping } => {
                    return Ok(GraphReply::PageRank { iterations, damping, k: params.k });
                },
                CentralityAlgorithm::InDegree => true,
                CentralityAlgorithm::OutDegree => false,
            };
            let mut ranked = match g.degree_centrality(incoming, None) {
                Ok(v) => v,
                Err(_) => Vec::new(),
            };
            let ghost rank = ranked@;
            if ranked.len() > params.k as usize {
                ranked.truncate(params.k as usize);
            }
            assert(ranked@ =~= graph_commands::limited(rank, params.k));
            Ok(GraphReply::Central { ranked })
        },
        Some(Operation::Stats) => {
            match GraphQueryEngine::stats(g) {
                Ok(st) => Ok(
                    GraphReply::Stats {
                        node_count: st.node_count,
                        edge_count: st.edge_count,
                        by_category: st.edges_by_category,
                    },
                ),
                Err(e) => Err(graph_commands::graph_message(&e)),
            }
        },
        None => {
            let a = text::concat("unknown operation '", params.operation.as_str());
            Err(
                text::concat(
                    a.as_str(),
                    "'. Valid: neighbours, expand, path, central, stats",
                ),
            )
        },
    }
}

} // verus!
