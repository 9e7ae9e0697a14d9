//! The link graph: typed edges between documents, traversal and degree centrality.
//!
//! Graph expansion takes and gives sets of document ids, so that it composes with bitmap filters.

use roaring::RoaringBitmap;
use vstd::prelude::*;

use crate::bitmap;
use crate::bitmap::BitmapError;
use crate::clock;
use crate::graph_commands;
use crate::graph_query;
use crate::idmap::IdMap;
use crate::paths;
use crate::registry::RegistryError;
use crate::text;
use crate::types::{DocId, Timestamp};

verus! {

// ── Edges ───────────────────────────────────────────────────────────────────

/// Category of an edge, whatever source it comes from.
#[derive(Clone, Copy, Debug, PartialEq, Eq, Hash, Structural)]
pub enum EdgeCategory {
    /// Mentions or refers to. The default for narrative links.
    Reference,
    /// Requires, imports or uses.
    Dependency,
    /// Containment: parent and child.
    Hierarchy,
    /// Process relationship between work items.
    Workflow,
    /// Lineage: was generated from.
    Provenance,
}

/// The name of a category.
pub open spec fn category_name(c: EdgeCategory) -> Seq<char> {
    match c {
        EdgeCategory::Reference => "reference"@,
        EdgeCategory::Dependency => "dependency"@,
        EdgeCategory::Hierarchy => "hierarchy"@,
        EdgeCategory::Workflow => "workflow"@,
        EdgeCategory::Provenance => "provenance"@,
    }
}

/// The category with a name.
pub open spec fn category_named(s: Seq<char>) -> Option<EdgeCategory> {
    if s == "reference"@ {
        Some(EdgeCategory::Reference)
    } else if s == "dependency"@ {
        Some(EdgeCategory::Dependency)
    } else if s == "hierarchy"@ {
        Some(EdgeCategory::Hierarchy)
    } else if s == "workflow"@ {
        Some(EdgeCategory::Workflow)
    } else if s == "provenance"@ {
        Some(EdgeCategory::Provenance)
    } else {
        None
    }
}

/// A category is the one that its name stands for.
pub proof fn law_category_round_trip(c: EdgeCategory)
    ensures
        category_named(category_name(c)) == Some(c),
{
    reveal_strlit("reference");
    reveal_strlit("dependency");
    reveal_strlit("hierarchy");
    reveal_strlit("workflow");
    reveal_strlit("provenance");
    assert("reference"@[0] == 'r');
    assert("dependency"@[0] == 'd');
    assert("hierarchy"@[0] == 'h');
    assert("workflow"@[0] == 'w');
    assert("provenance"@[0] == 'p');
}

impl EdgeCategory {
    /// The name of the category.
    pub fn as_str(self) -> (r: &'static str)
        ensures
            r@ == category_name(self),
    {
        match self {
            EdgeCategory::Reference => "reference",
            EdgeCategory::Dependency => "dependency",
            EdgeCategory::Hierarchy => "hierarchy",
            EdgeCategory::Workflow => "workflow",
            EdgeCategory::Provenance => "provenance",
        }
    }

    /// The category with a name.
    pub fn from_name(s: &str) -> (r: Result<EdgeCategory, GraphError>)
        ensures
            match r {
                Ok(c) => category_named(s@) == Some(c),
                Err(GraphError::Storage(m)) => category_named(s@) is None && m@
                    == "unknown edge category: "@ + s@,
                Err(_) => false,
            },
    {
        if text::str_eq(s, "reference") {
            Ok(EdgeCategory::Reference)
        } else if text::str_eq(s, "dependency") {
            Ok(EdgeCategory::Dependency)
        } else if text::str_eq(s, "hierarchy") {
            Ok(EdgeCategory::Hierarchy)
        } else if text::str_eq(s, "workflow") {
            Ok(EdgeCategory::Workflow)
        } else if text::str_eq(s, "provenance") {
            Ok(EdgeCategory::Provenance)
        } else {
            Err(GraphError::Storage(text::concat("unknown edge category: ", s)))
        }
    }
}

impl std::str::FromStr for EdgeCategory {
    type Err = GraphError;

    fn from_str(s: &str) -> Result<Self, GraphError> {
        EdgeCategory::from_name(s)
    }
}

/// A typed directed edge between two documents.
#[derive(Debug)]
pub struct Edge {
    pub from: DocId,
    pub to: DocId,
    pub category: EdgeCategory,
    /// Such as `ref:wikilink`, `dep:import`, `flow:blocks`.
    pub kind: String,
    /// The bits of a single-precision weight; that of one is the default.
    pub weight: u32,
    /// Byte offset of the link in the source file.
    pub byte_offset: Option<u32>,
    pub created_at: Timestamp,
}

/// The bits of the single-precision number one.
pub const DEFAULT_WEIGHT: u32 = 0x3f80_0000;

impl Clone for Edge {
    fn clone(&self) -> (r: Self)
        ensures
            r == *self,
    {
        Edge {
            from: self.from,
            to: self.to,
            category: self.category,
            kind: self.kind.clone(),
            weight: self.weight,
            byte_offset: self.byte_offset,
            created_at: self.created_at,
        }
    }
}

/// An edge whose target is not known yet.
#[derive(Debug)]
pub struct UnresolvedEdge {
    pub from: DocId,
    pub category: EdgeCategory,
    pub kind: String,
    /// Title of a wikilink, path of an import, id of a page.
    pub target_ref: String,
    pub byte_offset: Option<u32>,
}

impl Clone for UnresolvedEdge {
    fn clone(&self) -> (r: Self)
        ensures
            r == *self,
    {
        UnresolvedEdge {
            from: self.from,
            category: self.category,
            kind: self.kind.clone(),
            target_ref: self.target_ref.clone(),
            byte_offset: self.byte_offset,
        }
    }
}

/// Which way edges are followed.
#[derive(Clone, Copy, Debug, PartialEq, Eq, Structural)]
pub enum Direction {
    /// From source to target.
    Outgoing,
    /// From target to source.
    Incoming,
    Both,
}

/// Which edges are followed.
#[derive(Debug)]
pub enum EdgeFilter {
    Any,
    Category(EdgeCategory),
    /// Edges of one of these kinds.
    Kinds(Vec<String>),
    /// Edges that all filters let pass.
    And(Vec<EdgeFilter>),
    /// Edges that some filter lets pass.
    Or(Vec<EdgeFilter>),
}

/// Whether all of some answers are yes.
pub open spec fn all_yes(s: Seq<bool>) -> bool {
    forall|i: int| 0 <= i < s.len() ==> #[trigger] s[i]
}

/// Whether some answer is yes.
pub open spec fn some_yes(s: Seq<bool>) -> bool {
    exists|i: int| 0 <= i < s.len() && #[trigger] s[i]
}

/// Whether a filter lets an edge pass.
pub open spec fn passes(f: EdgeFilter, e: Edge) -> bool
    decreases f,
{
    match f {
        EdgeFilter::Any => true,
        EdgeFilter::Category(c) => e.category == c,
        EdgeFilter::Kinds(kinds) => kinds.deep_view().contains(e.kind@),
        EdgeFilter::And(v) => all_yes(passes_each(v, e)),
        EdgeFilter::Or(v) => some_yes(passes_each(v, e)),
    }
}

/// Whether each filter of a list lets an edge pass.
pub open spec fn passes_each(v: Vec<EdgeFilter>, e: Edge) -> Seq<bool>
    decreases v,
{
    Seq::new(v@.len(), |i: int| 0 <= i < v@.len() && passes(v@[i], e))
}

impl EdgeFilter {
    /// Whether the filter lets an edge pass.
    pub fn matches(&self, edge: &Edge) -> (r: bool)
        ensures
            r == passes(*self, *edge),
        decreases *self,
    {
        match self {
            EdgeFilter::Any => true,
            EdgeFilter::Category(c) => edge.category == *c,
            EdgeFilter::Kinds(kinds) => text::contains_string(kinds, edge.kind.as_str()),
            EdgeFilter::And(filters) => all_match(filters, edge),
            EdgeFilter::Or(filters) => some_match(filters, edge),
        }
    }
}

fn all_match(filters: &Vec<EdgeFilter>, edge: &Edge) -> (r: bool)
    ensures
        r == all_yes(passes_each(*filters, *edge)),
    decreases *filters,
{
    let ghost each = passes_each(*filters, *edge);
    let mut i: usize = 0;
    while i < filters.len()
        invariant
            i <= filters@.len(),
            each == passes_each(*filters, *edge),
            forall|j: int| 0 <= j < i ==> #[trigger] each[j],
        decreases filters@.len() - i,
    {
        let yes = filters[i].matches(edge);
        assert(each[i as int] == yes);
        if !yes {
            return false;
        }
        i += 1;
    }
    true
}

fn some_match(filters: &Vec<EdgeFilter>, edge: &Edge) -> (r: bool)
    ensures
        r == some_yes(passes_each(*filters, *edge)),
    decreases *filters,
{
    let ghost each = passes_each(*filters, *edge);
    let mut i: usize = 0;
    while i < filters.len()
        invariant
            i <= filters@.len(),
            each == passes_each(*filters, *edge),
            forall|j: int| 0 <= j < i ==> !#[trigger] each[j],
        decreases filters@.len() - i,
    {
        let yes = filters[i].matches(edge);
        assert(each[i as int] == yes);
        if yes {
            return true;
        }
        i += 1;
    }
    false
}

/// How a set of documents is expanded.
#[derive(Debug)]
pub struct ExpandSpec {
    pub hops: u8,
    pub direction: Direction,
    pub edge_filter: EdgeFilter,
    /// Most documents that may be added.
    pub max_nodes: Option<u32>,
    /// Whether the documents that the expansion starts from are part of the result.
    pub include_seeds: bool,
}

impl Default for ExpandSpec {
    fn default() -> (r: Self)
        ensures
            r == (ExpandSpec {
                hops: 1,
                direction: Direction::Outgoing,
                edge_filter: EdgeFilter::Any,
                max_nodes: Some(500),
                include_seeds: true,
            }),
    {
        ExpandSpec {
            hops: 1,
            direction: Direction::Outgoing,
            edge_filter: EdgeFilter::Any,
            max_nodes: Some(500),
            include_seeds: true,
        }
    }
}

/// How documents are ranked.
#[derive(Clone, Copy, Debug, PartialEq, Eq, Structural)]
pub enum CentralityAlgorithm {
    InDegree,
    OutDegree,
    /// The damping is given by the bits of a single-precision number.
    PageRank { iterations: u16, damping: u32 },
}

/// The bits of the single-precision number 0.85.
pub const DEFAULT_DAMPING: u32 = 0x3f59_999a;

impl Default for CentralityAlgorithm {
    fn default() -> (r: Self)
        ensures
            r == (CentralityAlgorithm::PageRank { iterations: 100, damping: DEFAULT_DAMPING }),
    {
        CentralityAlgorithm::PageRank { iterations: 100, damping: DEFAULT_DAMPING }
    }
}

/// A graph query.
#[derive(Debug)]
pub struct GraphQueryRequest {
    pub op: GraphOp,
    pub edge_filter: EdgeFilter,
    pub limit: Option<u32>,
}

/// What a graph query asks for.
#[derive(Debug)]
pub enum GraphOp {
    /// Neighbours one hop away.
    Neighbours { from: DocId, direction: Direction },
    /// Expansion of documents.
    Expand { seeds: Vec<DocId>, spec: ExpandSpec },
    /// Shortest path between two documents.
    ShortestPath { from: DocId, to: DocId },
    /// The documents that rank highest.
    TopCentral { algorithm: CentralityAlgorithm, restrict_to: Option<Vec<DocId>>, k: u32 },
    /// All documents that can be reached.
    Reachable { from: DocId, direction: Direction },
}

/// Result of a graph query.
#[derive(Debug)]
pub struct GraphQueryResult {
    pub nodes: Vec<GraphNodeRef>,
    pub edges: Vec<EdgeRef>,
    pub elapsed_us: u64,
}

/// A document in the result of a graph query.
#[derive(Debug)]
pub struct GraphNodeRef {
    pub doc_id: DocId,
    pub file_path: String,
    pub source_type: String,
    pub label: Option<String>,
    /// The degree, where documents were ranked by it.
    pub score: Option<u64>,
    /// Hops from the start of an expansion.
    pub hop_distance: Option<u8>,
}

/// An edge in the result of a graph query.
#[derive(Debug)]
pub struct EdgeRef {
    pub from: DocId,
    pub to: DocId,
    pub kind: String,
    pub weight: u32,
}

/// Statistics of the graph.
#[derive(Debug)]
pub struct GraphStats {
    pub node_count: u64,
    pub edge_count: u64,
    /// Number of edges of each category that occurs, by name.
    pub edges_by_category: Vec<(String, u64)>,
    pub in_memory_bytes: u64,
    pub last_rebuilt: Option<Timestamp>,
}

/// Errors of the graph.
#[derive(Debug)]
pub enum GraphError {
    Storage(String),
    NotFound(DocId),
    ExpansionLimit(u32),
    NoPath(DocId, DocId),
    Bitmap(BitmapError),
    Registry(RegistryError),
}

// ── The store ───────────────────────────────────────────────────────────────

/// The edges that are kept.
pub open spec fn kept(s: Seq<Edge>, keep: spec_fn(Edge) -> bool) -> Seq<Edge>
    decreases s.len(),
{
    if s.len() == 0 {
        s
    } else if keep(s.last()) {
        kept(s.drop_last(), keep).push(s.last())
    } else {
        kept(s.drop_last(), keep)
    }
}

/// The edges that start or end at a document.
pub open spec fn edges_at(s: Seq<Edge>, id: DocId) -> Seq<Edge> {
    kept(s, |e: Edge| e.from == id || e.to == id)
}

/// The edges that neither start nor end at a document.
pub open spec fn edges_apart(s: Seq<Edge>, id: DocId) -> Seq<Edge> {
    kept(s, |e: Edge| e.from != id && e.to != id)
}

/// The edges that do not start at a document.
pub open spec fn edges_not_from(s: Seq<Edge>, id: DocId) -> Seq<Edge> {
    kept(s, |e: Edge| e.from != id)
}

/// Whether a reference stands for a target: it is the target itself, or the stem of its file name.
pub open spec fn is_target(reference: Seq<char>, target: Seq<char>) -> bool {
    reference == target || paths::file_stem_spec(target) == Some(reference)
}

/// The edge that an unresolved one becomes.
pub open spec fn resolved_edge(u: UnresolvedEdge, to: DocId, now: Timestamp) -> Edge {
    Edge {
        from: u.from,
        to,
        category: u.category,
        kind: u.kind,
        weight: DEFAULT_WEIGHT,
        byte_offset: u.byte_offset,
        created_at: now,
    }
}

/// The edges that unresolved ones become when their target is known.
pub open spec fn promoted(
    s: Seq<UnresolvedEdge>,
    to: DocId,
    target: Seq<char>,
    now: Timestamp,
) -> Seq<Edge>
    decreases s.len(),
{
    if s.len() == 0 {
        Seq::empty()
    } else if is_target(s.last().target_ref@, target) {
        promoted(s.drop_last(), to, target, now).push(resolved_edge(s.last(), to, now))
    } else {
        promoted(s.drop_last(), to, target, now)
    }
}

/// The unresolved edges that stay when a target is known.
pub open spec fn still_pending(s: Seq<UnresolvedEdge>, target: Seq<char>) -> Seq<UnresolvedEdge>
    decreases s.len(),
{
    if s.len() == 0 {
        s
    } else if is_target(s.last().target_ref@, target) {
        still_pending(s.drop_last(), target)
    } else {
        still_pending(s.drop_last(), target).push(s.last())
    }
}

/// Whether edges are followed from source to target.
pub open spec fn goes_out(d: Direction) -> bool {
    d == Direction::Outgoing || d == Direction::Both
}

/// Whether edges are followed from target to source.
pub open spec fn goes_in(d: Direction) -> bool {
    d == Direction::Incoming || d == Direction::Both
}

/// The neighbours of a document along edges, with the edges.
pub open spec fn neighbours_of(s: Seq<Edge>, id: DocId, d: Direction, f: EdgeFilter) -> Seq<
    (DocId, Edge),
>
    decreases s.len(),
{
    if s.len() == 0 {
        Seq::empty()
    } else {
        let e = s.last();
        let rest = neighbours_of(s.drop_last(), id, d, f);
        let out = if passes(f, e) && e.from == id && goes_out(d) {
            rest.push((e.to, e))
        } else {
            rest
        };
        if passes(f, e) && e.to == id && goes_in(d) {
            out.push((e.from, e))
        } else {
            out
        }
    }
}

/// The documents that have an edge.
pub open spec fn nodes_of(s: Seq<Edge>) -> Set<DocId> {
    Set::new(|x: DocId| exists|i: int| 0 <= i < s.len() && is_end(#[trigger] s[i], x))
}

/// Whether an edge starts or ends at a document.
pub open spec fn is_end(e: Edge, x: DocId) -> bool {
    e.from == x || e.to == x
}

/// Storage of the link graph. A backend may fail; where an operation succeeds, it does what is
/// stated here.
pub trait GraphStore: Send + Sync {
    /// The edges, in the order in which they were inserted.
    spec fn edges(&self) -> Seq<Edge>;

    /// The edges whose target is not known.
    spec fn pending(&self) -> Seq<UnresolvedEdge>;

    /// Whether operations of this backend always succeed.
    spec fn infallible(&self) -> bool;

    /// When the graph in memory was last rebuilt; none where it was dropped since, or never was.
    spec fn rebuilt(&self) -> Option<Timestamp>;

    /// How many bytes the graph takes in memory, as the backend counts them.
    spec fn memory(&self) -> u64;

    /// Inserts an edge.
    fn insert_edge(&mut self, edge: Edge) -> (r: Result<(), GraphError>)
        ensures
            final(self).infallible() == old(self).infallible(),
            old(self).infallible() ==> r is Ok,
            r is Err ==> final(self).edges() == old(self).edges() && final(self).pending() == old(
                self,
            ).pending(),
            r is Ok ==> final(self).edges() == old(self).edges().push(edge)
                && final(self).pending() == old(self).pending(),
    ;

    /// Inserts edges.
    fn bulk_insert_edges(&mut self, edges: Vec<Edge>) -> (r: Result<(), GraphError>)
        ensures
            final(self).infallible() == old(self).infallible(),
            old(self).infallible() ==> r is Ok,
            r is Err ==> final(self).edges() == old(self).edges() && final(self).pending() == old(
                self,
            ).pending(),
            r is Ok ==> final(self).edges() == old(self).edges() + edges@
                && final(self).pending() == old(self).pending(),
    ;

    /// Inserts an edge whose target is not known.
    fn insert_unresolved(&mut self, edge: UnresolvedEdge) -> (r: Result<(), GraphError>)
        ensures
            final(self).infallible() == old(self).infallible(),
            old(self).infallible() ==> r is Ok,
            r is Err ==> final(self).edges() == old(self).edges() && final(self).pending() == old(
                self,
            ).pending(),
            r is Ok ==> final(self).pending() == old(self).pending().push(edge)
                && final(self).edges() == old(self).edges(),
    ;

    /// Turns the unresolved edges to a target, which is now a document, into edges, and returns
    /// their number.
    fn resolve_pending(&mut self, doc_id: DocId, link_target: &str) -> (r: Result<u32, GraphError>)
        ensures
            final(self).infallible() == old(self).infallible(),
            old(self).infallible() ==> r is Ok,
            r is Err ==> final(self).edges() == old(self).edges() && final(self).pending() == old(
                self,
            ).pending(),
            r matches Ok(n) ==> {
                &&& final(self).pending() == still_pending(old(self).pending(), link_target@)
                &&& exists|now: Timestamp|
                    final(self).edges() == old(self).edges() + #[trigger] promoted(
                        old(self).pending(),
                        doc_id,
                        link_target@,
                        now,
                    ) && n == promoted(old(self).pending(), doc_id, link_target@, now).len()
                        % 0x1_0000_0000
            },
    ;

    /// Removes the edges that start or end at a document, and returns their number.
    fn remove_doc_edges(&mut self, doc_id: DocId) -> (r: Result<u32, GraphError>)
        ensures
            final(self).infallible() == old(self).infallible(),
            old(self).infallible() ==> r is Ok,
            r is Err ==> final(self).edges() == old(self).edges() && final(self).pending() == old(
                self,
            ).pending(),
            r matches Ok(n) ==> {
                &&& final(self).edges() == edges_apart(old(self).edges(), doc_id)
                &&& final(self).pending() == old(self).pending()
                &&& n == (old(self).edges().len() - final(self).edges().len()) % 0x1_0000_0000
            },
    ;

    /// Replaces the edges that start at a document.
    fn replace_outgoing(&mut self, doc_id: DocId, edges: Vec<Edge>) -> (r: Result<(), GraphError>)
        ensures
            final(self).infallible() == old(self).infallible(),
            old(self).infallible() ==> r is Ok,
            r is Err ==> final(self).edges() == old(self).edges() && final(self).pending() == old(
                self,
            ).pending(),
            r is Ok ==> final(self).edges() == edges_not_from(old(self).edges(), doc_id) + edges@
                && final(self).pending() == old(self).pending(),
    ;

    /// The neighbours of a document one hop away, with the edges to them.
    fn neighbours(&self, doc_id: DocId, direction: Direction, filter: &EdgeFilter) -> (r: Result<
        Vec<(DocId, Edge)>,
        GraphError,
    >)
        ensures
            self.infallible() ==> r is Ok,
            r matches Ok(v) ==> v@ == neighbours_of(self.edges(), doc_id, direction, *filter),
    ;

    /// The edges that start or end at a document.
    fn doc_edges(&self, doc_id: DocId) -> (r: Result<Vec<Edge>, GraphError>)
        ensures
            self.infallible() ==> r is Ok,
            r matches Ok(v) ==> v@ == edges_at(self.edges(), doc_id),
    ;

    /// The number of edges.
    fn edge_count(&self) -> (r: Result<u64, GraphError>)
        ensures
            self.infallible() ==> r is Ok,
            r matches Ok(n) ==> n == self.edges().len(),
    ;

    /// The number of documents that have an edge.
    fn node_count(&self) -> (r: Result<u64, GraphError>)
        ensures
            self.infallible() ==> r is Ok,
            r matches Ok(n) ==> nodes_of(self.edges()).finite() && n == nodes_of(
                self.edges(),
            ).len(),
    ;

    /// Rebuilds the graph in memory from what is stored, and returns the number of its edges.
    fn rebuild_in_memory(&mut self) -> (r: Result<u64, GraphError>)
        ensures
            final(self).infallible() == old(self).infallible(),
            old(self).infallible() ==> r is Ok,
            final(self).edges() == old(self).edges(),
            final(self).pending() == old(self).pending(),
            match r {
                Ok(n) => n == old(self).edges().len() && final(self).rebuilt() is Some,
                Err(_) => final(self).rebuilt() == old(self).rebuilt(),
            },
    ;

    /// Drops the graph in memory. What is stored is still there, and is read from then on.
    fn drop_in_memory(&mut self)
        ensures
            final(self).infallible() == old(self).infallible(),
            final(self).edges() == old(self).edges(),
            final(self).pending() == old(self).pending(),
            final(self).rebuilt() is None,
    ;

    /// Statistics of the graph.
    fn stats(&self) -> (r: Result<GraphStats, GraphError>)
        ensures
            self.infallible() ==> r is Ok,
            r matches Ok(g) ==> are_stats(g, self.edges()) && g.last_rebuilt == self.rebuilt()
                && g.in_memory_bytes == self.memory(),
    ;
}

/// Whether statistics count the nodes and edges of a graph.
pub open spec fn are_stats(g: GraphStats, s: Seq<Edge>) -> bool {
    &&& nodes_of(s).finite()
    &&& g.node_count == nodes_of(s).len()
    &&& g.edge_count == s.len()
    &&& graph_commands::counts_view(g.edges_by_category@) == graph_commands::counted(s, 5)
}

/// What an edge takes in memory, roughly.
pub const EDGE_BYTES: u64 = 48;

/// The link graph in memory.
#[derive(Debug)]
pub struct InMemoryGraphStore {
    edges: Vec<Edge>,
    pending: Vec<UnresolvedEdge>,
    rebuilt: Option<Timestamp>,
}

impl InMemoryGraphStore {
    /// A graph without edges.
    pub fn new() -> (r: Self)
        ensures
            r.edges() == Seq::<Edge>::empty(),
            r.pending() == Seq::<UnresolvedEdge>::empty(),
            r.rebuilt() is None,
    {
        InMemoryGraphStore { edges: Vec::new(), pending: Vec::new(), rebuilt: None }
    }

    /// The documents that have an edge.
    fn node_ids(&self) -> (r: IdMap<bool>)
        ensures
            r.wf(),
            r@.dom() == nodes_of(self.edges()),
    {
        let mut seen: IdMap<bool> = IdMap::new();
        let mut i: usize = 0;
        while i < self.edges.len()
            invariant
                i <= self.edges@.len(),
                seen.wf(),
                forall|x: DocId| #[trigger]
                    seen@.dom().contains(x) <==> exists|j: int|
                        0 <= j < i && is_end(#[trigger] self.edges@[j], x),
            decreases self.edges@.len() - i,
        {
            let ghost before = seen@;
            seen.insert(self.edges[i].from, true);
            seen.insert(self.edges[i].to, true);
            proof {
                assert forall|x: DocId| #[trigger]
                    seen@.dom().contains(x) <==> exists|j: int|
                        0 <= j < i + 1 && is_end(#[trigger] self.edges@[j], x) by {
                    if before.dom().contains(x) {
                        let j = choose|j: int| 0 <= j < i && is_end(#[trigger] self.edges@[j], x);
                        assert(0 <= j < i + 1 && is_end(self.edges@[j], x));
                    }
                    if is_end(self.edges@[i as int], x) {
                        assert(0 <= i < i + 1 && is_end(self.edges@[i as int], x));
                    }
                    if exists|j: int| 0 <= j < i + 1 && is_end(#[trigger] self.edges@[j], x) {
                        let j = choose|j: int|
                            0 <= j < i + 1 && is_end(#[trigger] self.edges@[j], x);
                        if j < i {
                            assert(before.dom().contains(x));
                        }
                    }
                }
            }
            i += 1;
        }
        assert(seen@.dom() =~= nodes_of(self.edges()));
        seen
    }
}

impl Default for InMemoryGraphStore {
    fn default() -> (r: Self)
        ensures
            r.edges() == Seq::<Edge>::empty(),
            r.pending() == Seq::<UnresolvedEdge>::empty(),
    {
        InMemoryGraphStore::new()
    }
}

fn targets(reference: &str, target: &str) -> (r: bool)
    ensures
        r == is_target(reference@, target@),
{
    if text::str_eq(reference, target) {
        return true;
    }
    match paths::file_stem(target) {
        Some(s) => text::str_eq(s.as_str(), reference),
        None => false,
    }
}

impl GraphStore for InMemoryGraphStore {
    closed spec fn edges(&self) -> Seq<Edge> {
        self.edges@
    }

    closed spec fn pending(&self) -> Seq<UnresolvedEdge> {
        self.pending@
    }

    closed spec fn rebuilt(&self) -> Option<Timestamp> {
        self.rebuilt
    }

    open spec fn memory(&self) -> u64 {
        if self.edges().len() * EDGE_BYTES <= u64::MAX {
            (self.edges().len() * EDGE_BYTES) as u64
        } else {
            u64::MAX
        }
    }

    open spec fn infallible(&self) -> bool {
        true
    }

    fn insert_edge(&mut self, edge: Edge) -> (r: Result<(), GraphError>) {
        self.edges.push(edge);
        Ok(())
    }

    fn bulk_insert_edges(&mut self, edges: Vec<Edge>) -> (r: Result<(), GraphError>) {
        let mut more = edges;
        self.edges.append(&mut more);
        Ok(())
    }

    fn insert_unresolved(&mut self, edge: UnresolvedEdge) -> (r: Result<(), GraphError>) {
        self.pending.push(edge);
        Ok(())
    }

    fn resolve_pending(&mut self, doc_id: DocId, link_target: &str) -> (r: Result<
        u32,
        GraphError,
    >) {
        let now = clock::now();
        let ghost p0 = self.pending@;
        let mut found: Vec<Edge> = Vec::new();
        let mut rest: Vec<UnresolvedEdge> = Vec::new();
        let mut i: usize = 0;
        assert(found@ =~= promoted(p0.take(0), doc_id, link_target@, now));
        assert(rest@ =~= still_pending(p0.take(0), link_target@));
        while i < self.pending.len()
            invariant
                *self == *old(self),
                p0 == self.pending@,
                i <= p0.len(),
                found@ == promoted(p0.take(i as int), doc_id, link_target@, now),
                rest@ == still_pending(p0.take(i as int), link_target@),
            decreases p0.len() - i,
        {
            let u = &self.pending[i];
            proof {
                let t = p0.take(i + 1);
                assert(t.drop_last() =~= p0.take(i as int));
                assert(t.last() == *u);
            }
            if targets(u.target_ref.as_str(), link_target) {
                found.push(
                    Edge {
                        from: u.from,
                        to: doc_id,
                        category: u.category,
                        kind: u.kind.clone(),
                        weight: DEFAULT_WEIGHT,
                        byte_offset: u.byte_offset,
                        created_at: now,
                    },
                );
            } else {
                rest.push(u.clone());
            }
            i += 1;
        }
        assert(p0.take(i as int) =~= p0);
        let n = found.len();
        let ghost more = found@;
        self.edges.append(&mut found);
        self.pending = rest;
        assert(more == promoted(old(self).pending(), doc_id, link_target@, now));
        Ok((n as u64 % 0x1_0000_0000) as u32)
    }

    fn remove_doc_edges(&mut self, doc_id: DocId) -> (r: Result<u32, GraphError>) {
        let ghost s = self.edges@;
        let ghost keep = |e: Edge| e.from != doc_id && e.to != doc_id;
        let mut out: Vec<Edge> = Vec::new();
        let n = self.edges.len();
        let mut i: usize = 0;
        assert(out@ =~= kept(s.take(0), keep));
        while i < n
            invariant
                *self == *old(self),
                s == self.edges@,
                n == s.len(),
                keep == |e: Edge| e.from != doc_id && e.to != doc_id,
                i <= n,
                out@.len() <= i,
                out@ == kept(s.take(i as int), keep),
            decreases n - i,
        {
            proof {
                let t = s.take(i + 1);
                assert(t.drop_last() =~= s.take(i as int));
                assert(t.last() == s[i as int]);
            }
            if self.edges[i].from != doc_id && self.edges[i].to != doc_id {
                out.push(self.edges[i].clone());
            }
            i += 1;
        }
        assert(s.take(n as int) =~= s);
        let removed: usize = n - out.len();
        self.edges = out;
        Ok((removed as u64 % 0x1_0000_0000) as u32)
    }

    fn replace_outgoing(&mut self, doc_id: DocId, edges: Vec<Edge>) -> (r: Result<(), GraphError>) {
        let ghost s = self.edges@;
        let ghost keep = |e: Edge| e.from != doc_id;
        let mut out: Vec<Edge> = Vec::new();
        let n = self.edges.len();
        let mut i: usize = 0;
        assert(out@ =~= kept(s.take(0), keep));
        while i < n
            invariant
                *self == *old(self),
                s == self.edges@,
                n == s.len(),
                keep == |e: Edge| e.from != doc_id,
                i <= n,
                out@ == kept(s.take(i as int), keep),
            decreases n - i,
        {
            proof {
                let t = s.take(i + 1);
                assert(t.drop_last() =~= s.take(i as int));
                assert(t.last() == s[i as int]);
            }
            if self.edges[i].from != doc_id {
                out.push(self.edges[i].clone());
            }
            i += 1;
        }
        assert(s.take(n as int) =~= s);
        let mut more = edges;
        out.append(&mut more);
        self.edges = out;
        Ok(())
    }

    fn neighbours(&self, doc_id: DocId, direction: Direction, filter: &EdgeFilter) -> (r: Result<
        Vec<(DocId, Edge)>,
        GraphError,
    >) {
        let ghost s = self.edges@;
        let mut out: Vec<(DocId, Edge)> = Vec::new();
        let n = self.edges.len();
        let mut i: usize = 0;
        assert(out@ =~= neighbours_of(s.take(0), doc_id, direction, *filter));
        while i < n
            invariant
                s == self.edges@,
                n == s.len(),
                i <= n,
                out@ == neighbours_of(s.take(i as int), doc_id, direction, *filter),
            decreases n - i,
        {
            let e = &self.edges[i];
            proof {
                let t = s.take(i + 1);
                assert(t.drop_last() =~= s.take(i as int));
                assert(t.last() == s[i as int]);
            }
            if filter.matches(e) {
                let out_too = match direction {
                    Direction::Incoming => false,
                    _ => true,
                };
                let in_too = match direction {
                    Direction::Outgoing => false,
                    _ => true,
                };
                if e.from == doc_id && out_too {
                    out.push((e.to, e.clone()));
                }
                if e.to == doc_id && in_too {
                    out.push((e.from, e.clone()));
                }
            }
            i += 1;
        }
        assert(s.take(n as int) =~= s);
        Ok(out)
    }

    fn doc_edges(&self, doc_id: DocId) -> (r: Result<Vec<Edge>, GraphError>) {
        let ghost s = self.edges@;
        let ghost keep = |e: Edge| e.from == doc_id || e.to == doc_id;
        let mut out: Vec<Edge> = Vec::new();
        let n = self.edges.len();
        let mut i: usize = 0;
        assert(out@ =~= kept(s.take(0), keep));
        while i < n
            invariant
                s == self.edges@,
                n == s.len(),
                keep == |e: Edge| e.from == doc_id || e.to == doc_id,
                i <= n,
                out@ == kept(s.take(i as int), keep),
            decreases n - i,
        {
            proof {
                let t = s.take(i + 1);
                assert(t.drop_last() =~= s.take(i as int));
                assert(t.last() == s[i as int]);
            }
            if self.edges[i].from == doc_id || self.edges[i].to == doc_id {
                out.push(self.edges[i].clone());
            }
            i += 1;
        }
        assert(s.take(n as int) =~= s);
        Ok(out)
    }

    fn edge_count(&self) -> (r: Result<u64, GraphError>) {
        Ok(self.edges.len() as u64)
    }

    fn node_count(&self) -> (r: Result<u64, GraphError>) {
        let nodes = self.node_ids();
        proof {
            nodes.lemma_len();
        }
        Ok(nodes.len() as u64)
    }

    fn rebuild_in_memory(&mut self) -> (r: Result<u64, GraphError>) {
        self.rebuilt = Some(clock::now());
        Ok(self.edges.len() as u64)
    }

    fn drop_in_memory(&mut self) {
        self.rebuilt = None;
    }

    fn stats(&self) -> (r: Result<GraphStats, GraphError>) {
        let n: u64 = self.edges.len() as u64;
        let in_memory_bytes: u64 = if n <= u64::MAX / EDGE_BYTES {
            n * EDGE_BYTES
        } else {
            u64::MAX
        };
        let node_count = match self.node_count() {
            Ok(n) => n,
            Err(e) => {
                return Err(e);
            },
        };
        Ok(
            GraphStats {
                node_count,
                edge_count: n,
                edges_by_category: graph_commands::count_categories(&self.edges),
                in_memory_bytes,
                last_rebuilt: self.rebuilt,
            },
        )
    }
}

// ── Traversal ───────────────────────────────────────────────────────────────

/// Whether an edge leads from a set of documents to a document.
pub open spec fn leads(e: Edge, d: Direction, f: EdgeFilter, from: Set<DocId>, y: DocId) -> bool {
    passes(f, e) && ((goes_out(d) && from.contains(e.from) && e.to == y) || (goes_in(d)
        && from.contains(e.to) && e.from == y))
}

/// The documents to which one of the first `n` edges leads from a set.
pub open spec fn reached(s: Seq<Edge>, d: Direction, f: EdgeFilter, from: Set<DocId>, n: int) -> Set<
    DocId,
> {
    Set::new(
        |y: DocId|
            exists|i: int|
                0 <= i < n && i < s.len() && leads(#[trigger] s[i], d, f, from, y),
    )
}

/// The documents within a number of hops of a set.
pub open spec fn within(
    s: Seq<Edge>,
    d: Direction,
    f: EdgeFilter,
    seeds: Set<DocId>,
    hops: nat,
) -> Set<DocId>
    decreases hops,
{
    if hops == 0 {
        seeds
    } else {
        let w = within(s, d, f, seeds, (hops - 1) as nat);
        w.union(reached(s, d, f, w, s.len() as int))
    }
}

/// The documents within any number of hops of a set.
pub open spec fn closure(s: Seq<Edge>, d: Direction, f: EdgeFilter, seeds: Set<DocId>) -> Set<
    DocId,
> {
    Set::new(|y: DocId| exists|h: nat| #[trigger] within(s, d, f, seeds, h).contains(y))
}

/// Whether a document is a number of hops away from a set, and no fewer.
pub open spec fn is_hop(
    s: Seq<Edge>,
    d: Direction,
    f: EdgeFilter,
    seeds: Set<DocId>,
    x: DocId,
    h: nat,
) -> bool {
    within(s, d, f, seeds, h).contains(x) && (h == 0 || !within(
        s,
        d,
        f,
        seeds,
        (h - 1) as nat,
    ).contains(x))
}

/// More hops reach no fewer documents.
pub proof fn lemma_within_monotone(
    s: Seq<Edge>,
    d: Direction,
    f: EdgeFilter,
    seeds: Set<DocId>,
    a: nat,
    b: nat,
)
    requires
        a <= b,
    ensures
        within(s, d, f, seeds, a).subset_of(within(s, d, f, seeds, b)),
    decreases b,
{
    if a < b {
        lemma_within_monotone(s, d, f, seeds, a, (b - 1) as nat);
    }
}

/// A document within a number of hops is no more hops away.
pub proof fn lemma_hop_at_most(
    s: Seq<Edge>,
    d: Direction,
    f: EdgeFilter,
    seeds: Set<DocId>,
    y: DocId,
    h: nat,
    hops: nat,
)
    requires
        is_hop(s, d, f, seeds, y, h),
        within(s, d, f, seeds, hops).contains(y),
    ensures
        h <= hops,
{
    if hops < h {
        lemma_within_monotone(s, d, f, seeds, hops, (h - 1) as nat);
    }
}

/// Where one hop adds nothing, no number of hops does.
proof fn lemma_within_fixed(
    s: Seq<Edge>,
    d: Direction,
    f: EdgeFilter,
    seeds: Set<DocId>,
    a: nat,
    b: nat,
)
    requires
        a <= b,
        within(s, d, f, seeds, a + 1) == within(s, d, f, seeds, a),
    ensures
        within(s, d, f, seeds, b) == within(s, d, f, seeds, a),
    decreases b,
{
    if a < b {
        lemma_within_fixed(s, d, f, seeds, a, (b - 1) as nat);
    }
}

/// Identifiers of 32 bits are no more than there are.
proof fn lemma_ids_bound(m: IdMap<u64>)
    requires
        m.wf(),
    ensures
        m.entries_spec().len() <= 0x1_0000_0000,
{
    m.lemma_ids();
    let ids = m.ids_spec();
    assert forall|i: int| 0 <= i < ids.len() implies 0 <= #[trigger] ids[i] < 0x1_0000_0000 by {}
    crate::idmap::lemma_ascending_len(ids, 0, 0x1_0000_0000);
}

impl InMemoryGraphStore {
    /// Adds the documents one hop beyond those that were visited, and returns whether there were any.
    fn spread(
        &self,
        visited: &mut IdMap<u64>,
        hop: u64,
        direction: Direction,
        filter: &EdgeFilter,
        Ghost(w): Ghost<Set<DocId>>,
    ) -> (r: bool)
        requires
            old(visited).wf(),
            hop < u64::MAX,
            old(visited)@.dom() == w,
            forall|x: DocId| #[trigger]
                old(visited)@.dom().contains(x) ==> old(visited)@[x] <= hop,
        ensures
            final(visited).wf(),
            final(visited)@.dom() == w.union(
                reached(self.edges(), direction, *filter, w, self.edges().len() as int),
            ),
            forall|x: DocId| #[trigger]
                final(visited)@.dom().contains(x) ==> final(visited)@[x] == if w.contains(x) {
                    old(visited)@[x]
                } else {
                    (hop + 1) as u64
                },
            final(visited).entries_spec().len() >= old(visited).entries_spec().len(),
            r ==> final(visited).entries_spec().len() > old(visited).entries_spec().len(),
            !r ==> final(visited)@.dom() == w,
    {
        let ghost s = self.edges@;
        let ghost v0 = visited@;
        let out_too = match direction {
            Direction::Incoming => false,
            _ => true,
        };
        let in_too = match direction {
            Direction::Outgoing => false,
            _ => true,
        };
        let n0 = visited.len();
        let mut i: usize = 0;
        assert(visited@.dom() =~= w.union(reached(s, direction, *filter, w, 0)));
        while i < self.edges.len()
            invariant
                s == self.edges@,
                i <= s.len(),
                visited.wf(),
                hop < u64::MAX,
                v0.dom() == w,
                out_too == goes_out(direction),
                in_too == goes_in(direction),
                forall|x: DocId| #[trigger] v0.dom().contains(x) ==> v0[x] <= hop,
                visited@.dom() == w.union(reached(s, direction, *filter, w, i as int)),
                forall|x: DocId| #[trigger]
                    visited@.dom().contains(x) ==> visited@[x] == if w.contains(x) {
                        v0[x]
                    } else {
                        (hop + 1) as u64
                    },
            decreases s.len() - i,
        {
            let e = &self.edges[i];
            let ghost before = visited@;
            if filter.matches(e) {
                if out_too {
                    let near = match visited.get(e.from) {
                        Some(h) => *h <= hop,
                        None => false,
                    };
                    assert(near == w.contains(e.from));
                    if near && !visited.contains_id(e.to) {
                        visited.insert(e.to, hop + 1);
                    }
                }
                if in_too {
                    let near = match visited.get(e.to) {
                        Some(h) => *h <= hop,
                        None => false,
                    };
                    assert(near == w.contains(e.to));
                    if near && !visited.contains_id(e.from) {
                        visited.insert(e.from, hop + 1);
                    }
                }
            }
            proof {
                let a = reached(s, direction, *filter, w, i as int);
                let b = reached(s, direction, *filter, w, i + 1);
                assert forall|y: DocId| #[trigger] b.contains(y) <==> a.contains(y) || leads(
                    s[i as int],
                    direction,
                    *filter,
                    w,
                    y,
                ) by {
                    if a.contains(y) {
                        let j = choose|j: int|
                            0 <= j < i && j < s.len() && leads(
                                #[trigger] s[j],
                                direction,
                                *filter,
                                w,
                                y,
                            );
                        assert(0 <= j < i + 1 && leads(s[j], direction, *filter, w, y));
                    }
                    if leads(s[i as int], direction, *filter, w, y) {
                        assert(b.contains(y));
                    }
                    if b.contains(y) {
                        let j = choose|j: int|
                            0 <= j < i + 1 && j < s.len() && leads(
                                #[trigger] s[j],
                                direction,
                                *filter,
                                w,
                                y,
                            );
                        if j < i {
                            assert(a.contains(y));
                        }
                    }
                }
                assert(visited@.dom() =~= w.union(b));
            }
            i += 1;
        }
        let n1 = visited.len();
        proof {
            visited.lemma_len();
            old(visited).lemma_len();
            assert(w.subset_of(visited@.dom()));
            vstd::set_lib::lemma_len_subset(w, visited@.dom());
            if n1 == n0 {
                vstd::set_lib::lemma_subset_equality(w, visited@.dom());
            }
        }
        n1 > n0
    }

    /// The documents within a number of hops of some, or within any number, with their distances.
    pub(crate) fn levels(
        &self,
        seeds: &Vec<DocId>,
        direction: Direction,
        filter: &EdgeFilter,
        limit: Option<u32>,
    ) -> (r: IdMap<u64>)
        ensures
            r.wf(),
            r@.dom() == match limit {
                Some(h) => within(
                    self.edges(),
                    direction,
                    *filter,
                    seeds@.to_set(),
                    h as nat,
                ),
                None => closure(self.edges(), direction, *filter, seeds@.to_set()),
            },
            forall|x: DocId| #[trigger]
                r@.dom().contains(x) ==> is_hop(
                    self.edges(),
                    direction,
                    *filter,
                    seeds@.to_set(),
                    x,
                    r@[x] as nat,
                ),
    {
        let ghost s = self.edges@;
        let ghost start = seeds@.to_set();
        let mut visited: IdMap<u64> = IdMap::new();
        let mut i: usize = 0;
        assert(visited@.dom() =~= seeds@.take(0).to_set());
        while i < seeds.len()
            invariant
                i <= seeds@.len(),
                visited.wf(),
                visited@.dom() == seeds@.take(i as int).to_set(),
                forall|x: DocId| #[trigger] visited@.dom().contains(x) ==> visited@[x] == 0,
            decreases seeds@.len() - i,
        {
            let ghost before = visited@.dom();
            visited.insert(seeds[i], 0);
            proof {
                let t = seeds@.take(i as int);
                let u = seeds@.take(i + 1);
                assert(u =~= t.push(seeds@[i as int]));
                assert forall|x: DocId| visited@.dom().contains(x) <==> u.to_set().contains(x) by {
                    if t.contains(x) {
                        let j = t.index_of(x);
                        assert(u[j] == x);
                    }
                    if u.contains(x) {
                        let j = u.index_of(x);
                        if j < i {
                            assert(t[j] == x);
                        }
                    }
                    assert(u[i as int] == seeds@[i as int]);
                }
                assert(visited@.dom() =~= u.to_set());
            }
            i += 1;
        }
        assert(seeds@.take(i as int) =~= seeds@);
        let mut hop: u64 = 0;
        let mut more = true;
        proof {
            lemma_ids_bound(visited);
        }
        let most: u64 = match limit {
            Some(h) => h as u64,
            None => u64::MAX,
        };
        while more && hop < most
            invariant
                s == self.edges@,
                most == match limit {
                    Some(h) => h as u64,
                    None => u64::MAX,
                },
                start == seeds@.to_set(),
                visited.wf(),
                visited.entries_spec().len() <= 0x1_0000_0000,
                hop <= visited.entries_spec().len(),
                limit matches Some(h) ==> hop <= h,
                visited@.dom() == within(s, direction, *filter, start, hop as nat),
                forall|x: DocId| #[trigger]
                    visited@.dom().contains(x) ==> visited@[x] <= hop && is_hop(
                        s,
                        direction,
                        *filter,
                        start,
                        x,
                        visited@[x] as nat,
                    ),
                !more ==> within(s, direction, *filter, start, (hop + 1) as nat) == within(
                    s,
                    direction,
                    *filter,
                    start,
                    hop as nat,
                ),
            decreases
                    (if more {
                        1int
                    } else {
                        0int
                    }),
                    0x1_0000_0000 - visited.entries_spec().len(),
        {
            let ghost w = visited@.dom();
            let ghost before = visited@;
            more = self.spread(&mut visited, hop, direction, filter, Ghost(w));
            proof {
                lemma_ids_bound(visited);
                let next = within(s, direction, *filter, start, (hop + 1) as nat);
                assert(visited@.dom() == next);
                assert forall|x: DocId| #[trigger] visited@.dom().contains(x) implies is_hop(
                    s,
                    direction,
                    *filter,
                    start,
                    x,
                    visited@[x] as nat,
                ) by {
                    if w.contains(x) {
                        assert(before.dom().contains(x));
                        assert(is_hop(s, direction, *filter, start, x, before[x] as nat));
                    }
                }
            }
            if more {
                hop += 1;
            }
        }
        proof {
            match limit {
                Some(h) => {
                    if !more {
                        lemma_within_fixed(s, direction, *filter, start, hop as nat, h as nat);
                    }
                },
                None => {
                    let all = closure(s, direction, *filter, start);
                    assert forall|y: DocId| all.contains(y) <==> visited@.dom().contains(y) by {
                        if all.contains(y) {
                            let h = choose|h: nat| #[trigger]
                                within(s, direction, *filter, start, h).contains(y);
                            if h <= hop {
                                lemma_within_monotone(s, direction, *filter, start, h, hop as nat);
                            } else {
                                lemma_within_fixed(s, direction, *filter, start, hop as nat, h);
                            }
                        }
                    }
                    assert(visited@.dom() =~= all);
                },
            }
        }
        visited
    }
}

// ── Queries ─────────────────────────────────────────────────────────────────

/// What an expansion reaches.
pub open spec fn expanded(s: Seq<Edge>, seeds: Set<DocId>, spec: ExpandSpec) -> Set<DocId> {
    let w = within(s, spec.direction, spec.edge_filter, seeds, spec.hops as nat);
    if spec.include_seeds {
        w
    } else {
        w.difference(seeds)
    }
}

/// The documents that an expansion adds.
pub open spec fn added_by(s: Seq<Edge>, seeds: Set<DocId>, spec: ExpandSpec) -> Set<DocId> {
    within(s, spec.direction, spec.edge_filter, seeds, spec.hops as nat).difference(seeds)
}

/// Whether documents follow each other along edges.
pub open spec fn is_path(s: Seq<Edge>, f: EdgeFilter, p: Seq<DocId>) -> bool {
    forall|k: int| 0 <= k < p.len() - 1 ==> #[trigger] has_step(s, f, p, k)
}

/// Whether some edge is the `k`-th step of a path.
pub open spec fn has_step(s: Seq<Edge>, f: EdgeFilter, p: Seq<DocId>, k: int) -> bool {
    exists|i: int| 0 <= i < s.len() && is_step(#[trigger] s[i], f, p, k)
}

/// Whether an edge is the `k`-th step of a path.
pub open spec fn is_step(e: Edge, f: EdgeFilter, p: Seq<DocId>, k: int) -> bool {
    passes(f, e) && e.from == p[k] && e.to == p[k + 1]
}

/// Whether a path is a shortest one between two documents.
pub open spec fn is_shortest(
    s: Seq<Edge>,
    f: EdgeFilter,
    from: DocId,
    to: DocId,
    p: Seq<DocId>,
) -> bool {
    &&& p.len() > 0
    &&& p[0] == from
    &&& p.last() == to
    &&& is_path(s, f, p)
    &&& is_hop(s, Direction::Outgoing, f, set![from], to, (p.len() - 1) as nat)
}

/// The number of edges that end, or start, at a document.
pub open spec fn degree(s: Seq<Edge>, incoming: bool, x: DocId) -> nat
    decreases s.len(),
{
    if s.len() == 0 {
        0
    } else {
        degree(s.drop_last(), incoming, x) + if (if incoming {
            s.last().to
        } else {
            s.last().from
        }) == x {
            1nat
        } else {
            0nat
        }
    }
}

/// Whether one document ranks before another: by its degree, and by its id where degrees are equal.
pub open spec fn ranks_before(a: (DocId, u64), b: (DocId, u64)) -> bool {
    a.1 > b.1 || (a.1 == b.1 && a.0 < b.0)
}

/// Whether a list ranks documents by degree.
pub open spec fn is_ranking(
    v: Seq<(DocId, u64)>,
    s: Seq<Edge>,
    incoming: bool,
    among: Set<DocId>,
) -> bool {
    &&& forall|i: int, j: int|
        0 <= i < j < v.len() ==> ranks_before(#[trigger] v[i], #[trigger] v[j])
    &&& forall|i: int|
        0 <= i < v.len() ==> among.contains((#[trigger] v[i]).0) && v[i].1 == degree(
            s,
            incoming,
            v[i].0,
        )
    &&& forall|x: DocId| #[trigger]
        among.contains(x) ==> exists|i: int| 0 <= i < v.len() && (#[trigger] v[i]).0 == x
}

/// The documents of a graph, or those of them in a set.
pub open spec fn ranked_docs(s: Seq<Edge>, restrict_to: Option<Set<DocId>>) -> Set<DocId> {
    match restrict_to {
        Some(r) => nodes_of(s).intersect(r),
        None => nodes_of(s),
    }
}

/// An optional bitmap taken as a set.
pub open spec fn opt_ids(b: Option<&RoaringBitmap>) -> Option<Set<DocId>> {
    match b {
        Some(b) => Some(bitmap::ids(*b)),
        None => None,
    }
}

/// Traversal, paths and degree centrality.
pub trait GraphQueryEngine: Send + Sync {
    /// The edges of the graph.
    spec fn graph(&self) -> Seq<Edge>;

    /// Answers a request.
    fn query(&self, request: GraphQueryRequest) -> (r: Result<GraphQueryResult, GraphError>)
        ensures
            match r {
                Ok(q) => graph_query::answers_query(self.graph(), request, q),
                Err(e) => graph_query::refuses_query(self.graph(), request, e),
            },
    ;

    /// Expands a set of documents.
    fn expand(&self, seeds: &RoaringBitmap, spec: &ExpandSpec) -> (r: Result<
        RoaringBitmap,
        GraphError,
    >)
        ensures
            match r {
                Ok(b) => bitmap::ids(b) == expanded(self.graph(), bitmap::ids(*seeds), *spec)
                    && added_by(self.graph(), bitmap::ids(*seeds), *spec).finite()
                    && (spec.max_nodes matches Some(cap) ==> added_by(
                    self.graph(),
                    bitmap::ids(*seeds),
                    *spec,
                ).len() <= cap),
                Err(GraphError::ExpansionLimit(cap)) => spec.max_nodes == Some(cap) && added_by(
                    self.graph(),
                    bitmap::ids(*seeds),
                    *spec,
                ).len() > cap,
                Err(_) => false,
            },
    ;

    /// A shortest path between two documents, along edges that a filter lets pass.
    fn shortest_path(&self, from: DocId, to: DocId, filter: &EdgeFilter) -> (r: Result<
        Vec<DocId>,
        GraphError,
    >)
        ensures
            match r {
                Ok(p) => is_shortest(self.graph(), *filter, from, to, p@),
                Err(GraphError::NoPath(a, b)) => a == from && b == to && !closure(
                    self.graph(),
                    Direction::Outgoing,
                    *filter,
                    set![from],
                ).contains(to),
                Err(_) => false,
            },
    ;

    /// The other documents that can be reached from one.
    fn reachable(&self, from: DocId, direction: Direction, filter: &EdgeFilter) -> (r: Result<
        RoaringBitmap,
        GraphError,
    >)
        ensures
            r matches Ok(b) && bitmap::ids(b) == closure(
                self.graph(),
                direction,
                *filter,
                set![from],
            ).remove(from),
    ;

    /// Documents by descending degree, optionally those of a set.
    fn degree_centrality(&self, incoming: bool, restrict_to: Option<&RoaringBitmap>) -> (r: Result<
        Vec<(DocId, u64)>,
        GraphError,
    >)
        ensures
            r matches Ok(v) && is_ranking(
                v@,
                self.graph(),
                incoming,
                ranked_docs(self.graph(), opt_ids(restrict_to)),
            ),
    ;

    /// Statistics of the graph.
    fn stats(&self) -> (r: Result<GraphStats, GraphError>)
        ensures
            r matches Ok(g) && are_stats(g, self.graph()),
    ;
}

proof fn lemma_single(x: DocId, v: Seq<DocId>)
    requires
        v == seq![x],
    ensures
        v.to_set() == set![x],
{
    assert forall|y: DocId| v.to_set().contains(y) <==> set![x].contains(y) by {
        if y == x {
            assert(v[0] == x);
        }
    }
    assert(v.to_set() =~= set![x]);
}

/// A document that is some hops away has a predecessor that is one hop less.
proof fn lemma_predecessor(s: Seq<Edge>, f: EdgeFilter, seeds: Set<DocId>, y: DocId, h: nat)
    requires
        h > 0,
        is_hop(s, Direction::Outgoing, f, seeds, y, h),
    ensures
        exists|i: int|
            0 <= i < s.len() && passes(f, #[trigger] s[i]) && s[i].to == y && is_hop(
                s,
                Direction::Outgoing,
                f,
                seeds,
                s[i].from,
                (h - 1) as nat,
            ),
{
    let d = Direction::Outgoing;
    let w = within(s, d, f, seeds, (h - 1) as nat);
    assert(reached(s, d, f, w, s.len() as int).contains(y));
    let i = choose|i: int|
        0 <= i < s.len() && i < s.len() && leads(#[trigger] s[i], d, f, w, y);
    let x = s[i].from;
    assert(w.contains(x));
    if h - 1 > 0 {
        let u = within(s, d, f, seeds, (h - 2) as nat);
        if u.contains(x) {
            assert(leads(s[i], d, f, u, y));
            assert(reached(s, d, f, u, s.len() as int).contains(y));
            assert(within(s, d, f, seeds, (h - 1) as nat).contains(y));
        }
    }
    assert(passes(f, s[i]) && s[i].to == y);
}

/// A document is one number of hops away.
proof fn lemma_hop_unique(
    s: Seq<Edge>,
    d: Direction,
    f: EdgeFilter,
    seeds: Set<DocId>,
    x: DocId,
    a: nat,
    b: nat,
)
    requires
        is_hop(s, d, f, seeds, x, a),
        is_hop(s, d, f, seeds, x, b),
    ensures
        a == b,
{
    if a < b {
        lemma_within_monotone(s, d, f, seeds, a, (b - 1) as nat);
    } else if b < a {
        lemma_within_monotone(s, d, f, seeds, b, (a - 1) as nat);
    }
}

fn reversed(v: &Vec<DocId>) -> (r: Vec<DocId>)
    ensures
        r@ == v@.reverse(),
{
    let n = v.len();
    let mut out: Vec<DocId> = Vec::new();
    let mut i: usize = 0;
    while i < n
        invariant
            n == v@.len(),
            i <= n,
            out@.len() == i,
            forall|k: int| 0 <= k < i ==> #[trigger] out@[k] == v@[n - 1 - k],
        decreases n - i,
    {
        out.push(v[n - 1 - i]);
        i += 1;
    }
    assert(out@ =~= v@.reverse());
    out
}

/// The bitmap of the identifiers of a map that are not in another bitmap.
fn bitmap_of(m: &IdMap<u64>) -> (r: RoaringBitmap)
    requires
        m.wf(),
    ensures
        bitmap::ids(r) == m@.dom(),
{
    let mut b = RoaringBitmap::new();
    let n = m.len();
    let ghost ids = m.ids_spec();
    proof {
        m.lemma_ids();
    }
    let mut i: usize = 0;
    assert(bitmap::ids(b) =~= ids.take(0).to_set());
    while i < n
        invariant
            m.wf(),
            n == m.entries_spec().len(),
            ids == m.ids_spec(),
            ids.len() == n,
            i <= n,
            bitmap::ids(b) == ids.take(i as int).to_set(),
        decreases n - i,
    {
        let ghost before = bitmap::ids(b);
        let id = m.id_at(i);
        b.insert(id);
        proof {
            m.lemma_ids();
            assert(m.entries_spec()[i as int].0 == ids[i as int]);
            let t = ids.take(i as int);
            let u = ids.take(i + 1);
            assert(u =~= t.push(ids[i as int]));
            assert forall|x: u32| bitmap::ids(b).contains(x) <==> u.to_set().contains(x) by {
                if t.contains(x) {
                    let j = t.index_of(x);
                    assert(u[j] == x);
                }
                if u.contains(x) {
                    let j = u.index_of(x);
                    if j < i {
                        assert(t[j] == x);
                    }
                }
                assert(u[i as int] == id);
            }
            assert(bitmap::ids(b) =~= u.to_set());
        }
        i += 1;
    }
    proof {
        m.lemma_ids();
        assert(ids.take(n as int) =~= ids);
        assert forall|x: u32| ids.to_set().contains(x) <==> m@.dom().contains(x) by {
            assert(ids.contains(x) <==> m@.dom().contains(x));
        }
        assert(bitmap::ids(b) =~= m@.dom());
    }
    b
}

/// Puts a document into a ranking.
fn insert_ranked(v: &mut Vec<(DocId, u64)>, x: (DocId, u64))
    requires
        forall|i: int, j: int|
            0 <= i < j < old(v)@.len() ==> ranks_before(#[trigger] old(v)@[i], #[trigger] old(v)@[j]),
        forall|i: int| 0 <= i < old(v)@.len() ==> (#[trigger] old(v)@[i]).0 != x.0,
    ensures
        forall|i: int, j: int|
            0 <= i < j < final(v)@.len() ==> ranks_before(
                #[trigger] final(v)@[i],
                #[trigger] final(v)@[j],
            ),
        final(v)@.len() == old(v)@.len() + 1,
        exists|k: int| 0 <= k <= old(v)@.len() && final(v)@ == #[trigger] old(v)@.insert(k, x),
{
    let ghost v0 = v@;
    let mut i: usize = 0;
    while i < v.len() && (v[i].1 > x.1 || (v[i].1 == x.1 && v[i].0 < x.0))
        invariant
            v@ == v0,
            i <= v0.len(),
            forall|k: int| 0 <= k < i ==> ranks_before(#[trigger] v0[k], x),
        decreases v0.len() - i,
    {
        i += 1;
    }
    v.insert(i, x);
    proof {
        let w = v0.insert(i as int, x);
        assert(v@ == w);
        assert forall|a: int, b: int| 0 <= a < b < w.len() implies ranks_before(
            #[trigger] w[a],
            #[trigger] w[b],
        ) by {
            let p = if a < i {
                a
            } else {
                a - 1
            };
            let q = if b < i {
                b
            } else {
                b - 1
            };
            if a == i {
                assert(w[b] == v0[b - 1]);
                assert(ranks_before(x, v0[i as int]));
                if b - 1 > i {
                    assert(ranks_before(v0[i as int], v0[b - 1]));
                }
            } else if b == i {
                assert(w[a] == v0[a]);
            } else {
                assert(w[a] == v0[p] && w[b] == v0[q]);
                assert(ranks_before(v0[p], v0[q]));
            }
        }
    }
}

impl InMemoryGraphStore {
    /// The number of edges that end, or start, at a document.
    fn degree_of(&self, incoming: bool, x: DocId) -> (r: u64)
        ensures
            r == degree(self.edges(), incoming, x),
    {
        let ghost s = self.edges@;
        let mut n: u64 = 0;
        let mut i: usize = 0;
        while i < self.edges.len()
            invariant
                s == self.edges@,
                i <= s.len(),
                n <= i,
                n == degree(s.take(i as int), incoming, x),
            decreases s.len() - i,
        {
            proof {
                let t = s.take(i + 1);
                assert(t.drop_last() =~= s.take(i as int));
                assert(t.last() == s[i as int]);
            }
            let end = if incoming {
                self.edges[i].to
            } else {
                self.edges[i].from
            };
            if end == x {
                n += 1;
            }
            i += 1;
        }
        assert(s.take(i as int) =~= s);
        n
    }
}

impl GraphQueryEngine for InMemoryGraphStore {
    open spec fn graph(&self) -> Seq<Edge> {
        self.edges()
    }

    fn query(&self, request: GraphQueryRequest) -> (r: Result<GraphQueryResult, GraphError>) {
        graph_query::run_query(self, request)
    }

    fn stats(&self) -> (r: Result<GraphStats, GraphError>) {
        GraphStore::stats(self)
    }

    fn expand(&self, seeds: &RoaringBitmap, spec: &ExpandSpec) -> (r: Result<
        RoaringBitmap,
        GraphError,
    >) {
        let start = bitmap::bitmap_values(seeds);
        let found = self.levels(&start, spec.direction, &spec.edge_filter, Some(spec.hops as u32));
        let all = bitmap_of(&found);
        let added = bitmap::bitmap_minus(&all, seeds);
        let list = bitmap::bitmap_values(&added);
        proof {
            assert(list@.no_duplicates()) by {
                assert forall|i: int, j: int| 0 <= i < list@.len() && 0 <= j < list@.len() && i
                    != j implies list@[i] != list@[j] by {
                    if i < j {
                        assert(list@[i] < list@[j]);
                    } else {
                        assert(list@[j] < list@[i]);
                    }
                }
            }
            list@.unique_seq_to_set();
            vstd::seq_lib::seq_to_set_is_finite(list@);
            assert(bitmap::ids(added) == added_by(self.graph(), bitmap::ids(*seeds), *spec));
        }
        if let Some(cap) = spec.max_nodes {
            if list.len() > cap as usize {
                return Err(GraphError::ExpansionLimit(cap));
            }
        }
        if spec.include_seeds {
            Ok(all)
        } else {
            Ok(added)
        }
    }

    fn shortest_path(&self, from: DocId, to: DocId, filter: &EdgeFilter) -> (r: Result<
        Vec<DocId>,
        GraphError,
    >) {
        let ghost s = self.edges@;
        let ghost d = Direction::Outgoing;
        let ghost seeds = set![from];
        let mut start: Vec<DocId> = Vec::new();
        start.push(from);
        proof {
            assert(start@ =~= seq![from]);
            lemma_single(from, start@);
        }
        let found = self.levels(&start, Direction::Outgoing, filter, None);
        let total = match found.get(to) {
            Some(h) => *h,
            None => {
                return Err(GraphError::NoPath(from, to));
            },
        };
        let mut back: Vec<DocId> = Vec::new();
        back.push(to);
        let mut cur: DocId = to;
        let mut hop: u64 = total;
        while hop > 0
            invariant
                s == self.edges@,
                d == Direction::Outgoing,
                seeds == set![from],
                found.wf(),
                found@.dom() == closure(s, d, *filter, seeds),
                forall|x: DocId| #[trigger]
                    found@.dom().contains(x) ==> is_hop(
                        s,
                        d,
                        *filter,
                        seeds,
                        x,
                        found@[x] as nat,
                    ),
                hop <= total,
                back@.len() == total - hop + 1,
                back@[0] == to,
                back@.last() == cur,
                is_hop(s, d, *filter, seeds, cur, hop as nat),
                forall|k: int|
                    0 <= k < back@.len() - 1 ==> #[trigger] has_back_step(s, *filter, back@, k),
            decreases hop,
        {
            proof {
                lemma_predecessor(s, *filter, seeds, cur, hop as nat);
            }
            let ghost target = choose|i: int|
                0 <= i < s.len() && passes(*filter, #[trigger] s[i]) && s[i].to == cur && is_hop(
                    s,
                    d,
                    *filter,
                    seeds,
                    s[i].from,
                    (hop - 1) as nat,
                );
            let mut j: usize = 0;
            let mut prev: Option<DocId> = None;
            while j < self.edges.len() && prev.is_none()
                invariant
                    s == self.edges@,
                    d == Direction::Outgoing,
                    found.wf(),
                    hop > 0,
                    found@.dom() == closure(s, d, *filter, seeds),
                    forall|x: DocId| #[trigger]
                        found@.dom().contains(x) ==> is_hop(
                            s,
                            d,
                            *filter,
                            seeds,
                            x,
                            found@[x] as nat,
                        ),
                    j <= s.len(),
                    0 <= target < s.len(),
                    passes(*filter, s[target]),
                    s[target].to == cur,
                    is_hop(s, d, *filter, seeds, s[target].from, (hop - 1) as nat),
                    prev is None ==> j <= target,
                    prev matches Some(x) ==> j > 0 && passes(*filter, s[j - 1]) && s[j - 1].to
                        == cur && s[j - 1].from == x && is_hop(
                        s,
                        d,
                        *filter,
                        seeds,
                        x,
                        (hop - 1) as nat,
                    ),
                decreases s.len() - j,
            {
                let e = &self.edges[j];
                let fits = filter.matches(e) && e.to == cur && (match found.get(e.from) {
                    Some(h) => *h == hop - 1,
                    None => false,
                });
                if fits {
                    prev = Some(e.from);
                } else {
                    proof {
                        if j == target {
                            let x = e.from;
                            assert(within(s, d, *filter, seeds, (hop - 1) as nat).contains(x));
                            assert(found@.dom().contains(x));
                            lemma_hop_unique(
                                s,
                                d,
                                *filter,
                                seeds,
                                x,
                                found@[x] as nat,
                                (hop - 1) as nat,
                            );
                        }
                    }
                }
                j += 1;
            }
            match prev {
                Some(x) => {
                    let ghost b0 = back@;
                    back.push(x);
                    proof {
                        assert forall|k: int| 0 <= k < back@.len() - 1 implies #[trigger] has_back_step(
                            s,
                            *filter,
                            back@,
                            k,
                        ) by {
                            if k < b0.len() - 1 {
                                assert(has_back_step(s, *filter, b0, k));
                                let i = choose|i: int|
                                    0 <= i < s.len() && is_back_step(#[trigger] s[i], *filter, b0, k);
                                assert(is_back_step(s[i], *filter, back@, k));
                            } else {
                                assert(is_back_step(s[j - 1], *filter, back@, k));
                            }
                        }
                    }
                    cur = x;
                },
                None => {
                    assert(false);
                },
            }
            hop -= 1;
        }
        let path = reversed(&back);
        proof {
            assert(seeds.contains(cur));
            let p = path@;
            let n = back@.len();
            assert forall|k: int| 0 <= k < p.len() - 1 implies #[trigger] has_step(
                s,
                *filter,
                p,
                k,
            ) by {
                let m = n - 2 - k;
                assert(has_back_step(s, *filter, back@, m));
                let i = choose|i: int|
                    0 <= i < s.len() && is_back_step(#[trigger] s[i], *filter, back@, m);
                assert(p[k] == back@[m + 1]);
                assert(p[k + 1] == back@[m]);
                assert(is_step(s[i], *filter, p, k));
            }
            assert(p[0] == back@[n - 1]);
            assert(p.last() == back@[0]);
        }
        Ok(path)
    }

    fn reachable(&self, from: DocId, direction: Direction, filter: &EdgeFilter) -> (r: Result<
        RoaringBitmap,
        GraphError,
    >) {
        let mut start: Vec<DocId> = Vec::new();
        start.push(from);
        proof {
            assert(start@ =~= seq![from]);
            lemma_single(from, start@);
        }
        let found = self.levels(&start, direction, filter, None);
        let mut b = bitmap_of(&found);
        b.remove(from);
        Ok(b)
    }

    fn degree_centrality(&self, incoming: bool, restrict_to: Option<&RoaringBitmap>) -> (r: Result<
        Vec<(DocId, u64)>,
        GraphError,
    >) {
        let ghost s = self.edges@;
        let ghost among = ranked_docs(s, opt_ids(restrict_to));
        let nodes = self.node_ids();
        let n = nodes.len();
        let ghost ids = nodes.ids_spec();
        proof {
            nodes.lemma_ids();
        }
        let mut out: Vec<(DocId, u64)> = Vec::new();
        let mut i: usize = 0;
        while i < n
            invariant
                s == self.edges@,
                nodes.wf(),
                nodes@.dom() == nodes_of(s),
                n == nodes.entries_spec().len(),
                ids == nodes.ids_spec(),
                ids.len() == n,
                ids.no_duplicates(),
                among == ranked_docs(s, opt_ids(restrict_to)),
                i <= n,
                forall|a: int, b: int|
                    0 <= a < b < out@.len() ==> ranks_before(#[trigger] out@[a], #[trigger] out@[b]),
                forall|a: int|
                    0 <= a < out@.len() ==> among.contains((#[trigger] out@[a]).0) && out@[a].1
                        == degree(s, incoming, out@[a].0) && ids.take(i as int).contains(out@[a].0),
                forall|k: int|
                    0 <= k < i && among.contains(#[trigger] ids[k]) ==> exists|a: int|
                        0 <= a < out@.len() && (#[trigger] out@[a]).0 == ids[k],
            decreases n - i,
        {
            let id = nodes.id_at(i);
            let ghost before = out@;
            proof {
                nodes.lemma_ids();
                assert(nodes.entries_spec()[i as int].0 == ids[i as int]);
                assert(nodes@.dom().contains(ids[i as int]));
                let t = ids.take(i as int);
                let u = ids.take(i + 1);
                assert(u =~= t.push(id));
                assert(u[i as int] == id);
                assert forall|x: DocId| t.contains(x) implies u.contains(x) by {
                    let j = t.index_of(x);
                    assert(u[j] == x);
                }
                assert(!t.contains(id)) by {
                    if t.contains(id) {
                        let j = t.index_of(id);
                        assert(ids[j] == ids[i as int]);
                    }
                }
            }
            let wanted = match restrict_to {
                Some(b) => b.contains(id),
                None => true,
            };
            assert(wanted == among.contains(id));
            if wanted {
                let deg = self.degree_of(incoming, id);
                insert_ranked(&mut out, (id, deg));
                proof {
                    let k = choose|k: int|
                        0 <= k <= before.len() && out@ == #[trigger] before.insert(k, (id, deg));
                    assert forall|a: int| 0 <= a < out@.len() implies among.contains(
                        (#[trigger] out@[a]).0,
                    ) && out@[a].1 == degree(s, incoming, out@[a].0) && ids.take(i + 1).contains(
                        out@[a].0,
                    ) by {
                        if a < k {
                            assert(out@[a] == before[a]);
                        } else if a > k {
                            assert(out@[a] == before[a - 1]);
                        } else {
                            assert(out@[a] == (id, deg));
                        }
                    }
                    assert forall|m: int| 0 <= m < i + 1 && among.contains(
                        #[trigger] ids[m],
                    ) implies exists|a: int| 0 <= a < out@.len() && (#[trigger] out@[a]).0 == ids[m] by {
                        if m < i {
                            let a = choose|a: int|
                                0 <= a < before.len() && (#[trigger] before[a]).0 == ids[m];
                            let b = if a < k {
                                a
                            } else {
                                a + 1
                            };
                            assert(out@[b].0 == ids[m]);
                        } else {
                            assert(out@[k].0 == ids[m]);
                        }
                    }
                }
            }
            i += 1;
        }
        proof {
            nodes.lemma_ids();
            assert forall|x: DocId| #[trigger] among.contains(x) implies exists|a: int|
                0 <= a < out@.len() && (#[trigger] out@[a]).0 == x by {
                assert(nodes@.dom().contains(x));
                assert(ids.contains(x));
                let k = ids.index_of(x);
                assert(ids[k] == x);
            }
        }
        Ok(out)
    }
}

/// Whether some edge is the `k`-th step of a path that is written backwards.
spec fn has_back_step(s: Seq<Edge>, f: EdgeFilter, p: Seq<DocId>, k: int) -> bool {
    exists|i: int| 0 <= i < s.len() && is_back_step(#[trigger] s[i], f, p, k)
}

/// Whether an edge is the `k`-th step of a path that is written backwards.
spec fn is_back_step(e: Edge, f: EdgeFilter, p: Seq<DocId>, k: int) -> bool {
    passes(f, e) && e.to == p[k] && e.from == p[k + 1]
}

impl InMemoryGraphStore {
    /// The edges, in the order in which they were inserted.
    pub fn all_edges(&self) -> (r: &Vec<Edge>)
        ensures
            r@ == self.edges(),
    {
        &self.edges
    }

    /// The documents that the expansion of one adds, in ascending order, and how many hops away each
    /// of them is.
    pub fn expand_from(&self, seed: DocId, spec: &ExpandSpec) -> (r: Result<
        (Vec<DocId>, Vec<u64>),
        GraphError,
    >)
        ensures
            match r {
                Ok((ids, hops)) => {
                    let added = added_by(self.edges(), set![seed], *spec);
                    &&& crate::query::is_listing(ids@, added)
                    &&& added.finite()
                    &&& (spec.max_nodes matches Some(cap) ==> added.len() <= cap)
                    &&& hops@.len() == ids@.len()
                    &&& forall|i: int|
                        0 <= i < ids@.len() ==> is_hop(
                            self.edges(),
                            spec.direction,
                            spec.edge_filter,
                            set![seed],
                            #[trigger] ids@[i],
                            hops@[i] as nat,
                        )
                },
                Err(GraphError::ExpansionLimit(cap)) => spec.max_nodes == Some(cap) && added_by(
                    self.edges(),
                    set![seed],
                    *spec,
                ).len() > cap,
                Err(_) => false,
            },
    {
        let mut start: Vec<DocId> = Vec::new();
        start.push(seed);
        proof {
            assert(start@ =~= seq![seed]);
            lemma_single(seed, start@);
        }
        let found = self.levels(&start, spec.direction, &spec.edge_filter, Some(spec.hops as u32));
        let ghost added = added_by(self.edges(), set![seed], *spec);
        let ghost all = found.ids_spec();
        proof {
            found.lemma_ids();
            assert(added =~= found@.dom().remove(seed));
        }
        let n = found.len();
        let mut ids: Vec<DocId> = Vec::new();
        let mut hops: Vec<u64> = Vec::new();
        let mut i: usize = 0;
        while i < n
            invariant
                found.wf(),
                n == found.entries_spec().len(),
                all == found.ids_spec(),
                all.len() == n,
                i <= n,
                ids@.len() == hops@.len(),
                forall|x: DocId| #[trigger]
                    found@.dom().contains(x) ==> is_hop(
                        self.edges(),
                        spec.direction,
                        spec.edge_filter,
                        set![seed],
                        x,
                        found@[x] as nat,
                    ),
                forall|k: int|
                    0 <= k < ids@.len() ==> #[trigger] ids@[k] != seed && all.take(
                        i as int,
                    ).contains(ids@[k]) && found@.dom().contains(ids@[k]) && hops@[k]
                        == found@[ids@[k]],
                forall|a: int, b: int|
                    0 <= a < b < ids@.len() ==> #[trigger] ids@[a] < #[trigger] ids@[b],
                forall|k: int|
                    0 <= k < i && #[trigger] all[k] != seed ==> ids@.contains(all[k]),
            decreases n - i,
        {
            let id = found.id_at(i);
            let h = *found.value_at(i);
            let ghost before = ids@;
            proof {
                found.lemma_ids();
                assert(found.entries_spec()[i as int].0 == all[i as int]);
                let t = all.take(i as int);
                let u = all.take(i + 1);
                assert(u =~= t.push(id));
                assert(u[i as int] == id);
                assert forall|x: DocId| t.contains(x) implies u.contains(x) && x < id by {
                    let j = t.index_of(x);
                    assert(u[j] == x);
                    assert(all[j] < all[i as int]);
                }
            }
            if id != seed {
                ids.push(id);
                hops.push(h);
                proof {
                    assert forall|k: int|
                        0 <= k < i + 1 && #[trigger] all[k] != seed implies ids@.contains(
                        all[k],
                    ) by {
                        if k < i {
                            let j = before.index_of(all[k]);
                            assert(ids@[j] == all[k]);
                        } else {
                            assert(ids@[before.len() as int] == id);
                        }
                    }
                }
            }
            i += 1;
        }
        proof {
            found.lemma_ids();
            assert(all.take(n as int) =~= all);
            assert forall|x: DocId| ids@.to_set().contains(x) <==> added.contains(x) by {
                if ids@.contains(x) {
                    let k = ids@.index_of(x);
                    assert(ids@[k] == x);
                }
                if added.contains(x) {
                    assert(all.contains(x));
                    let k = all.index_of(x);
                    assert(all[k] == x);
                }
            }
            assert(ids@.to_set() =~= added);
            assert(ids@.no_duplicates()) by {
                assert forall|a: int, b: int| 0 <= a < ids@.len() && 0 <= b < ids@.len() && a
                    != b implies ids@[a] != ids@[b] by {
                    if a < b {
                        assert(ids@[a] < ids@[b]);
                    } else {
                        assert(ids@[b] < ids@[a]);
                    }
                }
            }
            ids@.unique_seq_to_set();
            vstd::seq_lib::seq_to_set_is_finite(ids@);
        }
        if let Some(cap) = spec.max_nodes {
            if ids.len() > cap as usize {
                return Err(GraphError::ExpansionLimit(cap));
            }
        }
        Ok((ids, hops))
    }
}

} // verus!
