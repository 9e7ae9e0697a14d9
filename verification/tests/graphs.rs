//! The document graph: storage, traversal, and the commands over it.

use locus::graph::{
    CentralityAlgorithm, Direction, Edge, EdgeCategory, EdgeFilter, ExpandSpec, GraphError, GraphOp,
    GraphQueryEngine, GraphQueryRequest, GraphStore, InMemoryGraphStore, UnresolvedEdge,
    DEFAULT_WEIGHT,
};
use locus::graph_commands::{
    answer_lines, cmd_graph, count_categories, doc_path_str, graph_message, lookup_doc_id,
    neighbour_direction, parse_algorithm, parse_direction, parse_edge_filter, rank_label,
    ranking_line, GraphAnswer, GraphCommand,
};
use locus::registry::{InMemoryRegistry, NewDoc, Registry};
use locus::types::SourceType;
use roaring::RoaringBitmap;

fn edge(from: u32, to: u32, category: EdgeCategory) -> Edge {
    Edge {
        from,
        to,
        category,
        kind: "ref:wikilink".to_string(),
        weight: DEFAULT_WEIGHT,
        byte_offset: None,
        created_at: 0,
    }
}

/// 1 → 2 → 3 → 4, 1 → 5, and 5 → 4 by a dependency.
fn graph() -> InMemoryGraphStore {
    let mut g = InMemoryGraphStore::new();
    g.bulk_insert_edges(vec![
        edge(1, 2, EdgeCategory::Reference),
        edge(2, 3, EdgeCategory::Reference),
        edge(3, 4, EdgeCategory::Reference),
        edge(1, 5, EdgeCategory::Reference),
        edge(5, 4, EdgeCategory::Dependency),
    ])
    .unwrap();
    g
}

fn seeds(ids: &[u32]) -> RoaringBitmap {
    ids.iter().copied().collect()
}

fn spec(hops: u8, direction: Direction, include_seeds: bool) -> ExpandSpec {
    ExpandSpec {
        hops,
        direction,
        edge_filter: EdgeFilter::Any,
        max_nodes: Some(500),
        include_seeds,
    }
}

// ── Storage ──────────────────────────────────────────────────────

#[test]
fn edges_and_nodes_are_counted() {
    let g = graph();
    assert_eq!(g.edge_count().unwrap(), 5);
    assert_eq!(g.node_count().unwrap(), 5);
    assert_eq!(g.all_edges().len(), 5);
}

#[test]
fn neighbours_follow_the_direction_and_the_filter() {
    let g = graph();
    let ids = |d: Direction, f: &EdgeFilter| {
        g.neighbours(4, d, f).unwrap().iter().map(|n| n.0).collect::<Vec<_>>()
    };
    assert!(ids(Direction::Outgoing, &EdgeFilter::Any).is_empty());
    assert_eq!(ids(Direction::Incoming, &EdgeFilter::Any), vec![3, 5]);
    assert_eq!(ids(Direction::Both, &EdgeFilter::Category(EdgeCategory::Dependency)), vec![5]);
}

#[test]
fn a_document_takes_its_edges_with_it() {
    let mut g = graph();
    assert_eq!(g.remove_doc_edges(4).unwrap(), 2);
    assert_eq!(g.edge_count().unwrap(), 3);
    assert!(g.doc_edges(4).unwrap().is_empty());
    assert_eq!(g.remove_doc_edges(4).unwrap(), 0);
}

#[test]
fn outgoing_edges_are_replaced_together() {
    let mut g = graph();
    g.replace_outgoing(1, vec![edge(1, 9, EdgeCategory::Workflow)]).unwrap();
    let out = g.neighbours(1, Direction::Outgoing, &EdgeFilter::Any).unwrap();
    assert_eq!(out.iter().map(|n| n.0).collect::<Vec<_>>(), vec![9]);
    assert_eq!(g.edge_count().unwrap(), 4);
}

#[test]
fn pending_links_are_resolved_when_their_target_comes() {
    let mut g = InMemoryGraphStore::new();
    g.insert_unresolved(UnresolvedEdge {
        from: 1,
        category: EdgeCategory::Reference,
        kind: "ref:wikilink".into(),
        target_ref: "Home".into(),
        byte_offset: Some(7),
    })
    .unwrap();
    assert_eq!(g.resolve_pending(2, "Elsewhere").unwrap(), 0);
    assert_eq!(g.resolve_pending(2, "Home").unwrap(), 1);
    assert_eq!(g.resolve_pending(2, "Home").unwrap(), 0);
    let out = g.neighbours(1, Direction::Outgoing, &EdgeFilter::Any).unwrap();
    assert_eq!(out[0].0, 2);
    assert_eq!(out[0].1.byte_offset, Some(7));
}

// ── Traversal ────────────────────────────────────────────────────

#[test]
fn expansion_reaches_as_far_as_its_hops() {
    let g = graph();
    assert_eq!(g.expand(&seeds(&[1]), &spec(1, Direction::Outgoing, true)).unwrap(), seeds(&[1, 2, 5]));
    assert_eq!(
        g.expand(&seeds(&[1]), &spec(2, Direction::Outgoing, false)).unwrap(),
        seeds(&[2, 3, 4, 5])
    );
    assert_eq!(g.expand(&seeds(&[4]), &spec(1, Direction::Incoming, false)).unwrap(), seeds(&[3, 5]));
    assert_eq!(g.expand(&seeds(&[1]), &spec(0, Direction::Outgoing, true)).unwrap(), seeds(&[1]));
}

#[test]
fn expansion_stops_at_its_limit() {
    let g = graph();
    let mut s = spec(3, Direction::Outgoing, true);
    s.max_nodes = Some(2);
    assert!(matches!(g.expand(&seeds(&[1]), &s), Err(GraphError::ExpansionLimit(2))));
}

#[test]
fn expansion_tells_the_distance() {
    let g = graph();
    let (ids, distances) = g.expand_from(1, &spec(3, Direction::Outgoing, false)).unwrap();
    let mut found: Vec<(u32, u64)> = ids.into_iter().zip(distances).collect();
    found.sort();
    assert_eq!(found, vec![(2, 1), (3, 2), (4, 2), (5, 1)]);
}

#[test]
fn the_shortest_path_is_found() {
    let g = graph();
    assert_eq!(g.shortest_path(1, 4, &EdgeFilter::Any).unwrap(), vec![1, 5, 4]);
    let refs = EdgeFilter::Category(EdgeCategory::Reference);
    assert_eq!(g.shortest_path(1, 4, &refs).unwrap(), vec![1, 2, 3, 4]);
    assert_eq!(g.shortest_path(3, 3, &EdgeFilter::Any).unwrap(), vec![3]);
    assert!(matches!(g.shortest_path(4, 1, &EdgeFilter::Any), Err(GraphError::NoPath(4, 1))));
}

#[test]
fn reachability_is_transitive() {
    let g = graph();
    let r = g.reachable(2, Direction::Outgoing, &EdgeFilter::Any).unwrap();
    assert!(r.contains(3) && r.contains(4) && !r.contains(1) && !r.contains(5));
}

#[test]
fn degrees_rank_documents() {
    let g = graph();
    assert_eq!(g.degree_centrality(false, None).unwrap()[0], (1, 2));
    assert_eq!(g.degree_centrality(true, None).unwrap()[0], (4, 2));
    let only = seeds(&[2, 3]);
    let ranked = g.degree_centrality(true, Some(&only)).unwrap();
    assert!(ranked.iter().all(|r| r.0 == 2 || r.0 == 3));
}

// ── Commands ─────────────────────────────────────────────────────

fn registry(n: u32) -> Box<dyn Registry> {
    let mut r = InMemoryRegistry::new();
    for i in 1..=n {
        r.insert_doc(NewDoc {
            file_path: format!("/v/{i}.md"),
            source_type: SourceType::Obsidian,
            blake3_hash: [0; 32],
            auto_type: None,
        })
        .unwrap();
    }
    Box::new(r)
}

fn lines(command: GraphCommand) -> Result<Vec<String>, String> {
    cmd_graph(&command, &graph(), &registry(5)).map(|a| answer_lines(&a))
}

#[test]
fn graph_statistics() {
    assert_eq!(
        lines(GraphCommand::Stats).unwrap()[..3],
        ["Graph Statistics", "  nodes:  5", "  edges:  5"]
    );
}

#[test]
fn graph_neighbours() {
    let l = lines(GraphCommand::Neighbours {
        path: "/v/1.md".into(),
        canonical: Some("/v/1.md".into()),
        incoming: false,
        both: false,
        category: None,
        limit: 20,
    })
    .unwrap();
    assert_eq!(l[0], "2 neighbour(s) of /v/1.md:");
    assert!(l[1].contains("/v/2.md"));
}

#[test]
fn graph_expansion() {
    let l = lines(GraphCommand::Expand {
        path: "/v/1.md".into(),
        canonical: Some("/v/1.md".into()),
        hops: 2,
        direction: "outgoing".into(),
        category: None,
        max_nodes: None,
    })
    .unwrap();
    assert_eq!(l[0], "4 nodes reachable from /v/1.md (2 hop(s), Outgoing):");
    assert_eq!(l.len(), 5);
}

#[test]
fn graph_path() {
    let l = lines(GraphCommand::Path {
        from: "/v/1.md".into(),
        from_canonical: Some("/v/1.md".into()),
        to: "/v/4.md".into(),
        to_canonical: Some("/v/4.md".into()),
        category: None,
    })
    .unwrap();
    assert_eq!(l, vec!["Shortest path: 2 hop(s)", "  /v/1.md", "  /v/5.md", "  /v/4.md"]);
}

#[test]
fn graph_centrality() {
    let l = lines(GraphCommand::Central { algorithm: "outdegree".into(), limit: 2 }).unwrap();
    assert_eq!(l[0], "Top 2 by outdegree centrality:");
    assert!(l[1].ends_with("/v/1.md"));
    assert!(l[1].contains("2.0000"));
    let a = cmd_graph(
        &GraphCommand::Central { algorithm: "pagerank".into(), limit: 3 },
        &graph(),
        &registry(5),
    )
    .unwrap();
    assert!(matches!(a, GraphAnswer::PageRank { iterations: 100, limit: 3, .. }));
}

#[test]
fn graph_commands_refuse() {
    let m = lines(GraphCommand::Central { algorithm: "x".into(), limit: 2 }).unwrap_err();
    assert_eq!(m, "unknown algorithm 'x'. Valid: pagerank, indegree, outdegree");
    let m = lines(GraphCommand::Neighbours {
        path: "/v/none.md".into(),
        canonical: None,
        incoming: false,
        both: false,
        category: None,
        limit: 20,
    })
    .unwrap_err();
    assert!(m.contains("/v/none.md"), "{m}");
}

#[test]
fn words_of_graph_commands() {
    assert!(matches!(parse_edge_filter(None), Ok(EdgeFilter::Any)));
    assert!(matches!(
        parse_edge_filter(Some("workflow")),
        Ok(EdgeFilter::Category(EdgeCategory::Workflow))
    ));
    assert!(parse_edge_filter(Some("x")).is_err());
    assert_eq!(parse_direction("in"), Ok(Direction::Incoming));
    assert_eq!(parse_direction("both"), Ok(Direction::Both));
    assert!(parse_direction("up").is_err());
    assert!(parse_algorithm("pr").is_ok());
    assert_eq!(neighbour_direction(true, false), Direction::Incoming);
    assert_eq!(neighbour_direction(true, true), Direction::Both);
    assert_eq!(graph_message(&GraphError::NoPath(1, 2)), "no path found between 1 and 2");
    assert_eq!(graph_message(&GraphError::NotFound(3)), "doc not in graph: 3");
    assert_eq!(rank_label(3), " 3");
    assert_eq!(rank_label(12), "12");
    assert_eq!(ranking_line(1, "0.5000", "/v/a.md"), "   1. 0.5000  /v/a.md");
}

#[test]
fn documents_are_looked_up_by_their_real_path() {
    let r = registry(2);
    assert_eq!(lookup_doc_id(&r, Some("/v/2.md"), "2.md"), Ok(2));
    assert_eq!(lookup_doc_id(&r, None, "1.md"), Err("path not found: 1.md".to_string()));
    assert!(lookup_doc_id(&r, Some("/v/9.md"), "9.md").is_err());
    assert_eq!(doc_path_str(&r, 1), "/v/1.md");
    assert!(!doc_path_str(&r, 9).is_empty());
}

#[test]
fn categories_are_counted_by_name() {
    let g = graph();
    let counts = count_categories(g.all_edges());
    assert!(counts.contains(&("reference".to_string(), 4)));
    assert!(counts.contains(&("dependency".to_string(), 1)));
}

// ── Queries as values ────────────────────────────────────────────

fn ask(op: GraphOp, limit: Option<u32>) -> Result<(Vec<u32>, usize), String> {
    graph()
        .query(GraphQueryRequest { op, edge_filter: EdgeFilter::Any, limit })
        .map(|q| (q.nodes.iter().map(|n| n.doc_id).collect(), q.edges.len()))
        .map_err(|e| graph_message(&e))
}

#[test]
fn queries_dispatch_on_their_operation() {
    let out = Direction::Outgoing;
    assert_eq!(ask(GraphOp::Neighbours { from: 1, direction: out }, None), Ok((vec![2, 5], 2)));
    assert_eq!(ask(GraphOp::Neighbours { from: 1, direction: out }, Some(1)), Ok((vec![2], 1)));
    let expand = |include_seeds: bool| GraphOp::Expand {
        seeds: vec![1, 1],
        spec: spec(2, out, include_seeds),
    };
    assert_eq!(ask(expand(false), None), Ok((vec![2, 3, 4, 5], 0)));
    assert_eq!(ask(expand(true), Some(3)), Ok((vec![1, 2, 3], 0)));
    assert_eq!(ask(GraphOp::ShortestPath { from: 1, to: 4 }, Some(1)), Ok((vec![1, 5, 4], 0)));
    assert_eq!(ask(GraphOp::Reachable { from: 3, direction: out }, None), Ok((vec![4], 0)));
    let top = |algorithm: CentralityAlgorithm, restrict_to: Option<Vec<u32>>, k: u32| {
        GraphOp::TopCentral { algorithm, restrict_to, k }
    };
    assert_eq!(ask(top(CentralityAlgorithm::OutDegree, None, 2), None), Ok((vec![1, 2], 0)));
    assert_eq!(
        ask(top(CentralityAlgorithm::InDegree, Some(vec![2, 4]), 9), None),
        Ok((vec![4, 2], 0))
    );
}

#[test]
fn queries_carry_distances_and_degrees() {
    let q = graph()
        .query(GraphQueryRequest {
            op: GraphOp::Expand { seeds: vec![1], spec: spec(2, Direction::Outgoing, true) },
            edge_filter: EdgeFilter::Any,
            limit: None,
        })
        .unwrap();
    let hops: Vec<Option<u8>> = q.nodes.iter().map(|n| n.hop_distance).collect();
    assert_eq!(hops, vec![Some(0), Some(1), Some(2), Some(2), Some(1)]);
    let q = graph()
        .query(GraphQueryRequest {
            op: GraphOp::TopCentral {
                algorithm: CentralityAlgorithm::InDegree,
                restrict_to: None,
                k: 1,
            },
            edge_filter: EdgeFilter::Any,
            limit: None,
        })
        .unwrap();
    assert_eq!(q.nodes[0].score, Some(2));
    assert_eq!(q.nodes[0].file_path, "");
}

#[test]
fn queries_are_refused_with_a_reason() {
    let mut small = spec(2, Direction::Outgoing, false);
    small.max_nodes = Some(3);
    assert_eq!(
        ask(GraphOp::Expand { seeds: vec![1], spec: small }, None),
        Err("expansion exceeded max_nodes cap of 3".to_string())
    );
    assert_eq!(
        ask(GraphOp::ShortestPath { from: 4, to: 1 }, None),
        Err("no path found between 4 and 1".to_string())
    );
    let op = GraphOp::TopCentral {
        algorithm: CentralityAlgorithm::default(),
        restrict_to: None,
        k: 1,
    };
    assert!(ask(op, None).is_err());
}

#[test]
fn statistics_tell_of_the_last_rebuild() {
    let mut g = graph();
    let stats = GraphStore::stats(&g).unwrap();
    assert_eq!((stats.node_count, stats.edge_count), (5, 5));
    assert_eq!(
        stats.edges_by_category,
        vec![("dependency".to_string(), 1), ("reference".to_string(), 4)]
    );
    assert_eq!(stats.in_memory_bytes, 240);
    assert_eq!(stats.last_rebuilt, None);
    assert_eq!(g.rebuild_in_memory().unwrap(), 5);
    assert!(GraphQueryEngine::stats(&g).unwrap().last_rebuilt.is_some());
    g.drop_in_memory();
    assert_eq!(GraphStore::stats(&g).unwrap().last_rebuilt, None);
    assert_eq!(g.edge_count().unwrap(), 5);
}
