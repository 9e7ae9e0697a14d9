//! Edges and what selects them.

use locus::graph::{Edge, EdgeCategory, EdgeFilter, ExpandSpec, GraphError, DEFAULT_WEIGHT};
use locus::types::DocId;

fn make_edge(from: DocId, to: DocId, category: EdgeCategory, kind: &str) -> Edge {
    Edge {
        from,
        to,
        category,
        kind: kind.to_string(),
        weight: DEFAULT_WEIGHT,
        byte_offset: None,
        created_at: 0,
    }
}

#[test]
fn edge_filter_any_matches_all() {
    let e = make_edge(1, 2, EdgeCategory::Reference, "ref:wikilink");
    assert!(EdgeFilter::Any.matches(&e));
}

#[test]
fn edge_filter_category_matches_correct() {
    let e = make_edge(1, 2, EdgeCategory::Reference, "ref:wikilink");
    assert!(EdgeFilter::Category(EdgeCategory::Reference).matches(&e));
    assert!(!EdgeFilter::Category(EdgeCategory::Dependency).matches(&e));
}

#[test]
fn edge_filter_kinds_matches_exact() {
    let e = make_edge(1, 2, EdgeCategory::Dependency, "dep:import");
    assert!(EdgeFilter::Kinds(vec!["dep:import".into()]).matches(&e));
    assert!(!EdgeFilter::Kinds(vec!["ref:wikilink".into()]).matches(&e));
}

#[test]
fn edge_filter_and_requires_all() {
    let e = make_edge(1, 2, EdgeCategory::Reference, "ref:wikilink");
    let filter = EdgeFilter::And(vec![
        EdgeFilter::Category(EdgeCategory::Reference),
        EdgeFilter::Kinds(vec!["ref:wikilink".into()]),
    ]);
    assert!(filter.matches(&e));

    let filter_fail = EdgeFilter::And(vec![
        EdgeFilter::Category(EdgeCategory::Reference),
        EdgeFilter::Kinds(vec!["dep:import".into()]),
    ]);
    assert!(!filter_fail.matches(&e));
}

#[test]
fn edge_filter_or_requires_any() {
    let e = make_edge(1, 2, EdgeCategory::Dependency, "dep:import");
    let filter = EdgeFilter::Or(vec![
        EdgeFilter::Category(EdgeCategory::Reference),
        EdgeFilter::Category(EdgeCategory::Dependency),
    ]);
    assert!(filter.matches(&e));
}

#[test]
fn edge_category_round_trips_str() {
    for cat in [
        EdgeCategory::Reference,
        EdgeCategory::Dependency,
        EdgeCategory::Hierarchy,
        EdgeCategory::Workflow,
        EdgeCategory::Provenance,
    ] {
        let s = cat.as_str();
        let parsed: EdgeCategory = s.parse().unwrap();
        assert_eq!(parsed, cat);
    }
}

#[test]
fn expand_spec_default_sensible() {
    let spec = ExpandSpec::default();
    assert_eq!(spec.hops, 1);
    assert!(spec.include_seeds);
    assert_eq!(spec.max_nodes, Some(500));
}

#[test]
fn unknown_categories_are_refused() {
    assert!(matches!(EdgeCategory::from_name("friendship"), Err(GraphError::Storage(_))));
    assert!("friendship".parse::<EdgeCategory>().is_err());
}

#[test]
fn the_default_weight_is_one() {
    assert_eq!(f32::from_bits(DEFAULT_WEIGHT), 1.0);
}

#[test]
fn an_empty_conjunction_matches_and_an_empty_disjunction_does_not() {
    let e = make_edge(1, 2, EdgeCategory::Workflow, "k");
    assert!(EdgeFilter::And(vec![]).matches(&e));
    assert!(!EdgeFilter::Or(vec![]).matches(&e));
}
