use omop_graph::graph_conversion::{get_nodes, rows_to_graph, OMOPGraph};
use omop_graph::recursive_relationships::RelationshipDetails;
use omop_graph::store::{Concept, RelationshipStore, StoreEdge};
use omop_graph::traversal::{good_relationships, traverse, traverse_to_graph, TraversalPolicy};

fn concept(id: i32, standard: bool) -> Concept {
    Concept {
        id,
        name: format!("concept {}", id),
        standard_concept: if standard { Some("S".to_string()) } else { None },
    }
}

fn edge(source: i32, target: i32, label: &str, standard: &[i32]) -> StoreEdge {
    StoreEdge {
        source: concept(source, standard.contains(&source)),
        target: concept(target, standard.contains(&target)),
        relationship_id: label.to_string(),
    }
}

fn store(edges: &[(i32, i32, &str)], standard: &[i32]) -> RelationshipStore {
    RelationshipStore::new(edges.iter().map(|(s, t, l)| edge(*s, *t, l, standard)).collect())
        .expect("records of one concept agree")
}

fn steps(rows: &[RelationshipDetails]) -> Vec<(i32, i32, String, i32)> {
    rows.iter()
        .map(|r| (r.concept_id, r.related_concept_id, r.relationship_id.clone(), r.level))
        .collect()
}

fn node_ids(g: &OMOPGraph) -> Vec<i32> {
    g.nodes.iter().map(|n| n.id).collect()
}

fn edge_triples(g: &OMOPGraph) -> Vec<(i32, i32, String)> {
    g.edges.iter().map(|e| (e.source_id, e.target_id, e.relationship_id.clone())).collect()
}

fn filtered() -> TraversalPolicy {
    TraversalPolicy::filtered(good_relationships())
}

#[test]
fn filtered_stops_at_standard() {
    let s = store(&[(1, 2, "Is a"), (2, 3, "Is a")], &[2]);
    let rows = traverse(&s, 1, 5, &filtered());
    assert_eq!(steps(&rows), vec![(1, 2, "Is a".to_string(), 1)]);
    let g = rows_to_graph(rows);
    assert_eq!(node_ids(&g), vec![1, 2]);
    assert_eq!(edge_triples(&g), vec![(1, 2, "Is a".to_string())]);
    assert_eq!(g.nodes[1].standard_concept, Some("S".to_string()));
}

#[test]
fn standard_reached_deeper_is_not_expanded() {
    let s = store(&[(1, 2, "Is a"), (2, 3, "Is a"), (3, 4, "Is a")], &[3]);
    let rows = traverse(&s, 1, 5, &filtered());
    assert_eq!(
        steps(&rows),
        vec![(1, 2, "Is a".to_string(), 1), (2, 3, "Is a".to_string(), 2)]
    );
}

#[test]
fn unfiltered_goes_past_standard() {
    let s = store(&[(1, 2, "Is a"), (2, 3, "Is a")], &[2]);
    let rows = traverse(&s, 1, 5, &TraversalPolicy::unfiltered());
    assert_eq!(
        steps(&rows),
        vec![(1, 2, "Is a".to_string(), 1), (2, 3, "Is a".to_string(), 2)]
    );
    let g = rows_to_graph(rows);
    assert_eq!(node_ids(&g), vec![1, 2, 3]);
    assert_eq!(g.edges.len(), 2);
}

#[test]
fn unknown_start_gives_empty_graph() {
    let s = store(&[(1, 2, "Is a"), (2, 3, "Is a")], &[2]);
    let g = traverse_to_graph(&s, 42, 5, &filtered());
    assert!(g.nodes.is_empty());
    assert!(g.edges.is_empty());
}

#[test]
fn cycle_is_not_reentered() {
    let s = store(&[(1, 2, "Is a"), (2, 1, "Is a")], &[]);
    let rows = traverse(&s, 1, 10, &TraversalPolicy::unfiltered());
    assert_eq!(steps(&rows), vec![(1, 2, "Is a".to_string(), 1)]);
    let g = rows_to_graph(rows);
    assert_eq!(node_ids(&g), vec![1, 2]);
    assert_eq!(edge_triples(&g), vec![(1, 2, "Is a".to_string())]);
}

#[test]
fn max_depth_zero_is_empty() {
    let s = store(&[(1, 2, "Is a"), (2, 3, "Is a")], &[]);
    assert!(traverse(&s, 1, 0, &TraversalPolicy::unfiltered()).is_empty());
    assert!(traverse(&s, 1, -3, &TraversalPolicy::unfiltered()).is_empty());
}

#[test]
fn depth_bound_is_respected() {
    let s = store(&[(1, 2, "Is a"), (2, 3, "Is a"), (3, 4, "Is a"), (4, 5, "Is a")], &[]);
    let rows = traverse(&s, 1, 2, &TraversalPolicy::unfiltered());
    assert_eq!(
        steps(&rows),
        vec![(1, 2, "Is a".to_string(), 1), (2, 3, "Is a".to_string(), 2)]
    );
    assert!(rows.iter().all(|r| r.level >= 1 && r.level <= 2));
}

#[test]
fn first_hop_ignores_filters() {
    let s = store(&[(1, 2, "Not listed"), (1, 3, "Is a"), (3, 4, "Not listed")], &[3]);
    let rows = traverse(&s, 1, 5, &filtered());
    assert_eq!(
        steps(&rows),
        vec![(1, 2, "Not listed".to_string(), 1), (1, 3, "Is a".to_string(), 1)]
    );
}

#[test]
fn allow_list_limits_deeper_edges() {
    let s = store(&[(1, 2, "Is a"), (2, 3, "Not listed"), (2, 4, "Maps to")], &[]);
    let rows = traverse(&s, 1, 5, &filtered());
    assert_eq!(
        steps(&rows),
        vec![(1, 2, "Is a".to_string(), 1), (2, 4, "Maps to".to_string(), 2)]
    );
    let limited = traverse(&s, 1, 5, &TraversalPolicy::limited(good_relationships()));
    assert_eq!(steps(&limited), steps(&rows));
}

#[test]
fn empty_allow_list_keeps_only_first_hop() {
    let s = store(&[(1, 2, "Is a"), (2, 3, "Is a")], &[]);
    let rows = traverse(&s, 1, 5, &TraversalPolicy::filtered(Vec::new()));
    assert_eq!(steps(&rows), vec![(1, 2, "Is a".to_string(), 1)]);
}

#[test]
fn levels_are_ordered_by_source_then_target() {
    let s = store(
        &[(3, 7, "Is a"), (1, 3, "Is a"), (2, 5, "Is a"), (1, 2, "Is a"), (2, 4, "Is a")],
        &[],
    );
    let rows = traverse(&s, 1, 3, &TraversalPolicy::unfiltered());
    assert_eq!(
        steps(&rows),
        vec![
            (1, 2, "Is a".to_string(), 1),
            (1, 3, "Is a".to_string(), 1),
            (2, 4, "Is a".to_string(), 2),
            (2, 5, "Is a".to_string(), 2),
            (3, 7, "Is a".to_string(), 2),
        ]
    );
}

#[test]
fn sibling_paths_may_revisit_and_duplicate_edges() {
    // Edges are not merged: 4 -> 5 is found through 2 and through 3.
    let s = store(
        &[(1, 2, "Is a"), (1, 3, "Is a"), (2, 4, "Is a"), (3, 4, "Is a"), (4, 5, "Is a")],
        &[],
    );
    let g = traverse_to_graph(&s, 1, 5, &TraversalPolicy::unfiltered());
    assert_eq!(node_ids(&g), vec![1, 2, 3, 4, 5]);
    assert_eq!(
        edge_triples(&g),
        vec![
            (1, 2, "Is a".to_string()),
            (1, 3, "Is a".to_string()),
            (2, 4, "Is a".to_string()),
            (3, 4, "Is a".to_string()),
            (4, 5, "Is a".to_string()),
            (4, 5, "Is a".to_string()),
        ]
    );
}

#[test]
fn self_loop_is_not_followed() {
    let s = store(&[(1, 2, "Is a"), (2, 2, "Is a")], &[]);
    let rows = traverse(&s, 1, 10, &TraversalPolicy::unfiltered());
    assert_eq!(steps(&rows), vec![(1, 2, "Is a".to_string(), 1)]);
}

#[test]
fn self_loop_at_start_does_not_expand_start_again() {
    let s = store(&[(1, 1, "Is a"), (1, 2, "Is a")], &[]);
    let rows = traverse(&s, 1, 2, &TraversalPolicy::unfiltered());
    assert_eq!(
        steps(&rows),
        vec![(1, 1, "Is a".to_string(), 1), (1, 2, "Is a".to_string(), 1)]
    );
    let limited = traverse(&s, 1, 2, &TraversalPolicy::limited(good_relationships()));
    assert_eq!(steps(&limited), steps(&rows));
}

#[test]
fn traversal_is_deterministic() {
    let s = store(&[(1, 2, "Is a"), (1, 3, "Maps to"), (2, 3, "Is a"), (3, 1, "Is a")], &[]);
    let a = traverse_to_graph(&s, 1, 4, &TraversalPolicy::unfiltered());
    let b = traverse_to_graph(&s, 1, 4, &TraversalPolicy::unfiltered());
    assert_eq!(node_ids(&a), node_ids(&b));
    assert_eq!(edge_triples(&a), edge_triples(&b));
}

#[test]
fn store_sorts_its_edges() {
    let s = store(&[(2, 1, "a"), (1, 5, "b"), (1, 3, "c")], &[]);
    let keys: Vec<(i32, i32)> = s.edges().iter().map(|e| (e.source.id, e.target.id)).collect();
    assert_eq!(keys, vec![(1, 3), (1, 5), (2, 1)]);
}

#[test]
fn store_refuses_disagreeing_records() {
    let mut standard_two = edge(2, 3, "Is a", &[2]);
    let plain_two = edge(1, 2, "Is a", &[]);
    assert!(RelationshipStore::new(vec![plain_two, standard_two]).is_none());
    standard_two = edge(2, 3, "Is a", &[2]);
    standard_two.source.name = "renamed".to_string();
    assert!(RelationshipStore::new(vec![edge(1, 2, "Is a", &[2]), standard_two]).is_none());
    assert!(RelationshipStore::new(vec![edge(1, 2, "Is a", &[2]), edge(2, 3, "Is a", &[2])]).is_some());
    assert!(RelationshipStore::new(Vec::new()).is_some());
}

#[test]
fn nodes_are_deduplicated_first_seen_wins() {
    let row = |s: i32, sn: &str, t: i32, tn: &str| RelationshipDetails {
        concept_id: s,
        concept_name: sn.to_string(),
        related_concept_id: t,
        related_concept_name: tn.to_string(),
        standard_concept: None,
        related_standard_concept: None,
        relationship_id: "Is a".to_string(),
        level: 1,
    };
    let rows = vec![row(1, "one", 2, "two"), row(2, "other two", 1, "other one"), row(2, "x", 3, "three")];
    let nodes = get_nodes(&rows);
    let ids: Vec<i32> = nodes.iter().map(|n| n.id).collect();
    assert_eq!(ids, vec![1, 2, 3]);
    assert_eq!(nodes[1].name, "two");
    let g = rows_to_graph(rows);
    assert_eq!(g.edges.len(), 3);
    assert_eq!((g.edges[1].source_id, g.edges[1].target_id), (2, 1));
}

#[test]
fn good_relationships_lists_known_labels() {
    let labels = good_relationships();
    assert_eq!(labels.len(), 83);
    assert_eq!(labels[0], "Maps to");
    assert_eq!(labels[1], "Is a");
    assert_eq!(labels[82], "Before");
    let p = filtered();
    assert!(p.label_allowed(&"Has severity".to_string()));
    assert!(!p.label_allowed(&"Unknown".to_string()));
    assert!(TraversalPolicy::unfiltered().label_allowed(&"Unknown".to_string()));
}
