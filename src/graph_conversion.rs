use crate::recursive_relationships::{copy_label, RelationshipDetails};
use std::collections::HashSet;
use vstd::prelude::*;

verus! {

broadcast use vstd::std_specs::hash::group_hash_axioms;

/// A concept in the assembled graph.
pub struct OMOPNode {
    pub id: i32,
    pub name: String,
    pub standard_concept: Option<String>,
}

/// A directed, labelled edge of the assembled graph.
pub struct OMOPEdge {
    pub source_id: i32,
    pub target_id: i32,
    pub relationship_id: String,
}

/// The graph assembled from a sequence of traversal rows.
pub struct OMOPGraph {
    pub nodes: Vec<OMOPNode>,
    pub edges: Vec<OMOPEdge>,
}

/// The node for the source concept of a row.
pub open spec fn source_node(r: RelationshipDetails) -> OMOPNode {
    OMOPNode { id: r.concept_id, name: r.concept_name, standard_concept: r.standard_concept }
}

/// The node for the related (target) concept of a row.
pub open spec fn target_node(r: RelationshipDetails) -> OMOPNode {
    OMOPNode {
        id: r.related_concept_id,
        name: r.related_concept_name,
        standard_concept: r.related_standard_concept,
    }
}

/// The edge that a row stands for.
pub open spec fn edge_of(r: RelationshipDetails) -> OMOPEdge {
    OMOPEdge {
        source_id: r.concept_id,
        target_id: r.related_concept_id,
        relationship_id: r.relationship_id,
    }
}

/// Whether some node of `nodes` has the id `id`.
pub open spec fn has_id(nodes: Seq<OMOPNode>, id: i32) -> bool {
    exists|i: int| 0 <= i < nodes.len() && nodes[i].id == id
}

/// Appends `n` unless a node with its id is already present.
pub open spec fn add_if_new(nodes: Seq<OMOPNode>, n: OMOPNode) -> Seq<OMOPNode> {
    if has_id(nodes, n.id) {
        nodes
    } else {
        nodes.push(n)
    }
}

/// The nodes of the first `k` rows, in order of first appearance; the first
/// attributes seen for an id win.
pub open spec fn nodes_of(rows: Seq<RelationshipDetails>, k: nat) -> Seq<OMOPNode>
    decreases k,
{
    if k == 0 || k > rows.len() {
        Seq::empty()
    } else {
        let r = rows[k - 1];
        add_if_new(add_if_new(nodes_of(rows, (k - 1) as nat), source_node(r)), target_node(r))
    }
}

/// The node list assembled from all of `rows`.
pub open spec fn graph_nodes(rows: Seq<RelationshipDetails>) -> Seq<OMOPNode> {
    nodes_of(rows, rows.len())
}

/// The edge list assembled from `rows`: one edge per row, in order.
pub open spec fn graph_edges(rows: Seq<RelationshipDetails>) -> Seq<OMOPEdge> {
    rows.map_values(|r: RelationshipDetails| edge_of(r))
}

/// No two nodes share an id.
pub open spec fn ids_distinct(nodes: Seq<OMOPNode>) -> bool {
    forall|i: int, j: int| 0 <= i < j < nodes.len() ==> nodes[i].id != nodes[j].id
}

proof fn lemma_add_if_new_distinct(nodes: Seq<OMOPNode>, n: OMOPNode)
    requires
        ids_distinct(nodes),
    ensures
        ids_distinct(add_if_new(nodes, n)),
{
}

/// Assembling never yields two nodes with one id.
pub proof fn lemma_nodes_distinct(rows: Seq<RelationshipDetails>, k: nat)
    ensures
        ids_distinct(nodes_of(rows, k)),
    decreases k,
{
    if k > 0 && k <= rows.len() {
        let r = rows[k - 1];
        lemma_nodes_distinct(rows, (k - 1) as nat);
        lemma_add_if_new_distinct(nodes_of(rows, (k - 1) as nat), source_node(r));
        lemma_add_if_new_distinct(
            add_if_new(nodes_of(rows, (k - 1) as nat), source_node(r)),
            target_node(r),
        );
    }
}

proof fn lemma_add_if_new_has(nodes: Seq<OMOPNode>, n: OMOPNode, x: i32)
    ensures
        has_id(add_if_new(nodes, n), n.id),
        has_id(nodes, x) ==> has_id(add_if_new(nodes, n), x),
{
    if !has_id(nodes, n.id) {
        assert(add_if_new(nodes, n)[nodes.len() as int] == n);
    }
    if has_id(nodes, x) {
        let i = choose|i: int| 0 <= i < nodes.len() && nodes[i].id == x;
        assert(add_if_new(nodes, n)[i] == nodes[i]);
    }
}

proof fn lemma_nodes_keep(rows: Seq<RelationshipDetails>, k: nat, m: nat, x: i32)
    requires
        k <= m <= rows.len(),
        has_id(nodes_of(rows, k), x),
    ensures
        has_id(nodes_of(rows, m), x),
    decreases m - k,
{
    if k < m {
        let r = rows[k as int];
        let a = add_if_new(nodes_of(rows, k), source_node(r));
        lemma_add_if_new_has(nodes_of(rows, k), source_node(r), x);
        lemma_add_if_new_has(a, target_node(r), x);
        lemma_nodes_keep(rows, k + 1, m, x);
    }
}

/// Every edge of an assembled graph joins two of its nodes.
pub proof fn lemma_edges_have_nodes(rows: Seq<RelationshipDetails>, i: int)
    requires
        0 <= i < rows.len(),
    ensures
        graph_edges(rows)[i].source_id == rows[i].concept_id,
        graph_edges(rows)[i].target_id == rows[i].related_concept_id,
        has_id(graph_nodes(rows), rows[i].concept_id),
        has_id(graph_nodes(rows), rows[i].related_concept_id),
{
    let r = rows[i];
    let k = i as nat;
    let a = add_if_new(nodes_of(rows, k), source_node(r));
    lemma_add_if_new_has(nodes_of(rows, k), source_node(r), r.concept_id);
    lemma_add_if_new_has(a, target_node(r), r.concept_id);
    lemma_nodes_keep(rows, k + 1, rows.len(), r.concept_id);
    lemma_nodes_keep(rows, k + 1, rows.len(), r.related_concept_id);
}

fn push_if_new(seen: &mut HashSet<i32>, nodes: &mut Vec<OMOPNode>, n: OMOPNode)
    requires
        forall|x: i32| old(seen)@.contains(x) <==> has_id(old(nodes)@, x),
    ensures
        final(nodes)@ == add_if_new(old(nodes)@, n),
        forall|x: i32| final(seen)@.contains(x) <==> has_id(final(nodes)@, x),
{
    let ghost before = nodes@;
    let id = n.id;
    if seen.insert(id) {
        nodes.push(n);
        proof {
            assert forall|x: i32| seen@.contains(x) <==> has_id(nodes@, x) by {
                if has_id(nodes@, x) {
                    let i = choose|i: int| 0 <= i < nodes@.len() && nodes@[i].id == x;
                    if i < before.len() {
                        assert(before[i].id == x);
                    }
                }
                if x == id {
                    assert(nodes@[before.len() as int].id == x);
                } else if has_id(before, x) {
                    let i = choose|i: int| 0 <= i < before.len() && before[i].id == x;
                    assert(nodes@[i].id == x);
                }
            }
        }
    }
}

/// The distinct nodes of `relationships`, in order of first appearance.
pub fn get_nodes(relationships: &Vec<RelationshipDetails>) -> (result: Vec<OMOPNode>)
    ensures
        result@ == graph_nodes(relationships@),
        ids_distinct(result@),
{
    let mut seen: HashSet<i32> = HashSet::new();
    let mut result: Vec<OMOPNode> = Vec::new();
    let mut k: usize = 0;
    while k < relationships.len()
        invariant
            k <= relationships.len(),
            result@ == nodes_of(relationships@, k as nat),
            forall|x: i32| seen@.contains(x) <==> has_id(result@, x),
        decreases relationships.len() - k,
    {
        let rel = &relationships[k];
        let source = OMOPNode {
            id: rel.concept_id,
            name: rel.concept_name.clone(),
            standard_concept: copy_label(&rel.standard_concept),
        };
        push_if_new(&mut seen, &mut result, source);
        let target = OMOPNode {
            id: rel.related_concept_id,
            name: rel.related_concept_name.clone(),
            standard_concept: copy_label(&rel.related_standard_concept),
        };
        push_if_new(&mut seen, &mut result, target);
        k = k + 1;
    }
    proof {
        lemma_nodes_distinct(relationships@, relationships@.len());
    }
    result
}

/// Assembles the graph of `relationships`: their distinct nodes in order of
/// first appearance, and one edge per row, in order.
pub fn rows_to_graph(relationships: Vec<RelationshipDetails>) -> (r: OMOPGraph)
    ensures
        r.nodes@ == graph_nodes(relationships@),
        r.edges@ == graph_edges(relationships@),
        ids_distinct(r.nodes@),
{
    let nodes = get_nodes(&relationships);
    let mut edges: Vec<OMOPEdge> = Vec::new();
    let mut k: usize = 0;
    while k < relationships.len()
        invariant
            k <= relationships.len(),
            edges@ == graph_edges(relationships@.take(k as int)),
        decreases relationships.len() - k,
    {
        let e = &relationships[k];
        edges.push(
            OMOPEdge {
                source_id: e.concept_id,
                target_id: e.related_concept_id,
                relationship_id: e.relationship_id.clone(),
            },
        );
        assert(relationships@.take(k + 1) =~= relationships@.take(k as int).push(*e));
        assert(edges@ =~= graph_edges(relationships@.take((k + 1) as int)));
        k = k + 1;
    }
    assert(relationships@.take(relationships@.len() as int) =~= relationships@);
    OMOPGraph { nodes, edges }
}

} // verus!
