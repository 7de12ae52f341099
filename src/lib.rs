//! Bounded, policy-driven traversal of a labelled concept graph, and the
//! assembly of the traversal's rows into a deduplicated node/edge graph.

pub mod graph_conversion;
pub mod recursive_relationships;
pub mod store;
pub mod traversal;
pub mod laws;
