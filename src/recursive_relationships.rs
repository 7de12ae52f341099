use vstd::prelude::*;

verus! {

/// One row of a traversal: an edge from a source concept to a related concept,
/// with the attributes of both endpoints and the depth at which it was found.
pub struct RelationshipDetails {
    pub concept_id: i32,
    pub concept_name: String,
    pub related_concept_id: i32,
    pub related_concept_name: String,
    pub standard_concept: Option<String>,
    pub related_standard_concept: Option<String>,
    pub relationship_id: String,
    pub level: i32,
}

/// A copy of an optional marker, equal to the one given.
pub(crate) fn copy_label(s: &Option<String>) -> (r: Option<String>)
    ensures
        r == *s,
{
    match s {
        Some(v) => Some(v.clone()),
        None => None,
    }
}

} // verus!
