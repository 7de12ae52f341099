use vstd::prelude::*;

verus! {

broadcast use vstd::seq_lib::group_to_multiset_ensures;

/// A concept as the store reports it: its id, display name and, for a
/// standard (terminal) concept, its standard marker.
pub struct Concept {
    pub id: i32,
    pub name: String,
    pub standard_concept: Option<String>,
}

/// A labelled edge of the store, with the attributes of both endpoints.
pub struct StoreEdge {
    pub source: Concept,
    pub target: Concept,
    pub relationship_id: String,
}

/// `a` comes no later than `b` in `(source id, target id)` order.
pub open spec fn key_le(a: StoreEdge, b: StoreEdge) -> bool {
    a.source.id < b.source.id || (a.source.id == b.source.id && a.target.id <= b.target.id)
}

/// The edges are in ascending `(source id, target id)` order.
pub open spec fn sorted_edges(s: Seq<StoreEdge>) -> bool {
    forall|i: int, j: int| 0 <= i < j < s.len() ==> key_le(s[i], s[j])
}

/// The view of an optional marker.
pub open spec fn marker_view(o: Option<String>) -> Option<Seq<char>> {
    match o {
        Some(x) => Some(x@),
        None => None,
    }
}

/// Two records of one concept id carry the same name and marker.
pub open spec fn same_concept(a: Concept, b: Concept) -> bool {
    a.id == b.id ==> a.name@ == b.name@ && marker_view(a.standard_concept) == marker_view(
        b.standard_concept,
    )
}

/// The endpoints of edges `a` and `b` agree wherever they name one id.
pub open spec fn edges_agree(a: StoreEdge, b: StoreEdge) -> bool {
    &&& same_concept(a.source, b.source)
    &&& same_concept(a.source, b.target)
    &&& same_concept(a.target, b.source)
    &&& same_concept(a.target, b.target)
}

/// Every concept id stands for one concept throughout the edges.
pub open spec fn concepts_agree(s: Seq<StoreEdge>) -> bool {
    forall|i: int, j: int| 0 <= i < s.len() && 0 <= j < s.len() ==> edges_agree(s[i], s[j])
}

fn same_marker(a: &Option<String>, b: &Option<String>) -> (r: bool)
    ensures
        r == (marker_view(*a) == marker_view(*b)),
{
    match (a, b) {
        (Some(x), Some(y)) => *x == *y,
        (None, None) => true,
        _ => false,
    }
}

fn same_concept_exec(a: &Concept, b: &Concept) -> (r: bool)
    ensures
        r == same_concept(*a, *b),
{
    a.id != b.id || (a.name == b.name && same_marker(&a.standard_concept, &b.standard_concept))
}

fn edges_agree_exec(a: &StoreEdge, b: &StoreEdge) -> (r: bool)
    ensures
        r == edges_agree(*a, *b),
{
    same_concept_exec(&a.source, &b.source) && same_concept_exec(&a.source, &b.target)
        && same_concept_exec(&a.target, &b.source) && same_concept_exec(&a.target, &b.target)
}

fn all_agree(edges: &Vec<StoreEdge>) -> (r: bool)
    ensures
        r == concepts_agree(edges@),
{
    let mut i: usize = 0;
    while i < edges.len()
        invariant
            i <= edges.len(),
            forall|a: int, b: int|
                0 <= a < i && 0 <= b < edges@.len() ==> edges_agree(edges@[a], edges@[b]),
        decreases edges.len() - i,
    {
        let mut j: usize = 0;
        while j < edges.len()
            invariant
                i < edges.len(),
                j <= edges.len(),
                forall|a: int, b: int|
                    0 <= a < i && 0 <= b < edges@.len() ==> edges_agree(edges@[a], edges@[b]),
                forall|b: int| 0 <= b < j ==> edges_agree(edges@[i as int], edges@[b]),
            decreases edges.len() - j,
        {
            if !edges_agree_exec(&edges[i], &edges[j]) {
                return false;
            }
            j = j + 1;
        }
        i = i + 1;
    }
    true
}

proof fn lemma_agree_permuted(a: Seq<StoreEdge>, b: Seq<StoreEdge>)
    requires
        concepts_agree(a),
        a.to_multiset() == b.to_multiset(),
    ensures
        concepts_agree(b),
{
    assert forall|i: int, j: int| 0 <= i < b.len() && 0 <= j < b.len() implies edges_agree(
        b[i],
        b[j],
    ) by {
        assert(b.contains(b[i]));
        assert(b.contains(b[j]));
        assert(a.to_multiset().count(b[i]) > 0);
        assert(a.to_multiset().count(b[j]) > 0);
        assert(a.contains(b[i]));
        assert(a.contains(b[j]));
        let x = choose|x: int| 0 <= x < a.len() && a[x] == b[i];
        let y = choose|y: int| 0 <= y < a.len() && a[y] == b[j];
        assert(edges_agree(a[x], a[y]));
    }
}

/// A read-only snapshot of the relationship graph: its edges, held in
/// ascending `(source id, target id)` order, in which each concept id stands
/// for one concept.
pub struct RelationshipStore {
    edges: Vec<StoreEdge>,
}

impl View for RelationshipStore {
    type V = Seq<StoreEdge>;

    closed spec fn view(&self) -> Seq<StoreEdge> {
        self.edges@
    }
}

fn key_le_exec(a: &StoreEdge, b: &StoreEdge) -> (r: bool)
    ensures
        r == key_le(*a, *b),
{
    a.source.id < b.source.id || (a.source.id == b.source.id && a.target.id <= b.target.id)
}

impl RelationshipStore {
    #[verifier::type_invariant]
    spec fn well_formed(&self) -> bool {
        sorted_edges(self.edges@) && concepts_agree(self.edges@)
    }

    /// A store holding exactly the given edges, put in ascending
    /// `(source id, target id)` order (edges with equal keys keep no
    /// particular order); `None` where two records of one concept id differ
    /// in name or marker.
    pub fn new(edges: Vec<StoreEdge>) -> (r: Option<RelationshipStore>)
        ensures
            r is Some <==> concepts_agree(edges@),
            r matches Some(st) ==> sorted_edges(st@) && st@.to_multiset()
                == edges@.to_multiset(),
    {
        if !all_agree(&edges) {
            return None;
        }
        let ghost all = edges@;
        let mut rest = edges;
        let mut sorted: Vec<StoreEdge> = Vec::new();
        while rest.len() > 0
            invariant
                sorted_edges(sorted@),
                sorted@.to_multiset().add(rest@.to_multiset()) == all.to_multiset(),
            decreases rest.len(),
        {
            let ghost before_rest = rest@;
            let e = rest.pop().unwrap();
            assert(before_rest == rest@.push(e));
            let mut p: usize = 0;
            while p < sorted.len() && key_le_exec(&sorted[p], &e)
                invariant
                    p <= sorted.len(),
                    forall|i: int| 0 <= i < p ==> key_le(#[trigger] sorted@[i], e),
                decreases sorted.len() - p,
            {
                p = p + 1;
            }
            let ghost before = sorted@;
            sorted.insert(p, e);
            proof {
                assert forall|i: int, j: int| 0 <= i < j < sorted@.len() implies key_le(
                    sorted@[i],
                    sorted@[j],
                ) by {
                    if j == p {
                        assert(key_le(before[i], e));
                    } else if i == p {
                        assert(!key_le(before[p as int], e));
                        assert(key_le(before[p as int], before[j - 1]) || p as int == j - 1);
                    }
                }
                assert(sorted@.to_multiset() == before.to_multiset().insert(e));
            }
        }
        proof {
            assert(rest@ =~= Seq::<StoreEdge>::empty());
            assert(sorted@.to_multiset() =~= all.to_multiset());
            lemma_agree_permuted(all, sorted@);
        }
        Some(RelationshipStore { edges: sorted })
    }

    /// The store's edges, in ascending `(source id, target id)` order.
    pub fn edges(&self) -> (r: &Vec<StoreEdge>)
        ensures
            r@ == self@,
            sorted_edges(self@),
            concepts_agree(self@),
    {
        proof {
            use_type_invariant(self);
        }
        &self.edges
    }
}

} // verus!
