use crate::graph_conversion::{graph_edges, graph_nodes, ids_distinct, rows_to_graph, OMOPGraph};
use crate::recursive_relationships::{copy_label, RelationshipDetails};
use crate::laws::{lemma_rows_in_order, row_le};
use crate::store::{RelationshipStore, StoreEdge};
use vstd::prelude::*;

verus! {

/// Which edges a traversal may follow beyond the first hop.
pub struct TraversalPolicy {
    /// Labels that may be followed beyond the first hop; `None` allows all.
    pub allow_list: Option<Vec<String>>,
    /// Whether expansion stops at concepts marked standard.
    pub stop_on_standard: bool,
}

impl TraversalPolicy {
    /// Whether the policy lets an edge labelled `label` be followed.
    pub open spec fn allows(&self, label: Seq<char>) -> bool {
        match self.allow_list {
            None => true,
            Some(l) => exists|i: int| 0 <= i < l.len() && #[trigger] l@[i]@ == label,
        }
    }

    /// The filtered-bounded policy: only listed labels, stopping at standard concepts.
    pub fn filtered(allow_list: Vec<String>) -> (r: TraversalPolicy)
        ensures
            r.allow_list == Some(allow_list),
            r.stop_on_standard,
    {
        TraversalPolicy { allow_list: Some(allow_list), stop_on_standard: true }
    }

    /// The limited policy: the same rules as the filtered-bounded one.
    pub fn limited(allow_list: Vec<String>) -> (r: TraversalPolicy)
        ensures
            r.allow_list == Some(allow_list),
            r.stop_on_standard,
    {
        TraversalPolicy { allow_list: Some(allow_list), stop_on_standard: true }
    }

    /// The unfiltered policy: every label, no stop at standard concepts.
    pub fn unfiltered() -> (r: TraversalPolicy)
        ensures
            r.allow_list is None,
            !r.stop_on_standard,
    {
        TraversalPolicy { allow_list: None, stop_on_standard: false }
    }

    /// Whether the policy lets an edge labelled `label` be followed.
    pub fn label_allowed(&self, label: &String) -> (r: bool)
        ensures
            r == self.allows(label@),
    {
        match &self.allow_list {
            None => true,
            Some(l) => {
                let mut i: usize = 0;
                while i < l.len()
                    invariant
                        i <= l.len(),
                        self.allow_list == Some(*l),
                        forall|k: int| 0 <= k < i ==> #[trigger] l@[k]@ != label@,
                    decreases l.len() - i,
                {
                    if l[i] == *label {
                        assert(l@[i as int]@ == label@);
                        assert(match self.allow_list {
                            Some(m) => m == *l,
                            None => false,
                        });
                        assert(self.allows(label@));
                        return true;
                    }
                    i = i + 1;
                }
                false
            },
        }
    }
}

/// The relationship labels that the filtered policies follow beyond the
/// first hop.
pub const GOOD_RELATIONSHIPS: [&'static str; 83] = [
    "Maps to",
    "Is a",
    "SPL - RxNorm",
    "Has Module",
    "Has status",
    "Concept replaces",
    "Has method",
    "ATC - RxNorm",
    "Has finding site",
    "Component of",
    "Has property",
    "Has asso morph",
    "Concept same_as from",
    "Drug class of drug",
    "Concept poss_eq from",
    "Has interprets",
    "Has access",
    "Concept was_a from",
    "ATC - RxNorm sec up",
    "Active ing of",
    "Has pathology",
    "Acc device used by",
    "Device used by",
    "Causative agent of",
    "Has Dose form",
    "Source - RxNorm eq",
    "Subst used by",
    "SNOMED - RxNorm eq",
    "Dir device of",
    "Intent of",
    "Due to of",
    "Maps to value",
    "Has interpretation",
    "Has occurrence",
    "Basis str subst of",
    "Prec ingredient of",
    "Plays role",
    "Dir subst of",
    "Has disposition",
    "Has relat context",
    "Has temporal context",
    "Focus of",
    "Has clinical course",
    "ATC - RxNorm pr lat",
    "Using finding method",
    "Has inherent",
    "Has finding context",
    "Asso finding of",
    "ATC - RxNorm pr up",
    "Followed by",
    "Occurs after",
    "Modification of",
    "Has route",
    "Using finding inform",
    "Spec active ing of",
    "Asso with finding",
    "Disp dose form of",
    "SNOMED - ATC eq",
    "ATC - RxNorm sec lat",
    "Proc device of",
    "Specimen subst of",
    "Concept alt_to from",
    "Has count of ing",
    "Has dev intend site",
    "During",
    "Affected by process",
    "Comp material of",
    "Has prod character",
    "Is sterile",
    "Manifestation of",
    "Has absorbability",
    "Temp related to",
    "Has state of matter",
    "Indir device of",
    "Specimen identity of",
    "Process output of",
    "Precondition of",
    "Coating material of",
    "Has severity",
    "Has variant",
    "Filling of",
    "Surf character of",
    "Before",
];

/// The labels of `GOOD_RELATIONSHIPS`, as owned strings, in order.
pub fn good_relationships() -> (r: Vec<String>)
    ensures
        r@.len() == GOOD_RELATIONSHIPS@.len(),
        forall|i: int| 0 <= i < r@.len() ==> #[trigger] r@[i]@ == GOOD_RELATIONSHIPS@[i]@,
{
    let mut r: Vec<String> = Vec::new();
    let mut i: usize = 0;
    while i < GOOD_RELATIONSHIPS.len()
        invariant
            i <= GOOD_RELATIONSHIPS@.len(),
            r@.len() == i,
            forall|k: int| 0 <= k < i ==> #[trigger] r@[k]@ == GOOD_RELATIONSHIPS@[k]@,
        decreases GOOD_RELATIONSHIPS@.len() - i,
    {
        r.push(GOOD_RELATIONSHIPS[i].to_owned());
        i = i + 1;
    }
    r
}

/// A branch of the expansion: the store edge it ends with, and the ids on
/// its path so far (the start, then the source of each later edge).
pub type Hop = (int, Seq<i32>);

/// The branches at depth one: each edge leaving `start` among the first `k`
/// edges, in store order.
pub open spec fn first_level(s: Seq<StoreEdge>, start: i32, k: nat) -> Seq<Hop>
    decreases k,
{
    if k == 0 || k > s.len() {
        Seq::empty()
    } else {
        let prev = first_level(s, start, (k - 1) as nat);
        if s[k - 1].source.id == start {
            prev.push(((k - 1) as int, seq![start]))
        } else {
            prev
        }
    }
}

/// Whether branch `h` may continue with edge `f`: `f` leaves the concept
/// that `h` reached, that concept is not already on the path and is not a
/// stop under the policy, the label is allowed, and `f` does not lead back
/// onto the path, the reached concept included.
pub open spec fn can_follow(s: Seq<StoreEdge>, policy: TraversalPolicy, h: Hop, f: int) -> bool {
    let reached = s[h.0].target;
    &&& s[f].source.id == reached.id
    &&& !h.1.contains(reached.id)
    &&& !(policy.stop_on_standard && reached.standard_concept is Some)
    &&& policy.allows(s[f].relationship_id@)
    &&& !h.1.push(reached.id).contains(s[f].target.id)
}

/// The branch that continues `h` with edge `f`.
pub open spec fn extend(s: Seq<StoreEdge>, h: Hop, f: int) -> Hop {
    (f, h.1.push(s[h.0].target.id))
}

/// The continuations with edge `f` of the first `j` branches of `lvl`.
pub open spec fn children(
    s: Seq<StoreEdge>,
    policy: TraversalPolicy,
    lvl: Seq<Hop>,
    f: int,
    j: nat,
) -> Seq<Hop>
    decreases j,
{
    if j == 0 || j > lvl.len() {
        Seq::empty()
    } else {
        let prev = children(s, policy, lvl, f, (j - 1) as nat);
        if can_follow(s, policy, lvl[j - 1], f) {
            prev.push(extend(s, lvl[j - 1], f))
        } else {
            prev
        }
    }
}

/// The continuations of the branches `lvl` with the first `k` store edges,
/// grouped by edge in store order.
pub open spec fn next_level(s: Seq<StoreEdge>, policy: TraversalPolicy, lvl: Seq<Hop>, k: nat) -> Seq<
    Hop,
>
    decreases k,
{
    if k == 0 || k > s.len() {
        Seq::empty()
    } else {
        next_level(s, policy, lvl, (k - 1) as nat) + children(
            s,
            policy,
            lvl,
            (k - 1) as int,
            lvl.len(),
        )
    }
}

/// The branches at depth `d` of a traversal from `start`.
pub open spec fn level(s: Seq<StoreEdge>, policy: TraversalPolicy, start: i32, d: nat) -> Seq<Hop>
    decreases d,
{
    if d == 0 {
        Seq::empty()
    } else if d == 1 {
        first_level(s, start, s.len())
    } else {
        next_level(s, policy, level(s, policy, start, (d - 1) as nat), s.len())
    }
}

/// The row that reports edge `e` found at `depth`.
pub open spec fn row_of(e: StoreEdge, depth: int) -> RelationshipDetails {
    RelationshipDetails {
        concept_id: e.source.id,
        concept_name: e.source.name,
        related_concept_id: e.target.id,
        related_concept_name: e.target.name,
        standard_concept: e.source.standard_concept,
        related_standard_concept: e.target.standard_concept,
        relationship_id: e.relationship_id,
        level: depth as i32,
    }
}

/// The rows of the branches `lvl` found at `depth`.
pub open spec fn level_rows(s: Seq<StoreEdge>, lvl: Seq<Hop>, depth: int) -> Seq<
    RelationshipDetails,
> {
    lvl.map_values(|h: Hop| row_of(s[h.0], depth))
}

/// The rows of depths one to `d`, depth by depth.
pub open spec fn rows_upto(s: Seq<StoreEdge>, policy: TraversalPolicy, start: i32, d: nat) -> Seq<
    RelationshipDetails,
>
    decreases d,
{
    if d == 0 {
        Seq::empty()
    } else {
        rows_upto(s, policy, start, (d - 1) as nat) + level_rows(
            s,
            level(s, policy, start, d),
            d as int,
        )
    }
}

/// The rows of a traversal from `start` to at most `max_depth`.
pub open spec fn traversal(
    s: Seq<StoreEdge>,
    policy: TraversalPolicy,
    start: i32,
    max_depth: i32,
) -> Seq<RelationshipDetails> {
    if max_depth <= 0 {
        Seq::empty()
    } else {
        rows_upto(s, policy, start, max_depth as nat)
    }
}

/// A branch held by the engine: the index of its last edge and its path.
struct PathHop {
    edge: usize,
    visited: Vec<i32>,
}

spec fn hop_view(h: PathHop) -> Hop {
    (h.edge as int, h.visited@)
}

spec fn hops_view(v: Seq<PathHop>) -> Seq<Hop> {
    v.map_values(|h: PathHop| hop_view(h))
}

spec fn hops_in(v: Seq<PathHop>, n: int) -> bool {
    forall|i: int| 0 <= i < v.len() ==> #[trigger] v[i].edge < n
}

proof fn lemma_children_empty(s: Seq<StoreEdge>, policy: TraversalPolicy, f: int, j: nat)
    ensures
        children(s, policy, Seq::empty(), f, j) == Seq::<Hop>::empty(),
{
}

proof fn lemma_next_level_empty(s: Seq<StoreEdge>, policy: TraversalPolicy, k: nat)
    ensures
        next_level(s, policy, Seq::empty(), k) == Seq::<Hop>::empty(),
    decreases k,
{
    if k > 0 && k <= s.len() {
        lemma_next_level_empty(s, policy, (k - 1) as nat);
        lemma_children_empty(s, policy, (k - 1) as int, 0);
        assert(next_level(s, policy, Seq::empty(), k) =~= Seq::<Hop>::empty());
    }
}

/// Once a depth has no branches, no deeper depth adds a row.
proof fn lemma_exhausted(s: Seq<StoreEdge>, policy: TraversalPolicy, start: i32, d: nat, e: nat)
    requires
        1 <= d <= e,
        level(s, policy, start, d).len() == 0,
    ensures
        level(s, policy, start, e).len() == 0,
        rows_upto(s, policy, start, e) == rows_upto(s, policy, start, d),
    decreases e - d,
{
    if e > d {
        lemma_exhausted(s, policy, start, d, (e - 1) as nat);
        let prev = level(s, policy, start, (e - 1) as nat);
        assert(prev =~= Seq::empty());
        lemma_next_level_empty(s, policy, s.len());
        assert(level_rows(s, level(s, policy, start, e), e as int) =~= Seq::empty());
        assert(rows_upto(s, policy, start, e) =~= rows_upto(s, policy, start, (e - 1) as nat));
    }
}

fn first_hops(edges: &Vec<StoreEdge>, start_id: i32) -> (r: Vec<PathHop>)
    ensures
        hops_view(r@) == first_level(edges@, start_id, edges@.len()),
        hops_in(r@, edges@.len() as int),
{
    let mut r: Vec<PathHop> = Vec::new();
    let mut k: usize = 0;
    while k < edges.len()
        invariant
            k <= edges.len(),
            hops_view(r@) == first_level(edges@, start_id, k as nat),
            hops_in(r@, k as int),
        decreases edges.len() - k,
    {
        if edges[k].source.id == start_id {
            let ghost before = r@;
            let mut visited: Vec<i32> = Vec::new();
            visited.push(start_id);
            r.push(PathHop { edge: k, visited });
            assert(visited@ =~= seq![start_id]);
            assert(hops_view(r@) =~= hops_view(before).push((k as int, seq![start_id])));
        }
        k = k + 1;
    }
    r
}

fn path_contains(path: &Vec<i32>, id: i32) -> (r: bool)
    ensures
        r == path@.contains(id),
{
    let mut i: usize = 0;
    while i < path.len()
        invariant
            i <= path.len(),
            forall|k: int| 0 <= k < i ==> path@[k] != id,
        decreases path.len() - i,
    {
        if path[i] == id {
            return true;
        }
        i = i + 1;
    }
    false
}

fn may_follow(edges: &Vec<StoreEdge>, policy: &TraversalPolicy, h: &PathHop, f: usize) -> (r: bool)
    requires
        h.edge < edges@.len(),
        f < edges@.len(),
    ensures
        r == can_follow(edges@, *policy, hop_view(*h), f as int),
{
    let reached = &edges[h.edge].target;
    let next = &edges[f];
    let r = next.source.id == reached.id && !path_contains(&h.visited, reached.id) && !(
    policy.stop_on_standard && reached.standard_concept.is_some()) && policy.label_allowed(
        &next.relationship_id,
    ) && next.target.id != reached.id && !path_contains(&h.visited, next.target.id);
    proof {
        let p = h.visited@.push(reached.id);
        if p.contains(next.target.id) {
            let k = choose|k: int| 0 <= k < p.len() && p[k] == next.target.id;
            if k < h.visited@.len() {
                assert(h.visited@[k] == next.target.id);
            }
        }
        if next.target.id == reached.id {
            assert(p[h.visited@.len() as int] == reached.id);
        }
        if h.visited@.contains(next.target.id) {
            let k = choose|k: int| 0 <= k < h.visited@.len() && h.visited@[k] == next.target.id;
            assert(p[k] == next.target.id);
        }
    }
    r
}

fn follow_edge(
    edges: &Vec<StoreEdge>,
    policy: &TraversalPolicy,
    lvl: &Vec<PathHop>,
    f: usize,
    out: &mut Vec<PathHop>,
)
    requires
        f < edges@.len(),
        hops_in(lvl@, edges@.len() as int),
        hops_in(old(out)@, edges@.len() as int),
    ensures
        hops_view(final(out)@) == hops_view(old(out)@) + children(
            edges@,
            *policy,
            hops_view(lvl@),
            f as int,
            lvl@.len(),
        ),
        hops_in(final(out)@, edges@.len() as int),
{
    let ghost start = hops_view(out@);
    let ghost l = hops_view(lvl@);
    let mut j: usize = 0;
    while j < lvl.len()
        invariant
            j <= lvl.len(),
            f < edges@.len(),
            l == hops_view(lvl@),
            hops_in(lvl@, edges@.len() as int),
            hops_in(out@, edges@.len() as int),
            hops_view(out@) == start + children(edges@, *policy, l, f as int, j as nat),
        decreases lvl.len() - j,
    {
        let h = &lvl[j];
        let ghost before = out@;
        if may_follow(edges, policy, h, f) {
            let mut visited = h.visited.clone();
            visited.push(edges[h.edge].target.id);
            assert(visited@ =~= h.visited@.push(edges@[h.edge as int].target.id));
            out.push(PathHop { edge: f, visited });
            assert(hops_view(out@) =~= hops_view(before).push(extend(edges@, l[j as int], f as int)));
            assert(hops_view(out@) =~= start + children(
                edges@,
                *policy,
                l,
                f as int,
                (j + 1) as nat,
            ));
        }
        j = j + 1;
    }
}

fn next_hops(edges: &Vec<StoreEdge>, policy: &TraversalPolicy, lvl: &Vec<PathHop>) -> (r: Vec<
    PathHop,
>)
    requires
        hops_in(lvl@, edges@.len() as int),
    ensures
        hops_view(r@) == next_level(edges@, *policy, hops_view(lvl@), edges@.len()),
        hops_in(r@, edges@.len() as int),
{
    let mut r: Vec<PathHop> = Vec::new();
    let mut k: usize = 0;
    while k < edges.len()
        invariant
            k <= edges.len(),
            hops_in(lvl@, edges@.len() as int),
            hops_in(r@, edges@.len() as int),
            hops_view(r@) == next_level(edges@, *policy, hops_view(lvl@), k as nat),
        decreases edges.len() - k,
    {
        follow_edge(edges, policy, lvl, k, &mut r);
        k = k + 1;
    }
    r
}

fn make_row(e: &StoreEdge, depth: i32) -> (r: RelationshipDetails)
    ensures
        r == row_of(*e, depth as int),
{
    RelationshipDetails {
        concept_id: e.source.id,
        concept_name: e.source.name.clone(),
        related_concept_id: e.target.id,
        related_concept_name: e.target.name.clone(),
        standard_concept: copy_label(&e.source.standard_concept),
        related_standard_concept: copy_label(&e.target.standard_concept),
        relationship_id: e.relationship_id.clone(),
        level: depth,
    }
}

fn append_rows(
    edges: &Vec<StoreEdge>,
    lvl: &Vec<PathHop>,
    depth: i32,
    rows: &mut Vec<RelationshipDetails>,
)
    requires
        hops_in(lvl@, edges@.len() as int),
    ensures
        final(rows)@ == old(rows)@ + level_rows(edges@, hops_view(lvl@), depth as int),
{
    let ghost start = rows@;
    let mut j: usize = 0;
    while j < lvl.len()
        invariant
            j <= lvl.len(),
            hops_in(lvl@, edges@.len() as int),
            rows@ == start + level_rows(edges@, hops_view(lvl@).take(j as int), depth as int),
        decreases lvl.len() - j,
    {
        let row = make_row(&edges[lvl[j].edge], depth);
        rows.push(row);
        assert(hops_view(lvl@).take(j + 1) =~= hops_view(lvl@).take(j as int).push(
            hop_view(lvl@[j as int]),
        ));
        assert(rows@ =~= start + level_rows(
            edges@,
            hops_view(lvl@).take((j + 1) as int),
            depth as int,
        ));
        j = j + 1;
    }
    assert(hops_view(lvl@).take(lvl@.len() as int) =~= hops_view(lvl@));
}

/// Expands the store from `start_id` under `policy`, to at most `max_depth`
/// edges along any path. Every edge leaving the start is reported at depth
/// one; deeper edges are reported as `policy` and the path allow. The rows
/// come depth by depth, and within a depth in store order.
pub fn traverse(
    store: &RelationshipStore,
    start_id: i32,
    max_depth: i32,
    policy: &TraversalPolicy,
) -> (rows: Vec<RelationshipDetails>)
    ensures
        rows@ == traversal(store@, *policy, start_id, max_depth),
        forall|i: int, j: int|
            0 <= i < j < rows@.len() ==> row_le(#[trigger] rows@[i], #[trigger] rows@[j]),
{
    let edges = store.edges();
    proof {
        lemma_rows_in_order(store@, *policy, start_id, max_depth);
    }
    let mut rows: Vec<RelationshipDetails> = Vec::new();
    if max_depth <= 0 {
        return rows;
    }
    let mut lvl = first_hops(edges, start_id);
    let mut depth: i32 = 1;
    assert(rows@ =~= rows_upto(edges@, *policy, start_id, 0));
    loop
        invariant
            1 <= depth <= max_depth,
            hops_in(lvl@, edges@.len() as int),
            hops_view(lvl@) == level(edges@, *policy, start_id, depth as nat),
            rows@ == rows_upto(edges@, *policy, start_id, (depth - 1) as nat),
            edges@ == store@,
            forall|i: int, j: int|
                0 <= i < j < traversal(store@, *policy, start_id, max_depth).len() ==> row_le(
                    #[trigger] traversal(store@, *policy, start_id, max_depth)[i],
                    #[trigger] traversal(store@, *policy, start_id, max_depth)[j],
                ),
        decreases max_depth - depth,
    {
        append_rows(edges, &lvl, depth, &mut rows);
        if depth == max_depth || lvl.len() == 0 {
            proof {
                if depth < max_depth {
                    lemma_exhausted(edges@, *policy, start_id, depth as nat, max_depth as nat);
                }
            }
            return rows;
        }
        lvl = next_hops(edges, policy, &lvl);
        depth = depth + 1;
    }
}

/// The graph of a traversal: its rows assembled into distinct nodes and one
/// edge per row.
pub fn traverse_to_graph(
    store: &RelationshipStore,
    start_id: i32,
    max_depth: i32,
    policy: &TraversalPolicy,
) -> (g: OMOPGraph)
    ensures
        g.nodes@ == graph_nodes(traversal(store@, *policy, start_id, max_depth)),
        g.edges@ == graph_edges(traversal(store@, *policy, start_id, max_depth)),
        ids_distinct(g.nodes@),
{
    rows_to_graph(traverse(store, start_id, max_depth, policy))
}

} // verus!
