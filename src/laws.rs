use crate::graph_conversion::{graph_edges, graph_nodes};
use crate::recursive_relationships::RelationshipDetails;
use crate::store::{concepts_agree, edges_agree, key_le, sorted_edges, StoreEdge};
use crate::traversal::{
    can_follow, children, extend, first_level, level, level_rows, next_level, row_of, rows_upto,
    traversal, Hop, TraversalPolicy,
};
use vstd::prelude::*;

verus! {

/// Some edge of the store leads from `a` to `b`.
pub open spec fn joined(s: Seq<StoreEdge>, a: i32, b: i32) -> bool {
    exists|e: int| 0 <= e < s.len() && s[e].source.id == a && #[trigger] s[e].target.id == b
}

/// Each id of `v` but the last is joined to the next by an edge of the store.
pub open spec fn linked(s: Seq<StoreEdge>, v: Seq<i32>) -> bool {
    forall|k: int| 0 <= k < v.len() - 1 ==> joined(s, #[trigger] v[k], v[k + 1])
}

/// `v` is a simple path through the store from `start` to the source of row
/// `r`, one id per depth, that the row's target does not lead back onto
/// beyond the first hop.
pub open spec fn path_to_row(s: Seq<StoreEdge>, start: i32, r: RelationshipDetails, v: Seq<i32>) -> bool {
    &&& v.len() == r.level
    &&& v[0] == start
    &&& v.last() == r.concept_id
    &&& v.no_duplicates()
    &&& linked(s, v)
    &&& r.level >= 2 ==> !v.contains(r.related_concept_id)
}

/// What holds of every branch at depth `d`: its edge is in the store, its
/// path runs from `start` to the edge's source with one id per depth and no
/// id twice and, from depth two on, the edge does not lead back onto the
/// path, carries an
/// allowed label, and (when the policy stops at standard concepts) leaves a
/// concept that was reached unmarked.
pub open spec fn hop_shape(
    s: Seq<StoreEdge>,
    policy: TraversalPolicy,
    start: i32,
    d: int,
    h: Hop,
) -> bool {
    &&& 0 <= h.0 < s.len()
    &&& h.1.len() == d
    &&& h.1[0] == start
    &&& h.1.last() == s[h.0].source.id
    &&& h.1.no_duplicates()
    &&& linked(s, h.1)
    &&& d >= 2 ==> !h.1.contains(s[h.0].target.id)
    &&& d >= 2 ==> policy.allows(s[h.0].relationship_id@)
    &&& d >= 2 && policy.stop_on_standard ==> exists|e: int|
        0 <= e < s.len() && #[trigger] s[e].target.id == s[h.0].source.id
            && s[e].target.standard_concept is None
}

proof fn lemma_first_level_shape(s: Seq<StoreEdge>, policy: TraversalPolicy, start: i32, k: nat)
    ensures
        forall|i: int|
            0 <= i < first_level(s, start, k).len() ==> hop_shape(
                s,
                policy,
                start,
                1,
                #[trigger] first_level(s, start, k)[i],
            ),
    decreases k,
{
    if k > 0 && k <= s.len() {
        let prev = first_level(s, start, (k - 1) as nat);
        lemma_first_level_shape(s, policy, start, (k - 1) as nat);
        assert forall|i: int| 0 <= i < first_level(s, start, k).len() implies hop_shape(
            s,
            policy,
            start,
            1,
            #[trigger] first_level(s, start, k)[i],
        ) by {
            if i < prev.len() {
                assert(first_level(s, start, k)[i] == prev[i]);
            } else {
                assert(seq![start].last() == start);
            }
        }
    }
}

proof fn lemma_extend_shape(
    s: Seq<StoreEdge>,
    policy: TraversalPolicy,
    start: i32,
    d: int,
    h: Hop,
    f: int,
)
    requires
        d >= 2,
        0 <= f < s.len(),
        hop_shape(s, policy, start, d - 1, h),
        can_follow(s, policy, h, f),
    ensures
        hop_shape(s, policy, start, d, extend(s, h, f)),
{
    let c = extend(s, h, f);
    let reached = s[h.0].target.id;
    assert forall|k: int| 0 <= k < c.1.len() - 1 implies joined(s, #[trigger] c.1[k], c.1[k + 1]) by {
        if k == h.1.len() - 1 {
            assert(c.1[k] == h.1.last());
            assert(c.1[k + 1] == reached);
            assert(s[h.0].source.id == c.1[k] && s[h.0].target.id == c.1[k + 1]);
        } else {
            assert(c.1[k] == h.1[k] && c.1[k + 1] == h.1[k + 1]);
            assert(joined(s, h.1[k], h.1[k + 1]));
        }
    }
    assert forall|a: int, b: int| 0 <= a < b < c.1.len() implies c.1[a] != c.1[b] by {
        if b == h.1.len() {
            assert(c.1[a] == h.1[a]);
        } else {
            assert(c.1[a] == h.1[a] && c.1[b] == h.1[b]);
        }
    }
    assert(0 <= h.0 < s.len() && s[h.0].target.id == s[c.0].source.id);
}

proof fn lemma_children_shape(
    s: Seq<StoreEdge>,
    policy: TraversalPolicy,
    start: i32,
    d: int,
    lvl: Seq<Hop>,
    f: int,
    j: nat,
)
    requires
        d >= 2,
        0 <= f < s.len(),
        forall|i: int| 0 <= i < lvl.len() ==> hop_shape(s, policy, start, d - 1, #[trigger] lvl[i]),
    ensures
        forall|i: int|
            0 <= i < children(s, policy, lvl, f, j).len() ==> hop_shape(
                s,
                policy,
                start,
                d,
                #[trigger] children(s, policy, lvl, f, j)[i],
            ),
    decreases j,
{
    if j > 0 && j <= lvl.len() {
        let prev = children(s, policy, lvl, f, (j - 1) as nat);
        lemma_children_shape(s, policy, start, d, lvl, f, (j - 1) as nat);
        if can_follow(s, policy, lvl[j - 1], f) {
            lemma_extend_shape(s, policy, start, d, lvl[j - 1], f);
        }
        assert forall|i: int| 0 <= i < children(s, policy, lvl, f, j).len() implies hop_shape(
            s,
            policy,
            start,
            d,
            #[trigger] children(s, policy, lvl, f, j)[i],
        ) by {
            if i < prev.len() {
                assert(children(s, policy, lvl, f, j)[i] == prev[i]);
            }
        }
    }
}

proof fn lemma_next_level_shape(
    s: Seq<StoreEdge>,
    policy: TraversalPolicy,
    start: i32,
    d: int,
    lvl: Seq<Hop>,
    k: nat,
)
    requires
        d >= 2,
        forall|i: int| 0 <= i < lvl.len() ==> hop_shape(s, policy, start, d - 1, #[trigger] lvl[i]),
    ensures
        forall|i: int|
            0 <= i < next_level(s, policy, lvl, k).len() ==> hop_shape(
                s,
                policy,
                start,
                d,
                #[trigger] next_level(s, policy, lvl, k)[i],
            ),
    decreases k,
{
    if k > 0 && k <= s.len() {
        let prev = next_level(s, policy, lvl, (k - 1) as nat);
        let more = children(s, policy, lvl, (k - 1) as int, lvl.len());
        lemma_next_level_shape(s, policy, start, d, lvl, (k - 1) as nat);
        lemma_children_shape(s, policy, start, d, lvl, (k - 1) as int, lvl.len());
        assert forall|i: int| 0 <= i < (prev + more).len() implies hop_shape(
            s,
            policy,
            start,
            d,
            #[trigger] (prev + more)[i],
        ) by {
            if i >= prev.len() {
                assert((prev + more)[i] == more[i - prev.len()]);
            }
        }
    }
}

proof fn lemma_level_shape(s: Seq<StoreEdge>, policy: TraversalPolicy, start: i32, d: nat)
    requires
        d >= 1,
    ensures
        forall|i: int|
            0 <= i < level(s, policy, start, d).len() ==> hop_shape(
                s,
                policy,
                start,
                d as int,
                #[trigger] level(s, policy, start, d)[i],
            ),
    decreases d,
{
    if d == 1 {
        lemma_first_level_shape(s, policy, start, s.len());
    } else {
        lemma_level_shape(s, policy, start, (d - 1) as nat);
        lemma_next_level_shape(
            s,
            policy,
            start,
            d as int,
            level(s, policy, start, (d - 1) as nat),
            s.len(),
        );
    }
}

/// What holds of each row of a traversal to `max_depth`: its depth is in
/// range, depth-one rows leave `start`, and deeper rows carry an allowed
/// label and (when the policy stops at standard concepts) leave a concept
/// that was reached unmarked.
pub open spec fn row_ok(
    s: Seq<StoreEdge>,
    policy: TraversalPolicy,
    start: i32,
    max_depth: int,
    r: RelationshipDetails,
) -> bool {
    &&& 1 <= r.level <= max_depth
    &&& r.level == 1 ==> r.concept_id == start
    &&& r.level >= 2 ==> policy.allows(r.relationship_id@)
    &&& r.level >= 2 && policy.stop_on_standard ==> exists|e: int|
        0 <= e < s.len() && #[trigger] s[e].target.id == r.concept_id
            && s[e].target.standard_concept is None
    &&& exists|v: Seq<i32>| path_to_row(s, start, r, v)
    &&& exists|e: int| 0 <= e < s.len() && r == #[trigger] row_of(s[e], r.level as int)
}

proof fn lemma_rows_ok(s: Seq<StoreEdge>, policy: TraversalPolicy, start: i32, d: nat)
    requires
        d <= i32::MAX,
    ensures
        forall|i: int|
            0 <= i < rows_upto(s, policy, start, d).len() ==> row_ok(
                s,
                policy,
                start,
                d as int,
                #[trigger] rows_upto(s, policy, start, d)[i],
            ),
    decreases d,
{
    if d > 0 {
        lemma_rows_ok(s, policy, start, (d - 1) as nat);
        lemma_level_shape(s, policy, start, d);
        let prev = rows_upto(s, policy, start, (d - 1) as nat);
        let lvl = level(s, policy, start, d);
        let lr = level_rows(s, lvl, d as int);
        assert forall|i: int| 0 <= i < rows_upto(s, policy, start, d).len() implies row_ok(
            s,
            policy,
            start,
            d as int,
            #[trigger] rows_upto(s, policy, start, d)[i],
        ) by {
            if i < prev.len() {
                assert(rows_upto(s, policy, start, d)[i] == prev[i]);
            } else {
                let j = i - prev.len();
                assert(rows_upto(s, policy, start, d)[i] == lr[j]);
                assert(hop_shape(s, policy, start, d as int, lvl[j]));
                assert(lr[j] == row_of(s[lvl[j].0], d as int));
                assert(path_to_row(s, start, lr[j], lvl[j].1));
            }
        }
    }
}

proof fn lemma_first_level_complete(s: Seq<StoreEdge>, start: i32, k: nat, e: int)
    requires
        0 <= e < k <= s.len(),
        s[e].source.id == start,
    ensures
        first_level(s, start, k).contains((e, seq![start])),
    decreases k,
{
    let prev = first_level(s, start, (k - 1) as nat);
    if e < k - 1 {
        lemma_first_level_complete(s, start, (k - 1) as nat, e);
        let j = choose|j: int| 0 <= j < prev.len() && prev[j] == (e, seq![start]);
        assert(first_level(s, start, k)[j] == prev[j]);
    } else {
        assert(first_level(s, start, k)[prev.len() as int] == (e, seq![start]));
    }
}

proof fn lemma_first_rows_kept(s: Seq<StoreEdge>, policy: TraversalPolicy, start: i32, d: nat)
    requires
        1 <= d <= i32::MAX,
    ensures
        forall|i: int|
            rows_upto(s, policy, start, 1).len() <= i < rows_upto(s, policy, start, d).len()
                ==> #[trigger] rows_upto(s, policy, start, d)[i].level >= 2,
        rows_upto(s, policy, start, 1).len() <= rows_upto(s, policy, start, d).len(),
        forall|i: int|
            0 <= i < rows_upto(s, policy, start, 1).len() ==> #[trigger] rows_upto(
                s,
                policy,
                start,
                d,
            )[i] == rows_upto(s, policy, start, 1)[i],
    decreases d,
{
    if d > 1 {
        lemma_first_rows_kept(s, policy, start, (d - 1) as nat);
        let prev = rows_upto(s, policy, start, (d - 1) as nat);
        assert forall|i: int| 0 <= i < rows_upto(s, policy, start, 1).len() implies #[trigger] rows_upto(
            s,
            policy,
            start,
            d,
        )[i] == rows_upto(s, policy, start, 1)[i] by {
            assert(rows_upto(s, policy, start, d)[i] == prev[i]);
        }
        let lr = level_rows(s, level(s, policy, start, d), d as int);
        assert forall|i: int|
            rows_upto(s, policy, start, 1).len() <= i < rows_upto(s, policy, start, d).len()
                implies #[trigger] rows_upto(s, policy, start, d)[i].level >= 2 by {
            if i < prev.len() {
                assert(rows_upto(s, policy, start, d)[i] == prev[i]);
            } else {
                assert(rows_upto(s, policy, start, d)[i] == lr[i - prev.len()]);
            }
        }
    }
}

/// The edge records that leave `start`, in store order.
pub open spec fn leaves(start: i32) -> spec_fn(StoreEdge) -> bool {
    |e: StoreEdge| e.source.id == start
}

/// The depth-one rows for the edges of `s` that leave `start`, in order.
pub open spec fn first_hop_rows(s: Seq<StoreEdge>, start: i32) -> Seq<RelationshipDetails> {
    s.filter(leaves(start)).map_values(|e: StoreEdge| row_of(e, 1))
}

proof fn lemma_first_level_rows(s: Seq<StoreEdge>, start: i32, k: nat)
    requires
        k <= s.len(),
    ensures
        level_rows(s, first_level(s, start, k), 1) == first_hop_rows(s.take(k as int), start),
    decreases k,
{
    broadcast use vstd::seq_lib::group_seq_properties;

    if k == 0 {
        assert(s.take(0) =~= Seq::<StoreEdge>::empty());
        reveal(Seq::filter);
        assert(level_rows(s, first_level(s, start, k), 1) =~= first_hop_rows(s.take(0), start));
    } else {
        lemma_first_level_rows(s, start, (k - 1) as nat);
        let e = s[k - 1];
        assert(s.take(k as int) =~= s.take(k - 1).push(e));
        let fl_prev = first_level(s, start, (k - 1) as nat);
        let f_prev = s.take(k - 1).filter(leaves(start));
        s.take(k - 1).lemma_filter_push(e, leaves(start));
        assert(leaves(start)(e) == (e.source.id == start));
        if e.source.id == start {
            assert(s.take(k as int).filter(leaves(start)) == f_prev.push(e));
            assert(first_level(s, start, k) == fl_prev.push(((k - 1) as int, seq![start])));
            assert(level_rows(s, first_level(s, start, k), 1) =~= level_rows(s, fl_prev, 1).push(
                row_of(e, 1),
            ));
            assert(first_hop_rows(s.take(k as int), start) =~= first_hop_rows(
                s.take(k - 1),
                start,
            ).push(row_of(e, 1)));
        } else {
            assert(s.take(k as int).filter(leaves(start)) == f_prev);
            assert(first_level(s, start, k) == fl_prev);
        }
        assert(level_rows(s, first_level(s, start, k), 1) =~= first_hop_rows(
            s.take(k as int),
            start,
        ));
    }
}

/// The rows at depth one are exactly the edges that leave the start, in store
/// order, whatever the policy's labels and stop rule; every later row is
/// deeper.
pub proof fn lemma_first_hop_exact(
    s: Seq<StoreEdge>,
    policy: TraversalPolicy,
    start: i32,
    max_depth: i32,
)
    requires
        max_depth >= 1,
    ensures
        first_hop_rows(s, start).len() <= traversal(s, policy, start, max_depth).len(),
        traversal(s, policy, start, max_depth).take(first_hop_rows(s, start).len() as int)
            == first_hop_rows(s, start),
        forall|i: int|
            first_hop_rows(s, start).len() <= i < traversal(s, policy, start, max_depth).len()
                ==> #[trigger] traversal(s, policy, start, max_depth)[i].level >= 2,
{
    let one = rows_upto(s, policy, start, 1);
    lemma_first_level_rows(s, start, s.len());
    assert(s.take(s.len() as int) =~= s);
    assert(level(s, policy, start, 1) == first_level(s, start, s.len()));
    assert(rows_upto(s, policy, start, 0) == Seq::<RelationshipDetails>::empty());
    assert(one =~= first_hop_rows(s, start));
    lemma_first_rows_kept(s, policy, start, max_depth as nat);
    assert(traversal(s, policy, start, max_depth).take(one.len() as int) =~= one);
}

/// A traversal always ends: every branch is bounded by the depth limit, and
/// no branch returns to a concept on its own path. A branch beyond the first
/// hop is a simple path: the concepts it passes, from the start to the last
/// edge's source, are distinct, and the last edge's target is none of them.
pub proof fn lemma_no_revisit(s: Seq<StoreEdge>, policy: TraversalPolicy, start: i32, d: nat, h: Hop)
    requires
        d >= 2,
        level(s, policy, start, d).contains(h),
    ensures
        h.1.len() == d,
        h.1[0] == start,
        h.1.last() == s[h.0].source.id,
        h.1.no_duplicates(),
        !h.1.contains(s[h.0].target.id),
{
    lemma_level_shape(s, policy, start, d);
    let j = choose|j: int|
        0 <= j < level(s, policy, start, d).len() && level(s, policy, start, d)[j] == h;
    assert(hop_shape(s, policy, start, d as int, level(s, policy, start, d)[j]));
}

/// Each row reports an edge of the store at the end of a simple path from
/// the start: the path has one concept per depth, passes no concept twice,
/// follows edges of the store, and beyond the first hop the row's target is
/// not on it.
pub proof fn lemma_rows_end_simple_paths(
    s: Seq<StoreEdge>,
    policy: TraversalPolicy,
    start: i32,
    max_depth: i32,
    i: int,
)
    requires
        0 <= i < traversal(s, policy, start, max_depth).len(),
    ensures
        exists|v: Seq<i32>| path_to_row(s, start, traversal(s, policy, start, max_depth)[i], v),
        exists|e: int|
            0 <= e < s.len() && traversal(s, policy, start, max_depth)[i] == #[trigger] row_of(
                s[e],
                traversal(s, policy, start, max_depth)[i].level as int,
            ),
{
    lemma_rows_ok(s, policy, start, max_depth as nat);
    assert(row_ok(s, policy, start, max_depth as int, traversal(s, policy, start, max_depth)[i]));
}

/// Every row has a depth from one to `max_depth`; a limit of zero or less
/// gives no rows at all.
pub proof fn lemma_depth_bound(s: Seq<StoreEdge>, policy: TraversalPolicy, start: i32, max_depth: i32)
    ensures
        forall|i: int|
            0 <= i < traversal(s, policy, start, max_depth).len() ==> 1 <= #[trigger] traversal(
                s,
                policy,
                start,
                max_depth,
            )[i].level <= max_depth,
        max_depth <= 0 ==> traversal(s, policy, start, max_depth).len() == 0,
{
    if max_depth > 0 {
        lemma_rows_ok(s, policy, start, max_depth as nat);
    }
}

/// Every edge that leaves the start is reported at depth one, whatever the
/// policy's labels and stop rule, once the limit is at least one.
pub proof fn lemma_first_hop_complete(
    s: Seq<StoreEdge>,
    policy: TraversalPolicy,
    start: i32,
    max_depth: i32,
    e: int,
)
    requires
        max_depth >= 1,
        0 <= e < s.len(),
        s[e].source.id == start,
    ensures
        traversal(s, policy, start, max_depth).contains(row_of(s[e], 1)),
{
    lemma_first_level_complete(s, start, s.len(), e);
    let fl = first_level(s, start, s.len());
    let j = choose|j: int| 0 <= j < fl.len() && fl[j] == (e, seq![start]);
    let one = rows_upto(s, policy, start, 1);
    assert(level(s, policy, start, 1) == fl);
    assert(rows_upto(s, policy, start, 0) == Seq::<RelationshipDetails>::empty());
    assert(one =~= level_rows(s, fl, 1));
    assert(one[j] == row_of(s[e], 1));
    lemma_first_rows_kept(s, policy, start, max_depth as nat);
    assert(traversal(s, policy, start, max_depth)[j] == row_of(s[e], 1));
}

/// Some record of the store marks concept `n` standard.
pub open spec fn marked_standard(s: Seq<StoreEdge>, n: i32) -> bool {
    exists|m: int|
        0 <= m < s.len() && ((s[m].source.id == n && s[m].source.standard_concept is Some) || (
        s[m].target.id == n && s[m].target.standard_concept is Some))
}

/// Under a policy that stops at standard concepts, a standard concept is
/// never the source of a row beyond depth one: a branch that reaches it ends
/// there.
pub proof fn lemma_standard_stop(
    s: Seq<StoreEdge>,
    policy: TraversalPolicy,
    start: i32,
    max_depth: i32,
    n: i32,
)
    requires
        policy.stop_on_standard,
        concepts_agree(s),
        marked_standard(s, n),
    ensures
        forall|i: int|
            0 <= i < traversal(s, policy, start, max_depth).len() && #[trigger] traversal(
                s,
                policy,
                start,
                max_depth,
            )[i].level >= 2 ==> traversal(s, policy, start, max_depth)[i].concept_id != n,
{
    if max_depth > 0 {
        let t = traversal(s, policy, start, max_depth);
        lemma_rows_ok(s, policy, start, max_depth as nat);
        assert forall|i: int| 0 <= i < t.len() && #[trigger] t[i].level >= 2 implies t[i].concept_id
            != n by {
            if t[i].concept_id == n {
                assert(row_ok(s, policy, start, max_depth as int, t[i]));
                let e = choose|e: int|
                    0 <= e < s.len() && #[trigger] s[e].target.id == t[i].concept_id
                        && s[e].target.standard_concept is None;
                let m = choose|m: int|
                    0 <= m < s.len() && ((s[m].source.id == n && s[m].source.standard_concept is Some)
                        || (s[m].target.id == n && s[m].target.standard_concept is Some));
                assert(edges_agree(s[e], s[m]));
            }
        }
    }
}

/// Every row beyond depth one carries a label that the policy allows.
pub proof fn lemma_allow_list(s: Seq<StoreEdge>, policy: TraversalPolicy, start: i32, max_depth: i32)
    ensures
        forall|i: int|
            0 <= i < traversal(s, policy, start, max_depth).len() && #[trigger] traversal(
                s,
                policy,
                start,
                max_depth,
            )[i].level >= 2 ==> policy.allows(
                traversal(s, policy, start, max_depth)[i].relationship_id@,
            ),
{
    if max_depth > 0 {
        lemma_rows_ok(s, policy, start, max_depth as nat);
    }
}

/// The same snapshot, start, limit and policy give the same rows, and so the
/// same nodes and the same edges in the same order.
pub proof fn lemma_deterministic(
    s1: Seq<StoreEdge>,
    s2: Seq<StoreEdge>,
    policy: TraversalPolicy,
    start: i32,
    max_depth: i32,
)
    requires
        s1 == s2,
    ensures
        traversal(s1, policy, start, max_depth) == traversal(s2, policy, start, max_depth),
        graph_nodes(traversal(s1, policy, start, max_depth)) == graph_nodes(
            traversal(s2, policy, start, max_depth),
        ),
        graph_edges(traversal(s1, policy, start, max_depth)) == graph_edges(
            traversal(s2, policy, start, max_depth),
        ),
{
}

/// The branches' edges lie among the first `k` store edges, in store order.
spec fn in_store_order(lvl: Seq<Hop>, k: int) -> bool {
    &&& forall|i: int| 0 <= i < lvl.len() ==> 0 <= #[trigger] lvl[i].0 < k
    &&& forall|i: int, j: int| 0 <= i < j < lvl.len() ==> lvl[i].0 <= lvl[j].0
}

proof fn lemma_first_level_order(s: Seq<StoreEdge>, start: i32, k: nat)
    requires
        k <= s.len(),
    ensures
        in_store_order(first_level(s, start, k), k as int),
    decreases k,
{
    if k > 0 {
        lemma_first_level_order(s, start, (k - 1) as nat);
    }
}

proof fn lemma_children_edge(s: Seq<StoreEdge>, policy: TraversalPolicy, lvl: Seq<Hop>, f: int, j: nat)
    ensures
        forall|i: int|
            0 <= i < children(s, policy, lvl, f, j).len() ==> (#[trigger] children(
                s,
                policy,
                lvl,
                f,
                j,
            )[i]).0 == f,
    decreases j,
{
    if j > 0 && j <= lvl.len() {
        let prev = children(s, policy, lvl, f, (j - 1) as nat);
        lemma_children_edge(s, policy, lvl, f, (j - 1) as nat);
        assert forall|i: int| 0 <= i < children(s, policy, lvl, f, j).len() implies (
        #[trigger] children(s, policy, lvl, f, j)[i]).0 == f by {
            if i < prev.len() {
                assert(children(s, policy, lvl, f, j)[i] == prev[i]);
            }
        }
    }
}

proof fn lemma_next_level_order(s: Seq<StoreEdge>, policy: TraversalPolicy, lvl: Seq<Hop>, k: nat)
    requires
        k <= s.len(),
    ensures
        in_store_order(next_level(s, policy, lvl, k), k as int),
    decreases k,
{
    if k > 0 {
        let prev = next_level(s, policy, lvl, (k - 1) as nat);
        let more = children(s, policy, lvl, (k - 1) as int, lvl.len());
        lemma_next_level_order(s, policy, lvl, (k - 1) as nat);
        lemma_children_edge(s, policy, lvl, (k - 1) as int, lvl.len());
        let all = prev + more;
        assert forall|i: int| 0 <= i < all.len() implies 0 <= #[trigger] all[i].0 < k by {
            if i >= prev.len() {
                assert(all[i] == more[i - prev.len()]);
            }
        }
        assert forall|i: int, j: int| 0 <= i < j < all.len() implies all[i].0 <= all[j].0 by {
            if j >= prev.len() {
                assert(all[j] == more[j - prev.len()]);
                if i >= prev.len() {
                    assert(all[i] == more[i - prev.len()]);
                }
            }
        }
    }
}

proof fn lemma_level_order(s: Seq<StoreEdge>, policy: TraversalPolicy, start: i32, d: nat)
    ensures
        in_store_order(level(s, policy, start, d), s.len() as int),
    decreases d,
{
    if d == 1 {
        lemma_first_level_order(s, start, s.len());
    } else if d > 1 {
        lemma_next_level_order(s, policy, level(s, policy, start, (d - 1) as nat), s.len());
    }
}

/// Row `a` may come before row `b`: a smaller depth, or the same depth and
/// no larger `(source id, target id)`.
pub open spec fn row_le(a: RelationshipDetails, b: RelationshipDetails) -> bool {
    ||| a.level < b.level
    ||| a.level == b.level && a.concept_id < b.concept_id
    ||| a.level == b.level && a.concept_id == b.concept_id && a.related_concept_id
        <= b.related_concept_id
}

proof fn lemma_rows_order(s: Seq<StoreEdge>, policy: TraversalPolicy, start: i32, d: nat)
    requires
        sorted_edges(s),
        d <= i32::MAX,
    ensures
        forall|i: int, j: int|
            0 <= i < j < rows_upto(s, policy, start, d).len() ==> row_le(
                #[trigger] rows_upto(s, policy, start, d)[i],
                #[trigger] rows_upto(s, policy, start, d)[j],
            ),
    decreases d,
{
    if d > 0 {
        lemma_rows_order(s, policy, start, (d - 1) as nat);
        lemma_rows_ok(s, policy, start, (d - 1) as nat);
        lemma_level_order(s, policy, start, d);
        let prev = rows_upto(s, policy, start, (d - 1) as nat);
        let lvl = level(s, policy, start, d);
        let lr = level_rows(s, lvl, d as int);
        let all = rows_upto(s, policy, start, d);
        assert forall|i: int, j: int| 0 <= i < j < all.len() implies row_le(
            #[trigger] all[i],
            #[trigger] all[j],
        ) by {
            if j < prev.len() {
                assert(all[i] == prev[i] && all[j] == prev[j]);
            } else if i < prev.len() {
                assert(all[i] == prev[i]);
                assert(row_ok(s, policy, start, (d - 1) as int, prev[i]));
                assert(all[j] == lr[j - prev.len()]);
            } else {
                let a = i - prev.len();
                let b = j - prev.len();
                assert(all[i] == lr[a] && all[j] == lr[b]);
                assert(lvl[a].0 <= lvl[b].0);
                if lvl[a].0 < lvl[b].0 {
                    assert(key_le(s[lvl[a].0], s[lvl[b].0]));
                }
            }
        }
    }
}

/// Over a store in `(source id, target id)` order, the rows come depth by
/// depth, and within a depth in ascending `(source id, target id)` order.
pub proof fn lemma_rows_in_order(
    s: Seq<StoreEdge>,
    policy: TraversalPolicy,
    start: i32,
    max_depth: i32,
)
    requires
        sorted_edges(s),
    ensures
        forall|i: int, j: int|
            0 <= i < j < traversal(s, policy, start, max_depth).len() ==> row_le(
                #[trigger] traversal(s, policy, start, max_depth)[i],
                #[trigger] traversal(s, policy, start, max_depth)[j],
            ),
{
    if max_depth > 0 {
        lemma_rows_order(s, policy, start, max_depth as nat);
    }
}

} // verus!
