//! Mathematical model of the merge process: the state after each accepted or
//! rejected edge, and the dense labelling read off the final state.
use vstd::prelude::*;
use vstd::relations::{sorted_by, total_ordering};

use super::{Component, WeightedEdge};

verus! {

/// Abstract state of a segmentation run over nodes `0..n`.
///
/// `root[i]` is the representative of the component that holds node `i`;
/// `diff[r]` and `count[r]` are the internal difference and node count of the
/// component represented by `r` (meaningful where `root[r] == r`).
pub struct MergeState {
    pub root: Seq<int>,
    pub diff: Seq<int>,
    pub count: Seq<int>,
}

/// `w <= diff + k / count` over the rationals, written without division.
pub open spec fn within_threshold(w: int, diff: int, count: int, k: int) -> bool {
    w * count <= diff * count + k
}

/// An edge of weight `w` joins two components when it is within the
/// threshold of both, that is `w <= min(diff1 + k / count1, diff2 + k / count2)`.
pub open spec fn can_merge(w: int, d1: int, c1: int, d2: int, c2: int, k: int) -> bool {
    within_threshold(w, d1, c1, k) && within_threshold(w, d2, c2, k)
}

pub open spec fn max_int(a: int, b: int) -> int {
    if a >= b {
        a
    } else {
        b
    }
}

/// Every node alone, with internal difference 0 and one node.
pub open spec fn initial_state(n: nat) -> MergeState {
    MergeState {
        root: Seq::new(n, |i: int| i),
        diff: Seq::new(n, |i: int| 0),
        count: Seq::new(n, |i: int| 1),
    }
}

/// The effect of one edge: the component of `target` is absorbed into that of
/// `source` when the two differ and the edge is within both thresholds.
pub open spec fn merge_step(s: MergeState, e: WeightedEdge, k: int) -> MergeState {
    let r1 = s.root[e.source as int];
    let r2 = s.root[e.target as int];
    if r1 != r2 && can_merge(
        e.weight as int,
        s.diff[r1],
        s.count[r1],
        s.diff[r2],
        s.count[r2],
        k,
    ) {
        MergeState {
            root: Seq::new(s.root.len(), |i: int| if s.root[i] == r2 { r1 } else { s.root[i] }),
            diff: s.diff.update(r1, max_int(max_int(s.diff[r1], s.diff[r2]), e.weight as int)),
            count: s.count.update(r1, s.count[r1] + s.count[r2]),
        }
    } else {
        s
    }
}

/// The state after processing `edges` in order.
pub open spec fn merge_all(s: MergeState, edges: Seq<WeightedEdge>, k: int) -> MergeState
    decreases edges.len(),
{
    if edges.len() == 0 {
        s
    } else {
        merge_step(merge_all(s, edges.drop_last(), k), edges.last(), k)
    }
}

/// Sort key of an edge: its weight, then its position in the enumeration.
pub open spec fn key_leq(a: (u64, usize), b: (u64, usize)) -> bool {
    a.0 < b.0 || (a.0 == b.0 && a.1 <= b.1)
}

pub open spec fn key_order() -> spec_fn((u64, usize), (u64, usize)) -> bool {
    |a: (u64, usize), b: (u64, usize)| key_leq(a, b)
}

pub open spec fn edge_keys(edges: Seq<WeightedEdge>) -> Seq<(u64, usize)> {
    Seq::new(edges.len(), |i: int| (edges[i].weight, i as usize))
}

/// The edges in non-decreasing weight, equal weights in enumeration order.
pub open spec fn sorted_edges(edges: Seq<WeightedEdge>) -> Seq<WeightedEdge> {
    edge_keys(edges).sort_by(key_order()).map_values(|key: (u64, usize)| edges[key.1 as int])
}

pub open spec fn final_state(n: nat, edges: Seq<WeightedEdge>, k: int) -> MergeState {
    merge_all(initial_state(n), sorted_edges(edges), k)
}

/// The representatives among nodes `0..j`, ascending.
pub open spec fn root_list(root: Seq<int>, j: int) -> Seq<int>
    decreases j,
{
    if j <= 0 {
        Seq::empty()
    } else if root[j - 1] == j - 1 {
        root_list(root, j - 1).push(j - 1)
    } else {
        root_list(root, j - 1)
    }
}

/// The dense id of representative `r`: how many representatives lie below it.
pub open spec fn rank(root: Seq<int>, r: int) -> int {
    root_list(root, r).len() as int
}

/// Final component id of every node.
pub open spec fn final_labels(n: nat, edges: Seq<WeightedEdge>, k: int) -> Seq<usize> {
    let s = final_state(n, edges, k);
    Seq::new(n, |i: int| rank(s.root, s.root[i]) as usize)
}

/// The surviving components, in ascending order of their representatives.
pub open spec fn final_components(n: nat, edges: Seq<WeightedEdge>, k: int) -> Seq<Component> {
    let s = final_state(n, edges, k);
    root_list(s.root, n as int).map_values(
        |r: int| Component { int_diff: s.diff[r] as u64, node_count: s.count[r] as usize },
    )
}

/// Every edge joins two nodes below `n`.
pub open spec fn edges_in_bounds(n: nat, edges: Seq<WeightedEdge>) -> bool {
    forall|i: int|
        0 <= i < edges.len() ==> (#[trigger] edges[i]).source < n && edges[i].target < n
}

/// How many of the nodes `0..j` have representative `r`.
pub open spec fn count_in(root: Seq<int>, r: int, j: int) -> int
    decreases j,
{
    if j <= 0 {
        0
    } else {
        count_in(root, r, j - 1) + if root[j - 1] == r {
            1int
        } else {
            0int
        }
    }
}

/// Well-formed state: representatives are fixed points, and each component's
/// count is the number of nodes it holds.
pub open spec fn state_wf(s: MergeState, n: nat) -> bool {
    &&& s.root.len() == n
    &&& s.diff.len() == n
    &&& s.count.len() == n
    &&& forall|i: int| 0 <= i < n ==> 0 <= #[trigger] s.root[i] < n && s.root[s.root[i]] == s.root[i]
    &&& forall|r: int|
        0 <= r < n && s.root[r] == r ==> #[trigger] s.count[r] == count_in(s.root, r, n as int) && 0
            <= s.diff[r] <= u64::MAX
}

pub proof fn lemma_total_key_order()
    ensures
        total_ordering(key_order()),
{
}

pub proof fn lemma_count_in_nonneg(root: Seq<int>, r: int, j: int)
    ensures
        0 <= count_in(root, r, j) <= if j >= 0 { j } else { 0 },
    decreases j,
{
    if j > 0 {
        lemma_count_in_nonneg(root, r, j - 1);
    }
}

pub proof fn lemma_count_in_pos(root: Seq<int>, r: int, j: int)
    requires
        0 <= r < j,
        root[r] == r,
    ensures
        count_in(root, r, j) >= 1,
    decreases j,
{
    lemma_count_in_nonneg(root, r, j - 1);
    if r < j - 1 {
        lemma_count_in_pos(root, r, j - 1);
    }
}

/// Two different representatives hold at most `j` of the nodes `0..j` together.
pub proof fn lemma_count_in_pair(root: Seq<int>, r1: int, r2: int, j: int)
    requires
        r1 != r2,
    ensures
        count_in(root, r1, j) + count_in(root, r2, j) <= if j >= 0 { j } else { 0 },
    decreases j,
{
    if j > 0 {
        lemma_count_in_pair(root, r1, r2, j - 1);
    }
}

pub open spec fn redirect(root: Seq<int>, from: int, to: int) -> Seq<int> {
    Seq::new(root.len(), |i: int| if root[i] == from { to } else { root[i] })
}

pub proof fn lemma_count_in_redirect(root: Seq<int>, r1: int, r2: int, r: int, j: int)
    requires
        r1 != r2,
        j <= root.len(),
    ensures
        r == r1 ==> count_in(redirect(root, r2, r1), r, j) == count_in(root, r1, j) + count_in(
            root,
            r2,
            j,
        ),
        r != r1 && r != r2 ==> count_in(redirect(root, r2, r1), r, j) == count_in(root, r, j),
    decreases j,
{
    if j > 0 {
        lemma_count_in_redirect(root, r1, r2, r, j - 1);
    }
}

pub proof fn lemma_initial_count(n: nat, r: int, j: int)
    requires
        0 <= r < n,
        j <= n,
    ensures
        count_in(initial_state(n).root, r, j) == if r < j { 1int } else { 0int },
    decreases j,
{
    if j > 0 {
        lemma_initial_count(n, r, j - 1);
    }
}

pub proof fn lemma_initial_wf(n: nat)
    ensures
        state_wf(initial_state(n), n),
{
    let s = initial_state(n);
    assert forall|r: int| 0 <= r < n && s.root[r] == r implies #[trigger] s.count[r] == count_in(
        s.root,
        r,
        n as int,
    ) && 0 <= s.diff[r] <= u64::MAX by {
        lemma_initial_count(n, r, n as int);
    }
}

pub proof fn lemma_step_wf(s: MergeState, n: nat, e: WeightedEdge, k: int)
    requires
        state_wf(s, n),
        e.source < n,
        e.target < n,
    ensures
        state_wf(merge_step(s, e, k), n),
{
    let r1 = s.root[e.source as int];
    let r2 = s.root[e.target as int];
    let t = merge_step(s, e, k);
    if t != s {
        assert(t.root =~= redirect(s.root, r2, r1));
        assert forall|r: int| 0 <= r < n && t.root[r] == r implies #[trigger] t.count[r] == count_in(
            t.root,
            r,
            n as int,
        ) && 0 <= t.diff[r] <= u64::MAX by {
            lemma_count_in_redirect(s.root, r1, r2, r, n as int);
        }
    }
}

pub proof fn lemma_all_wf(s: MergeState, n: nat, edges: Seq<WeightedEdge>, k: int)
    requires
        state_wf(s, n),
        edges_in_bounds(n, edges),
    ensures
        state_wf(merge_all(s, edges, k), n),
    decreases edges.len(),
{
    if edges.len() > 0 {
        lemma_all_wf(s, n, edges.drop_last(), k);
        lemma_step_wf(merge_all(s, edges.drop_last(), k), n, edges.last(), k);
    }
}

/// The sorted edges are the input edges, rearranged.
pub proof fn lemma_sorted_edges(edges: Seq<WeightedEdge>)
    requires
        edges.len() <= usize::MAX,
    ensures
        sorted_edges(edges).len() == edges.len(),
        forall|t: int|
            0 <= t < edges.len() ==> {
                let key = #[trigger] edge_keys(edges).sort_by(key_order())[t];
                0 <= key.1 < edges.len() && key == (edges[key.1 as int].weight, key.1)
            },
{
    let keys = edge_keys(edges);
    lemma_total_key_order();
    keys.lemma_sort_by_ensures(key_order());
    let sorted = keys.sort_by(key_order());
    assert(sorted.len() == keys.len()) by {
        assert(sorted.to_multiset().len() == keys.to_multiset().len());
        keys.to_multiset_ensures();
        sorted.to_multiset_ensures();
    }
    assert forall|t: int| 0 <= t < edges.len() implies {
        let key = #[trigger] sorted[t];
        0 <= key.1 < edges.len() && key == (edges[key.1 as int].weight, key.1)
    } by {
        assert(sorted.contains(sorted[t]));
        assert(keys.contains(sorted[t]));
        let i = choose|i: int| 0 <= i < keys.len() && keys[i] == sorted[t];
        assert(keys[i] == (edges[i].weight, i as usize));
    }
}

/// Sorting keys that carry their own positions keeps each key next to its
/// position.
pub proof fn lemma_sorted_positions(keys: Seq<(u64, usize)>)
    requires
        keys.len() <= usize::MAX,
        forall|i: int| 0 <= i < keys.len() ==> (#[trigger] keys[i]).1 == i,
    ensures
        keys.sort_by(key_order()).len() == keys.len(),
        forall|t: int|
            0 <= t < keys.len() ==> {
                let key = #[trigger] keys.sort_by(key_order())[t];
                0 <= key.1 < keys.len() && key == keys[key.1 as int]
            },
{
    lemma_total_key_order();
    keys.lemma_sort_by_ensures(key_order());
    let sorted = keys.sort_by(key_order());
    assert(sorted.len() == keys.len()) by {
        keys.to_multiset_ensures();
        sorted.to_multiset_ensures();
    }
    assert forall|t: int| 0 <= t < keys.len() implies {
        let key = #[trigger] sorted[t];
        0 <= key.1 < keys.len() && key == keys[key.1 as int]
    } by {
        assert(sorted.contains(sorted[t]));
        assert(keys.contains(sorted[t]));
        let i = choose|i: int| 0 <= i < keys.len() && keys[i] == sorted[t];
        assert(keys[i].1 == i);
    }
}

pub proof fn lemma_sorted_in_bounds(n: nat, edges: Seq<WeightedEdge>)
    requires
        edges.len() <= usize::MAX,
        edges_in_bounds(n, edges),
    ensures
        edges_in_bounds(n, sorted_edges(edges)),
{
    lemma_sorted_edges(edges);
    assert forall|t: int| 0 <= t < sorted_edges(edges).len() implies (#[trigger] sorted_edges(
        edges,
    )[t]).source < n && sorted_edges(edges)[t].target < n by {
        let key = edge_keys(edges).sort_by(key_order())[t];
        assert(edges[key.1 as int] == sorted_edges(edges)[t]);
    }
}

pub proof fn lemma_final_wf(n: nat, edges: Seq<WeightedEdge>, k: int)
    requires
        edges.len() <= usize::MAX,
        edges_in_bounds(n, edges),
    ensures
        state_wf(final_state(n, edges, k), n),
{
    lemma_initial_wf(n);
    lemma_sorted_in_bounds(n, edges);
    lemma_all_wf(initial_state(n), n, sorted_edges(edges), k);
}

/// Each representative below `j` sits in `root_list` at its rank, and every
/// entry of the list is a representative below `j`.
pub proof fn lemma_root_list(root: Seq<int>, j: int)
    requires
        0 <= j <= root.len(),
    ensures
        root_list(root, j).len() <= j,
        forall|t: int|
            0 <= t < root_list(root, j).len() ==> 0 <= #[trigger] root_list(root, j)[t] < j
                && root[root_list(root, j)[t]] == root_list(root, j)[t],
        forall|r: int|
            0 <= r < j && root[r] == r ==> #[trigger] rank(root, r) < root_list(root, j).len()
                && root_list(root, j)[rank(root, r)] == r,
        forall|t: int|
            0 <= t < root_list(root, j).len() ==> rank(root, #[trigger] root_list(root, j)[t]) == t,
    decreases j,
{
    if j > 0 {
        lemma_root_list(root, j - 1);
        assert forall|t: int| 0 <= t < root_list(root, j).len() implies rank(
            root,
            #[trigger] root_list(root, j)[t],
        ) == t by {
            if t < root_list(root, j - 1).len() {
                assert(root_list(root, j)[t] == root_list(root, j - 1)[t]);
            }
        }
        assert forall|r: int| 0 <= r < j && root[r] == r implies #[trigger] rank(root, r)
            < root_list(root, j).len() && root_list(root, j)[rank(root, r)] == r by {
            if r == j - 1 {
            } else {
                assert(rank(root, r) < root_list(root, j - 1).len());
            }
        }
    }
}

} // verus!
