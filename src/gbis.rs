//! Graph-based image segmentation after Felzenszwalb and Huttenlocher:
//! edges are visited by non-decreasing weight, and an edge joins the two
//! components it connects when its weight is within both components'
//! thresholds.
//!
//! Weights are integers. For a pixel grid one unit is 1/255 of the full
//! intensity range, and the scale parameter `k` is given in the same units.
use vstd::prelude::*;
use vstd::relations::sorted_by;

pub mod laws;
pub mod model;
pub mod pixel_grid;

pub use pixel_grid::PixelGrid;
use pixel_grid::lemma_grid_edges_in_bounds;
use model::{
    can_merge, edge_keys, edges_in_bounds, final_components, final_labels, initial_state,
    key_order, lemma_count_in_pair, lemma_count_in_pos, lemma_initial_wf,
    lemma_root_list, lemma_sorted_edges, lemma_step_wf, lemma_total_key_order, max_int, merge_all,
    merge_step, rank, root_list, sorted_edges, state_wf, within_threshold, MergeState,
};

verus! {

/// Statistics of one component.
#[derive(Clone, Copy, Debug, PartialEq, Eq)]
pub struct Component {
    /// Largest weight of an edge that was accepted inside the component.
    pub int_diff: u64,
    /// Number of nodes in the component.
    pub node_count: usize,
}

/// A pixel position.
#[derive(Clone, Copy, Debug, PartialEq, Eq, Hash)]
pub struct PixelCoordinate {
    pub x: u32,
    pub y: u32,
}

/// An undirected edge between two dense node indices.
#[derive(Clone, Copy, Debug, PartialEq, Eq)]
pub struct WeightedEdge {
    pub source: usize,
    pub target: usize,
    pub weight: u64,
}

/// Result of a segmentation.
pub struct Segmentation {
    /// Map from node indexes to component indexes
    pub node_components: Vec<usize>,
    /// Component metadata from the segmentation algorithm
    pub components: Vec<Component>,
}

#[derive(Clone, Copy, Debug, PartialEq, Eq)]
pub enum SegmentError {
    /// An edge names a node at or beyond the graph's node bound.
    NodeOutOfBounds,
}

/// `seg` is the outcome of segmenting nodes `0..n` joined by `edges` with scale `k`.
pub open spec fn is_segmentation_of(
    seg: Segmentation,
    n: nat,
    edges: Seq<WeightedEdge>,
    k: int,
) -> bool {
    &&& seg.node_components@ == final_labels(n, edges, k)
    &&& seg.components@ == final_components(n, edges, k)
}

/// A graph with dense node indices `0..node_bound` and weighted edges.
pub trait Graph {
    spec fn spec_node_bound(&self) -> nat;

    spec fn spec_edges(&self) -> Seq<WeightedEdge>;

    fn node_bound(&self) -> (r: usize)
        ensures
            r == self.spec_node_bound(),
    ;

    /// All edges, each undirected edge once, in the graph's own order.
    fn edge_references(&self) -> (r: Vec<WeightedEdge>)
        ensures
            r@ == self.spec_edges(),
    ;
}

/// A graph given by its node bound and a list of edges.
pub struct EdgeList {
    pub node_bound: usize,
    pub edges: Vec<WeightedEdge>,
}

impl Graph for EdgeList {
    open spec fn spec_node_bound(&self) -> nat {
        self.node_bound as nat
    }

    open spec fn spec_edges(&self) -> Seq<WeightedEdge> {
        self.edges@
    }

    fn node_bound(&self) -> (r: usize) {
        self.node_bound
    }

    fn edge_references(&self) -> (r: Vec<WeightedEdge>) {
        self.edges.clone()
    }
}

/// A node's cell in the merge forest: it either holds its component's
/// statistics, or forwards to another node of the same component.
#[derive(Clone, Copy)]
enum ComponentSlot {
    Here(Component),
    There(usize),
}

spec fn slot_consistent(slots: Seq<ComponentSlot>, s: MergeState, dist: Seq<nat>, i: int) -> bool {
    match slots[i] {
        ComponentSlot::Here(c) => s.root[i] == i && c.int_diff == s.diff[i] && c.node_count
            == s.count[i] && dist[i] == 0,
        ComponentSlot::There(j) => s.root[i] != i && j < slots.len() && s.root[j as int]
            == s.root[i] && dist[i] == dist[j as int] + 1,
    }
}

/// The forest represents `s`; `dist` is each node's distance from its root.
spec fn forest_matches(slots: Seq<ComponentSlot>, s: MergeState, dist: Seq<nat>, n: nat) -> bool {
    &&& slots.len() == n
    &&& dist.len() == n
    &&& state_wf(s, n)
    &&& forall|i: int| 0 <= i < n ==> #[trigger] slot_consistent(slots, s, dist, i)
}

/// Follows forward references from `idx` to its component's root.
fn find_root(
    slots: &Vec<ComponentSlot>,
    idx: usize,
    Ghost(s): Ghost<MergeState>,
    Ghost(dist): Ghost<Seq<nat>>,
) -> (r: usize)
    requires
        forest_matches(slots@, s, dist, slots@.len() as nat),
        idx < slots@.len(),
    ensures
        r == s.root[idx as int],
{
    let mut cur = idx;
    loop
        invariant
            forest_matches(slots@, s, dist, slots@.len() as nat),
            cur < slots@.len(),
            s.root[cur as int] == s.root[idx as int],
        decreases dist[cur as int],
    {
        assert(slot_consistent(slots@, s, dist, cur as int));
        match slots[cur] {
            ComponentSlot::Here(_) => {
                return cur;
            },
            ComponentSlot::There(next) => {
                cur = next;
            },
        }
    }
}

fn root_component(slots: &Vec<ComponentSlot>, r: usize) -> (c: Component)
    requires
        r < slots@.len(),
        slots@[r as int] is Here,
    ensures
        slots@[r as int] == ComponentSlot::Here(c),
{
    match slots[r] {
        ComponentSlot::Here(c) => c,
        ComponentSlot::There(_) => Component { int_diff: 0, node_count: 1 },
    }
}

proof fn lemma_threshold(w: int, d: int, c: int, k: int)
    requires
        c > 0,
        k >= 0,
    ensures
        (w <= d || w - d <= k / c) == within_threshold(w, d, c, k),
{
    vstd::arithmetic::div_mod::lemma_fundamental_div_mod(k, c);
    let q = k / c;
    let m = k % c;
    assert(0 <= m < c) by {
        vstd::arithmetic::div_mod::lemma_mod_pos_bound(k, c);
    }
    assert(w * c - d * c == (w - d) * c) by (nonlinear_arith);
    if w <= d {
        assert(w * c <= d * c) by (nonlinear_arith)
            requires
                w <= d,
                c > 0,
        ;
    } else if w - d <= q {
        assert((w - d) * c <= k) by (nonlinear_arith)
            requires
                w - d <= q,
                c > 0,
                k == c * q + m,
                m >= 0,
        ;
    } else {
        assert((w - d) * c > k) by (nonlinear_arith)
            requires
                w - d >= q + 1,
                c > 0,
                k == c * q + m,
                m < c,
        ;
    }
}

/// Decides `w <= diff + k / count` exactly, without overflow.
fn fits_threshold(w: u64, diff: u64, count: usize, k: u64) -> (r: bool)
    requires
        count > 0,
    ensures
        r == within_threshold(w as int, diff as int, count as int, k as int),
{
    proof {
        lemma_threshold(w as int, diff as int, count as int, k as int);
    }
    w <= diff || w - diff <= k / (count as u64)
}

fn max_u64(a: u64, b: u64) -> (r: u64)
    ensures
        r as int == max_int(a as int, b as int),
{
    if a >= b {
        a
    } else {
        b
    }
}

/// Relies on `slice::sort`: afterwards the keys are in ascending order
/// (tuples of integers compare lexicographically), and they are the same keys.
#[verifier::external_body]
pub(crate) fn sort_keys(keys: &mut Vec<(u64, usize)>)
    ensures
        sorted_by(final(keys)@, key_order()),
        final(keys)@.to_multiset() == old(keys)@.to_multiset(),
{
    keys.sort();
}

/// Absorbing root `r2` into root `r1` in the forest keeps it in step with
/// the model.
proof fn lemma_forest_merge(
    slots: Seq<ComponentSlot>,
    s: MergeState,
    dist: Seq<nat>,
    n: nat,
    e: WeightedEdge,
    k: int,
    merged: Component,
)
    requires
        forest_matches(slots, s, dist, n),
        n <= usize::MAX,
        e.source < n,
        e.target < n,
        s.root[e.source as int] != s.root[e.target as int],
        can_merge(
            e.weight as int,
            s.diff[s.root[e.source as int]],
            s.count[s.root[e.source as int]],
            s.diff[s.root[e.target as int]],
            s.count[s.root[e.target as int]],
            k,
        ),
        merged.int_diff == max_int(
            max_int(s.diff[s.root[e.source as int]], s.diff[s.root[e.target as int]]),
            e.weight as int,
        ),
        merged.node_count == s.count[s.root[e.source as int]] + s.count[s.root[e.target as int]],
    ensures
        ({
            let r1 = s.root[e.source as int];
            let r2 = s.root[e.target as int];
            forest_matches(
                slots.update(r1, ComponentSlot::Here(merged)).update(
                    r2,
                    ComponentSlot::There(r1 as usize),
                ),
                merge_step(s, e, k),
                Seq::new(n, |i: int| if s.root[i] == r2 { dist[i] + 1 } else { dist[i] }),
                n,
            )
        }),
{
    let r1 = s.root[e.source as int];
    let r2 = s.root[e.target as int];
    let slots2 = slots.update(r1, ComponentSlot::Here(merged)).update(
        r2,
        ComponentSlot::There(r1 as usize),
    );
    let t = merge_step(s, e, k);
    let dist2 = Seq::new(n, |i: int| if s.root[i] == r2 { dist[i] + 1 } else { dist[i] });
    lemma_step_wf(s, n, e, k);
    assert(slot_consistent(slots, s, dist, r1));
    assert(slot_consistent(slots, s, dist, r2));
    assert(t.root[r1] == r1);
    assert(t.root[r2] == r1);
    assert forall|i: int| 0 <= i < n implies #[trigger] slot_consistent(slots2, t, dist2, i) by {
        assert(slot_consistent(slots, s, dist, i));
        if i == r2 {
            assert(slots2[i] == ComponentSlot::There(r1 as usize));
        } else if i == r1 {
            assert(slots2[i] == ComponentSlot::Here(merged));
        } else {
            assert(slots2[i] == slots[i]);
            match slots[i] {
                ComponentSlot::There(j) => {
                    assert(slot_consistent(slots, s, dist, j as int));
                    assert(t.root[j as int] == t.root[i]);
                },
                ComponentSlot::Here(c) => {
                    assert(t.root[i] == i);
                },
            }
        }
    }
}

fn all_in_bounds(n: usize, edges: &Vec<WeightedEdge>) -> (r: bool)
    ensures
        r == edges_in_bounds(n as nat, edges@),
{
    let mut i: usize = 0;
    while i < edges.len()
        invariant
            i <= edges@.len(),
            forall|j: int| 0 <= j < i ==> (#[trigger] edges@[j]).source < n && edges@[j].target < n,
        decreases edges@.len() - i,
    {
        if edges[i].source >= n || edges[i].target >= n {
            assert(!(edges@[i as int].source < n && edges@[i as int].target < n));
            return false;
        }
        i = i + 1;
    }
    true
}

/// Segments the nodes `0..node_bound` joined by `edges`, with scale `k`.
///
/// Fails when an edge names a node at or beyond `node_bound`; otherwise the
/// result is the labelling of the model: each node's dense component id, and
/// the surviving components in ascending order of their root nodes.
pub fn segment_edges(node_bound: usize, edges: &Vec<WeightedEdge>, k: u64) -> (r: Result<
    Segmentation,
    SegmentError,
>)
    ensures
        r is Ok <==> edges_in_bounds(node_bound as nat, edges@),
        r matches Ok(seg) ==> is_segmentation_of(seg, node_bound as nat, edges@, k as int),
        r matches Err(e) ==> e == SegmentError::NodeOutOfBounds,
{
    let n = node_bound;
    if !all_in_bounds(n, edges) {
        return Err(SegmentError::NodeOutOfBounds);
    }
    let edge_count = edges.len();
    proof {
        lemma_initial_wf(n as nat);
        lemma_sorted_edges(edges@);
    }
    // Every node starts as its own component.
    let mut slots: Vec<ComponentSlot> = Vec::new();
    let mut i: usize = 0;
    while i < n
        invariant
            i <= n,
            slots@.len() == i,
            forall|j: int|
                0 <= j < i ==> #[trigger] slots@[j] == ComponentSlot::Here(
                    Component { int_diff: 0, node_count: 1 },
                ),
        decreases n - i,
    {
        slots.push(ComponentSlot::Here(Component { int_diff: 0, node_count: 1 }));
        i = i + 1;
    }
    let ghost mut s = initial_state(n as nat);
    let ghost mut dist: Seq<nat> = Seq::new(n as nat, |j: int| 0nat);
    assert forall|j: int| 0 <= j < n implies #[trigger] slot_consistent(slots@, s, dist, j) by {}
    // Sort the edges by weight, keeping their order among equal weights.
    let mut keys: Vec<(u64, usize)> = Vec::new();
    let mut i: usize = 0;
    while i < edge_count
        invariant
            edge_count == edges@.len(),
            i <= edges@.len(),
            keys@ == edge_keys(edges@).take(i as int),
        decreases edges@.len() - i,
    {
        keys.push((edges[i].weight, i));
        i = i + 1;
        assert(keys@ =~= edge_keys(edges@).take(i as int));
    }
    assert(keys@ =~= edge_keys(edges@));
    sort_keys(&mut keys);
    proof {
        lemma_total_key_order();
        edge_keys(edges@).lemma_sort_by_ensures(key_order());
        vstd::seq_lib::lemma_sorted_unique(
            keys@,
            edge_keys(edges@).sort_by(key_order()),
            key_order(),
        );
    }
    let ghost sorted = sorted_edges(edges@);
    let mut t: usize = 0;
    while t < keys.len()
        invariant
            keys@ == edge_keys(edges@).sort_by(key_order()),
            keys@.len() == edges@.len(),
            sorted == sorted_edges(edges@),
            sorted.len() == edges@.len(),
            forall|u: int|
                0 <= u < edges@.len() ==> {
                    let key = #[trigger] edge_keys(edges@).sort_by(key_order())[u];
                    0 <= key.1 < edges@.len() && key == (edges@[key.1 as int].weight, key.1)
                },
            forall|j: int| 0 <= j < edges@.len() ==> (#[trigger] edges@[j]).source < n && edges@[j].target < n,
            t <= keys@.len(),
            s == merge_all(initial_state(n as nat), sorted.take(t as int), k as int),
            forest_matches(slots@, s, dist, n as nat),
        decreases keys@.len() - t,
    {
        let e = edges[keys[t].1];
        assert(e == sorted[t as int]);
        let r1 = find_root(&slots, e.source, Ghost(s), Ghost(dist));
        let r2 = find_root(&slots, e.target, Ghost(s), Ghost(dist));
        proof {
            assert(sorted.take(t + 1).drop_last() =~= sorted.take(t as int));
            assert(slot_consistent(slots@, s, dist, r1 as int));
            assert(slot_consistent(slots@, s, dist, r2 as int));
        }
        if r1 != r2 {
            let c1 = root_component(&slots, r1);
            let c2 = root_component(&slots, r2);
            proof {
                lemma_count_in_pos(s.root, r1 as int, n as int);
                lemma_count_in_pos(s.root, r2 as int, n as int);
            }
            if fits_threshold(e.weight, c1.int_diff, c1.node_count, k) && fits_threshold(
                e.weight,
                c2.int_diff,
                c2.node_count,
                k,
            ) {
                proof {
                    lemma_count_in_pair(s.root, r1 as int, r2 as int, n as int);
                }
                let merged = Component {
                    int_diff: max_u64(max_u64(c1.int_diff, c2.int_diff), e.weight),
                    node_count: c1.node_count + c2.node_count,
                };
                proof {
                    lemma_forest_merge(slots@, s, dist, n as nat, e, k as int, merged);
                }
                slots.set(r1, ComponentSlot::Here(merged));
                slots.set(r2, ComponentSlot::There(r1));
                proof {
                    let r2i = r2 as int;
                    dist = Seq::new(
                        n as nat,
                        |j: int| if s.root[j] == r2i { dist[j] + 1 } else { dist[j] },
                    );
                    s = merge_step(s, e, k as int);
                }
            }
        }
        t = t + 1;
    }
    assert(sorted.take(keys@.len() as int) =~= sorted);
    // Number the surviving components in ascending order of their roots.
    let ghost fin = s;
    let mut component_map: Vec<usize> = Vec::new();
    let mut out_components: Vec<Component> = Vec::new();
    let mut i: usize = 0;
    proof {
        lemma_root_list(fin.root, n as int);
    }
    while i < n
        invariant
            i <= n,
            forest_matches(slots@, fin, dist, n as nat),
            component_map@.len() == i,
            out_components@ == root_list(fin.root, i as int).map_values(
                |r: int| Component { int_diff: fin.diff[r] as u64, node_count: fin.count[r] as usize },
            ),
            forall|j: int|
                0 <= j < i && fin.root[j] == j ==> #[trigger] component_map@[j] == rank(fin.root, j),
        decreases n - i,
    {
        proof {
            lemma_root_list(fin.root, i as int);
        }
        assert(slot_consistent(slots@, fin, dist, i as int));
        match slots[i] {
            ComponentSlot::Here(c) => {
                component_map.push(out_components.len());
                out_components.push(c);
            },
            ComponentSlot::There(_) => {
                component_map.push(0);
            },
        }
        i = i + 1;
        assert(out_components@ =~= root_list(fin.root, i as int).map_values(
            |r: int| Component { int_diff: fin.diff[r] as u64, node_count: fin.count[r] as usize },
        ));
    }
    let mut node_components: Vec<usize> = Vec::new();
    let mut i: usize = 0;
    while i < n
        invariant
            i <= n,
            forest_matches(slots@, fin, dist, n as nat),
            component_map@.len() == n,
            forall|j: int|
                0 <= j < n && fin.root[j] == j ==> #[trigger] component_map@[j] == rank(fin.root, j),
            node_components@ =~= Seq::new(i as nat, |j: int| rank(fin.root, fin.root[j]) as usize),
        decreases n - i,
    {
        let r = find_root(&slots, i, Ghost(fin), Ghost(dist));
        node_components.push(component_map[r]);
        i = i + 1;
    }
    Ok(Segmentation { node_components, components: out_components })
}

/// Segments `graph` with scale `k`; see `segment_edges`.
pub fn segment<G: Graph>(graph: &G, k: u64) -> (r: Result<Segmentation, SegmentError>)
    ensures
        r is Ok <==> edges_in_bounds(graph.spec_node_bound(), graph.spec_edges()),
        graph.spec_edges().len() <= usize::MAX,
        r matches Ok(seg) ==> is_segmentation_of(
            seg,
            graph.spec_node_bound(),
            graph.spec_edges(),
            k as int,
        ),
        r matches Err(e) ==> e == SegmentError::NodeOutOfBounds,
{
    let edges = graph.edge_references();
    // An edge list held in memory has a length that fits in `usize`.
    let _ = edges.len();
    segment_edges(graph.node_bound(), &edges, k)
}

/// The pixel at dense index `i` of a grid of width `w`.
pub open spec fn pixel_at(w: int, i: int) -> PixelCoordinate {
    PixelCoordinate { x: (i % w) as u32, y: (i / w) as u32 }
}

/// The coordinates of the nodes among `0..j` that carry label `g`, in
/// ascending order, for a grid of width `w`.
pub open spec fn members(labels: Seq<usize>, g: int, w: int, j: int) -> Seq<PixelCoordinate>
    decreases j,
{
    if j <= 0 {
        Seq::empty()
    } else if labels[j - 1] == g {
        members(labels, g, w, j - 1).push(pixel_at(w, j - 1))
    } else {
        members(labels, g, w, j - 1)
    }
}

/// The labels of the pixels of `grid` segmented with scale `k`.
pub open spec fn grid_labels(grid: PixelGrid, k: int) -> Seq<usize> {
    final_labels(grid.spec_node_bound(), grid.spec_edges(), k)
}

/// Segments the pixels of `grid` with scale `k` and returns one list of
/// pixel coordinates per component, in component order; each list holds its
/// pixels in row-major order.
pub fn segment_image(grid: &PixelGrid, k: u64) -> (r: Vec<Vec<PixelCoordinate>>)
    ensures
        r@.len() == final_components(grid.spec_node_bound(), grid.spec_edges(), k as int).len(),
        forall|g: int|
            0 <= g < r@.len() ==> (#[trigger] r@[g])@ == members(
                grid_labels(*grid, k as int),
                g,
                grid.spec_width() as int,
                grid.spec_node_bound() as int,
            ),
{
    let n = grid.len();
    let ghost w = grid.spec_width() as int;
    let ghost h = grid.spec_height() as int;
    let ghost edges = grid.spec_edges();
    let ghost labels = grid_labels(*grid, k as int);
    proof {
        lemma_grid_edges_in_bounds(w, h, grid.spec_pixels(), n as int);
        assert(edges_in_bounds(n as nat, edges));
    }
    let seg = match segment(grid, k) {
        Ok(seg) => seg,
        Err(_) => {
            return Vec::new();
        },
    };
    proof {
        laws::lemma_partition(n as nat, edges, k as int);
    }
    let m = seg.components.len();
    let mut groups: Vec<Vec<PixelCoordinate>> = Vec::new();
    while groups.len() < m
        invariant
            groups@.len() <= m,
            forall|g: int| 0 <= g < groups@.len() ==> (#[trigger] groups@[g])@ == Seq::<
                PixelCoordinate,
            >::empty(),
        decreases m - groups@.len(),
    {
        groups.push(Vec::new());
    }
    let mut i: usize = 0;
    while i < n
        invariant
            n == grid.spec_node_bound(),
            w == grid.spec_width() as int,
            i <= n,
            groups@.len() == m,
            seg.node_components@ == labels,
            labels.len() == n,
            forall|j: int| 0 <= j < n ==> (#[trigger] labels[j]) < m,
            forall|g: int|
                0 <= g < m ==> (#[trigger] groups@[g])@ == members(labels, g, w, i as int),
        decreases n - i,
    {
        let l = seg.node_components[i];
        let c = grid.from_index(i);
        let ghost before = groups@;
        groups[l].push(c);
        i = i + 1;
        assert forall|g: int| 0 <= g < m implies (#[trigger] groups@[g])@ == members(
            labels,
            g,
            w,
            i as int,
        ) by {
            assert(before[g]@ == members(labels, g, w, i - 1));
            if g == l {
                let j = i - 1;
                assert(c == pixel_at(w, j));
            } else {
                assert(groups@[g] == before[g]);
            }
        }
    }
    groups
}

} // verus!
