//! Properties of every segmentation, proved over the model.
use vstd::prelude::*;

use super::model::{
    count_in, edges_in_bounds, final_components, final_labels, final_state, lemma_final_wf, lemma_root_list,
    rank, root_list,
};
use super::pixel_grid::lemma_grid_index;
use super::{is_segmentation_of, members, pixel_at, Segmentation, WeightedEdge};

verus! {

/// Partition: every node gets exactly one component id, every id lies below
/// the number of components, and every component holds at least one node.
pub proof fn lemma_partition(n: nat, edges: Seq<WeightedEdge>, k: int)
    requires
        n <= usize::MAX,
        edges.len() <= usize::MAX,
        edges_in_bounds(n, edges),
    ensures
        final_labels(n, edges, k).len() == n,
        forall|i: int|
            0 <= i < n ==> (#[trigger] final_labels(n, edges, k)[i]) < final_components(
                n,
                edges,
                k,
            ).len(),
        forall|g: usize|
            0 <= g < final_components(n, edges, k).len() ==> #[trigger] final_labels(
                n,
                edges,
                k,
            ).contains(g),
{
    let s = final_state(n, edges, k);
    lemma_final_wf(n, edges, k);
    lemma_root_list(s.root, n as int);
    assert forall|i: int| 0 <= i < n implies (#[trigger] final_labels(n, edges, k)[i])
        < final_components(n, edges, k).len() by {
        let r = s.root[i];
        assert(rank(s.root, r) < root_list(s.root, n as int).len());
    }
    assert forall|g: usize| 0 <= g < final_components(n, edges, k).len() implies #[trigger] final_labels(
        n,
        edges,
        k,
    ).contains(g) by {
        let r = root_list(s.root, n as int)[g as int];
        assert(rank(s.root, r) == g);
        assert(final_labels(n, edges, k)[r] == g);
    }
}

/// Determinism: two segmentations of the same graph with the same scale are
/// identical, label for label and component for component.
pub proof fn lemma_deterministic(
    n: nat,
    edges: Seq<WeightedEdge>,
    k: int,
    a: Segmentation,
    b: Segmentation,
)
    requires
        is_segmentation_of(a, n, edges, k),
        is_segmentation_of(b, n, edges, k),
    ensures
        a.node_components@ == b.node_components@,
        a.components@ == b.components@,
{
}

proof fn lemma_pixel_at_injective(w: int, h: int, i: int, j: int)
    requires
        0 < w <= u32::MAX,
        0 < h <= u32::MAX,
        0 <= i < w * h,
        0 <= j < w * h,
        pixel_at(w, i) == pixel_at(w, j),
    ensures
        i == j,
{
    lemma_grid_index(i, w, h);
    lemma_grid_index(j, w, h);
}

proof fn lemma_members(labels: Seq<usize>, g: int, w: int, h: int, j: int)
    requires
        0 < w <= u32::MAX,
        0 < h <= u32::MAX,
        labels.len() == w * h,
        0 <= j <= w * h,
    ensures
        forall|i: int|
            0 <= i < w * h ==> (#[trigger] members(labels, g, w, j).contains(pixel_at(w, i)) <==> (i
                < j && labels[i] == g)),
        members(labels, g, w, j).no_duplicates(),
    decreases j,
{
    if j > 0 {
        lemma_members(labels, g, w, h, j - 1);
        let prev = members(labels, g, w, j - 1);
        let q = j - 1;
        assert forall|i: int| 0 <= i < w * h implies (#[trigger] members(labels, g, w, j).contains(
            pixel_at(w, i),
        ) <==> (i < j && labels[i] == g)) by {
            if labels[q] == g {
                assert(members(labels, g, w, j) == prev.push(pixel_at(w, q)));
                if pixel_at(w, i) == pixel_at(w, q) {
                    lemma_pixel_at_injective(w, h, i, q);
                }
                if members(labels, g, w, j).contains(pixel_at(w, i)) && !prev.contains(
                    pixel_at(w, i),
                ) {
                    let t = choose|t: int|
                        0 <= t < members(labels, g, w, j).len() && members(labels, g, w, j)[t]
                            == pixel_at(w, i);
                    assert(t == prev.len());
                    lemma_pixel_at_injective(w, h, i, q);
                }
                if prev.contains(pixel_at(w, i)) {
                    let t = choose|t: int| 0 <= t < prev.len() && prev[t] == pixel_at(w, i);
                    assert(members(labels, g, w, j)[t] == pixel_at(w, i));
                }
                if i == q {
                    assert(members(labels, g, w, j)[prev.len() as int] == pixel_at(w, i));
                }
            }
        }
        if labels[q] == g {
            assert(!prev.contains(pixel_at(w, q)));
            assert forall|a: int, b: int|
                0 <= a < members(labels, g, w, j).len() && 0 <= b < members(labels, g, w, j).len()
                    && a != b implies members(labels, g, w, j)[a] != members(labels, g, w, j)[b] by {
                if a == prev.len() {
                    assert(prev.contains(members(labels, g, w, j)[b]) || b == prev.len());
                }
                if b == prev.len() {
                    assert(prev.contains(members(labels, g, w, j)[a]) || a == prev.len());
                }
            }
        }
    }
}

/// Partition of the image: in the pixel groups of a labelling, each pixel
/// lies in the group of its own label and in no other, and no group lists a
/// pixel twice.
pub proof fn lemma_groups_partition(labels: Seq<usize>, w: nat, h: nat, i: int, g: int)
    requires
        0 < w <= u32::MAX,
        0 < h <= u32::MAX,
        labels.len() == w * h,
        0 <= i < w * h,
    ensures
        members(labels, g, w as int, (w * h) as int).contains(pixel_at(w as int, i)) <==> labels[i]
            == g,
        members(labels, g, w as int, (w * h) as int).no_duplicates(),
{
    lemma_members(labels, g, w as int, h as int, (w * h) as int);
}

/// How many of the nodes `0..j` carry label `g`.
pub open spec fn label_count(labels: Seq<usize>, g: int, j: int) -> int
    decreases j,
{
    if j <= 0 {
        0
    } else {
        label_count(labels, g, j - 1) + if labels[j - 1] == g {
            1int
        } else {
            0int
        }
    }
}

proof fn lemma_counts_agree(labels: Seq<usize>, root: Seq<int>, g: int, r: int, j: int)
    requires
        0 <= j <= labels.len(),
        forall|i: int| 0 <= i < j ==> ((#[trigger] labels[i] == g) == (root[i] == r)),
    ensures
        label_count(labels, g, j) == count_in(root, r, j),
    decreases j,
{
    if j > 0 {
        lemma_counts_agree(labels, root, g, r, j - 1);
    }
}

/// Sizes: each component's node count is the number of nodes that carry its id.
pub proof fn lemma_component_sizes(n: nat, edges: Seq<WeightedEdge>, k: int, g: int)
    requires
        n <= usize::MAX,
        edges.len() <= usize::MAX,
        edges_in_bounds(n, edges),
        0 <= g < final_components(n, edges, k).len(),
    ensures
        final_components(n, edges, k)[g].node_count == label_count(final_labels(n, edges, k), g, n as int),
{
    let s = final_state(n, edges, k);
    let labels = final_labels(n, edges, k);
    lemma_final_wf(n, edges, k);
    lemma_root_list(s.root, n as int);
    let r = root_list(s.root, n as int)[g];
    assert(rank(s.root, r) == g);
    super::model::lemma_count_in_nonneg(s.root, r, n as int);
    assert forall|i: int| 0 <= i < n implies ((#[trigger] labels[i] == g) == (s.root[i] == r)) by {
        let ri = s.root[i];
        assert(rank(s.root, ri) < root_list(s.root, n as int).len());
        assert(root_list(s.root, n as int)[rank(s.root, ri)] == ri);
    }
    lemma_counts_agree(labels, s.root, g, r, n as int);
}

/// Node indices and pixel coordinates of a `w` × `h` grid correspond one to
/// one: the pixel of index `y * w + x` is `(x, y)`, and the index of the pixel
/// of index `i` is `i`.
pub proof fn lemma_index_bijection(w: nat, h: nat, x: u32, y: u32, i: int)
    requires
        0 < w <= u32::MAX,
        0 < h <= u32::MAX,
        x < w,
        y < h,
        0 <= i < w * h,
    ensures
        pixel_at(w as int, y * w + x) == (super::PixelCoordinate { x, y }),
        pixel_at(w as int, i).y * w + pixel_at(w as int, i).x == i,
{
    let p = y * w + x;
    assert(0 <= p < w * h) by (nonlinear_arith)
        requires
            x < w,
            y < h,
            p == y * w + x,
    ;
    vstd::arithmetic::div_mod::lemma_fundamental_div_mod_converse_div(p, w as int, y as int, x as int);
    vstd::arithmetic::div_mod::lemma_fundamental_div_mod_converse_mod(p, w as int, y as int, x as int);
    lemma_grid_index(i, w as int, h as int);
}

} // verus!
