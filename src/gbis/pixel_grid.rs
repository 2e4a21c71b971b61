//! A single-channel image seen as an 8-connected graph of its pixels.
use vstd::prelude::*;

use super::{Graph, PixelCoordinate, WeightedEdge};

verus! {

/// A grayscale image of `width` × `height` pixels, stored row by row; node
/// `y * width + x` is the pixel at `(x, y)`.
///
/// Edges join each pixel to its right, lower, lower-right and lower-left
/// neighbours, so that each pair of adjacent pixels has one edge. The weight
/// of an edge is the absolute difference of the two intensities, in units of
/// 1/255 of the full range.
pub struct PixelGrid {
    width: u32,
    height: u32,
    pixels: Vec<u8>,
}

/// The four neighbours a pixel links to.
#[derive(Clone, Copy, Debug, PartialEq, Eq, Hash)]
pub enum Neighbor {
    Down,
    Right,
    DownRight,
    DownLeft,
}

/// An edge of the grid: a pixel and the neighbour it links to.
#[derive(Clone, Copy, Debug, PartialEq, Eq, Hash)]
pub struct Edge {
    pub base: PixelCoordinate,
    pub neighbor: Neighbor,
}

pub open spec fn neighbor_dx(nb: Neighbor) -> int {
    match nb {
        Neighbor::Down => 0,
        Neighbor::Right => 1,
        Neighbor::DownRight => 1,
        Neighbor::DownLeft => -1,
    }
}

pub open spec fn neighbor_dy(nb: Neighbor) -> int {
    match nb {
        Neighbor::Down => 1,
        Neighbor::Right => 0,
        Neighbor::DownRight => 1,
        Neighbor::DownLeft => 1,
    }
}

/// The neighbour of `(x, y)` lies inside a `w` × `h` grid.
pub open spec fn neighbor_fits(nb: Neighbor, x: int, y: int, w: int, h: int) -> bool {
    0 <= x + neighbor_dx(nb) < w && y + neighbor_dy(nb) < h
}

impl Neighbor {
    /// The coordinate of this neighbour of `c`.
    pub fn apply(&self, c: PixelCoordinate) -> (r: PixelCoordinate)
        requires
            0 <= c.x + neighbor_dx(*self) <= u32::MAX,
            c.y + neighbor_dy(*self) <= u32::MAX,
        ensures
            r.x == c.x + neighbor_dx(*self),
            r.y == c.y + neighbor_dy(*self),
    {
        match self {
            Neighbor::Down => PixelCoordinate { x: c.x, y: c.y + 1 },
            Neighbor::Right => PixelCoordinate { x: c.x + 1, y: c.y },
            Neighbor::DownRight => PixelCoordinate { x: c.x + 1, y: c.y + 1 },
            Neighbor::DownLeft => PixelCoordinate { x: c.x - 1, y: c.y + 1 },
        }
    }
}

pub open spec fn abs_diff(a: u8, b: u8) -> int {
    if a >= b {
        a - b
    } else {
        b - a
    }
}

/// The edge from node `p` of a grid of width `w` to its neighbour `nb`.
pub open spec fn grid_edge(w: int, px: Seq<u8>, p: int, nb: Neighbor) -> WeightedEdge {
    let q = p + neighbor_dy(nb) * w + neighbor_dx(nb);
    WeightedEdge { source: p as usize, target: q as usize, weight: abs_diff(px[p], px[q]) as u64 }
}

pub open spec fn edge_if_fits(w: int, h: int, px: Seq<u8>, p: int, nb: Neighbor) -> Seq<
    WeightedEdge,
> {
    if neighbor_fits(nb, p % w, p / w, w, h) {
        seq![grid_edge(w, px, p, nb)]
    } else {
        Seq::empty()
    }
}

/// The edges that pixel `p` contributes, in the order right, down,
/// down-right, down-left.
pub open spec fn pixel_edges(w: int, h: int, px: Seq<u8>, p: int) -> Seq<WeightedEdge> {
    edge_if_fits(w, h, px, p, Neighbor::Right) + edge_if_fits(w, h, px, p, Neighbor::Down)
        + edge_if_fits(w, h, px, p, Neighbor::DownRight) + edge_if_fits(
        w,
        h,
        px,
        p,
        Neighbor::DownLeft,
    )
}

/// The edges of pixels `0..p`, pixel by pixel in row-major order.
pub open spec fn grid_edges(w: int, h: int, px: Seq<u8>, p: int) -> Seq<WeightedEdge>
    decreases p,
{
    if p <= 0 {
        Seq::empty()
    } else {
        grid_edges(w, h, px, p - 1) + pixel_edges(w, h, px, p - 1)
    }
}

pub proof fn lemma_grid_index(p: int, w: int, h: int)
    requires
        0 <= p < w * h,
        w > 0,
        h > 0,
    ensures
        0 <= p % w < w,
        0 <= p / w < h,
        p == (p / w) * w + p % w,
{
    vstd::arithmetic::div_mod::lemma_fundamental_div_mod(p, w);
    vstd::arithmetic::div_mod::lemma_mod_pos_bound(p, w);
    let y = p / w;
    let x = p % w;
    assert(y * w == w * y) by (nonlinear_arith);
    if y >= h {
        assert(y * w >= h * w) by (nonlinear_arith)
            requires
                y >= h,
                w > 0,
        ;
        assert(w * h == h * w) by (nonlinear_arith);
    }
    assert(y >= 0) by (nonlinear_arith)
        requires
            p == w * y + x,
            x < w,
            p >= 0,
            w > 0,
    ;
}

/// A neighbour that fits lies at index `p + dy * w + dx`, inside the grid.
proof fn lemma_neighbor_index(p: int, w: int, h: int, nb: Neighbor)
    requires
        0 <= p < w * h,
        w > 0,
        h > 0,
        neighbor_fits(nb, p % w, p / w, w, h),
    ensures
        0 <= p + neighbor_dy(nb) * w + neighbor_dx(nb) < w * h,
{
    lemma_grid_index(p, w, h);
    let y = p / w;
    let x = p % w;
    let dy = neighbor_dy(nb);
    let dx = neighbor_dx(nb);
    assert(p + dy * w + dx == (y + dy) * w + (x + dx)) by (nonlinear_arith)
        requires
            p == y * w + x,
    ;
    assert((y + dy) * w + (x + dx) < w * h) by (nonlinear_arith)
        requires
            y + dy < h,
            x + dx < w,
            w > 0,
    ;
    assert(0 <= (y + dy) * w + (x + dx)) by (nonlinear_arith)
        requires
            y + dy >= 0,
            x + dx >= 0,
            w > 0,
    ;
}

/// Every edge of a `w` × `h` grid joins two of its pixels.
pub proof fn lemma_grid_edges_in_bounds(w: int, h: int, px: Seq<u8>, p: int)
    requires
        w >= 0,
        h >= 0,
        0 <= p <= w * h,
    ensures
        forall|t: int|
            0 <= t < grid_edges(w, h, px, p).len() ==> (#[trigger] grid_edges(w, h, px, p)[t]).source
                < w * h && grid_edges(w, h, px, p)[t].target < w * h,
    decreases p,
{
    if p > 0 {
        lemma_grid_edges_in_bounds(w, h, px, p - 1);
        assert(w > 0 && h > 0) by (nonlinear_arith)
            requires
                w >= 0,
                h >= 0,
                w * h > 0,
        ;
        let q = p - 1;
        if neighbor_fits(Neighbor::Right, q % w, q / w, w, h) {
            lemma_neighbor_index(q, w, h, Neighbor::Right);
        }
        if neighbor_fits(Neighbor::Down, q % w, q / w, w, h) {
            lemma_neighbor_index(q, w, h, Neighbor::Down);
        }
        if neighbor_fits(Neighbor::DownRight, q % w, q / w, w, h) {
            lemma_neighbor_index(q, w, h, Neighbor::DownRight);
        }
        if neighbor_fits(Neighbor::DownLeft, q % w, q / w, w, h) {
            lemma_neighbor_index(q, w, h, Neighbor::DownLeft);
        }
        let prev = grid_edges(w, h, px, q);
        let mine = pixel_edges(w, h, px, q);
        assert forall|t: int| 0 <= t < grid_edges(w, h, px, p).len() implies (#[trigger] grid_edges(
            w,
            h,
            px,
            p,
        )[t]).source < w * h && grid_edges(w, h, px, p)[t].target < w * h by {
            if t >= prev.len() {
                assert(grid_edges(w, h, px, p)[t] == mine[t - prev.len()]);
            }
        }
    }
}

impl PixelGrid {
    #[verifier::type_invariant]
    spec fn shape_matches(self) -> bool {
        self.pixels@.len() == self.width as int * self.height as int
    }

    pub closed spec fn spec_width(&self) -> nat {
        self.width as nat
    }

    pub closed spec fn spec_height(&self) -> nat {
        self.height as nat
    }

    pub closed spec fn spec_pixels(&self) -> Seq<u8> {
        self.pixels@
    }

    /// A grid of the given size over `pixels` in row-major order, or `None`
    /// when the number of pixels is not `width * height`.
    pub fn new(width: u32, height: u32, pixels: Vec<u8>) -> (r: Option<PixelGrid>)
        ensures
            r is Some <==> pixels@.len() == width as int * height as int,
            r matches Some(g) ==> g.spec_width() == width && g.spec_height() == height
                && g.spec_pixels() == pixels@,
    {
        proof {
            assert(width as int * height as int <= u64::MAX) by (nonlinear_arith)
                requires
                    width <= u32::MAX,
                    height <= u32::MAX,
            ;
        }
        let n = (width as u64) * (height as u64);
        if pixels.len() as u64 == n {
            Some(PixelGrid { width, height, pixels })
        } else {
            None
        }
    }

    /// The grid's shape: as many pixels as width times height.
    pub fn len(&self) -> (r: usize)
        ensures
            r == self.spec_pixels().len(),
            r == self.spec_width() * self.spec_height(),
    {
        proof {
            use_type_invariant(self);
        }
        self.pixels.len()
    }

    /// The samples, row by row.
    pub fn pixels(&self) -> (r: &Vec<u8>)
        ensures
            r@ == self.spec_pixels(),
    {
        &self.pixels
    }

    pub fn width(&self) -> (r: u32)
        ensures
            r == self.spec_width(),
    {
        self.width
    }

    pub fn height(&self) -> (r: u32)
        ensures
            r == self.spec_height(),
    {
        self.height
    }

    /// Dense index of the pixel at `c`.
    pub fn to_index(&self, c: PixelCoordinate) -> (r: usize)
        requires
            c.x < self.spec_width(),
            c.y < self.spec_height(),
        ensures
            r == c.y * self.spec_width() + c.x,
            r < self.spec_pixels().len(),
    {
        let len = self.pixels.len();
        proof {
            use_type_invariant(self);
            let w = self.width as int;
            let h = self.height as int;
            assert(c.y * w + c.x < w * h) by (nonlinear_arith)
                requires
                    c.x < w,
                    c.y < h,
            ;
        }
        c.y as usize * self.width as usize + c.x as usize
    }

    /// The pixel at dense index `i`.
    pub fn from_index(&self, i: usize) -> (r: PixelCoordinate)
        requires
            i < self.spec_pixels().len(),
        ensures
            r.x == i as int % self.spec_width() as int,
            r.y == i as int / self.spec_width() as int,
            r.x < self.spec_width(),
            r.y < self.spec_height(),
    {
        proof {
            use_type_invariant(self);
            lemma_grid_index(i as int, self.width as int, self.height as int);
        }
        PixelCoordinate { x: (i % self.width as usize) as u32, y: (i / self.width as usize) as u32 }
    }

    /// Appends the edge from pixel `p` to its neighbour `nb`, if that
    /// neighbour lies inside the grid.
    fn push_edge_if_fits(&self, out: &mut Vec<WeightedEdge>, p: usize, nb: Neighbor)
        requires
            p < self.spec_pixels().len(),
        ensures
            final(out)@ == old(out)@ + edge_if_fits(
                self.spec_width() as int,
                self.spec_height() as int,
                self.spec_pixels(),
                p as int,
                nb,
            ),
    {
        proof {
            use_type_invariant(self);
        }
        let ghost w = self.width as int;
        let ghost h = self.height as int;
        let base = self.from_index(p);
        let fits_x = match nb {
            Neighbor::Down => true,
            Neighbor::Right => base.x + 1 < self.width,
            Neighbor::DownRight => base.x + 1 < self.width,
            Neighbor::DownLeft => base.x > 0,
        };
        let fits_y = match nb {
            Neighbor::Right => true,
            _ => base.y + 1 < self.height,
        };
        if fits_x && fits_y {
            proof {
                lemma_grid_index(p as int, w, h);
            }
            let e = EdgeRef::new(self, Edge { base, neighbor: nb });
            let source = self.to_index(e.source());
            let target = self.to_index(e.target());
            proof {
                assert(target == p + neighbor_dy(nb) * w + neighbor_dx(nb)) by (nonlinear_arith)
                    requires
                        target == (base.y + neighbor_dy(nb)) * w + base.x + neighbor_dx(nb),
                        p == base.y * w + base.x,
                ;
            }
            out.push(WeightedEdge { source, target, weight: e.weight() });
        }
        assert(out@ =~= old(out)@ + edge_if_fits(w, h, self.pixels@, p as int, nb));
    }
}

/// An edge of the grid together with its weight.
#[derive(Clone, Copy, Debug, PartialEq, Eq)]
pub struct EdgeRef {
    pub edge: Edge,
    pub weight: u64,
}

impl EdgeRef {
    /// The edge `edge` of `src`, weighted by the intensity difference of its
    /// two pixels.
    pub fn new(src: &PixelGrid, edge: Edge) -> (r: EdgeRef)
        requires
            edge.base.x < src.spec_width(),
            edge.base.y < src.spec_height(),
            neighbor_fits(
                edge.neighbor,
                edge.base.x as int,
                edge.base.y as int,
                src.spec_width() as int,
                src.spec_height() as int,
            ),
        ensures
            r.edge == edge,
            r.weight == abs_diff(
                src.spec_pixels()[edge.base.y * src.spec_width() + edge.base.x],
                src.spec_pixels()[(edge.base.y + neighbor_dy(edge.neighbor)) * src.spec_width()
                    + edge.base.x + neighbor_dx(edge.neighbor)],
            ),
    {
        let target = edge.neighbor.apply(edge.base);
        let a = src.pixels()[src.to_index(edge.base)];
        let b = src.pixels()[src.to_index(target)];
        let weight: u64 = if a >= b {
            (a - b) as u64
        } else {
            (b - a) as u64
        };
        proof {
            let w = src.spec_width() as int;
            assert((edge.base.y + neighbor_dy(edge.neighbor)) * w + edge.base.x + neighbor_dx(
                edge.neighbor,
            ) == target.y * w + target.x);
        }
        EdgeRef { edge, weight }
    }

    pub fn source(&self) -> (r: PixelCoordinate)
        ensures
            r == self.edge.base,
    {
        self.edge.base
    }

    /// The neighbour that the edge leads to.
    pub fn target(&self) -> (r: PixelCoordinate)
        requires
            0 <= self.edge.base.x + neighbor_dx(self.edge.neighbor) <= u32::MAX,
            self.edge.base.y + neighbor_dy(self.edge.neighbor) <= u32::MAX,
        ensures
            r.x == self.edge.base.x + neighbor_dx(self.edge.neighbor),
            r.y == self.edge.base.y + neighbor_dy(self.edge.neighbor),
    {
        self.edge.neighbor.apply(self.edge.base)
    }

    pub fn weight(&self) -> (r: u64)
        ensures
            r == self.weight,
    {
        self.weight
    }

    pub fn id(&self) -> (r: Edge)
        ensures
            r == self.edge,
    {
        self.edge
    }
}

impl Graph for PixelGrid {
    open spec fn spec_node_bound(&self) -> nat {
        self.spec_pixels().len()
    }

    open spec fn spec_edges(&self) -> Seq<WeightedEdge> {
        grid_edges(
            self.spec_width() as int,
            self.spec_height() as int,
            self.spec_pixels(),
            self.spec_pixels().len() as int,
        )
    }

    fn node_bound(&self) -> (r: usize) {
        self.pixels.len()
    }

    fn edge_references(&self) -> (r: Vec<WeightedEdge>) {
        let n = self.pixels.len();
        let mut out: Vec<WeightedEdge> = Vec::new();
        let mut p: usize = 0;
        while p < n
            invariant
                n == self.spec_pixels().len(),
                p <= n,
                out@ == grid_edges(
                    self.spec_width() as int,
                    self.spec_height() as int,
                    self.spec_pixels(),
                    p as int,
                ),
            decreases n - p,
        {
            self.push_edge_if_fits(&mut out, p, Neighbor::Right);
            self.push_edge_if_fits(&mut out, p, Neighbor::Down);
            self.push_edge_if_fits(&mut out, p, Neighbor::DownRight);
            self.push_edge_if_fits(&mut out, p, Neighbor::DownLeft);
            p = p + 1;
            assert(out@ =~= grid_edges(
                self.spec_width() as int,
                self.spec_height() as int,
                self.spec_pixels(),
                p as int,
            ));
        }
        out
    }
}

} // verus!
