//! The grid of edges that each stage of the detector produces, with cell
//! lookup and bilinear interpolation between cells.
use crate::edge::Edge;
use crate::fixed::{clamp, div_round, lemma_div_round_bounds, spec_clamp, spec_div_round, ONE};
use vstd::prelude::*;

verus! {

/// A grid of edges, held as columns: `edges[x][y]` is the edge in column `x`
/// and row `y`.
#[derive(Clone, Debug)]
pub struct Detection {
    pub edges: Vec<Vec<Edge>>,
}

/// The grid has at least one column and one row, and all its columns have
/// the same length.
pub open spec fn grid_wf(g: Seq<Seq<Edge>>) -> bool {
    &&& g.len() > 0
    &&& g[0].len() > 0
    &&& forall|x: int| 0 <= x < g.len() ==> (#[trigger] g[x]).len() == g[0].len()
}

/// The number of columns of a grid.
pub open spec fn grid_width(g: Seq<Seq<Edge>>) -> int {
    g.len() as int
}

/// The number of rows of a grid.
pub open spec fn grid_height(g: Seq<Seq<Edge>>) -> int {
    g[0].len() as int
}

/// `(x, y)` names a cell of the grid.
pub open spec fn in_grid(g: Seq<Seq<Edge>>, x: int, y: int) -> bool {
    0 <= x < grid_width(g) && 0 <= y < grid_height(g)
}

/// The grid with the edge `e` put into the cell `(x, y)`.
pub open spec fn grid_set(g: Seq<Seq<Edge>>, x: int, y: int, e: Edge) -> Seq<Seq<Edge>> {
    g.update(x, g[x].update(y, e))
}

/// The grid `out` has as many columns and rows as the grid `g`.
pub open spec fn same_shape(g: Seq<Seq<Edge>>, out: Seq<Seq<Edge>>) -> bool {
    &&& out.len() == g.len()
    &&& forall|x: int| 0 <= x < out.len() ==> (#[trigger] out[x]).len() == g[0].len()
}

/// The grid of the given size that holds the zero edge in every cell.
pub open spec fn zero_grid(width: int, height: int) -> Seq<Seq<Edge>> {
    Seq::new(width as nat, |x: int| Seq::new(height as nat, |y: int| Edge::spec_zero()))
}

/// The number of edges with a magnitude above 0 among the first `n` cells of
/// a column.
pub open spec fn count_in_column(column: Seq<Edge>, n: int) -> int
    decreases n,
{
    if n <= 0 {
        0
    } else if column[n - 1].magnitude > 0 {
        count_in_column(column, n - 1) + 1
    } else {
        count_in_column(column, n - 1)
    }
}

/// The number of edges with a magnitude above 0 in the first `n` columns of a
/// grid.
pub open spec fn count_in_columns(g: Seq<Seq<Edge>>, n: int) -> int
    decreases n,
{
    if n <= 0 {
        0
    } else {
        count_in_columns(g, n - 1) + count_in_column(g[n - 1], g[n - 1].len() as int)
    }
}

/// The number of edges with a magnitude above 0 in a grid.
pub open spec fn count_edges(g: Seq<Seq<Edge>>) -> int {
    count_in_columns(g, g.len() as int)
}

/// A column that has an edge wherever another column has one has at least as
/// many edges.
pub proof fn lemma_count_in_column_ordered(fewer: Seq<Edge>, more: Seq<Edge>, n: int)
    requires
        n <= fewer.len(),
        n <= more.len(),
        forall|y: int| 0 <= y < n && (#[trigger] fewer[y]).magnitude > 0 ==> more[y].magnitude > 0,
    ensures
        count_in_column(fewer, n) <= count_in_column(more, n),
    decreases n,
{
    if n > 0 {
        lemma_count_in_column_ordered(fewer, more, n - 1);
        assert(fewer[n - 1].magnitude > 0 ==> more[n - 1].magnitude > 0);
    }
}

/// A grid that has an edge wherever another grid of the same shape has one
/// has at least as many edges.
pub proof fn lemma_count_edges_ordered(fewer: Seq<Seq<Edge>>, more: Seq<Seq<Edge>>, n: int)
    requires
        n <= fewer.len(),
        n <= more.len(),
        forall|x: int| 0 <= x < n ==> (#[trigger] fewer[x]).len() == more[x].len(),
        forall|x: int, y: int|
            0 <= x < n && 0 <= y < fewer[x].len() && (#[trigger] fewer[x][y]).magnitude > 0
                ==> more[x][y].magnitude > 0,
    ensures
        count_in_columns(fewer, n) <= count_in_columns(more, n),
    decreases n,
{
    if n > 0 {
        lemma_count_edges_ordered(fewer, more, n - 1);
        let a = fewer[n - 1];
        let b = more[n - 1];
        assert(a.len() == b.len());
        assert forall|y: int| 0 <= y < a.len() && (#[trigger] a[y]).magnitude > 0 implies b[y].magnitude
            > 0 by {
            assert(fewer[n - 1][y].magnitude > 0);
        }
        lemma_count_in_column_ordered(a, b, a.len() as int);
    }
}

/// The weighted mean of four corner values at the fractions `nx` and `ny`
/// of a cell, first along x and then along y, rounded to the nearest integer.
pub open spec fn spec_blend(v1: int, v2: int, v3: int, v4: int, nx: int, ny: int) -> int {
    let one = ONE as int;
    let top = v1 * (one - nx) + v2 * nx;
    let bottom = v3 * (one - nx) + v4 * nx;
    spec_div_round(top * (one - ny) + bottom * ny, one * one)
}

/// The column or row next above the coordinate `c`, given in units of
/// `1 / ONE`: `c` itself where it names a column or row exactly.
pub open spec fn spec_ceil_cell(c: int) -> int {
    if c % (ONE as int) == 0 {
        c / (ONE as int)
    } else {
        c / (ONE as int) + 1
    }
}

/// The edge at the point `(x, y)`, given in units of `1 / ONE` of a cell,
/// blended from the four cells around the point. Cells beyond the border
/// count as the nearest cell of the grid.
pub open spec fn spec_interpolate(g: Seq<Seq<Edge>>, x: int, y: int) -> Edge {
    let one = ONE as int;
    let ax = spec_clamp(x / one, 0, grid_width(g) - 1);
    let ay = spec_clamp(y / one, 0, grid_height(g) - 1);
    let bx = spec_clamp(spec_ceil_cell(x), 0, grid_width(g) - 1);
    let by = spec_clamp(spec_ceil_cell(y), 0, grid_height(g) - 1);
    let e1 = g[ax][ay];
    let e2 = g[bx][ay];
    let e3 = g[ax][by];
    let e4 = g[bx][by];
    let nx = x % one;
    let ny = y % one;
    Edge {
        vec_x: spec_blend(
            e1.vec_x as int,
            e2.vec_x as int,
            e3.vec_x as int,
            e4.vec_x as int,
            nx,
            ny,
        ) as i32,
        vec_y: spec_blend(
            e1.vec_y as int,
            e2.vec_y as int,
            e3.vec_y as int,
            e4.vec_y as int,
            nx,
            ny,
        ) as i32,
        magnitude: spec_blend(
            e1.magnitude as int,
            e2.magnitude as int,
            e3.magnitude as int,
            e4.magnitude as int,
            nx,
            ny,
        ) as u32,
    }
}

/// A mean of two values with weights `s - t` and `t` lies between the bounds
/// of the values, scaled by `s`.
proof fn lemma_mix_bounds(v1: int, v2: int, t: int, s: int, lo: int, hi: int)
    requires
        lo <= v1 <= hi,
        lo <= v2 <= hi,
        0 <= t <= s,
    ensures
        lo * s <= v1 * (s - t) + v2 * t <= hi * s,
{
    assert(lo * (s - t) <= v1 * (s - t) <= hi * (s - t)) by (nonlinear_arith)
        requires
            lo <= v1 <= hi,
            0 <= s - t,
    ;
    assert(lo * t <= v2 * t <= hi * t) by (nonlinear_arith)
        requires
            lo <= v2 <= hi,
            0 <= t,
    ;
    assert(lo * (s - t) + lo * t == lo * s && hi * (s - t) + hi * t == hi * s)
        by (nonlinear_arith);
}

/// A blend of four values lies between any bounds that hold of all four.
pub proof fn lemma_blend_bounds(
    v1: int,
    v2: int,
    v3: int,
    v4: int,
    nx: int,
    ny: int,
    lo: int,
    hi: int,
)
    requires
        lo <= v1 <= hi,
        lo <= v2 <= hi,
        lo <= v3 <= hi,
        lo <= v4 <= hi,
        0 <= nx < ONE,
        0 <= ny < ONE,
    ensures
        lo <= spec_blend(v1, v2, v3, v4, nx, ny) <= hi,
        lo * (ONE as int * ONE as int) <= (v1 * (ONE - nx) + v2 * nx) * (ONE - ny) + (v3 * (ONE
            - nx) + v4 * nx) * ny <= hi * (ONE as int * ONE as int),
{
    let one = ONE as int;
    let top = v1 * (one - nx) + v2 * nx;
    let bottom = v3 * (one - nx) + v4 * nx;
    lemma_mix_bounds(v1, v2, nx, one, lo, hi);
    lemma_mix_bounds(v3, v4, nx, one, lo, hi);
    lemma_mix_bounds(top, bottom, ny, one, lo * one, hi * one);
    assert(lo * one * one == lo * (one * one) && hi * one * one == hi * (one * one))
        by (nonlinear_arith);
    lemma_div_round_bounds(top * (one - ny) + bottom * ny, one * one, lo, hi);
}

/// A blend of four equal values is that value.
pub proof fn lemma_blend_equal(v: int, nx: int, ny: int)
    requires
        0 <= nx < ONE,
        0 <= ny < ONE,
    ensures
        spec_blend(v, v, v, v, nx, ny) == v,
{
    lemma_blend_bounds(v, v, v, v, nx, ny, v, v);
}

/// At the exact position of a cell the interpolated edge is the edge that the
/// grid holds there: nothing is blended in from the neighbours.
pub proof fn lemma_interpolate_at_cell(g: Seq<Seq<Edge>>, x: int, y: int)
    requires
        grid_wf(g),
        in_grid(g, x, y),
    ensures
        spec_interpolate(g, x * ONE, y * ONE) == g[x][y],
{
    let one = ONE as int;
    vstd::arithmetic::div_mod::lemma_fundamental_div_mod_converse(x * one, one, x, 0);
    vstd::arithmetic::div_mod::lemma_fundamental_div_mod_converse(y * one, one, y, 0);
    let e = g[x][y];
    lemma_blend_equal(e.vec_x as int, 0, 0);
    lemma_blend_equal(e.vec_y as int, 0, 0);
    lemma_blend_equal(e.magnitude as int, 0, 0);
}

/// Splits `v` into the cell below it and the fraction above that cell.
fn floor_div_mod(v: i128) -> (r: (i128, i128))
    requires
        -0x4000_0000_0000_0000_0000_0000_0000_0000 <= v <= 0x4000_0000_0000_0000_0000_0000_0000_0000,
    ensures
        r.0 == (v as int) / (ONE as int),
        r.1 == (v as int) % (ONE as int),
        0 <= r.1 < ONE,
{
    let one: i128 = ONE as i128;
    if v >= 0 {
        (v / one, v % one)
    } else {
        let a: i128 = -v;
        let q: i128 = a / one;
        let m: i128 = a % one;
        proof {
            vstd::arithmetic::div_mod::lemma_fundamental_div_mod(a as int, one as int);
        }
        if m == 0 {
            proof {
                assert(v == (-q) * one + 0) by (nonlinear_arith)
                    requires
                        -v == one * q + 0,
                ;
                vstd::arithmetic::div_mod::lemma_fundamental_div_mod_converse(
                    v as int,
                    one as int,
                    -q as int,
                    0,
                );
            }
            (-q, 0)
        } else {
            proof {
                assert(v == (-q - 1) * one + (one - m)) by (nonlinear_arith)
                    requires
                        -v == one * q + m,
                ;
                vstd::arithmetic::div_mod::lemma_fundamental_div_mod_converse(
                    v as int,
                    one as int,
                    (-q - 1) as int,
                    (one - m) as int,
                );
            }
            (-q - 1, one - m)
        }
    }
}

/// Blends four corner values at the fractions `nx` and `ny`.
fn blend(v1: i128, v2: i128, v3: i128, v4: i128, nx: i128, ny: i128) -> (r: i128)
    requires
        -0x8000_0000 <= v1 <= 0xffff_ffff,
        -0x8000_0000 <= v2 <= 0xffff_ffff,
        -0x8000_0000 <= v3 <= 0xffff_ffff,
        -0x8000_0000 <= v4 <= 0xffff_ffff,
        0 <= nx < ONE,
        0 <= ny < ONE,
    ensures
        r == spec_blend(v1 as int, v2 as int, v3 as int, v4 as int, nx as int, ny as int),
{
    let one: i128 = ONE as i128;
    proof {
        lemma_mix_bounds(v1 as int, v2 as int, nx as int, one as int, -0x8000_0000, 0xffff_ffff);
        lemma_mix_bounds(v3 as int, v4 as int, nx as int, one as int, -0x8000_0000, 0xffff_ffff);
        lemma_blend_bounds(
            v1 as int,
            v2 as int,
            v3 as int,
            v4 as int,
            nx as int,
            ny as int,
            -0x8000_0000,
            0xffff_ffff,
        );
        assert(-0x8000_0000 * (one - nx) <= v1 * (one - nx) <= 0xffff_ffff * (one - nx))
            by (nonlinear_arith)
            requires
                -0x8000_0000 <= v1 <= 0xffff_ffff,
                0 <= one - nx,
        ;
        assert(-0x8000_0000 * nx <= v2 * nx <= 0xffff_ffff * nx) by (nonlinear_arith)
            requires
                -0x8000_0000 <= v2 <= 0xffff_ffff,
                0 <= nx,
        ;
        assert(-0x8000_0000 * (one - nx) <= v3 * (one - nx) <= 0xffff_ffff * (one - nx))
            by (nonlinear_arith)
            requires
                -0x8000_0000 <= v3 <= 0xffff_ffff,
                0 <= one - nx,
        ;
        assert(-0x8000_0000 * nx <= v4 * nx <= 0xffff_ffff * nx) by (nonlinear_arith)
            requires
                -0x8000_0000 <= v4 <= 0xffff_ffff,
                0 <= nx,
        ;
    }
    let top: i128 = v1 * (one - nx) + v2 * nx;
    let bottom: i128 = v3 * (one - nx) + v4 * nx;
    proof {
        assert(-0x8000_0000 * 100_000 * (one - ny) <= top * (one - ny) <= 0xffff_ffff * 100_000 * (
        one - ny)) by (nonlinear_arith)
            requires
                -0x8000_0000 * 100_000 <= top <= 0xffff_ffff * 100_000,
                0 <= one - ny,
        ;
        assert(-0x8000_0000 * 100_000 * ny <= bottom * ny <= 0xffff_ffff * 100_000 * ny)
            by (nonlinear_arith)
            requires
                -0x8000_0000 * 100_000 <= bottom <= 0xffff_ffff * 100_000,
                0 <= ny,
        ;
    }
    div_round(top * (one - ny) + bottom * ny, one * one)
}

impl View for Detection {
    type V = Seq<Seq<Edge>>;

    /// The grid as a sequence of columns.
    open spec fn view(&self) -> Seq<Seq<Edge>> {
        Seq::new(self.edges@.len(), |x: int| self.edges@[x]@)
    }
}

impl Detection {
    /// The detection holds a grid of at least one cell.
    pub open spec fn wf(&self) -> bool {
        grid_wf(self@)
    }

    /// The number of columns.
    pub open spec fn spec_width(&self) -> int {
        grid_width(self@)
    }

    /// The number of rows.
    pub open spec fn spec_height(&self) -> int {
        grid_height(self@)
    }

    /// Takes over the columns of a grid. The result is `None` if there is no
    /// column, if the columns are empty, or if they differ in length.
    pub fn from_columns(edges: Vec<Vec<Edge>>) -> (r: Option<Detection>)
        ensures
            r.is_some() <==> grid_wf(Seq::new(edges@.len(), |x: int| edges@[x]@)),
            r.is_some() ==> r.unwrap().edges == edges,
    {
        let ghost g = Seq::new(edges@.len(), |x: int| edges@[x]@);
        if edges.len() == 0 {
            return None;
        }
        let height = edges[0].len();
        if height == 0 {
            return None;
        }
        let mut x: usize = 1;
        while x < edges.len()
            invariant
                1 <= x <= edges.len(),
                height == edges@[0]@.len(),
                g == Seq::new(edges@.len(), |x: int| edges@[x]@),
                forall|i: int| 0 <= i < x ==> (#[trigger] g[i]).len() == height,
            decreases edges.len() - x,
        {
            if edges[x].len() != height {
                assert(g[x as int].len() != g[0].len());
                return None;
            }
            x += 1;
        }
        Some(Detection { edges })
    }

    /// Builds the detection of the given size that holds the zero edge in
    /// every cell.
    pub fn zeroed(width: usize, height: usize) -> (r: Detection)
        requires
            width > 0,
            height > 0,
        ensures
            r.wf(),
            r@ == zero_grid(width as int, height as int),
    {
        let mut edges: Vec<Vec<Edge>> = Vec::new();
        let mut x: usize = 0;
        while x < width
            invariant
                x <= width,
                edges@.len() == x,
                forall|i: int|
                    0 <= i < x ==> (#[trigger] edges@[i])@ == Seq::new(
                        height as nat,
                        |y: int| Edge::spec_zero(),
                    ),
            decreases width - x,
        {
            let mut column: Vec<Edge> = Vec::new();
            let mut y: usize = 0;
            while y < height
                invariant
                    y <= height,
                    column@.len() == y,
                    forall|j: int| 0 <= j < y ==> column@[j] == Edge::spec_zero(),
                decreases height - y,
            {
                column.push(Edge::zero());
                y += 1;
            }
            assert(column@ =~= Seq::new(height as nat, |y: int| Edge::spec_zero()));
            edges.push(column);
            x += 1;
        }
        let r = Detection { edges };
        assert(r@ =~= zero_grid(width as int, height as int));
        r
    }

    /// Puts the edge `e` into the cell `(x, y)`.
    pub fn set(&mut self, x: usize, y: usize, e: Edge)
        requires
            old(self).wf(),
            in_grid(old(self)@, x as int, y as int),
        ensures
            final(self).wf(),
            final(self)@ == grid_set(old(self)@, x as int, y as int, e),
            same_shape(old(self)@, final(self)@),
    {
        assert(self@[x as int].len() == self@[0].len());
        self.edges[x][y] = e;
        assert(final(self)@ =~= grid_set(old(self)@, x as int, y as int, e));
    }

    /// The number of columns.
    pub fn width(&self) -> (w: usize)
        ensures
            w == self.spec_width(),
    {
        self.edges.len()
    }

    /// The number of rows.
    pub fn height(&self) -> (h: usize)
        requires
            self.wf(),
        ensures
            h == self.spec_height(),
    {
        self.edges[0].len()
    }

    /// The edge in column `x` and row `y`.
    pub fn at(&self, x: usize, y: usize) -> (e: Edge)
        requires
            self.wf(),
            in_grid(self@, x as int, y as int),
        ensures
            e == self@[x as int][y as int],
    {
        assert(self@[x as int].len() == self@[0].len());
        self.edges[x][y]
    }

    /// The edge at the flattened position `index`, which counts the cells row
    /// by row: the cell in column `x` and row `y` has the index
    /// `x + y * width`.
    pub fn at_index(&self, index: usize) -> (e: Edge)
        requires
            self.wf(),
            index < self.spec_width() * self.spec_height(),
        ensures
            e == self@[index as int % self.spec_width()][index as int / self.spec_width()],
    {
        let w = self.width();
        let x = index % w;
        let y = index / w;
        proof {
            let h = self.spec_height();
            vstd::arithmetic::div_mod::lemma_fundamental_div_mod(index as int, w as int);
            assert(y < h) by (nonlinear_arith)
                requires
                    index == w * y + x,
                    0 <= x,
                    index < w * h,
                    w > 0,
            ;
        }
        self.at(x, y)
    }

    /// The edge at the point `(x, y)`, given in units of `1 / ONE` of a cell.
    pub(crate) fn sample(&self, x: i128, y: i128) -> (e: Edge)
        requires
            self.wf(),
            -0x4000_0000_0000_0000_0000_0000_0000_0000 <= x
                <= 0x4000_0000_0000_0000_0000_0000_0000_0000,
            -0x4000_0000_0000_0000_0000_0000_0000_0000 <= y
                <= 0x4000_0000_0000_0000_0000_0000_0000_0000,
        ensures
            e == spec_interpolate(self@, x as int, y as int),
    {
        let w: i128 = self.width() as i128;
        let h: i128 = self.height() as i128;
        let (fx, nx) = floor_div_mod(x);
        let (fy, ny) = floor_div_mod(y);
        let cx: i128 = if nx == 0 {
            fx
        } else {
            fx + 1
        };
        let cy: i128 = if ny == 0 {
            fy
        } else {
            fy + 1
        };
        let ax: usize = clamp(fx, 0, w - 1) as usize;
        let ay: usize = clamp(fy, 0, h - 1) as usize;
        let bx: usize = clamp(cx, 0, w - 1) as usize;
        let by: usize = clamp(cy, 0, h - 1) as usize;
        let e1 = self.at(ax, ay);
        let e2 = self.at(bx, ay);
        let e3 = self.at(ax, by);
        let e4 = self.at(bx, by);
        proof {
            lemma_blend_bounds(
                e1.vec_x as int,
                e2.vec_x as int,
                e3.vec_x as int,
                e4.vec_x as int,
                nx as int,
                ny as int,
                i32::MIN as int,
                i32::MAX as int,
            );
            lemma_blend_bounds(
                e1.vec_y as int,
                e2.vec_y as int,
                e3.vec_y as int,
                e4.vec_y as int,
                nx as int,
                ny as int,
                i32::MIN as int,
                i32::MAX as int,
            );
            lemma_blend_bounds(
                e1.magnitude as int,
                e2.magnitude as int,
                e3.magnitude as int,
                e4.magnitude as int,
                nx as int,
                ny as int,
                0,
                u32::MAX as int,
            );
        }
        Edge {
            vec_x: blend(
                e1.vec_x as i128,
                e2.vec_x as i128,
                e3.vec_x as i128,
                e4.vec_x as i128,
                nx,
                ny,
            ) as i32,
            vec_y: blend(
                e1.vec_y as i128,
                e2.vec_y as i128,
                e3.vec_y as i128,
                e4.vec_y as i128,
                nx,
                ny,
            ) as i32,
            magnitude: blend(
                e1.magnitude as i128,
                e2.magnitude as i128,
                e3.magnitude as i128,
                e4.magnitude as i128,
                nx,
                ny,
            ) as u32,
        }
    }

    /// Linearly interpolates the edge at the point `(x, y)`, given in units of
    /// `1 / ONE` of a cell, as if the detection were continuous. The direction
    /// of the result is a blend of directions and in general not of length
    /// `ONE`.
    pub fn interpolate(&self, x: i64, y: i64) -> (e: Edge)
        requires
            self.wf(),
        ensures
            e == spec_interpolate(self@, x as int, y as int),
            forall|cx: int, cy: int|
                in_grid(self@, cx, cy) && x == cx * ONE && y == cy * ONE ==> e == self@[cx][cy],
    {
        proof {
            assert forall|cx: int, cy: int|
                in_grid(self@, cx, cy) && x == cx * ONE && y == cy * ONE implies spec_interpolate(
                self@,
                x as int,
                y as int,
            ) == self@[cx][cy] by {
                lemma_interpolate_at_cell(self@, cx, cy);
            }
        }
        self.sample(x as i128, y as i128)
    }
}

} // verus!
