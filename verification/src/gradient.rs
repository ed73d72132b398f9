//! The gradient field: the intensity grid convolved with a derivative kernel.
use crate::detection::Detection;
use crate::edge::Edge;
use crate::fixed::{clamp, div_round, spec_clamp, spec_div_round, ONE};
use vstd::prelude::*;

verus! {

/// The scale of kernel taps: the integer that stands for the weight 1.
pub const TAP_ONE: u32 = 1_000_000;

/// A grid of 8-bit intensities, held row by row: the sample in column `x` and
/// row `y` is `data[y * width + x]`.
#[derive(Clone, Debug)]
pub struct PixelGrid {
    pub width: usize,
    pub height: usize,
    pub data: Vec<u8>,
}

/// A square convolution kernel of `size` rows and columns, held row by row.
/// Each tap is a pair of weights, for the derivative along x and along y, in
/// units of `1 / TAP_ONE`.
#[derive(Clone, Debug)]
pub struct Kernel {
    pub size: usize,
    pub taps: Vec<(i32, i32)>,
}

impl PixelGrid {
    /// The grid has at least one sample, and `data` holds all of them.
    pub open spec fn wf(&self) -> bool {
        &&& self.width > 0
        &&& self.height > 0
        &&& self.data@.len() == self.width * self.height
    }

    /// The sample in column `x` and row `y`.
    pub open spec fn spec_pixel(&self, x: int, y: int) -> u8 {
        self.data@[y * self.width + x]
    }

    /// The sample in column `x` and row `y`, where a column or row beyond the
    /// border counts as the nearest one of the grid.
    pub open spec fn spec_pixel_clamped(&self, x: int, y: int) -> u8 {
        self.spec_pixel(spec_clamp(x, 0, self.width - 1), spec_clamp(y, 0, self.height - 1))
    }

    /// Every sample of the grid is `c`.
    pub open spec fn is_uniform(&self, c: u8) -> bool {
        forall|i: int| 0 <= i < self.data@.len() ==> self.data@[i] == c
    }

    /// Takes over the samples of a grid. The result is `None` if the grid has
    /// no column or no row, or if `data` does not hold `width * height`
    /// samples.
    pub fn new(width: usize, height: usize, data: Vec<u8>) -> (r: Option<PixelGrid>)
        ensures
            r.is_some() <==> width > 0 && height > 0 && data@.len() == width * height,
            r.is_some() ==> r.unwrap().wf() && r.unwrap().width == width && r.unwrap().height
                == height && r.unwrap().data == data,
    {
        if width == 0 || height == 0 {
            return None;
        }
        let count = data.len();
        match width.checked_mul(height) {
            Some(n) => {
                if count == n {
                    Some(PixelGrid { width, height, data })
                } else {
                    None
                }
            },
            None => None,
        }
    }

    /// Whether the grid has at least one sample and `data` holds all of them.
    pub fn is_valid(&self) -> (ok: bool)
        ensures
            ok == self.wf(),
    {
        if self.width == 0 || self.height == 0 {
            return false;
        }
        let count = self.data.len();
        match self.width.checked_mul(self.height) {
            Some(n) => count == n,
            None => false,
        }
    }

    /// The sample in column `x` and row `y`.
    pub fn pixel(&self, x: usize, y: usize) -> (p: u8)
        requires
            self.wf(),
            x < self.width,
            y < self.height,
        ensures
            p == self.spec_pixel(x as int, y as int),
    {
        let count = self.data.len();
        proof {
            lemma_cell_index(x as int, y as int, self.width as int, self.height as int);
        }
        self.data[y * self.width + x]
    }
}

/// The flattened index of a cell lies within the grid.
pub proof fn lemma_cell_index(x: int, y: int, width: int, height: int)
    requires
        0 <= x < width,
        0 <= y < height,
    ensures
        0 <= y * width <= y * width + x < width * height,
{
    assert(0 <= y * width && y * width + width <= width * height) by (nonlinear_arith)
        requires
            0 <= y,
            y + 1 <= height,
            0 < width,
    ;
}

/// The sum of the first `n` taps of a row of a kernel.
pub open spec fn tap_row_sum(row: Seq<(i32, i32)>, n: int) -> (int, int)
    decreases n,
{
    if n <= 0 {
        (0, 0)
    } else {
        let rest = tap_row_sum(row, n - 1);
        (rest.0 + row[n - 1].0, rest.1 + row[n - 1].1)
    }
}

/// The sum of the taps of the first `n` rows of a kernel.
pub open spec fn tap_sum(k: Seq<Seq<(i32, i32)>>, n: int) -> (int, int)
    decreases n,
{
    if n <= 0 {
        (0, 0)
    } else {
        let rest = tap_sum(k, n - 1);
        let row = tap_row_sum(k[n - 1], k.len() as int);
        (rest.0 + row.0, rest.1 + row.1)
    }
}

impl View for Kernel {
    type V = Seq<Seq<(i32, i32)>>;

    /// The kernel as a sequence of rows: `self@[ky][kx]` is the tap in column
    /// `kx` and row `ky`.
    open spec fn view(&self) -> Seq<Seq<(i32, i32)>> {
        Seq::new(
            self.size as nat,
            |ky: int| Seq::new(self.size as nat, |kx: int| self.taps@[ky * self.size + kx]),
        )
    }
}

impl Kernel {
    /// `taps` holds `size * size` taps.
    pub open spec fn wf(&self) -> bool {
        self.taps@.len() == self.size * self.size
    }

    /// Takes over the taps of a kernel. The result is `None` if `taps` does
    /// not hold `size * size` taps.
    pub fn new(size: usize, taps: Vec<(i32, i32)>) -> (r: Option<Kernel>)
        ensures
            r.is_some() <==> taps@.len() == size * size,
            r.is_some() ==> r.unwrap().wf() && r.unwrap().size == size && r.unwrap().taps == taps,
    {
        let count = taps.len();
        match size.checked_mul(size) {
            Some(n) => {
                if count == n {
                    Some(Kernel { size, taps })
                } else {
                    None
                }
            },
            None => None,
        }
    }
}

/// What the tap in column `kx` and row `ky` of the kernel adds to the
/// gradient at `(ix, iy)`: the sample under the tap, times each weight. The
/// kernel is centred on the cell, and samples beyond the border count as the
/// nearest sample of the grid.
pub open spec fn tap_term(
    grid: &PixelGrid,
    k: Seq<Seq<(i32, i32)>>,
    ix: int,
    iy: int,
    kx: int,
    ky: int,
) -> (int, int) {
    let half = k.len() as int / 2;
    let pix = grid.spec_pixel_clamped(ix + kx - half, iy + ky - half);
    let t = k[ky][kx];
    (pix * t.0, pix * t.1)
}

/// The sum of the terms of the first `n` taps of row `ky`.
pub open spec fn row_sum(
    grid: &PixelGrid,
    k: Seq<Seq<(i32, i32)>>,
    ix: int,
    iy: int,
    ky: int,
    n: int,
) -> (int, int)
    decreases n,
{
    if n <= 0 {
        (0, 0)
    } else {
        let rest = row_sum(grid, k, ix, iy, ky, n - 1);
        let t = tap_term(grid, k, ix, iy, n - 1, ky);
        (rest.0 + t.0, rest.1 + t.1)
    }
}

/// The sum of the terms of the taps of the first `n` rows.
pub open spec fn conv_sum(grid: &PixelGrid, k: Seq<Seq<(i32, i32)>>, ix: int, iy: int, n: int) -> (
    int,
    int,
)
    decreases n,
{
    if n <= 0 {
        (0, 0)
    } else {
        let rest = conv_sum(grid, k, ix, iy, n - 1);
        let row = row_sum(grid, k, ix, iy, n - 1, k.len() as int);
        (rest.0 + row.0, rest.1 + row.1)
    }
}

/// A sum of the convolution as a gradient component in units of `1 / ONE`:
/// divided by the highest intensity and by the scale of the taps, and limited
/// to the interval from `-ONE` to `ONE`.
pub open spec fn spec_component(sum: int) -> int {
    spec_clamp(spec_div_round(sum * ONE, 255 * TAP_ONE), -(ONE as int), ONE as int)
}

/// The edge of the gradient field at the cell `(ix, iy)`.
pub open spec fn spec_gradient(grid: &PixelGrid, k: Seq<Seq<(i32, i32)>>, ix: int, iy: int) -> Edge {
    let s = conv_sum(grid, k, ix, iy, k.len() as int);
    Edge::spec_new(spec_component(s.0), spec_component(s.1))
}

/// The gradient field of a grid.
pub open spec fn spec_gradient_field(grid: &PixelGrid, k: Seq<Seq<(i32, i32)>>) -> Seq<Seq<Edge>> {
    Seq::new(
        grid.width as nat,
        |x: int| Seq::new(grid.height as nat, |y: int| spec_gradient(grid, k, x, y)),
    )
}

/// The edge that the gradient field holds in every cell of a grid whose
/// samples all are `c`.
pub open spec fn spec_uniform_response(k: Seq<Seq<(i32, i32)>>, c: u8) -> Edge {
    let s = tap_sum(k, k.len() as int);
    Edge::spec_new(spec_component(c * s.0), spec_component(c * s.1))
}

/// On a grid whose samples all are `c`, a row of the convolution sums to `c`
/// times the sum of the taps of the row.
proof fn lemma_uniform_row(
    grid: &PixelGrid,
    k: Seq<Seq<(i32, i32)>>,
    c: u8,
    ix: int,
    iy: int,
    ky: int,
    n: int,
)
    requires
        grid.wf(),
        grid.is_uniform(c),
    ensures
        row_sum(grid, k, ix, iy, ky, n).0 == c * tap_row_sum(k[ky], n).0,
        row_sum(grid, k, ix, iy, ky, n).1 == c * tap_row_sum(k[ky], n).1,
    decreases n,
{
    if n > 0 {
        lemma_uniform_row(grid, k, c, ix, iy, ky, n - 1);
        let half = k.len() as int / 2;
        let px = spec_clamp(ix + (n - 1) - half, 0, grid.width - 1);
        let py = spec_clamp(iy + ky - half, 0, grid.height - 1);
        lemma_cell_index(px, py, grid.width as int, grid.height as int);
        assert(grid.spec_pixel_clamped(ix + (n - 1) - half, iy + ky - half) == c);
        let t = k[ky][n - 1];
        let rest = tap_row_sum(k[ky], n - 1);
        assert(c * (rest.0 + t.0) == c * rest.0 + c * t.0) by (nonlinear_arith);
        assert(c * (rest.1 + t.1) == c * rest.1 + c * t.1) by (nonlinear_arith);
    }
}

/// On a grid whose samples all are `c`, the convolution sums to `c` times the
/// sum of the taps.
proof fn lemma_uniform_sum(
    grid: &PixelGrid,
    k: Seq<Seq<(i32, i32)>>,
    c: u8,
    ix: int,
    iy: int,
    n: int,
)
    requires
        grid.wf(),
        grid.is_uniform(c),
    ensures
        conv_sum(grid, k, ix, iy, n).0 == c * tap_sum(k, n).0,
        conv_sum(grid, k, ix, iy, n).1 == c * tap_sum(k, n).1,
    decreases n,
{
    if n > 0 {
        lemma_uniform_sum(grid, k, c, ix, iy, n - 1);
        lemma_uniform_row(grid, k, c, ix, iy, n - 1, k.len() as int);
        let row = tap_row_sum(k[n - 1], k.len() as int);
        let rest = tap_sum(k, n - 1);
        assert(c * (rest.0 + row.0) == c * rest.0 + c * row.0) by (nonlinear_arith);
        assert(c * (rest.1 + row.1) == c * rest.1 + c * row.1) by (nonlinear_arith);
    }
}

/// Where there is no change in intensity, the gradient is the same in every
/// cell: on a grid whose samples all are `c`, the gradient field holds the
/// uniform response of the kernel everywhere.
pub proof fn lemma_uniform_gradient(
    grid: &PixelGrid,
    k: Seq<Seq<(i32, i32)>>,
    c: u8,
    ix: int,
    iy: int,
)
    requires
        grid.wf(),
        grid.is_uniform(c),
    ensures
        spec_gradient(grid, k, ix, iy) == spec_uniform_response(k, c),
{
    lemma_uniform_sum(grid, k, c, ix, iy, k.len() as int);
}

/// A kernel whose taps sum to zero in both components gives the zero edge on
/// every grid without a change in intensity.
pub proof fn lemma_balanced_kernel_response(k: Seq<Seq<(i32, i32)>>, c: u8)
    requires
        tap_sum(k, k.len() as int) == (0int, 0int),
    ensures
        spec_uniform_response(k, c) == Edge::spec_zero(),
{
    assert(c * 0 == 0);
    crate::fixed::lemma_div_round_bounds(0, 255 * TAP_ONE, 0, 0);
    assert(spec_div_round(0 * ONE, 255 * TAP_ONE) == 0);
    assert(spec_component(0) == 0);
    assert(crate::fixed::is_floor_sqrt(0, 0));
    crate::fixed::lemma_floor_sqrt_is(0, 0);
    assert((0int * 0int + 0int * 0int) / 2 == 0);
}

/// The largest size that a term of the convolution can have: the highest
/// intensity times the largest weight.
pub open spec fn term_bound() -> int {
    547608330240
}

/// Adds up the terms of one row of the kernel at the cell `(ix, iy)`.
fn convolve_row(grid: &PixelGrid, kernel: &Kernel, ix: usize, iy: usize, ky: usize) -> (s: (
    i128,
    i128,
))
    requires
        grid.wf(),
        kernel.wf(),
        ix < grid.width,
        iy < grid.height,
        ky < kernel.size,
    ensures
        (s.0 as int, s.1 as int) == row_sum(
            grid,
            kernel@,
            ix as int,
            iy as int,
            ky as int,
            kernel.size as int,
        ),
        -kernel.size * term_bound() <= s.0 <= kernel.size * term_bound(),
        -kernel.size * term_bound() <= s.1 <= kernel.size * term_bound(),
{
    let size = kernel.size;
    let count = kernel.taps.len();
    let half: i128 = (size / 2) as i128;
    let py: usize = clamp(iy as i128 + ky as i128 - half, 0, grid.height as i128 - 1) as usize;
    proof {
        lemma_cell_index(0, ky as int, size as int, size as int);
    }
    let base: usize = ky * size;
    let mut sum_x: i128 = 0;
    let mut sum_y: i128 = 0;
    let mut kx: usize = 0;
    while kx < size
        invariant
            grid.wf(),
            kernel.wf(),
            size == kernel.size,
            count == size * size,
            half == size as int / 2,
            ix < grid.width,
            iy < grid.height,
            ky < size,
            py < grid.height,
            py == spec_clamp(iy + ky - half, 0, grid.height - 1),
            base == ky * size,
            kx <= size,
            (sum_x as int, sum_y as int) == row_sum(
                grid,
                kernel@,
                ix as int,
                iy as int,
                ky as int,
                kx as int,
            ),
            -kx * 547608330240 <= sum_x <= kx * 547608330240,
            -kx * 547608330240 <= sum_y <= kx * 547608330240,
        decreases size - kx,
    {
        proof {
            lemma_cell_index(kx as int, ky as int, size as int, size as int);
        }
        let px: usize = clamp(ix as i128 + kx as i128 - half, 0, grid.width as i128 - 1) as usize;
        let pix: i128 = grid.pixel(px, py) as i128;
        let tap = kernel.taps[base + kx];
        let tx: i128 = tap.0 as i128;
        let ty: i128 = tap.1 as i128;
        assert(-547608330240 <= pix * tx <= 547608330240 && -547608330240 <= pix * ty <= 547608330240)
            by (nonlinear_arith)
            requires
                0 <= pix <= 255,
                -0x8000_0000 <= tx <= 0x8000_0000,
                -0x8000_0000 <= ty <= 0x8000_0000,
        ;
        sum_x = sum_x + pix * tx;
        sum_y = sum_y + pix * ty;
        kx += 1;
    }
    (sum_x, sum_y)
}

/// Turns a sum of the convolution into a gradient component.
fn component(sum: i128) -> (c: i32)
    requires
        -10101590720568703042629245337600 <= sum <= 10101590720568703042629245337600,
    ensures
        c == spec_component(sum as int),
{
    let one: i128 = ONE as i128;
    let scaled: i128 = sum * one;
    let q = div_round(scaled, 255 * (TAP_ONE as i128));
    clamp(q, -one, one) as i32
}

/// Computes the edge of the gradient field at the cell `(ix, iy)`.
pub fn gradient_at(grid: &PixelGrid, kernel: &Kernel, ix: usize, iy: usize) -> (e: Edge)
    requires
        grid.wf(),
        kernel.wf(),
        ix < grid.width,
        iy < grid.height,
    ensures
        e == spec_gradient(grid, kernel@, ix as int, iy as int),
        e.wf(),
{
    let size = kernel.size;
    let count = kernel.taps.len();
    let mut sum_x: i128 = 0;
    let mut sum_y: i128 = 0;
    let mut ky: usize = 0;
    let ghost mut terms: int = 0;
    while ky < size
        invariant
            grid.wf(),
            kernel.wf(),
            size == kernel.size,
            count == size * size,
            ix < grid.width,
            iy < grid.height,
            ky <= size,
            terms == ky * size,
            0 <= terms <= count,
            (sum_x as int, sum_y as int) == conv_sum(
                grid,
                kernel@,
                ix as int,
                iy as int,
                ky as int,
            ),
            -terms * 547608330240 <= sum_x <= terms * 547608330240,
            -terms * 547608330240 <= sum_y <= terms * 547608330240,
        decreases size - ky,
    {
        let row = convolve_row(grid, kernel, ix, iy, ky);
        proof {
            assert((ky + 1) * size == ky * size + size && (ky + 1) * size <= size * size)
                by (nonlinear_arith)
                requires
                    0 <= ky < size,
            ;
            terms = terms + size;
        }
        sum_x = sum_x + row.0;
        sum_y = sum_y + row.1;
        ky += 1;
    }
    Edge::new(component(sum_x), component(sum_y))
}

/// Computes one column of the gradient field.
pub fn gradient_column(grid: &PixelGrid, kernel: &Kernel, x: usize) -> (column: Vec<Edge>)
    requires
        grid.wf(),
        kernel.wf(),
        x < grid.width,
    ensures
        column@ == spec_gradient_field(grid, kernel@)[x as int],
        forall|y: int| 0 <= y < column@.len() ==> (#[trigger] column@[y]).wf(),
{
    let height = grid.height;
    let mut column: Vec<Edge> = Vec::new();
    let mut y: usize = 0;
    while y < height
        invariant
            grid.wf(),
            kernel.wf(),
            x < grid.width,
            height == grid.height,
            y <= height,
            column@.len() == y,
            forall|j: int| 0 <= j < y ==> column@[j] == spec_gradient(grid, kernel@, x as int, j),
            forall|j: int| 0 <= j < y ==> (#[trigger] column@[j]).wf(),
        decreases height - y,
    {
        let e = gradient_at(grid, kernel, x, y);
        column.push(e);
        y += 1;
    }
    assert(column@ =~= spec_gradient_field(grid, kernel@)[x as int]);
    column
}

/// Computes the gradient field of a grid: one edge for every sample.
pub fn detect_edges(grid: &PixelGrid, kernel: &Kernel) -> (field: Detection)
    requires
        grid.wf(),
        kernel.wf(),
    ensures
        field.wf(),
        field@ == spec_gradient_field(grid, kernel@),
        forall|x: int, y: int|
            0 <= x < grid.width && 0 <= y < grid.height ==> (#[trigger] field@[x][y]).wf(),
{
    let width = grid.width;
    let mut edges: Vec<Vec<Edge>> = Vec::new();
    let mut x: usize = 0;
    while x < width
        invariant
            grid.wf(),
            kernel.wf(),
            width == grid.width,
            x <= width,
            edges@.len() == x,
            forall|i: int|
                0 <= i < x ==> (#[trigger] edges@[i])@ == spec_gradient_field(grid, kernel@)[i],
            forall|i: int, j: int|
                0 <= i < x && 0 <= j < grid.height ==> (#[trigger] edges@[i]@[j]).wf(),
        decreases width - x,
    {
        let column = gradient_column(grid, kernel, x);
        edges.push(column);
        x += 1;
    }
    let field = Detection { edges };
    assert(field@ =~= spec_gradient_field(grid, kernel@));
    field
}

} // verus!
