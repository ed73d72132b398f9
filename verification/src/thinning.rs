//! Ridge thinning: of each ridge of the gradient field only the apex stays.
//!
//! From a cell the ridge is walked along the direction of its edge, one unit
//! step at a time, on both sides at once. A side ends where the sampled
//! magnitude falls below that of the cell, or where it falls after having
//! risen above it. The cell is the apex of its ridge if both sides end after
//! the same number of steps. Where a side never ends, as on a field without
//! any change, there is no ridge and the cell is dropped.
use crate::detection::{
    count_edges, grid_height, grid_wf, grid_width, in_grid, lemma_blend_equal,
    lemma_count_edges_ordered, lemma_interpolate_at_cell, spec_ceil_cell, spec_interpolate,
    Detection,
};
use crate::edge::Edge;
use crate::fixed::{spec_clamp, ONE};
use vstd::prelude::*;

verus! {

/// The point reached from the cell `(x, y)` after `k` steps along the
/// direction of its edge (`forward`) or against it, in units of `1 / ONE` of
/// a cell.
pub open spec fn walk_point(g: Seq<Seq<Edge>>, x: int, y: int, forward: bool, k: int) -> (
    int,
    int,
) {
    let e = g[x][y];
    if forward {
        (x * ONE + k * e.vec_x, y * ONE + k * e.vec_y)
    } else {
        (x * ONE - k * e.vec_x, y * ONE - k * e.vec_y)
    }
}

/// The magnitude sampled `k` steps away from the cell `(x, y)`.
#[verifier::opaque]
pub open spec fn walk_sample(g: Seq<Seq<Edge>>, x: int, y: int, forward: bool, k: int) -> int {
    let p = walk_point(g, x, y, forward, k);
    spec_interpolate(g, p.0, p.1).magnitude as int
}

/// The walk from the cell `(x, y)` ends at step `k`: the sample is below the
/// magnitude of the cell, or the sample before it was above that magnitude
/// and this one is lower.
pub open spec fn walk_ends(g: Seq<Seq<Edge>>, x: int, y: int, forward: bool, k: int) -> bool {
    let m = g[x][y].magnitude as int;
    let s = walk_sample(g, x, y, forward, k);
    let prev = walk_sample(g, x, y, forward, k - 1);
    s < m || (prev > m && s < prev)
}

/// The first step from `from` to `limit` at which the walk ends, if there is
/// one.
pub open spec fn run_length_from(
    g: Seq<Seq<Edge>>,
    x: int,
    y: int,
    forward: bool,
    from: int,
    limit: int,
) -> Option<int>
    decreases limit + 1 - from,
{
    if from > limit {
        None
    } else if walk_ends(g, x, y, forward, from) {
        Some(from)
    } else {
        run_length_from(g, x, y, forward, from + 1, limit)
    }
}

/// The number of steps a walk is followed for at most. A walk that has not
/// ended by then has left the grid for good and samples the same border cell
/// at every further step, so that it would never end.
pub open spec fn walk_limit(g: Seq<Seq<Edge>>) -> int {
    if grid_width(g) >= grid_height(g) {
        grid_width(g) * ONE + 2
    } else {
        grid_height(g) * ONE + 2
    }
}

/// The number of steps after which the walk from `(x, y)` ends on one side.
pub open spec fn run_length(g: Seq<Seq<Edge>>, x: int, y: int, forward: bool) -> Option<int> {
    run_length_from(g, x, y, forward, 1, walk_limit(g))
}

/// The cell `(x, y)` is the apex of its ridge: both sides of the walk end,
/// and they end after the same number of steps, or the edge lies along an
/// axis and the forward side ends one step later than the other. A cell from
/// which a walk does not end lies on no ridge and is no apex.
pub open spec fn spec_is_apex(g: Seq<Seq<Edge>>, x: int, y: int) -> bool {
    match (run_length(g, x, y, true), run_length(g, x, y, false)) {
        (Some(a), Some(b)) => a == b || (a == b + 1 && g[x][y].spec_axis_aligned()),
        _ => false,
    }
}

/// What thinning leaves in the cell `(x, y)`: its edge, if the magnitude
/// reaches `weak_threshold` and the cell is the apex of its ridge, and the
/// zero edge otherwise.
pub open spec fn spec_thin_cell(g: Seq<Seq<Edge>>, x: int, y: int, weak_threshold: u32) -> Edge {
    if g[x][y].magnitude >= weak_threshold && spec_is_apex(g, x, y) {
        g[x][y]
    } else {
        Edge::spec_zero()
    }
}

/// The thinned grid.
pub open spec fn spec_thin(g: Seq<Seq<Edge>>, weak_threshold: u32) -> Seq<Seq<Edge>> {
    Seq::new(
        g.len(),
        |x: int| Seq::new(g[0].len(), |y: int| spec_thin_cell(g, x, y, weak_threshold)),
    )
}

/// Thinning with a higher threshold keeps no cell that thinning with a lower
/// one drops, and a cell that both keep holds the same edge.
pub proof fn lemma_thin_monotone(g: Seq<Seq<Edge>>, x: int, y: int, lower: u32, higher: u32)
    requires
        lower <= higher,
    ensures
        spec_thin_cell(g, x, y, higher) != Edge::spec_zero() ==> spec_thin_cell(g, x, y, lower)
            == spec_thin_cell(g, x, y, higher),
{
}

/// Raising the threshold never raises the number of edges that thinning
/// keeps.
pub proof fn lemma_thin_count_monotone(g: Seq<Seq<Edge>>, lower: u32, higher: u32)
    requires
        lower <= higher,
    ensures
        count_edges(spec_thin(g, higher)) <= count_edges(spec_thin(g, lower)),
{
    let fewer = spec_thin(g, higher);
    let more = spec_thin(g, lower);
    assert forall|x: int, y: int|
        0 <= x < fewer.len() && 0 <= y < fewer[x].len() && (#[trigger] fewer[x][y]).magnitude
            > 0 implies more[x][y].magnitude > 0 by {
        lemma_thin_monotone(g, x, y, lower, higher);
    }
    lemma_count_edges_ordered(fewer, more, g.len() as int);
}

/// Raising the threshold keeps the same cells as long as it does not pass
/// the magnitude of a cell: two thresholds between which no magnitude of the
/// grid lies give the same thinned grid.
pub proof fn lemma_thin_same_between(g: Seq<Seq<Edge>>, lower: u32, higher: u32)
    requires
        lower <= higher,
        forall|x: int, y: int|
            in_grid(g, x, y) ==> (#[trigger] g[x][y]).magnitude < lower || g[x][y].magnitude
                > higher,
    ensures
        spec_thin(g, lower) == spec_thin(g, higher),
{
    assert forall|x: int, y: int|
        0 <= x < g.len() && 0 <= y < g[0].len() implies spec_thin_cell(g, x, y, lower)
        == spec_thin_cell(g, x, y, higher) by {
        assert(in_grid(g, x, y));
        assert(g[x][y].magnitude < lower || g[x][y].magnitude > higher);
    }
    assert(spec_thin(g, lower) =~~= spec_thin(g, higher));
}

/// A walk that ends does so at a step between `from` and `limit`.
pub proof fn lemma_run_length_from_bounds(
    g: Seq<Seq<Edge>>,
    x: int,
    y: int,
    forward: bool,
    from: int,
    limit: int,
)
    ensures
        match run_length_from(g, x, y, forward, from, limit) {
            Some(a) => from <= a <= limit && walk_ends(g, x, y, forward, a),
            None => true,
        },
    decreases limit + 1 - from,
{
    if from <= limit && !walk_ends(g, x, y, forward, from) {
        lemma_run_length_from_bounds(g, x, y, forward, from + 1, limit);
    }
}

/// The step that a walk from the cell `(x, y)` takes on one side.
pub open spec fn walk_step(g: Seq<Seq<Edge>>, x: int, y: int, forward: bool) -> (int, int) {
    let e = g[x][y];
    if forward {
        (e.vec_x as int, e.vec_y as int)
    } else {
        (-(e.vec_x as int), -(e.vec_y as int))
    }
}

/// A walk is held on an axis with `cells` cells: it does not move along the
/// axis, or it stands at or beyond the last cell in its direction of travel.
pub open spec fn axis_held(pos: int, step: int, cells: int) -> bool {
    step == 0 || (step > 0 && pos >= (cells - 1) * ONE) || (step < 0 && pos <= 0)
}

/// After `k` steps the walk from the cell `(x, y)` is held on both axes: from
/// here on it samples one and the same cell.
pub open spec fn walk_held(g: Seq<Seq<Edge>>, x: int, y: int, forward: bool, k: int) -> bool {
    let p = walk_point(g, x, y, forward, k);
    let s = walk_step(g, x, y, forward);
    axis_held(p.0, s.0, grid_width(g)) && axis_held(p.1, s.1, grid_height(g))
}

/// On an axis on which a walk is held after `k` steps, it is held after any
/// later step too, and the cells on both sides of its position are one and
/// the same cell at both steps.
proof fn lemma_held_axis(x: int, step: int, cells: int, k: int, j: int)
    requires
        0 <= x < cells,
        0 <= k <= j,
        axis_held(x * ONE + k * step, step, cells),
    ensures
        axis_held(x * ONE + j * step, step, cells),
        ({
            let pk = x * ONE + k * step;
            let pj = x * ONE + j * step;
            let cell = spec_clamp(pk / (ONE as int), 0, cells - 1);
            &&& spec_clamp(spec_ceil_cell(pk), 0, cells - 1) == cell
            &&& spec_clamp(pj / (ONE as int), 0, cells - 1) == cell
            &&& spec_clamp(spec_ceil_cell(pj), 0, cells - 1) == cell
        }),
{
    let one = ONE as int;
    let pk = x * one + k * step;
    let pj = x * one + j * step;
    if step == 0 {
        assert(k * step == 0 && j * step == 0) by (nonlinear_arith)
            requires
                step == 0,
        ;
        vstd::arithmetic::div_mod::lemma_fundamental_div_mod_converse(x * one, one, x, 0);
    } else if step > 0 {
        assert(j * step >= k * step) by (nonlinear_arith)
            requires
                k <= j,
                step > 0,
        ;
        lemma_cell_beyond(pk, cells);
        lemma_cell_beyond(pj, cells);
    } else {
        assert(j * step <= k * step) by (nonlinear_arith)
            requires
                k <= j,
                step < 0,
        ;
        lemma_cell_before(pk);
        lemma_cell_before(pj);
    }
}

/// A position at or beyond the last cell of an axis lies in no cell before
/// the last.
proof fn lemma_cell_beyond(pos: int, cells: int)
    requires
        cells >= 1,
        pos >= (cells - 1) * ONE,
    ensures
        pos / (ONE as int) >= cells - 1,
        spec_ceil_cell(pos) >= cells - 1,
{
    let one = ONE as int;
    vstd::arithmetic::div_mod::lemma_fundamental_div_mod(pos, one);
    vstd::arithmetic::div_mod::lemma_mod_bound(pos, one);
    let q = pos / one;
    assert(q >= cells - 1) by (nonlinear_arith)
        requires
            pos == one * q + pos % one,
            pos % one < one,
            pos >= (cells - 1) * one,
            one > 0,
    ;
}

/// A position at or before the first cell of an axis lies in no cell after
/// the first.
proof fn lemma_cell_before(pos: int)
    requires
        pos <= 0,
    ensures
        pos / (ONE as int) <= 0,
        spec_ceil_cell(pos) <= 0,
{
    let one = ONE as int;
    vstd::arithmetic::div_mod::lemma_fundamental_div_mod(pos, one);
    vstd::arithmetic::div_mod::lemma_mod_bound(pos, one);
    let q = pos / one;
    assert(q <= 0 && (pos % one != 0 ==> q <= -1)) by (nonlinear_arith)
        requires
            pos == one * q + pos % one,
            0 <= pos % one,
            pos <= 0,
            one > 0,
    ;
}

/// A walk that is held after `k` steps samples the same magnitude at every
/// later step, and is held there too.
pub proof fn lemma_held_sample(g: Seq<Seq<Edge>>, x: int, y: int, forward: bool, k: int, j: int)
    requires
        grid_wf(g),
        in_grid(g, x, y),
        0 <= k <= j,
        walk_held(g, x, y, forward, k),
    ensures
        walk_held(g, x, y, forward, j),
        walk_sample(g, x, y, forward, j) == walk_sample(g, x, y, forward, k),
{
    reveal(walk_sample);
    let e = g[x][y];
    let s = walk_step(g, x, y, forward);
    let pk = walk_point(g, x, y, forward, k);
    let pj = walk_point(g, x, y, forward, j);
    assert(pk.0 == x * ONE + k * s.0 && pk.1 == y * ONE + k * s.1 && pj.0 == x * ONE + j * s.0
        && pj.1 == y * ONE + j * s.1) by (nonlinear_arith)
        requires
            pk == walk_point(g, x, y, forward, k),
            pj == walk_point(g, x, y, forward, j),
            s == walk_step(g, x, y, forward),
    ;
    lemma_held_axis(x, s.0, grid_width(g), k, j);
    lemma_held_axis(y, s.1, grid_height(g), k, j);
    let one = ONE as int;
    let cx = spec_clamp(pk.0 / one, 0, grid_width(g) - 1);
    let cy = spec_clamp(pk.1 / one, 0, grid_height(g) - 1);
    let c = g[cx][cy];
    lemma_blend_equal(c.magnitude as int, pk.0 % one, pk.1 % one);
    lemma_blend_equal(c.magnitude as int, pj.0 % one, pj.1 % one);
}

/// A walk that is held after `k` steps, and whose sample there is not below
/// the magnitude of its cell, ends at no later step.
pub proof fn lemma_held_never_ends(
    g: Seq<Seq<Edge>>,
    x: int,
    y: int,
    forward: bool,
    k: int,
    from: int,
    limit: int,
)
    requires
        grid_wf(g),
        in_grid(g, x, y),
        0 <= k < from,
        walk_held(g, x, y, forward, k),
        walk_sample(g, x, y, forward, k) >= g[x][y].magnitude,
    ensures
        run_length_from(g, x, y, forward, from, limit).is_none(),
    decreases limit + 1 - from,
{
    if from <= limit {
        lemma_held_sample(g, x, y, forward, k, from);
        lemma_held_sample(g, x, y, forward, k, from - 1);
        lemma_held_never_ends(g, x, y, forward, k, from + 1, limit);
    }
}

/// After as many steps as the longer side of the grid has units, a walk is
/// held.
pub proof fn lemma_held_at_limit(g: Seq<Seq<Edge>>, x: int, y: int, forward: bool, k: int)
    requires
        grid_wf(g),
        in_grid(g, x, y),
        k >= walk_limit(g) - 2,
    ensures
        walk_held(g, x, y, forward, k),
{
    let s = walk_step(g, x, y, forward);
    let p = walk_point(g, x, y, forward, k);
    assert(p.0 == x * ONE + k * s.0 && p.1 == y * ONE + k * s.1) by (nonlinear_arith)
        requires
            p == walk_point(g, x, y, forward, k),
            s == walk_step(g, x, y, forward),
    ;
    lemma_axis_held_after(x, s.0, grid_width(g), k);
    lemma_axis_held_after(y, s.1, grid_height(g), k);
}

/// After as many steps as an axis has units, a walk is held on that axis.
proof fn lemma_axis_held_after(x: int, step: int, cells: int, k: int)
    requires
        0 <= x < cells,
        k >= cells * ONE,
    ensures
        axis_held(x * ONE + k * step, step, cells),
{
    if step > 0 {
        assert(k * step >= k) by (nonlinear_arith)
            requires
                k >= 0,
                step >= 1,
        ;
    } else if step < 0 {
        assert(k * step <= -k) by (nonlinear_arith)
            requires
                k >= 0,
                step <= -1,
        ;
    }
}

/// A walk that ends at no step from `from` to `k`, and at none after `k`,
/// ends at no step from `from` on.
proof fn lemma_run_length_joined(
    g: Seq<Seq<Edge>>,
    x: int,
    y: int,
    forward: bool,
    from: int,
    k: int,
    limit: int,
    further: int,
)
    requires
        from <= k + 1,
        k <= limit,
        run_length_from(g, x, y, forward, from, limit).is_none(),
        run_length_from(g, x, y, forward, k + 1, further).is_none(),
    ensures
        run_length_from(g, x, y, forward, from, further).is_none(),
    decreases k + 1 - from,
{
    if from <= k {
        lemma_run_length_joined(g, x, y, forward, from + 1, k, limit, further);
    }
}

/// A walk that ends at no step from `from` to `limit` does not end at the
/// step `k` between them, so that its sample there is not below the magnitude
/// of its cell.
proof fn lemma_run_length_none(
    g: Seq<Seq<Edge>>,
    x: int,
    y: int,
    forward: bool,
    from: int,
    k: int,
    limit: int,
)
    requires
        from <= k <= limit,
        run_length_from(g, x, y, forward, from, limit).is_none(),
    ensures
        !walk_ends(g, x, y, forward, k),
        walk_sample(g, x, y, forward, k) >= g[x][y].magnitude,
    decreases k - from,
{
    if from < k {
        lemma_run_length_none(g, x, y, forward, from + 1, k, limit);
    }
}

/// A walk that ends within a limit ends at the same step within any higher
/// limit.
proof fn lemma_run_length_extends(
    g: Seq<Seq<Edge>>,
    x: int,
    y: int,
    forward: bool,
    from: int,
    limit: int,
    further: int,
)
    requires
        limit <= further,
        run_length_from(g, x, y, forward, from, limit).is_some(),
    ensures
        run_length_from(g, x, y, forward, from, further) == run_length_from(
            g,
            x,
            y,
            forward,
            from,
            limit,
        ),
    decreases limit + 1 - from,
{
    if from <= limit && !walk_ends(g, x, y, forward, from) {
        lemma_run_length_extends(g, x, y, forward, from + 1, limit, further);
    }
}

/// The limit cuts no walk short: however much further a walk is followed, it
/// ends at the same step, or it does not end.
pub proof fn lemma_limit_is_immaterial(
    g: Seq<Seq<Edge>>,
    x: int,
    y: int,
    forward: bool,
    further: int,
)
    requires
        grid_wf(g),
        in_grid(g, x, y),
        further >= walk_limit(g),
    ensures
        run_length_from(g, x, y, forward, 1, further) == run_length(g, x, y, forward),
{
    let limit = walk_limit(g);
    if run_length(g, x, y, forward).is_some() {
        lemma_run_length_extends(g, x, y, forward, 1, limit, further);
    } else {
        let k = limit - 2;
        lemma_held_at_limit(g, x, y, forward, k);
        lemma_run_length_none(g, x, y, forward, 1, k, limit);
        lemma_held_never_ends(g, x, y, forward, k, k + 1, further);
        lemma_run_length_joined(g, x, y, forward, 1, k, limit, further);
    }
}

/// Every cell of the grid holds the edge `e`.
pub open spec fn is_constant_field(g: Seq<Seq<Edge>>, e: Edge) -> bool {
    forall|x: int, y: int| in_grid(g, x, y) ==> #[trigger] g[x][y] == e
}

/// On a grid whose cells all hold the same edge, every sample of a walk is
/// the magnitude of that edge.
pub proof fn lemma_constant_sample(
    g: Seq<Seq<Edge>>,
    e: Edge,
    x: int,
    y: int,
    forward: bool,
    k: int,
)
    requires
        grid_wf(g),
        is_constant_field(g, e),
    ensures
        walk_sample(g, x, y, forward, k) == e.magnitude,
{
    reveal(walk_sample);
    let one = ONE as int;
    let p = walk_point(g, x, y, forward, k);
    let ax = spec_clamp(p.0 / one, 0, grid_width(g) - 1);
    let ay = spec_clamp(p.1 / one, 0, grid_height(g) - 1);
    let bx = spec_clamp(spec_ceil_cell(p.0), 0, grid_width(g) - 1);
    let by = spec_clamp(spec_ceil_cell(p.1), 0, grid_height(g) - 1);
    assert(g[ax][ay] == e && g[bx][ay] == e && g[ax][by] == e && g[bx][by] == e);
    vstd::arithmetic::div_mod::lemma_mod_bound(p.0, one);
    vstd::arithmetic::div_mod::lemma_mod_bound(p.1, one);
    lemma_blend_equal(e.magnitude as int, p.0 % one, p.1 % one);
}

/// On a grid whose cells all hold the same edge, no walk ends.
pub proof fn lemma_constant_never_ends(
    g: Seq<Seq<Edge>>,
    e: Edge,
    x: int,
    y: int,
    forward: bool,
    from: int,
    limit: int,
)
    requires
        grid_wf(g),
        is_constant_field(g, e),
        in_grid(g, x, y),
    ensures
        run_length_from(g, x, y, forward, from, limit).is_none(),
    decreases limit + 1 - from,
{
    if from <= limit {
        lemma_constant_sample(g, e, x, y, forward, from);
        lemma_constant_sample(g, e, x, y, forward, from - 1);
        lemma_constant_never_ends(g, e, x, y, forward, from + 1, limit);
    }
}

/// Where nothing changes there is no ridge: thinning leaves the zero edge in
/// every cell of a grid whose cells all hold the same edge, whatever the
/// threshold.
pub proof fn lemma_constant_field_thins_to_zero(g: Seq<Seq<Edge>>, e: Edge, weak_threshold: u32)
    requires
        grid_wf(g),
        is_constant_field(g, e),
    ensures
        forall|x: int, y: int|
            in_grid(g, x, y) ==> #[trigger] spec_thin(g, weak_threshold)[x][y] == Edge::spec_zero(),
{
    assert forall|x: int, y: int| in_grid(g, x, y) implies #[trigger] spec_thin(
        g,
        weak_threshold,
    )[x][y] == Edge::spec_zero() by {
        lemma_constant_never_ends(g, e, x, y, true, 1, walk_limit(g));
        assert(g[x].len() == g[0].len());
    }
}

/// The number of steps a walk is followed for at most.
fn limit_of(det: &Detection) -> (limit: u128)
    requires
        det.wf(),
    ensures
        limit == walk_limit(det@),
        2 <= limit <= 0x1_0000_0000_0000_0000 * 100_000 + 2,
{
    let w = det.width();
    let h = det.height();
    let longer: u128 = if w >= h {
        w as u128
    } else {
        h as u128
    };
    assert(longer * 100_000 <= 0x1_0000_0000_0000_0000 * 100_000) by (nonlinear_arith)
        requires
            longer <= 0x1_0000_0000_0000_0000,
    ;
    longer * (ONE as u128) + 2
}

/// Samples the magnitude `k` steps away from the cell `(x, y)`, and tells
/// whether the walk is held there.
fn sample_at(det: &Detection, x: usize, y: usize, forward: bool, k: u128) -> (r: (u32, bool))
    requires
        det.wf(),
        in_grid(det@, x as int, y as int),
        k <= 0x1_0000_0000_0000_0000 * 100_000 + 2,
    ensures
        r.0 == walk_sample(det@, x as int, y as int, forward, k as int),
        r.1 == walk_held(det@, x as int, y as int, forward, k as int),
{
    reveal(walk_sample);
    let e = det.at(x, y);
    let one: i128 = ONE as i128;
    let steps: i128 = k as i128;
    let vx: i128 = e.vec_x as i128;
    let vy: i128 = e.vec_y as i128;
    assert(-0x8000_0000 * (0x1_0000_0000_0000_0000 * 100_000 + 2) <= steps * vx <= 0x8000_0000 * (
    0x1_0000_0000_0000_0000 * 100_000 + 2)) by (nonlinear_arith)
        requires
            0 <= steps <= 0x1_0000_0000_0000_0000 * 100_000 + 2,
            -0x8000_0000 <= vx <= 0x8000_0000,
    ;
    assert(-0x8000_0000 * (0x1_0000_0000_0000_0000 * 100_000 + 2) <= steps * vy <= 0x8000_0000 * (
    0x1_0000_0000_0000_0000 * 100_000 + 2)) by (nonlinear_arith)
        requires
            0 <= steps <= 0x1_0000_0000_0000_0000 * 100_000 + 2,
            -0x8000_0000 <= vy <= 0x8000_0000,
    ;
    assert(0 <= (x as i128) * one <= 0x1_0000_0000_0000_0000 * 100_000 && 0 <= (y as i128) * one
        <= 0x1_0000_0000_0000_0000 * 100_000) by (nonlinear_arith)
        requires
            0 <= x as i128 <= 0x1_0000_0000_0000_0000,
            0 <= y as i128 <= 0x1_0000_0000_0000_0000,
            one == 100_000,
    ;
    let (sx, sy): (i128, i128) = if forward {
        (vx, vy)
    } else {
        (-vx, -vy)
    };
    let (px, py): (i128, i128) = if forward {
        ((x as i128) * one + steps * vx, (y as i128) * one + steps * vy)
    } else {
        ((x as i128) * one - steps * vx, (y as i128) * one - steps * vy)
    };
    let last_x: i128 = (det.width() as i128 - 1) * one;
    let last_y: i128 = (det.height() as i128 - 1) * one;
    let held_x = sx == 0 || (sx > 0 && px >= last_x) || (sx < 0 && px <= 0);
    let held_y = sy == 0 || (sy > 0 && py >= last_y) || (sy < 0 && py <= 0);
    (det.sample(px, py).magnitude, held_x && held_y)
}

/// Decides whether the cell `(x, y)` is the apex of its ridge.
///
/// Both sides are walked in step. Once one side ends, the other is followed
/// for at most one step more, which is all that the decision needs. Once both
/// sides are held beyond the border, neither can end any more, and the cell
/// is no apex.
pub fn is_apex(det: &Detection, x: usize, y: usize) -> (apex: bool)
    requires
        det.wf(),
        in_grid(det@, x as int, y as int),
    ensures
        apex == spec_is_apex(det@, x as int, y as int),
{
    let ghost g = det@;
    let ghost gx = x as int;
    let ghost gy = y as int;
    let edge = det.at(x, y);
    let m: u32 = edge.magnitude;
    let limit: u128 = limit_of(det);
    let mut k: u128 = 0;
    let mut last_forward: u32 = m;
    let mut last_backward: u32 = m;
    proof {
        reveal(walk_sample);
        lemma_interpolate_at_cell(g, gx, gy);
        assert(0 * edge.vec_x == 0 && 0 * edge.vec_y == 0);
        assert(walk_sample(g, gx, gy, true, 0) == m);
        assert(walk_sample(g, gx, gy, false, 0) == m);
    }
    while k < limit
        invariant
            det.wf(),
            g == det@,
            gx == x as int,
            gy == y as int,
            in_grid(g, gx, gy),
            edge == g[gx][gy],
            m == edge.magnitude,
            limit == walk_limit(g),
            limit <= 0x1_0000_0000_0000_0000 * 100_000 + 2,
            k <= limit,
            last_forward == walk_sample(g, gx, gy, true, k as int),
            last_backward == walk_sample(g, gx, gy, false, k as int),
            run_length(g, gx, gy, true) == run_length_from(g, gx, gy, true, k + 1, limit as int),
            run_length(g, gx, gy, false) == run_length_from(
                g,
                gx,
                gy,
                false,
                k + 1,
                limit as int,
            ),
        decreases limit - k,
    {
        k = k + 1;
        let (forward, forward_held) = sample_at(det, x, y, true, k);
        let (backward, backward_held) = sample_at(det, x, y, false, k);
        let forward_ends = forward < m || (last_forward > m && forward < last_forward);
        let backward_ends = backward < m || (last_backward > m && backward < last_backward);
        assert(forward_ends == walk_ends(g, gx, gy, true, k as int));
        assert(backward_ends == walk_ends(g, gx, gy, false, k as int));
        if forward_ends {
            proof {
                assert(run_length(g, gx, gy, true) == Some(k as int));
                if !backward_ends {
                    lemma_run_length_from_bounds(g, gx, gy, false, k + 1, limit as int);
                    assert(run_length(g, gx, gy, false) == run_length_from(
                        g,
                        gx,
                        gy,
                        false,
                        k + 1,
                        limit as int,
                    ));
                } else {
                    assert(run_length(g, gx, gy, false) == Some(k as int));
                }
            }
            return backward_ends;
        }
        if backward_ends {
            proof {
                assert(run_length(g, gx, gy, false) == Some(k as int));
                assert(run_length(g, gx, gy, true) == run_length_from(
                    g,
                    gx,
                    gy,
                    true,
                    k + 1,
                    limit as int,
                ));
                lemma_run_length_from_bounds(g, gx, gy, true, k + 1, limit as int);
            }
            if !edge.is_axis_aligned() || k == limit {
                return false;
            }
            let (next, _) = sample_at(det, x, y, true, k + 1);
            let next_ends = next < m || (forward > m && next < forward);
            proof {
                assert(next_ends == walk_ends(g, gx, gy, true, k + 1));
                if !next_ends {
                    lemma_run_length_from_bounds(g, gx, gy, true, k + 2, limit as int);
                    assert(run_length_from(g, gx, gy, true, k + 1, limit as int)
                        == run_length_from(g, gx, gy, true, k + 2, limit as int));
                }
            }
            return next_ends;
        }
        if forward_held && backward_held {
            proof {
                lemma_held_never_ends(g, gx, gy, true, k as int, k + 1, limit as int);
                lemma_held_never_ends(g, gx, gy, false, k as int, k + 1, limit as int);
            }
            return false;
        }
        last_forward = forward;
        last_backward = backward;
    }
    false
}

/// Thins one cell: its edge stays if the magnitude reaches `weak_threshold`
/// and the cell is the apex of its ridge.
pub fn thin_cell(det: &Detection, x: usize, y: usize, weak_threshold: u32) -> (e: Edge)
    requires
        det.wf(),
        in_grid(det@, x as int, y as int),
    ensures
        e == spec_thin_cell(det@, x as int, y as int, weak_threshold),
{
    let edge = det.at(x, y);
    if edge.magnitude < weak_threshold {
        return Edge::zero();
    }
    if is_apex(det, x, y) {
        edge
    } else {
        Edge::zero()
    }
}

/// Thins one column of the grid.
pub fn thin_column(det: &Detection, x: usize, weak_threshold: u32) -> (column: Vec<Edge>)
    requires
        det.wf(),
        x < det.spec_width(),
    ensures
        column@ == spec_thin(det@, weak_threshold)[x as int],
{
    let height = det.height();
    let mut column: Vec<Edge> = Vec::new();
    let mut y: usize = 0;
    while y < height
        invariant
            det.wf(),
            x < det.spec_width(),
            height == det.spec_height(),
            y <= height,
            column@.len() == y,
            forall|j: int|
                0 <= j < y ==> column@[j] == spec_thin_cell(det@, x as int, j, weak_threshold),
        decreases height - y,
    {
        let e = thin_cell(det, x, y, weak_threshold);
        column.push(e);
        y += 1;
    }
    assert(column@ =~= spec_thin(det@, weak_threshold)[x as int]);
    column
}

/// Narrows the ridges of a gradient field down to a single cell in width.
///
/// Every cell of the result holds the edge of the same cell of `det` if that
/// edge reaches `weak_threshold` and is the apex of its ridge, and the zero
/// edge otherwise.
pub fn minmax_suppression(det: &Detection, weak_threshold: u32) -> (thinned: Detection)
    requires
        det.wf(),
    ensures
        thinned.wf(),
        thinned@ == spec_thin(det@, weak_threshold),
        forall|x: int, y: int|
            in_grid(det@, x, y) ==> #[trigger] thinned@[x][y] == det@[x][y] || thinned@[x][y]
                == Edge::spec_zero(),
{
    let width = det.width();
    let mut edges: Vec<Vec<Edge>> = Vec::new();
    let mut x: usize = 0;
    while x < width
        invariant
            det.wf(),
            width == det.spec_width(),
            x <= width,
            edges@.len() == x,
            forall|i: int| 0 <= i < x ==> (#[trigger] edges@[i])@ == spec_thin(det@, weak_threshold)[i],
        decreases width - x,
    {
        let column = thin_column(det, x, weak_threshold);
        edges.push(column);
        x += 1;
    }
    let thinned = Detection { edges };
    assert(thinned@ =~= spec_thin(det@, weak_threshold));
    thinned
}

} // verus!
