//! The whole detector: gradient field, ridge thinning and edge linking.
use crate::detection::{count_edges, grid_wf, in_grid, Detection};
use crate::edge::{lemma_new_wf, Edge};
use crate::fixed::{clamp, spec_clamp, ONE};
use crate::gaussian::{filter_kernel, spec_filter_kernel};
use crate::gradient::{
    detect_edges, lemma_uniform_gradient, spec_gradient_field, spec_uniform_response, Kernel,
    PixelGrid,
};
use crate::linking::{
    check_thresholds, hysteresis, is_chain, lemma_linked, lemma_linked_same_between, none_between,
    reachable, spec_linked, thresholds_valid,
};
use crate::thinning::{
    lemma_constant_field_thins_to_zero, lemma_thin_same_between, minmax_suppression, spec_thin,
};
use vstd::prelude::*;

verus! {

/// The detection of a grid: its gradient field, thinned and linked.
pub open spec fn spec_canny(
    grid: &PixelGrid,
    kernel: Seq<Seq<(i32, i32)>>,
    strong_threshold: u32,
    weak_threshold: u32,
) -> Seq<Seq<Edge>> {
    spec_linked(
        spec_thin(spec_gradient_field(grid, kernel), weak_threshold),
        strong_threshold,
        weak_threshold,
    )
}

/// Exchanging a valid pair of thresholds gives a pair that is not valid, and
/// no pair is valid whose weak threshold is not below the strong one,
/// whatever the scale.
pub proof fn lemma_swapped_thresholds_invalid(sigma: u32, strong_threshold: u32, weak_threshold: u32)
    ensures
        thresholds_valid(strong_threshold, weak_threshold) ==> !thresholds_valid(
            weak_threshold,
            strong_threshold,
        ),
        parameters_valid(sigma, strong_threshold, weak_threshold) ==> !parameters_valid(
            sigma,
            weak_threshold,
            strong_threshold,
        ),
        weak_threshold >= strong_threshold ==> !parameters_valid(
            sigma,
            strong_threshold,
            weak_threshold,
        ),
{
}

/// A cell that a chain reaches in the thinned field is reached by the same
/// chain in the field itself.
pub proof fn lemma_thin_reachable(
    field: Seq<Seq<Edge>>,
    strong_threshold: u32,
    weak_threshold: u32,
    x: int,
    y: int,
)
    requires
        grid_wf(field),
        0 < weak_threshold <= strong_threshold,
        reachable(spec_thin(field, weak_threshold), strong_threshold, weak_threshold, x, y),
    ensures
        reachable(field, strong_threshold, weak_threshold, x, y),
{
    let thinned = spec_thin(field, weak_threshold);
    let path = choose|path: Seq<(int, int)>|
        #[trigger] is_chain(thinned, strong_threshold, weak_threshold, path) && path.last() == (
            x,
            y,
        );
    assert forall|i: int| 0 <= i < path.len() implies in_grid(
        field,
        (#[trigger] path[i]).0,
        path[i].1,
    ) && field[path[i].0][path[i].1] == thinned[path[i].0][path[i].1] by {
        assert(in_grid(thinned, path[i].0, path[i].1));
        assert(thinned[path[i].0][path[i].1].magnitude >= weak_threshold);
    }
    assert(is_chain(field, strong_threshold, weak_threshold, path));
}

/// The cells of a detection: each holds the edge of the gradient field or
/// the zero edge, each edge is well-formed, every strong apex of the field is
/// kept, and every cell that is kept can be reached from a cell of the
/// gradient field whose magnitude reaches the strong threshold, by a chain of
/// adjacent cells whose magnitudes reach the weak threshold.
pub proof fn lemma_canny_cells(
    grid: &PixelGrid,
    kernel: Seq<Seq<(i32, i32)>>,
    strong_threshold: u32,
    weak_threshold: u32,
)
    requires
        grid.wf(),
        thresholds_valid(strong_threshold, weak_threshold),
    ensures
        ({
            let field = spec_gradient_field(grid, kernel);
            let thinned = spec_thin(field, weak_threshold);
            let out = spec_canny(grid, kernel, strong_threshold, weak_threshold);
            &&& grid_wf(out)
            &&& out.len() == grid.width
            &&& out[0].len() == grid.height
            &&& forall|x: int, y: int|
                in_grid(out, x, y) ==> #[trigger] out[x][y] == field[x][y] || out[x][y]
                    == Edge::spec_zero()
            &&& forall|x: int, y: int| in_grid(out, x, y) ==> (#[trigger] out[x][y]).wf()
            &&& forall|x: int, y: int|
                in_grid(out, x, y) && thinned[x][y].magnitude >= strong_threshold
                    ==> #[trigger] out[x][y] == field[x][y]
            &&& forall|x: int, y: int|
                in_grid(out, x, y) && (#[trigger] out[x][y]).magnitude > 0 ==> reachable(
                    field,
                    strong_threshold,
                    weak_threshold,
                    x,
                    y,
                )
        }),
{
    let field = spec_gradient_field(grid, kernel);
    let thinned = spec_thin(field, weak_threshold);
    let out = spec_canny(grid, kernel, strong_threshold, weak_threshold);
    assert(grid_wf(field));
    assert(grid_wf(thinned));
    lemma_linked(thinned, strong_threshold, weak_threshold);
    assert(grid_wf(out));
    assert forall|x: int, y: int| in_grid(out, x, y) implies (#[trigger] out[x][y] == field[x][y]
        || out[x][y] == Edge::spec_zero()) && out[x][y].wf() by {
        assert(out[x][y] == thinned[x][y] || out[x][y] == Edge::spec_zero());
        let s = crate::gradient::conv_sum(grid, kernel, x, y, kernel.len() as int);
        lemma_new_wf(
            crate::gradient::spec_component(s.0),
            crate::gradient::spec_component(s.1),
        );
    }
    assert forall|x: int, y: int|
        in_grid(out, x, y) && thinned[x][y].magnitude >= strong_threshold implies #[trigger] out[x][y]
        == field[x][y] by {
        assert(out[x][y] == thinned[x][y]);
    }
    assert forall|x: int, y: int|
        in_grid(out, x, y) && (#[trigger] out[x][y]).magnitude > 0 implies reachable(
        field,
        strong_threshold,
        weak_threshold,
        x,
        y,
    ) by {
        lemma_thin_reachable(field, strong_threshold, weak_threshold, x, y);
    }
}

/// Without a change in intensity nothing is detected: on a grid whose samples
/// all are `c`, every cell of the detection holds the zero edge, whatever the
/// kernel and the thresholds.
pub proof fn lemma_uniform_grid_detects_nothing(
    grid: &PixelGrid,
    kernel: Seq<Seq<(i32, i32)>>,
    c: u8,
    strong_threshold: u32,
    weak_threshold: u32,
)
    requires
        grid.wf(),
        grid.is_uniform(c),
        thresholds_valid(strong_threshold, weak_threshold),
    ensures
        forall|x: int, y: int|
            0 <= x < grid.width && 0 <= y < grid.height ==> #[trigger] spec_canny(
                grid,
                kernel,
                strong_threshold,
                weak_threshold,
            )[x][y] == Edge::spec_zero(),
{
    let field = spec_gradient_field(grid, kernel);
    let thinned = spec_thin(field, weak_threshold);
    let out = spec_canny(grid, kernel, strong_threshold, weak_threshold);
    let response = spec_uniform_response(kernel, c);
    assert forall|x: int, y: int| in_grid(field, x, y) implies #[trigger] field[x][y]
        == response by {
        lemma_uniform_gradient(grid, kernel, c, x, y);
    }
    lemma_constant_field_thins_to_zero(field, response, weak_threshold);
    lemma_linked(thinned, strong_threshold, weak_threshold);
    assert forall|x: int, y: int| 0 <= x < grid.width && 0 <= y < grid.height implies #[trigger] out[x][y]
        == Edge::spec_zero() by {
        assert(in_grid(field, x, y));
        assert(in_grid(thinned, x, y));
        assert(thinned[x][y] == Edge::spec_zero());
        assert(out[x][y] == thinned[x][y] || out[x][y] == Edge::spec_zero());
    }
}

/// Raising the weak threshold keeps no more cells, and indeed the same
/// cells, as long as it does not pass a magnitude of the gradient field: two
/// weak thresholds above 0 between which no magnitude of the field lies give
/// the same detection.
pub proof fn lemma_canny_same_between(
    grid: &PixelGrid,
    kernel: Seq<Seq<(i32, i32)>>,
    strong_threshold: u32,
    lower: u32,
    higher: u32,
)
    requires
        grid.wf(),
        0 < lower <= higher,
        none_between(spec_gradient_field(grid, kernel), lower, higher),
    ensures
        spec_canny(grid, kernel, strong_threshold, lower) == spec_canny(
            grid,
            kernel,
            strong_threshold,
            higher,
        ),
        count_edges(spec_canny(grid, kernel, strong_threshold, higher)) <= count_edges(
            spec_canny(grid, kernel, strong_threshold, lower),
        ),
{
    let field = spec_gradient_field(grid, kernel);
    lemma_thin_same_between(field, lower, higher);
    let thinned = spec_thin(field, lower);
    assert(grid_wf(thinned));
    assert forall|x: int, y: int| in_grid(thinned, x, y) implies (#[trigger] thinned[x][y]).magnitude
        < lower || thinned[x][y].magnitude > higher by {
        assert(in_grid(field, x, y));
        assert(field[x][y].magnitude < lower || field[x][y].magnitude > higher);
    }
    lemma_linked_same_between(thinned, strong_threshold, lower, higher);
}

/// The scale and the thresholds are ones that the detector accepts: the scale
/// is above 0, and the thresholds are in order and strictly between 0 and
/// `ONE`.
pub open spec fn parameters_valid(sigma: u32, strong_threshold: u32, weak_threshold: u32) -> bool {
    sigma > 0 && thresholds_valid(strong_threshold, weak_threshold)
}

/// Computes the Canny edges of a grid of intensities with a given kernel.
///
/// The thresholds are compared with the magnitude of the change in
/// brightness: a chain of edges starts at a magnitude of at least
/// `strong_threshold` and is followed while the magnitude is at least
/// `weak_threshold`.
pub fn canny_with_kernel(
    grid: &PixelGrid,
    kernel: &Kernel,
    strong_threshold: u32,
    weak_threshold: u32,
) -> (d: Detection)
    requires
        grid.wf(),
        kernel.wf(),
        thresholds_valid(strong_threshold, weak_threshold),
    ensures
        d.wf(),
        d.spec_width() == grid.width,
        d.spec_height() == grid.height,
        d@ == spec_canny(grid, kernel@, strong_threshold, weak_threshold),
        forall|x: int, y: int|
            in_grid(d@, x, y) ==> #[trigger] d@[x][y] == spec_gradient_field(grid, kernel@)[x][y]
                || d@[x][y] == Edge::spec_zero(),
        forall|x: int, y: int| in_grid(d@, x, y) ==> (#[trigger] d@[x][y]).wf(),
        forall|x: int, y: int|
            in_grid(d@, x, y) && spec_thin(
                spec_gradient_field(grid, kernel@),
                weak_threshold,
            )[x][y].magnitude >= strong_threshold ==> #[trigger] d@[x][y] == spec_gradient_field(
                grid,
                kernel@,
            )[x][y],
        forall|x: int, y: int|
            in_grid(d@, x, y) && (#[trigger] d@[x][y]).magnitude > 0 ==> reachable(
                spec_gradient_field(grid, kernel@),
                strong_threshold,
                weak_threshold,
                x,
                y,
            ),
        forall|c: u8| #[trigger]
            grid.is_uniform(c) ==> forall|x: int, y: int|
                in_grid(d@, x, y) ==> #[trigger] d@[x][y] == Edge::spec_zero(),
{
    let field = detect_edges(grid, kernel);
    let thinned = minmax_suppression(&field, weak_threshold);
    let linked = hysteresis(&thinned, strong_threshold, weak_threshold);
    proof {
        lemma_canny_cells(grid, kernel@, strong_threshold, weak_threshold);
        assert forall|c: u8| #[trigger] grid.is_uniform(c) implies forall|x: int, y: int|
            in_grid(linked@, x, y) ==> #[trigger] linked@[x][y] == Edge::spec_zero() by {
            lemma_uniform_grid_detects_nothing(
                grid,
                kernel@,
                c,
                strong_threshold,
                weak_threshold,
            );
        }
    }
    linked
}

/// Computes the Canny edges of a grid of intensities.
///
/// The scale `sigma`, in units of `1 / ONE`, determines the size of the
/// kernel: a small scale discerns fine detail and is prone to noise, a large
/// one detects large features only and takes longer. The thresholds are
/// compared with the magnitude of the change in brightness: a chain of edges
/// starts at a magnitude of at least `strong_threshold` and is followed while
/// the magnitude is at least `weak_threshold`.
pub fn canny(grid: &PixelGrid, sigma: u32, strong_threshold: u32, weak_threshold: u32) -> (d:
    Detection)
    requires
        grid.wf(),
        parameters_valid(sigma, strong_threshold, weak_threshold),
    ensures
        d.wf(),
        d.spec_width() == grid.width,
        d.spec_height() == grid.height,
        d@ == spec_canny(grid, spec_filter_kernel(sigma), strong_threshold, weak_threshold),
        forall|x: int, y: int|
            in_grid(d@, x, y) ==> #[trigger] d@[x][y] == spec_gradient_field(
                grid,
                spec_filter_kernel(sigma),
            )[x][y] || d@[x][y] == Edge::spec_zero(),
        forall|x: int, y: int| in_grid(d@, x, y) ==> (#[trigger] d@[x][y]).wf(),
        forall|x: int, y: int|
            in_grid(d@, x, y) && spec_thin(
                spec_gradient_field(grid, spec_filter_kernel(sigma)),
                weak_threshold,
            )[x][y].magnitude >= strong_threshold ==> #[trigger] d@[x][y] == spec_gradient_field(
                grid,
                spec_filter_kernel(sigma),
            )[x][y],
        forall|x: int, y: int|
            in_grid(d@, x, y) && (#[trigger] d@[x][y]).magnitude > 0 ==> reachable(
                spec_gradient_field(grid, spec_filter_kernel(sigma)),
                strong_threshold,
                weak_threshold,
                x,
                y,
            ),
        forall|c: u8| #[trigger]
            grid.is_uniform(c) ==> forall|x: int, y: int|
                in_grid(d@, x, y) ==> #[trigger] d@[x][y] == Edge::spec_zero(),
{
    let kernel = filter_kernel(sigma);
    canny_with_kernel(grid, &kernel, strong_threshold, weak_threshold)
}

/// Checks the scale and the thresholds.
pub fn check_parameters(sigma: u32, strong_threshold: u32, weak_threshold: u32) -> (ok: bool)
    ensures
        ok == parameters_valid(sigma, strong_threshold, weak_threshold),
{
    sigma > 0 && check_thresholds(strong_threshold, weak_threshold)
}

/// The parameters that the detector accepts and that are nearest to the given
/// ones: the scale at least 1, the strong threshold from 2 to `ONE - 1`, and
/// the weak threshold from 1 to below the strong one.
pub open spec fn spec_nearest_parameters(sigma: u32, strong_threshold: u32, weak_threshold: u32)
    -> (u32, u32, u32) {
    let scale = if sigma == 0 {
        1
    } else {
        sigma
    };
    let strong = spec_clamp(strong_threshold as int, 2, ONE - 1);
    let weak = spec_clamp(weak_threshold as int, 1, strong - 1);
    (scale, strong as u32, weak as u32)
}

/// Moves a scale and thresholds that were rounded to units of `1 / ONE` to
/// the nearest parameters that the detector accepts. Parameters that it
/// accepts stay as they are.
pub fn nearest_parameters(sigma: u32, strong_threshold: u32, weak_threshold: u32) -> (r: (
    u32,
    u32,
    u32,
))
    ensures
        r == spec_nearest_parameters(sigma, strong_threshold, weak_threshold),
        parameters_valid(r.0, r.1, r.2),
        parameters_valid(sigma, strong_threshold, weak_threshold) ==> r == (
            sigma,
            strong_threshold,
            weak_threshold,
        ),
{
    let scale: u32 = if sigma == 0 {
        1
    } else {
        sigma
    };
    let strong: u32 = clamp(strong_threshold as i128, 2, ONE as i128 - 1) as u32;
    let weak: u32 = clamp(weak_threshold as i128, 1, strong as i128 - 1) as u32;
    (scale, strong, weak)
}

/// Checks the grid, the scale and the thresholds, and computes the Canny
/// edges of the grid. The result is `None` exactly if the grid does not hold
/// a sample for every cell of an area above 0, the scale is 0, or the
/// thresholds are not in order or not strictly between 0 and `ONE`. For
/// thresholds that are not in order it is `None` whatever the grid and the
/// scale.
pub fn detect(grid: &PixelGrid, sigma: u32, strong_threshold: u32, weak_threshold: u32) -> (r:
    Option<Detection>)
    ensures
        r.is_some() <==> grid.wf() && parameters_valid(sigma, strong_threshold, weak_threshold),
        weak_threshold >= strong_threshold ==> r.is_none(),
        r.is_some() ==> r.unwrap().wf() && r.unwrap().spec_width() == grid.width
            && r.unwrap().spec_height() == grid.height && r.unwrap()@ == spec_canny(
            grid,
            spec_filter_kernel(sigma),
            strong_threshold,
            weak_threshold,
        ),
        r.is_some() ==> forall|c: u8| #[trigger]
            grid.is_uniform(c) ==> forall|x: int, y: int|
                in_grid(r.unwrap()@, x, y) ==> #[trigger] r.unwrap()@[x][y] == Edge::spec_zero(),
{
    if !check_parameters(sigma, strong_threshold, weak_threshold) {
        return None;
    }
    if !grid.is_valid() {
        return None;
    }
    Some(canny(grid, sigma, strong_threshold, weak_threshold))
}

} // verus!
