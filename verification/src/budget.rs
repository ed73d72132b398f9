//! The budget of a chain is immaterial: a chain that is followed for more
//! steps than the grid has cells only retraces cells that it has passed, so
//! that following it further changes nothing.
use crate::detection::{grid_height, grid_set, grid_wf, grid_width, in_grid, same_shape};
use crate::edge::Edge;
use crate::linking::{
    lemma_next_cell_adjacent, spec_goes_on, spec_next_cell, spec_walk, walk_budget,
};
use vstd::prelude::*;

verus! {

/// The cell that a chain goes on to from the cell `p`.
#[verifier::opaque]
pub open spec fn trail_next(g: Seq<Seq<Edge>>, backward: bool, p: (int, int)) -> Option<
    (int, int),
> {
    spec_next_cell(g, p.0, p.1, backward)
}

/// `trail` is a run of cells of the grid in which each cell is the one that a
/// chain goes on to from the cell before it.
pub open spec fn is_trail(g: Seq<Seq<Edge>>, backward: bool, trail: Seq<(int, int)>) -> bool {
    &&& forall|t: int| 0 <= t < trail.len() ==> in_grid(g, (#[trigger] trail[t]).0, trail[t].1)
    &&& forall|t: int|
        0 < t < trail.len() ==> trail_next(g, backward, trail[t - 1]) == Some(#[trigger] trail[t])
}

/// Among more numbers than `n`, all of them from 0 to below `n`, two are
/// equal.
proof fn lemma_two_are_equal(numbers: Seq<int>, n: int)
    requires
        0 <= n < numbers.len(),
        forall|t: int| 0 <= t < numbers.len() ==> 0 <= #[trigger] numbers[t] < n,
    ensures
        exists|i: int, j: int| 0 <= i < j < numbers.len() && numbers[i] == numbers[j],
{
    if numbers.no_duplicates() {
        numbers.unique_seq_to_set();
        vstd::set_lib::lemma_int_range(0, n);
        assert(numbers.to_set().subset_of(vstd::set_lib::set_int_range(0, n))) by {
            assert forall|v: int| numbers.to_set().contains(v) implies vstd::set_lib::set_int_range(
                0,
                n,
            ).contains(v) by {
                let t = choose|t: int| 0 <= t < numbers.len() && numbers[t] == v;
                assert(0 <= numbers[t] < n);
            }
        }
        vstd::set_lib::lemma_len_subset(numbers.to_set(), vstd::set_lib::set_int_range(0, n));
        assert(false);
    } else {
        let (i, j) = choose|i: int, j: int|
            0 <= i < numbers.len() && 0 <= j < numbers.len() && i != j && numbers[i] == numbers[j];
        if i < j {
            assert(0 <= i < j < numbers.len() && numbers[i] == numbers[j]);
        } else {
            assert(0 <= j < i < numbers.len() && numbers[j] == numbers[i]);
        }
    }
}

/// Two cells of a grid with the same number, counted column by column, are
/// the same cell.
proof fn lemma_cell_number(a: (int, int), b: (int, int), height: int)
    requires
        0 <= a.1 < height,
        0 <= b.1 < height,
        a.0 * height + a.1 == b.0 * height + b.1,
    ensures
        a == b,
{
    assert(a.0 == b.0) by (nonlinear_arith)
        requires
            0 <= a.1 < height,
            0 <= b.1 < height,
            a.0 * height + a.1 == b.0 * height + b.1,
    ;
}

/// The number of a cell of a grid, counted column by column, is below the
/// number of cells.
proof fn lemma_cell_number_bound(a: (int, int), width: int, height: int)
    requires
        0 <= a.0 < width,
        0 <= a.1 < height,
    ensures
        0 <= a.0 * height + a.1 < width * height,
{
    assert(0 <= a.0 * height && a.0 * height + height <= width * height) by (nonlinear_arith)
        requires
            0 <= a.0,
            a.0 + 1 <= width,
            0 < height,
    ;
}

/// A trail of more cells than the grid has passes one cell twice.
proof fn lemma_trail_repeats(g: Seq<Seq<Edge>>, backward: bool, trail: Seq<(int, int)>)
    requires
        grid_wf(g),
        is_trail(g, backward, trail),
        trail.len() > walk_budget(g),
    ensures
        exists|i: int, j: int| 0 <= i < j < trail.len() && trail[i] == trail[j],
{
    let height = grid_height(g);
    let numbers = Seq::new(trail.len(), |t: int| trail[t].0 * height + trail[t].1);
    assert forall|t: int| 0 <= t < numbers.len() implies 0 <= #[trigger] numbers[t] < walk_budget(
        g,
    ) by {
        assert(in_grid(g, trail[t].0, trail[t].1));
        lemma_cell_number_bound(trail[t], grid_width(g), height);
    }
    lemma_two_are_equal(numbers, walk_budget(g) as int);
    let (i, j) = choose|i: int, j: int| 0 <= i < j < numbers.len() && numbers[i] == numbers[j];
    assert(in_grid(g, trail[i].0, trail[i].1));
    assert(in_grid(g, trail[j].0, trail[j].1));
    lemma_cell_number(trail[i], trail[j], height);
}

/// A trail that passes one cell twice goes the same way from it both times.
proof fn lemma_trail_runs_again(
    g: Seq<Seq<Edge>>,
    backward: bool,
    trail: Seq<(int, int)>,
    i: int,
    j: int,
    d: int,
)
    requires
        is_trail(g, backward, trail),
        0 <= i < j,
        0 <= d,
        j + d < trail.len(),
        trail[i] == trail[j],
    ensures
        trail[i + d] == trail[j + d],
    decreases d,
{
    if d > 0 {
        lemma_trail_runs_again(g, backward, trail, i, j, d - 1);
        assert(trail_next(g, backward, trail[i + d - 1]) == Some(trail[i + d]));
        assert(trail_next(g, backward, trail[j + d - 1]) == Some(trail[j + d]));
    }
}

/// From the end of a trail of more cells than the grid has, a chain goes on
/// to a cell of the trail.
proof fn lemma_trail_closes(
    g: Seq<Seq<Edge>>,
    backward: bool,
    trail: Seq<(int, int)>,
    next: (int, int),
)
    requires
        grid_wf(g),
        is_trail(g, backward, trail),
        trail.len() > walk_budget(g),
        trail_next(g, backward, trail.last()) == Some(next),
    ensures
        exists|t: int| 0 <= t < trail.len() && trail[t] == next,
{
    lemma_trail_repeats(g, backward, trail);
    let (i, j) = choose|i: int, j: int| 0 <= i < j < trail.len() && trail[i] == trail[j];
    let d = trail.len() - 1 - j;
    lemma_trail_runs_again(g, backward, trail, i, j, d);
    let t = i + d + 1;
    assert(trail[i + d] == trail.last());
    assert(trail_next(g, backward, trail[t - 1]) == Some(trail[t]));
    assert(trail[t] == next);
}

/// Once a chain has passed as many cells as the grid has, one step more in
/// its budget changes nothing: `passed` holds the cells that the chain has
/// passed before the cell `(x, y)`.
proof fn lemma_walk_one_more(
    g: Seq<Seq<Edge>>,
    out: Seq<Seq<Edge>>,
    x: int,
    y: int,
    backward: bool,
    weak_threshold: u32,
    fuel: nat,
    passed: Seq<(int, int)>,
)
    requires
        grid_wf(g),
        same_shape(g, out),
        is_trail(g, backward, passed.push((x, y))),
        forall|t: int|
            0 <= t < passed.len() ==> out[(#[trigger] passed[t]).0][passed[t].1]
                == g[passed[t].0][passed[t].1],
        passed.len() + fuel >= walk_budget(g),
    ensures
        spec_walk(g, out, x, y, backward, weak_threshold, fuel + 1) == spec_walk(
            g,
            out,
            x,
            y,
            backward,
            weak_threshold,
            fuel,
        ),
    decreases fuel,
{
    let trail = passed.push((x, y));
    assert(trail[passed.len() as int] == (x, y));
    assert(in_grid(g, x, y));
    let marked = grid_set(out, x, y, g[x][y]);
    assert(same_shape(g, marked));
    assert forall|t: int| 0 <= t < trail.len() implies marked[(#[trigger] trail[t]).0][trail[t].1]
        == g[trail[t].0][trail[t].1] by {
        assert(in_grid(g, trail[t].0, trail[t].1));
        assert(out[trail[t].0].len() == g[0].len());
        if t < passed.len() {
            assert(trail[t] == passed[t]);
        }
    }
    lemma_next_cell_adjacent(g, x, y, backward);
    assert(trail_next(g, backward, (x, y)) == spec_next_cell(g, x, y, backward)) by {
        reveal(trail_next);
    }
    match spec_next_cell(g, x, y, backward) {
        Some(q) => {
            if spec_goes_on(g, marked, q, weak_threshold) {
                if fuel > 0 {
                    let longer = trail.push(q);
                    assert forall|t: int| 0 <= t < longer.len() implies in_grid(
                        g,
                        (#[trigger] longer[t]).0,
                        longer[t].1,
                    ) by {
                        if t < trail.len() {
                            assert(longer[t] == trail[t]);
                        }
                    }
                    assert forall|t: int| 0 < t < longer.len() implies trail_next(
                        g,
                        backward,
                        longer[t - 1],
                    ) == Some(#[trigger] longer[t]) by {
                        assert(longer[t - 1] == trail[t - 1]);
                        if t < trail.len() {
                            assert(longer[t] == trail[t]);
                        }
                    }
                    lemma_walk_one_more(
                        g,
                        marked,
                        q.0,
                        q.1,
                        backward,
                        weak_threshold,
                        (fuel - 1) as nat,
                        trail,
                    );
                } else {
                    lemma_trail_closes(g, backward, trail, q);
                    let t = choose|t: int| 0 <= t < trail.len() && trail[t] == q;
                    assert(marked[q.0][q.1] == g[q.0][q.1]);
                    assert(marked[q.0].update(q.1, g[q.0][q.1]) =~= marked[q.0]);
                    assert(grid_set(marked, q.0, q.1, g[q.0][q.1]) =~= marked);
                    assert(spec_walk(g, marked, q.0, q.1, backward, weak_threshold, 0) == marked);
                }
            }
        },
        None => {},
    }
}

/// Following a chain for more steps than the grid has cells changes nothing.
pub proof fn lemma_budget_is_immaterial(
    g: Seq<Seq<Edge>>,
    out: Seq<Seq<Edge>>,
    x: int,
    y: int,
    backward: bool,
    weak_threshold: u32,
    fuel: nat,
)
    requires
        grid_wf(g),
        same_shape(g, out),
        in_grid(g, x, y),
        fuel >= walk_budget(g),
    ensures
        spec_walk(g, out, x, y, backward, weak_threshold, fuel) == spec_walk(
            g,
            out,
            x,
            y,
            backward,
            weak_threshold,
            walk_budget(g),
        ),
    decreases fuel,
{
    if fuel > walk_budget(g) {
        let passed = Seq::<(int, int)>::empty();
        assert(passed.push((x, y))[0] == (x, y));
        assert(is_trail(g, backward, passed.push((x, y))));
        lemma_walk_one_more(g, out, x, y, backward, weak_threshold, (fuel - 1) as nat, passed);
        lemma_budget_is_immaterial(g, out, x, y, backward, weak_threshold, (fuel - 1) as nat);
    }
}

} // verus!
