//! Edge linking by hysteresis: chains of edges are followed from every strong
//! edge through its neighbours for as long as these are at least weak.
use crate::detection::{
    count_edges, grid_height, grid_set, grid_wf, grid_width, in_grid, same_shape, zero_grid,
    Detection,
};
use crate::edge::{spec_octant, Edge};
use crate::fixed::ONE;
use vstd::prelude::*;

verus! {

/// The step to the neighbouring cell at the bearing `bearing`, counted in
/// eighths of a full turn from the positive x axis toward the positive y axis.
pub open spec fn spec_neighbour_delta(bearing: int) -> (int, int) {
    let b = bearing % 8;
    if b == 0 {
        (1, 0)
    } else if b == 1 {
        (1, 1)
    } else if b == 2 {
        (0, 1)
    } else if b == 3 {
        (-1, 1)
    } else if b == 4 {
        (-1, 0)
    } else if b == 5 {
        (-1, -1)
    } else if b == 6 {
        (0, -1)
    } else {
        (1, -1)
    }
}

/// The two cells are different and touch, by a side or by a corner.
pub open spec fn adjacent(a: (int, int), b: (int, int)) -> bool {
    &&& a != b
    &&& -1 <= a.0 - b.0 <= 1
    &&& -1 <= a.1 - b.1 <= 1
}

/// The thresholds are in order and strictly between 0 and `ONE`.
pub open spec fn thresholds_valid(strong_threshold: u32, weak_threshold: u32) -> bool {
    0 < weak_threshold < strong_threshold < ONE
}

/// One of the three cells ahead of `(x, y)` along its edge: the bearing of
/// travel is a quarter turn from the direction of the edge, reversed for the
/// `backward` side, and `turn` eighths of a turn are added to it. The result
/// is `None` where that cell lies outside the grid.
pub open spec fn spec_candidate(g: Seq<Seq<Edge>>, x: int, y: int, backward: bool, turn: int)
    -> Option<(int, int)> {
    let e = g[x][y];
    let side: int = if backward {
        4
    } else {
        0
    };
    let d = spec_neighbour_delta(spec_octant(e.vec_x as int, e.vec_y as int) + 2 + side + turn);
    if in_grid(g, x + d.0, y + d.1) {
        Some((x + d.0, y + d.1))
    } else {
        None
    }
}

/// The magnitude of the best cell found so far, 0 if there is none.
pub open spec fn spec_best_magnitude(g: Seq<Seq<Edge>>, best: Option<(int, int)>) -> int {
    match best {
        Some(b) => g[b.0][b.1].magnitude as int,
        None => 0,
    }
}

/// The better of the best cell so far and a candidate: the candidate only if
/// its magnitude is strictly higher.
pub open spec fn spec_pick(g: Seq<Seq<Edge>>, best: Option<(int, int)>, cand: Option<(int, int)>)
    -> Option<(int, int)> {
    match cand {
        Some(p) => if g[p.0][p.1].magnitude > spec_best_magnitude(g, best) {
            Some(p)
        } else {
            best
        },
        None => best,
    }
}

/// The cell that a chain through `(x, y)` goes on to: of the three cells
/// ahead, taken from the one an eighth of a turn further round, the first of
/// those with the highest magnitude. There is none if all three lie outside
/// the grid or have magnitude 0.
pub open spec fn spec_next_cell(g: Seq<Seq<Edge>>, x: int, y: int, backward: bool) -> Option<
    (int, int),
> {
    let first = spec_pick(g, None, spec_candidate(g, x, y, backward, 1));
    let second = spec_pick(g, first, spec_candidate(g, x, y, backward, 0));
    spec_pick(g, second, spec_candidate(g, x, y, backward, 7))
}

/// The chain goes on to the cell `p`: its magnitude reaches `weak_threshold`,
/// and `out` does not hold there an edge above that threshold already.
pub open spec fn spec_goes_on(
    g: Seq<Seq<Edge>>,
    out: Seq<Seq<Edge>>,
    p: (int, int),
    weak_threshold: u32,
) -> bool {
    g[p.0][p.1].magnitude >= weak_threshold && out[p.0][p.1].magnitude <= weak_threshold
}

/// The grid `out` after a chain was followed from the cell `(x, y)` on one
/// side for at most `fuel` steps: the edge of every cell on the chain is
/// copied from `g`.
pub open spec fn spec_walk(
    g: Seq<Seq<Edge>>,
    out: Seq<Seq<Edge>>,
    x: int,
    y: int,
    backward: bool,
    weak_threshold: u32,
    fuel: nat,
) -> Seq<Seq<Edge>>
    decreases fuel,
{
    let marked = grid_set(out, x, y, g[x][y]);
    match spec_next_cell(g, x, y, backward) {
        Some(p) => if fuel > 0 && spec_goes_on(g, marked, p, weak_threshold) {
            spec_walk(g, marked, p.0, p.1, backward, weak_threshold, (fuel - 1) as nat)
        } else {
            marked
        },
        None => marked,
    }
}

/// The number of steps that a chain is followed for at most: the number of
/// cells. A longer chain only retraces cells that it has passed already.
pub open spec fn walk_budget(g: Seq<Seq<Edge>>) -> nat {
    (grid_width(g) * grid_height(g)) as nat
}

/// The grid `out` after the cell `(x, y)` had its turn: if its edge is strong
/// and `out` does not hold it yet, the chain through it is followed on both
/// sides.
pub open spec fn spec_link_cell(
    g: Seq<Seq<Edge>>,
    out: Seq<Seq<Edge>>,
    x: int,
    y: int,
    strong_threshold: u32,
    weak_threshold: u32,
) -> Seq<Seq<Edge>> {
    if g[x][y].magnitude >= strong_threshold && out[x][y].magnitude < strong_threshold {
        let ahead = spec_walk(g, out, x, y, false, weak_threshold, walk_budget(g));
        spec_walk(g, ahead, x, y, true, weak_threshold, walk_budget(g))
    } else {
        out
    }
}

/// The grid `out` after the cells of column `x` from row `y` on had their
/// turn.
pub open spec fn spec_link_column(
    g: Seq<Seq<Edge>>,
    out: Seq<Seq<Edge>>,
    x: int,
    y: int,
    strong_threshold: u32,
    weak_threshold: u32,
) -> Seq<Seq<Edge>>
    decreases grid_height(g) - y,
{
    if y >= grid_height(g) {
        out
    } else {
        spec_link_column(
            g,
            spec_link_cell(g, out, x, y, strong_threshold, weak_threshold),
            x,
            y + 1,
            strong_threshold,
            weak_threshold,
        )
    }
}

/// The grid `out` after the columns from `x` on had their turn.
pub open spec fn spec_link_columns(
    g: Seq<Seq<Edge>>,
    out: Seq<Seq<Edge>>,
    x: int,
    strong_threshold: u32,
    weak_threshold: u32,
) -> Seq<Seq<Edge>>
    decreases grid_width(g) - x,
{
    if x >= grid_width(g) {
        out
    } else {
        spec_link_columns(
            g,
            spec_link_column(g, out, x, 0, strong_threshold, weak_threshold),
            x + 1,
            strong_threshold,
            weak_threshold,
        )
    }
}

/// The linked grid: starting from the grid of zero edges, every cell has its
/// turn, column by column and in each column row by row.
pub open spec fn spec_linked(g: Seq<Seq<Edge>>, strong_threshold: u32, weak_threshold: u32) -> Seq<
    Seq<Edge>,
> {
    spec_link_columns(
        g,
        zero_grid(grid_width(g), grid_height(g)),
        0,
        strong_threshold,
        weak_threshold,
    )
}

/// A cell of the grid as a pair of integers.
pub open spec fn spec_cell(p: Option<(usize, usize)>) -> Option<(int, int)> {
    match p {
        Some(c) => Some((c.0 as int, c.1 as int)),
        None => None,
    }
}

/// `path` is a chain of cells of the grid: it starts at a cell whose
/// magnitude reaches `strong_threshold`, every cell of it has a magnitude that
/// reaches `weak_threshold`, and each cell is adjacent to the one before it.
pub open spec fn is_chain(
    g: Seq<Seq<Edge>>,
    strong_threshold: u32,
    weak_threshold: u32,
    path: Seq<(int, int)>,
) -> bool {
    &&& path.len() > 0
    &&& in_grid(g, path[0].0, path[0].1)
    &&& g[path[0].0][path[0].1].magnitude >= strong_threshold
    &&& forall|i: int|
        0 <= i < path.len() ==> in_grid(g, (#[trigger] path[i]).0, path[i].1)
            && g[path[i].0][path[i].1].magnitude >= weak_threshold
    &&& forall|i: int| 0 < i < path.len() ==> adjacent(path[i - 1], #[trigger] path[i])
}

/// The cell `(x, y)` can be reached from a strong cell by a chain.
pub open spec fn reachable(
    g: Seq<Seq<Edge>>,
    strong_threshold: u32,
    weak_threshold: u32,
    x: int,
    y: int,
) -> bool {
    exists|path: Seq<(int, int)>|
        #[trigger] is_chain(g, strong_threshold, weak_threshold, path) && path.last() == (x, y)
}

/// What holds of the grid `out` at every point of the linking: it has the
/// shape of `g`, each of its cells holds the edge of `g` or the zero edge, and
/// every cell that holds an edge other than zero can be reached from a strong
/// cell by a chain.
pub open spec fn link_inv(
    g: Seq<Seq<Edge>>,
    out: Seq<Seq<Edge>>,
    strong_threshold: u32,
    weak_threshold: u32,
) -> bool {
    &&& same_shape(g, out)
    &&& forall|x: int, y: int|
        in_grid(g, x, y) ==> #[trigger] out[x][y] == g[x][y] || out[x][y] == Edge::spec_zero()
    &&& forall|x: int, y: int|
        in_grid(g, x, y) && (#[trigger] out[x][y]).magnitude > 0 ==> reachable(
            g,
            strong_threshold,
            weak_threshold,
            x,
            y,
        )
}

/// Every cell that holds the edge of `g` in `before` holds it in `after`.
pub open spec fn keeps_edges(g: Seq<Seq<Edge>>, before: Seq<Seq<Edge>>, after: Seq<Seq<Edge>>)
    -> bool {
    forall|x: int, y: int|
        in_grid(g, x, y) && #[trigger] before[x][y] == g[x][y] ==> after[x][y] == g[x][y]
}

/// A strong cell is reached by the chain that consists of itself.
pub proof fn lemma_seed_reachable(
    g: Seq<Seq<Edge>>,
    strong_threshold: u32,
    weak_threshold: u32,
    x: int,
    y: int,
)
    requires
        in_grid(g, x, y),
        g[x][y].magnitude >= strong_threshold,
        weak_threshold <= strong_threshold,
    ensures
        reachable(g, strong_threshold, weak_threshold, x, y),
{
    let path = seq![(x, y)];
    assert(path[0] == (x, y));
    assert(is_chain(g, strong_threshold, weak_threshold, path));
    assert(path.last() == (x, y));
}

/// A chain that reaches a cell reaches every adjacent cell whose magnitude
/// reaches `weak_threshold`.
pub proof fn lemma_reachable_step(
    g: Seq<Seq<Edge>>,
    strong_threshold: u32,
    weak_threshold: u32,
    from: (int, int),
    to: (int, int),
)
    requires
        reachable(g, strong_threshold, weak_threshold, from.0, from.1),
        adjacent(from, to),
        in_grid(g, to.0, to.1),
        g[to.0][to.1].magnitude >= weak_threshold,
    ensures
        reachable(g, strong_threshold, weak_threshold, to.0, to.1),
{
    let path = choose|path: Seq<(int, int)>|
        #[trigger] is_chain(g, strong_threshold, weak_threshold, path) && path.last() == from;
    let longer = path.push(to);
    assert forall|i: int| 0 <= i < longer.len() implies in_grid(
        g,
        (#[trigger] longer[i]).0,
        longer[i].1,
    ) && g[longer[i].0][longer[i].1].magnitude >= weak_threshold by {
        if i < path.len() {
            assert(longer[i] == path[i]);
        }
    }
    assert forall|i: int| 0 < i < longer.len() implies adjacent(
        longer[i - 1],
        #[trigger] longer[i],
    ) by {
        if i < path.len() {
            assert(longer[i] == path[i]);
            assert(longer[i - 1] == path[i - 1]);
        } else {
            assert(longer[i - 1] == path.last());
        }
    }
    assert(longer[0] == path[0]);
    assert(is_chain(g, strong_threshold, weak_threshold, longer));
    assert(longer.last() == to);
}

/// A cell that can be reached by a chain has a magnitude that reaches
/// `weak_threshold`.
pub proof fn lemma_reachable_is_weak(
    g: Seq<Seq<Edge>>,
    strong_threshold: u32,
    weak_threshold: u32,
    x: int,
    y: int,
)
    requires
        reachable(g, strong_threshold, weak_threshold, x, y),
    ensures
        in_grid(g, x, y),
        g[x][y].magnitude >= weak_threshold,
{
    let path = choose|path: Seq<(int, int)>|
        #[trigger] is_chain(g, strong_threshold, weak_threshold, path) && path.last() == (x, y);
    assert(path[path.len() - 1] == (x, y));
}

/// A candidate lies in the grid, next to the cell it is a candidate for.
pub proof fn lemma_candidate_adjacent(g: Seq<Seq<Edge>>, x: int, y: int, backward: bool, turn: int)
    ensures
        match spec_candidate(g, x, y, backward, turn) {
            Some(p) => in_grid(g, p.0, p.1) && adjacent((x, y), p),
            None => true,
        },
{
}

/// The cell that a chain goes on to lies in the grid, next to the cell the
/// chain comes from, and its magnitude is not 0.
pub proof fn lemma_next_cell_adjacent(g: Seq<Seq<Edge>>, x: int, y: int, backward: bool)
    ensures
        match spec_next_cell(g, x, y, backward) {
            Some(p) => in_grid(g, p.0, p.1) && adjacent((x, y), p) && g[p.0][p.1].magnitude > 0,
            None => true,
        },
{
    lemma_candidate_adjacent(g, x, y, backward, 1);
    lemma_candidate_adjacent(g, x, y, backward, 0);
    lemma_candidate_adjacent(g, x, y, backward, 7);
}

/// Following a chain from a cell that can be reached keeps what holds of the
/// grid `out`, leaves every edge in it, and puts the edge of the first cell
/// into it.
pub proof fn lemma_walk(
    g: Seq<Seq<Edge>>,
    out: Seq<Seq<Edge>>,
    x: int,
    y: int,
    backward: bool,
    strong_threshold: u32,
    weak_threshold: u32,
    fuel: nat,
)
    requires
        grid_wf(g),
        link_inv(g, out, strong_threshold, weak_threshold),
        in_grid(g, x, y),
        reachable(g, strong_threshold, weak_threshold, x, y),
    ensures
        link_inv(
            g,
            spec_walk(g, out, x, y, backward, weak_threshold, fuel),
            strong_threshold,
            weak_threshold,
        ),
        keeps_edges(g, out, spec_walk(g, out, x, y, backward, weak_threshold, fuel)),
        spec_walk(g, out, x, y, backward, weak_threshold, fuel)[x][y] == g[x][y],
    decreases fuel,
{
    let marked = grid_set(out, x, y, g[x][y]);
    assert(same_shape(g, marked));
    assert(marked[x][y] == g[x][y]);
    assert forall|a: int, b: int| in_grid(g, a, b) implies #[trigger] marked[a][b] == (if a == x
        && b == y {
        g[x][y]
    } else {
        out[a][b]
    }) by {
        assert(out[a].len() == g[0].len());
    }
    assert(link_inv(g, marked, strong_threshold, weak_threshold));
    assert(keeps_edges(g, out, marked));
    lemma_next_cell_adjacent(g, x, y, backward);
    match spec_next_cell(g, x, y, backward) {
        Some(p) => {
            if fuel > 0 && spec_goes_on(g, marked, p, weak_threshold) {
                lemma_reachable_step(g, strong_threshold, weak_threshold, (x, y), p);
                lemma_walk(
                    g,
                    marked,
                    p.0,
                    p.1,
                    backward,
                    strong_threshold,
                    weak_threshold,
                    (fuel - 1) as nat,
                );
                let after = spec_walk(
                    g,
                    marked,
                    p.0,
                    p.1,
                    backward,
                    weak_threshold,
                    (fuel - 1) as nat,
                );
                assert(keeps_edges(g, marked, after));
                assert(after[x][y] == g[x][y]);
                assert forall|a: int, b: int|
                    in_grid(g, a, b) && #[trigger] out[a][b] == g[a][b] implies after[a][b]
                    == g[a][b] by {
                    assert(marked[a][b] == g[a][b]);
                }
            }
        },
        None => {},
    }
}

/// Giving a cell its turn keeps what holds of the grid `out`, leaves every
/// edge in it, and puts the edge of the cell into it if that edge is strong.
pub proof fn lemma_link_cell(
    g: Seq<Seq<Edge>>,
    out: Seq<Seq<Edge>>,
    x: int,
    y: int,
    strong_threshold: u32,
    weak_threshold: u32,
)
    requires
        grid_wf(g),
        link_inv(g, out, strong_threshold, weak_threshold),
        in_grid(g, x, y),
        thresholds_valid(strong_threshold, weak_threshold),
    ensures
        link_inv(
            g,
            spec_link_cell(g, out, x, y, strong_threshold, weak_threshold),
            strong_threshold,
            weak_threshold,
        ),
        keeps_edges(g, out, spec_link_cell(g, out, x, y, strong_threshold, weak_threshold)),
        g[x][y].magnitude >= strong_threshold ==> spec_link_cell(
            g,
            out,
            x,
            y,
            strong_threshold,
            weak_threshold,
        )[x][y] == g[x][y],
{
    if g[x][y].magnitude >= strong_threshold && out[x][y].magnitude < strong_threshold {
        lemma_seed_reachable(g, strong_threshold, weak_threshold, x, y);
        lemma_walk(g, out, x, y, false, strong_threshold, weak_threshold, walk_budget(g));
        let ahead = spec_walk(g, out, x, y, false, weak_threshold, walk_budget(g));
        lemma_walk(g, ahead, x, y, true, strong_threshold, weak_threshold, walk_budget(g));
        let both = spec_walk(g, ahead, x, y, true, weak_threshold, walk_budget(g));
        assert forall|a: int, b: int|
            in_grid(g, a, b) && #[trigger] out[a][b] == g[a][b] implies both[a][b] == g[a][b] by {
            assert(ahead[a][b] == g[a][b]);
        }
    } else if g[x][y].magnitude >= strong_threshold {
        assert(out[x][y] == g[x][y] || out[x][y] == Edge::spec_zero());
    }
}

/// Giving the cells of a column from row `y` on their turn keeps what holds
/// of the grid `out`, leaves every edge in it, and puts into it every strong
/// edge of those cells.
pub proof fn lemma_link_column(
    g: Seq<Seq<Edge>>,
    out: Seq<Seq<Edge>>,
    x: int,
    y: int,
    strong_threshold: u32,
    weak_threshold: u32,
)
    requires
        grid_wf(g),
        link_inv(g, out, strong_threshold, weak_threshold),
        0 <= x < grid_width(g),
        0 <= y,
        thresholds_valid(strong_threshold, weak_threshold),
    ensures
        link_inv(
            g,
            spec_link_column(g, out, x, y, strong_threshold, weak_threshold),
            strong_threshold,
            weak_threshold,
        ),
        keeps_edges(g, out, spec_link_column(g, out, x, y, strong_threshold, weak_threshold)),
        forall|j: int|
            y <= j < grid_height(g) && g[x][j].magnitude >= strong_threshold ==> #[trigger] spec_link_column(
                g,
                out,
                x,
                y,
                strong_threshold,
                weak_threshold,
            )[x][j] == g[x][j],
    decreases grid_height(g) - y,
{
    if y < grid_height(g) {
        let next = spec_link_cell(g, out, x, y, strong_threshold, weak_threshold);
        lemma_link_cell(g, out, x, y, strong_threshold, weak_threshold);
        lemma_link_column(g, next, x, y + 1, strong_threshold, weak_threshold);
        let last = spec_link_column(g, next, x, y + 1, strong_threshold, weak_threshold);
        assert forall|a: int, b: int|
            in_grid(g, a, b) && #[trigger] out[a][b] == g[a][b] implies last[a][b] == g[a][b] by {
            assert(next[a][b] == g[a][b]);
        }
        assert forall|j: int|
            y <= j < grid_height(g) && g[x][j].magnitude >= strong_threshold implies #[trigger] last[x][j]
            == g[x][j] by {
            if j == y {
                assert(next[x][y] == g[x][y]);
            }
        }
    }
}

/// Giving the columns from `x` on their turn keeps what holds of the grid
/// `out`, leaves every edge in it, and puts into it every strong edge of
/// those columns.
pub proof fn lemma_link_columns(
    g: Seq<Seq<Edge>>,
    out: Seq<Seq<Edge>>,
    x: int,
    strong_threshold: u32,
    weak_threshold: u32,
)
    requires
        grid_wf(g),
        link_inv(g, out, strong_threshold, weak_threshold),
        0 <= x,
        thresholds_valid(strong_threshold, weak_threshold),
    ensures
        link_inv(
            g,
            spec_link_columns(g, out, x, strong_threshold, weak_threshold),
            strong_threshold,
            weak_threshold,
        ),
        keeps_edges(g, out, spec_link_columns(g, out, x, strong_threshold, weak_threshold)),
        forall|i: int, j: int|
            x <= i && in_grid(g, i, j) && g[i][j].magnitude >= strong_threshold ==> #[trigger] spec_link_columns(
                g,
                out,
                x,
                strong_threshold,
                weak_threshold,
            )[i][j] == g[i][j],
    decreases grid_width(g) - x,
{
    if x < grid_width(g) {
        let next = spec_link_column(g, out, x, 0, strong_threshold, weak_threshold);
        lemma_link_column(g, out, x, 0, strong_threshold, weak_threshold);
        lemma_link_columns(g, next, x + 1, strong_threshold, weak_threshold);
        let last = spec_link_columns(g, next, x + 1, strong_threshold, weak_threshold);
        assert forall|a: int, b: int|
            in_grid(g, a, b) && #[trigger] out[a][b] == g[a][b] implies last[a][b] == g[a][b] by {
            assert(next[a][b] == g[a][b]);
        }
        assert forall|i: int, j: int|
            x <= i && in_grid(g, i, j) && g[i][j].magnitude >= strong_threshold implies #[trigger] last[i][j]
            == g[i][j] by {
            if i == x {
                assert(next[x][j] == g[x][j]);
            }
        }
    }
}

/// The linked grid holds every strong edge, holds nothing but edges of the
/// input, and every cell that it keeps can be reached from a strong cell by
/// a chain of adjacent cells whose magnitudes reach the weak threshold.
pub proof fn lemma_linked(g: Seq<Seq<Edge>>, strong_threshold: u32, weak_threshold: u32)
    requires
        grid_wf(g),
        thresholds_valid(strong_threshold, weak_threshold),
    ensures
        link_inv(
            g,
            spec_linked(g, strong_threshold, weak_threshold),
            strong_threshold,
            weak_threshold,
        ),
        forall|x: int, y: int|
            in_grid(g, x, y) && g[x][y].magnitude >= strong_threshold ==> #[trigger] spec_linked(
                g,
                strong_threshold,
                weak_threshold,
            )[x][y] == g[x][y],
        forall|x: int, y: int|
            in_grid(g, x, y) && (#[trigger] spec_linked(
                g,
                strong_threshold,
                weak_threshold,
            )[x][y]).magnitude > 0 ==> g[x][y].magnitude >= weak_threshold,
{
    let start = zero_grid(grid_width(g), grid_height(g));
    assert(link_inv(g, start, strong_threshold, weak_threshold));
    lemma_link_columns(g, start, 0, strong_threshold, weak_threshold);
    let linked = spec_linked(g, strong_threshold, weak_threshold);
    assert forall|x: int, y: int|
        in_grid(g, x, y) && (#[trigger] linked[x][y]).magnitude > 0 implies g[x][y].magnitude
        >= weak_threshold by {
        lemma_reachable_is_weak(g, strong_threshold, weak_threshold, x, y);
    }
}

/// No cell of the grid has a magnitude from `lower` to `higher`.
pub open spec fn none_between(g: Seq<Seq<Edge>>, lower: u32, higher: u32) -> bool {
    forall|x: int, y: int|
        in_grid(g, x, y) ==> (#[trigger] g[x][y]).magnitude < lower || g[x][y].magnitude > higher
}

/// The grid `out` has the shape of `g`, and each of its cells holds the edge
/// of `g` or the zero edge.
pub open spec fn holds_edges_of(g: Seq<Seq<Edge>>, out: Seq<Seq<Edge>>) -> bool {
    &&& same_shape(g, out)
    &&& forall|x: int, y: int|
        in_grid(g, x, y) ==> #[trigger] out[x][y] == g[x][y] || out[x][y] == Edge::spec_zero()
}

/// A chain is followed alike with two weak thresholds between which no
/// magnitude of the grid lies.
pub proof fn lemma_walk_same_between(
    g: Seq<Seq<Edge>>,
    out: Seq<Seq<Edge>>,
    x: int,
    y: int,
    backward: bool,
    lower: u32,
    higher: u32,
    fuel: nat,
)
    requires
        grid_wf(g),
        holds_edges_of(g, out),
        in_grid(g, x, y),
        lower <= higher,
        none_between(g, lower, higher),
    ensures
        spec_walk(g, out, x, y, backward, lower, fuel) == spec_walk(
            g,
            out,
            x,
            y,
            backward,
            higher,
            fuel,
        ),
        holds_edges_of(g, spec_walk(g, out, x, y, backward, lower, fuel)),
    decreases fuel,
{
    let marked = grid_set(out, x, y, g[x][y]);
    assert(same_shape(g, marked));
    assert forall|a: int, b: int| in_grid(g, a, b) implies #[trigger] marked[a][b] == g[a][b]
        || marked[a][b] == Edge::spec_zero() by {
        assert(out[a].len() == g[0].len());
        assert(out[a][b] == g[a][b] || out[a][b] == Edge::spec_zero());
    }
    lemma_next_cell_adjacent(g, x, y, backward);
    match spec_next_cell(g, x, y, backward) {
        Some(p) => {
            assert(marked[p.0][p.1] == g[p.0][p.1] || marked[p.0][p.1] == Edge::spec_zero());
            assert(g[p.0][p.1].magnitude < lower || g[p.0][p.1].magnitude > higher);
            assert(spec_goes_on(g, marked, p, lower) == spec_goes_on(g, marked, p, higher));
            if fuel > 0 && spec_goes_on(g, marked, p, lower) {
                lemma_walk_same_between(
                    g,
                    marked,
                    p.0,
                    p.1,
                    backward,
                    lower,
                    higher,
                    (fuel - 1) as nat,
                );
            }
        },
        None => {},
    }
}

/// A cell has its turn alike with two weak thresholds between which no
/// magnitude of the grid lies.
proof fn lemma_link_cell_same_between(
    g: Seq<Seq<Edge>>,
    out: Seq<Seq<Edge>>,
    x: int,
    y: int,
    strong_threshold: u32,
    lower: u32,
    higher: u32,
)
    requires
        grid_wf(g),
        holds_edges_of(g, out),
        in_grid(g, x, y),
        lower <= higher,
        none_between(g, lower, higher),
    ensures
        spec_link_cell(g, out, x, y, strong_threshold, lower) == spec_link_cell(
            g,
            out,
            x,
            y,
            strong_threshold,
            higher,
        ),
        holds_edges_of(g, spec_link_cell(g, out, x, y, strong_threshold, lower)),
{
    if g[x][y].magnitude >= strong_threshold && out[x][y].magnitude < strong_threshold {
        lemma_walk_same_between(g, out, x, y, false, lower, higher, walk_budget(g));
        let ahead = spec_walk(g, out, x, y, false, lower, walk_budget(g));
        lemma_walk_same_between(g, ahead, x, y, true, lower, higher, walk_budget(g));
    }
}

/// The cells of a column have their turn alike with two weak thresholds
/// between which no magnitude of the grid lies.
proof fn lemma_link_column_same_between(
    g: Seq<Seq<Edge>>,
    out: Seq<Seq<Edge>>,
    x: int,
    y: int,
    strong_threshold: u32,
    lower: u32,
    higher: u32,
)
    requires
        grid_wf(g),
        holds_edges_of(g, out),
        0 <= x < grid_width(g),
        0 <= y,
        lower <= higher,
        none_between(g, lower, higher),
    ensures
        spec_link_column(g, out, x, y, strong_threshold, lower) == spec_link_column(
            g,
            out,
            x,
            y,
            strong_threshold,
            higher,
        ),
        holds_edges_of(g, spec_link_column(g, out, x, y, strong_threshold, lower)),
    decreases grid_height(g) - y,
{
    if y < grid_height(g) {
        lemma_link_cell_same_between(g, out, x, y, strong_threshold, lower, higher);
        let next = spec_link_cell(g, out, x, y, strong_threshold, lower);
        lemma_link_column_same_between(g, next, x, y + 1, strong_threshold, lower, higher);
    }
}

/// The columns have their turn alike with two weak thresholds between which
/// no magnitude of the grid lies.
proof fn lemma_link_columns_same_between(
    g: Seq<Seq<Edge>>,
    out: Seq<Seq<Edge>>,
    x: int,
    strong_threshold: u32,
    lower: u32,
    higher: u32,
)
    requires
        grid_wf(g),
        holds_edges_of(g, out),
        0 <= x,
        lower <= higher,
        none_between(g, lower, higher),
    ensures
        spec_link_columns(g, out, x, strong_threshold, lower) == spec_link_columns(
            g,
            out,
            x,
            strong_threshold,
            higher,
        ),
    decreases grid_width(g) - x,
{
    if x < grid_width(g) {
        lemma_link_column_same_between(g, out, x, 0, strong_threshold, lower, higher);
        let next = spec_link_column(g, out, x, 0, strong_threshold, lower);
        lemma_link_columns_same_between(g, next, x + 1, strong_threshold, lower, higher);
    }
}

/// Raising the weak threshold keeps no more cells, and indeed the same
/// cells, as long as it does not pass the magnitude of a cell: two weak
/// thresholds between which no magnitude of the grid lies give the same
/// linked grid. Where the threshold passes a magnitude, chains end at other
/// cells, and a later chain may then run further than before.
pub proof fn lemma_linked_same_between(
    g: Seq<Seq<Edge>>,
    strong_threshold: u32,
    lower: u32,
    higher: u32,
)
    requires
        grid_wf(g),
        lower <= higher,
        none_between(g, lower, higher),
    ensures
        spec_linked(g, strong_threshold, lower) == spec_linked(g, strong_threshold, higher),
        count_edges(spec_linked(g, strong_threshold, higher)) <= count_edges(
            spec_linked(g, strong_threshold, lower),
        ),
{
    let start = zero_grid(grid_width(g), grid_height(g));
    assert(holds_edges_of(g, start));
    lemma_link_columns_same_between(g, start, 0, strong_threshold, lower, higher);
}

/// The step to the neighbouring cell at the bearing `bearing`, counted in
/// eighths of a full turn.
pub fn neighbour_pos_delta(bearing: u8) -> (d: (i32, i32))
    ensures
        (d.0 as int, d.1 as int) == spec_neighbour_delta(bearing as int),
        -1 <= d.0 <= 1,
        -1 <= d.1 <= 1,
        d != (0i32, 0i32),
{
    let b: u8 = bearing % 8;
    if b == 0 {
        (1, 0)
    } else if b == 1 {
        (1, 1)
    } else if b == 2 {
        (0, 1)
    } else if b == 3 {
        (-1, 1)
    } else if b == 4 {
        (-1, 0)
    } else if b == 5 {
        (-1, -1)
    } else if b == 6 {
        (0, -1)
    } else {
        (1, -1)
    }
}

/// Checks that the thresholds are in order and strictly between 0 and `ONE`.
pub fn check_thresholds(strong_threshold: u32, weak_threshold: u32) -> (ok: bool)
    ensures
        ok == thresholds_valid(strong_threshold, weak_threshold),
{
    0 < weak_threshold && weak_threshold < strong_threshold && strong_threshold < ONE
}

/// One of the three cells ahead of `(x, y)`, if it lies in the grid.
fn candidate(det: &Detection, x: usize, y: usize, backward: bool, turn: u8) -> (c: Option<
    (usize, usize),
>)
    requires
        det.wf(),
        in_grid(det@, x as int, y as int),
        turn < 8,
    ensures
        match c {
            Some(p) => spec_candidate(det@, x as int, y as int, backward, turn as int) == Some(
                (p.0 as int, p.1 as int),
            ),
            None => spec_candidate(det@, x as int, y as int, backward, turn as int).is_none(),
        },
{
    let e = det.at(x, y);
    let side: u8 = if backward {
        4
    } else {
        0
    };
    let d = neighbour_pos_delta(e.octant() + 2 + side + turn);
    let nx: i128 = x as i128 + d.0 as i128;
    let ny: i128 = y as i128 + d.1 as i128;
    if 0 <= nx && nx < det.width() as i128 && 0 <= ny && ny < det.height() as i128 {
        Some((nx as usize, ny as usize))
    } else {
        None
    }
}

/// The better of the best cell so far and a candidate.
fn pick(det: &Detection, best: Option<(usize, usize)>, cand: Option<(usize, usize)>) -> (r: Option<
    (usize, usize),
>)
    requires
        det.wf(),
        best.is_some() ==> in_grid(det@, best.unwrap().0 as int, best.unwrap().1 as int),
        cand.is_some() ==> in_grid(det@, cand.unwrap().0 as int, cand.unwrap().1 as int),
    ensures
        spec_cell(r) == spec_pick(det@, spec_cell(best), spec_cell(cand)),
        r.is_some() ==> in_grid(det@, r.unwrap().0 as int, r.unwrap().1 as int),
{
    match cand {
        Some(p) => {
            let top: u32 = match best {
                Some(b) => det.at(b.0, b.1).magnitude,
                None => 0,
            };
            if det.at(p.0, p.1).magnitude > top {
                Some(p)
            } else {
                best
            }
        },
        None => best,
    }
}

/// The cell that a chain through `(x, y)` goes on to, if there is one.
pub fn next_cell(det: &Detection, x: usize, y: usize, backward: bool) -> (r: Option<
    (usize, usize),
>)
    requires
        det.wf(),
        in_grid(det@, x as int, y as int),
    ensures
        spec_cell(r) == spec_next_cell(det@, x as int, y as int, backward),
        r.is_some() ==> in_grid(det@, r.unwrap().0 as int, r.unwrap().1 as int),
{
    let c1 = candidate(det, x, y, backward, 1);
    let c2 = candidate(det, x, y, backward, 0);
    let c3 = candidate(det, x, y, backward, 7);
    proof {
        lemma_candidate_adjacent(det@, x as int, y as int, backward, 1);
        lemma_candidate_adjacent(det@, x as int, y as int, backward, 0);
        lemma_candidate_adjacent(det@, x as int, y as int, backward, 7);
    }
    let first = pick(det, None, c1);
    let second = pick(det, first, c2);
    pick(det, second, c3)
}

/// Follows the chain through the cell `(x, y)` on one side and copies the
/// edge of every cell on it from `det` to `out`.
fn follow(
    det: &Detection,
    out: &mut Detection,
    x: usize,
    y: usize,
    backward: bool,
    weak_threshold: u32,
)
    requires
        det.wf(),
        old(out).wf(),
        same_shape(det@, old(out)@),
        in_grid(det@, x as int, y as int),
    ensures
        final(out).wf(),
        same_shape(det@, final(out)@),
        final(out)@ == spec_walk(
            det@,
            old(out)@,
            x as int,
            y as int,
            backward,
            weak_threshold,
            walk_budget(det@),
        ),
{
    let width = det.width();
    let height = det.height();
    assert((width as u128) * (height as u128) <= u128::MAX) by (nonlinear_arith)
        requires
            width <= 0xffff_ffff_ffff_ffff,
            height <= 0xffff_ffff_ffff_ffff,
    ;
    let mut fuel: u128 = (width as u128) * (height as u128);
    let mut cx: usize = x;
    let mut cy: usize = y;
    let ghost target = spec_walk(
        det@,
        out@,
        x as int,
        y as int,
        backward,
        weak_threshold,
        walk_budget(det@),
    );
    loop
        invariant_except_break
            det.wf(),
            out.wf(),
            same_shape(det@, out@),
            in_grid(det@, cx as int, cy as int),
            target == spec_walk(
                det@,
                out@,
                cx as int,
                cy as int,
                backward,
                weak_threshold,
                fuel as nat,
            ),
        ensures
            out.wf(),
            same_shape(det@, out@),
            target == out@,
        decreases fuel,
    {
        let ghost before = out@;
        let edge = det.at(cx, cy);
        out.set(cx, cy, edge);
        assert(same_shape(det@, out@)) by {
            assert forall|i: int| 0 <= i < out@.len() implies (#[trigger] out@[i]).len()
                == det@[0].len() by {
                assert(before[i].len() == det@[0].len());
            }
        }
        match next_cell(det, cx, cy, backward) {
            Some(p) => {
                assert(out@[p.0 as int].len() == det@[0].len());
                if fuel == 0 || det.at(p.0, p.1).magnitude < weak_threshold || out.at(
                    p.0,
                    p.1,
                ).magnitude > weak_threshold {
                    break ;
                }
                cx = p.0;
                cy = p.1;
                fuel = fuel - 1;
            },
            None => {
                break ;
            },
        }
    }
}

/// Links edges into chains and discards the rest.
///
/// Every cell whose magnitude reaches `strong_threshold` starts a chain,
/// unless an earlier chain has passed it. A chain is followed on both sides
/// of its first cell, from each cell to the best of the three cells ahead,
/// until that cell is below `weak_threshold` or is held above it already. The
/// result holds the edges of the cells on the chains and the zero edge
/// elsewhere.
pub fn hysteresis(det: &Detection, strong_threshold: u32, weak_threshold: u32) -> (linked:
    Detection)
    requires
        det.wf(),
        thresholds_valid(strong_threshold, weak_threshold),
    ensures
        linked.wf(),
        same_shape(det@, linked@),
        linked@ == spec_linked(det@, strong_threshold, weak_threshold),
        forall|x: int, y: int|
            in_grid(det@, x, y) ==> #[trigger] linked@[x][y] == det@[x][y] || linked@[x][y]
                == Edge::spec_zero(),
        forall|x: int, y: int|
            in_grid(det@, x, y) && det@[x][y].magnitude >= strong_threshold
                ==> #[trigger] linked@[x][y] == det@[x][y],
        forall|x: int, y: int|
            in_grid(det@, x, y) && (#[trigger] linked@[x][y]).magnitude > 0 ==> reachable(
                det@,
                strong_threshold,
                weak_threshold,
                x,
                y,
            ) && linked@[x][y].magnitude >= weak_threshold,
{
    let width = det.width();
    let height = det.height();
    let mut out = Detection::zeroed(width, height);
    let ghost target = spec_linked(det@, strong_threshold, weak_threshold);
    let mut x: usize = 0;
    while x < width
        invariant
            det.wf(),
            out.wf(),
            same_shape(det@, out@),
            width == det.spec_width(),
            height == det.spec_height(),
            x <= width,
            target == spec_link_columns(det@, out@, x as int, strong_threshold, weak_threshold),
        decreases width - x,
    {
        let mut y: usize = 0;
        while y < height
            invariant
                det.wf(),
                out.wf(),
                same_shape(det@, out@),
                width == det.spec_width(),
                height == det.spec_height(),
                x < width,
                y <= height,
                target == spec_link_columns(
                    det@,
                    spec_link_column(
                        det@,
                        out@,
                        x as int,
                        y as int,
                        strong_threshold,
                        weak_threshold,
                    ),
                    x + 1,
                    strong_threshold,
                    weak_threshold,
                ),
            decreases height - y,
        {
            assert(out@[x as int].len() == det@[0].len());
            if det.at(x, y).magnitude >= strong_threshold && out.at(x, y).magnitude
                < strong_threshold {
                follow(det, &mut out, x, y, false, weak_threshold);
                follow(det, &mut out, x, y, true, weak_threshold);
            }
            y += 1;
        }
        x += 1;
    }
    proof {
        lemma_linked(det@, strong_threshold, weak_threshold);
    }
    out
}

} // verus!
