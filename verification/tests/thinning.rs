use canny_edge::detection::Detection;
use canny_edge::edge::Edge;
use canny_edge::thinning::{is_apex, minmax_suppression, thin_cell, thin_column};

fn edge(vec_x: i32, vec_y: i32, magnitude: u32) -> Edge {
    Edge { vec_x, vec_y, magnitude }
}

/// A grid of one row in which every edge has the direction `dir`.
fn row(magnitudes: &[u32], dir: (i32, i32)) -> Detection {
    let columns = magnitudes.iter().map(|m| vec![edge(dir.0, dir.1, *m)]).collect();
    Detection::from_columns(columns).unwrap()
}

fn magnitudes(d: &Detection) -> Vec<Vec<u32>> {
    d.edges.iter().map(|column| column.iter().map(|e| e.magnitude).collect()).collect()
}

#[test]
fn cells_below_the_weak_threshold_are_dropped() {
    let d = row(&[10_000, 50_000, 90_000, 50_000, 10_000], (100_000, 0));
    let thinned = minmax_suppression(&d, 95_000);
    assert_eq!(magnitudes(&thinned), vec![vec![0], vec![0], vec![0], vec![0], vec![0]]);
}

#[test]
fn a_cell_at_the_weak_threshold_is_not_dropped() {
    let d = row(&[10_000, 50_000, 90_000, 50_000, 10_000], (100_000, 0));
    let thinned = minmax_suppression(&d, 90_000);
    assert_eq!(magnitudes(&thinned), vec![vec![0], vec![0], vec![90_000], vec![0], vec![0]]);
}

#[test]
fn the_apex_of_a_ridge_is_kept_with_its_edge() {
    let d = row(&[10_000, 50_000, 90_000, 50_000, 10_000], (100_000, 0));
    let thinned = minmax_suppression(&d, 20_000);
    assert_eq!(thinned.at(2, 0), edge(100_000, 0, 90_000));
    assert_eq!(thinned.at(3, 0), Edge::zero());
    assert_eq!(thinned.at(0, 0), Edge::zero());
    assert_eq!(thinned.at(4, 0), Edge::zero());
}

#[test]
fn along_an_axis_the_forward_side_may_be_one_step_longer() {
    // from cell 1 the walk along the edge ends after 2 steps, the walk against
    // it after 1 step
    let d = row(&[10_000, 50_000, 90_000, 50_000, 10_000], (100_000, 0));
    assert!(!is_apex(&d, 0, 0));
    assert!(is_apex(&d, 1, 0));
    assert!(is_apex(&d, 2, 0));
    assert!(!is_apex(&d, 3, 0));
    assert!(!is_apex(&d, 4, 0));
    let thinned = minmax_suppression(&d, 20_000);
    assert_eq!(
        magnitudes(&thinned),
        vec![vec![0], vec![50_000], vec![90_000], vec![0], vec![0]]
    );
}

#[test]
fn of_an_even_ridge_along_an_axis_the_cell_on_the_dark_side_is_kept() {
    let d = row(&[10_000, 90_000, 90_000, 10_000], (100_000, 0));
    let thinned = minmax_suppression(&d, 20_000);
    assert_eq!(magnitudes(&thinned), vec![vec![0], vec![90_000], vec![0], vec![0]]);

    let d = row(&[10_000, 90_000, 90_000, 10_000], (-100_000, 0));
    let thinned = minmax_suppression(&d, 20_000);
    assert_eq!(magnitudes(&thinned), vec![vec![0], vec![0], vec![90_000], vec![0]]);
}

#[test]
fn of_an_even_ridge_off_the_axes_no_cell_is_kept() {
    let d = row(&[10_000, 90_000, 90_000, 10_000], (70_710, 70_710));
    let thinned = minmax_suppression(&d, 20_000);
    assert_eq!(magnitudes(&thinned), vec![vec![0], vec![0], vec![0], vec![0]]);
}

#[test]
fn a_walk_that_sees_no_change_ends_on_neither_side_and_the_cell_is_dropped() {
    // the edges point along y, where the grid has a single row
    let d = row(&[10_000, 90_000, 90_000, 10_000], (0, 100_000));
    for x in 0..4 {
        assert!(!is_apex(&d, x, 0));
    }
    let thinned = minmax_suppression(&d, 20_000);
    assert_eq!(magnitudes(&thinned), vec![vec![0], vec![0], vec![0], vec![0]]);
}

#[test]
fn two_ridges_side_by_side() {
    let d = row(&[10_000, 80_000, 30_000, 90_000, 20_000], (100_000, 0));
    let thinned = minmax_suppression(&d, 20_000);
    assert_eq!(
        magnitudes(&thinned),
        vec![vec![0], vec![80_000], vec![30_000], vec![90_000], vec![0]]
    );
}

#[test]
fn a_single_cell_is_no_apex() {
    let d = row(&[50_000], (100_000, 0));
    assert!(!is_apex(&d, 0, 0));
    let thinned = minmax_suppression(&d, 20_000);
    assert_eq!(thinned.at(0, 0), Edge::zero());
}

#[test]
fn on_a_plateau_no_cell_is_kept() {
    let d = row(&[50_000, 50_000], (100_000, 0));
    let thinned = minmax_suppression(&d, 20_000);
    assert_eq!(magnitudes(&thinned), vec![vec![0], vec![0]]);
}

#[test]
fn on_a_wide_plateau_no_cell_is_kept() {
    let d = Detection::from_columns(vec![vec![edge(60_000, 80_000, 50_000); 30]; 40]).unwrap();
    for weak in [1, 20_000, 50_000, 50_001] {
        let thinned = minmax_suppression(&d, weak);
        assert_eq!(thinned.edges, Detection::zeroed(40, 30).edges);
    }
}

#[test]
fn a_walk_in_the_smallest_steps_comes_to_an_end() {
    let d = Detection::from_columns(vec![vec![edge(1, 0, 50_000); 3]; 3]).unwrap();
    let thinned = minmax_suppression(&d, 20_000);
    assert_eq!(thinned.edges, Detection::zeroed(3, 3).edges);
}

#[test]
fn a_walk_that_does_not_move_comes_to_an_end() {
    let d = Detection::from_columns(vec![vec![edge(0, 0, 50_000); 2]; 2]).unwrap();
    let thinned = minmax_suppression(&d, 20_000);
    assert_eq!(thinned.edges, Detection::zeroed(2, 2).edges);
}

#[test]
fn on_a_slope_that_runs_to_the_border_no_cell_is_kept() {
    // from the foot neither walk ends; from the other cells only the walk
    // down the slope ends
    let d = row(&[10_000, 20_000, 30_000, 40_000], (100_000, 0));
    let thinned = minmax_suppression(&d, 5_000);
    assert_eq!(magnitudes(&thinned), vec![vec![0], vec![0], vec![0], vec![0]]);
}

#[test]
fn a_horizontal_ridge() {
    let column: Vec<Edge> =
        [10_000, 40_000, 80_000, 40_000, 10_000].iter().map(|m| edge(0, 100_000, *m)).collect();
    let d = Detection::from_columns(vec![column.clone(), column.clone(), column]).unwrap();
    let thinned = minmax_suppression(&d, 20_000);
    let kept = vec![0, 40_000, 80_000, 0, 0];
    assert_eq!(magnitudes(&thinned), vec![kept.clone(), kept.clone(), kept]);
}

#[test]
fn a_horizontal_ridge_of_even_width() {
    let column: Vec<Edge> =
        [10_000, 80_000, 80_000, 10_000].iter().map(|m| edge(0, -100_000, *m)).collect();
    let d = Detection::from_columns(vec![column.clone(), column]).unwrap();
    let thinned = minmax_suppression(&d, 20_000);
    assert_eq!(magnitudes(&thinned), vec![vec![0, 0, 80_000, 0], vec![0, 0, 80_000, 0]]);
}

#[test]
fn a_diagonal_ridge() {
    let profile = [5_000, 30_000, 90_000, 30_000, 5_000];
    let mut columns = Vec::new();
    for x in 0..5usize {
        let mut column = Vec::new();
        for y in 0..5usize {
            let across = (x + y).saturating_sub(2).min(4);
            column.push(edge(70_710, 70_710, profile[across]));
        }
        columns.push(column);
    }
    let d = Detection::from_columns(columns).unwrap();
    let thinned = minmax_suppression(&d, 20_000);
    for x in 0..5usize {
        for y in 0..5usize {
            let expected = if x + y == 4 { edge(70_710, 70_710, 90_000) } else { Edge::zero() };
            assert_eq!(thinned.at(x, y), expected);
        }
    }
}

#[test]
fn every_cell_is_the_input_edge_or_zero() {
    let d = row(&[10_000, 80_000, 30_000, 90_000, 20_000], (100_000, 0));
    let thinned = minmax_suppression(&d, 20_000);
    assert_eq!(thinned.width(), d.width());
    assert_eq!(thinned.height(), d.height());
    for x in 0..d.width() {
        let e = thinned.at(x, 0);
        assert!(e == d.at(x, 0) || e == Edge::zero());
    }
}

#[test]
fn a_higher_threshold_keeps_no_more_cells() {
    let d = row(&[10_000, 80_000, 30_000, 90_000, 20_000], (100_000, 0));
    let thresholds = [1, 10_000, 20_000, 30_000, 30_001, 80_000, 90_000, 90_001];
    let mut before: Option<Detection> = None;
    for weak in thresholds {
        let thinned = minmax_suppression(&d, weak);
        if let Some(lower) = &before {
            for x in 0..d.width() {
                if thinned.at(x, 0) != Edge::zero() {
                    assert_eq!(thinned.at(x, 0), lower.at(x, 0));
                }
            }
        }
        before = Some(thinned);
    }
}

#[test]
fn thin_cell_and_thin_column_agree_with_the_whole() {
    let column: Vec<Edge> =
        [10_000, 40_000, 80_000, 40_000, 10_000].iter().map(|m| edge(0, 100_000, *m)).collect();
    let d = Detection::from_columns(vec![column.clone(), column]).unwrap();
    let thinned = minmax_suppression(&d, 20_000);
    for x in 0..2 {
        assert_eq!(thin_column(&d, x, 20_000), thinned.edges[x]);
        for y in 0..5 {
            assert_eq!(thin_cell(&d, x, y, 20_000), thinned.at(x, y));
        }
    }
}
