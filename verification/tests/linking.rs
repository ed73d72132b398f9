use canny_edge::detection::Detection;
use canny_edge::edge::Edge;
use canny_edge::linking::{check_thresholds, hysteresis, neighbour_pos_delta, next_cell};

fn edge(vec_x: i32, vec_y: i32, magnitude: u32) -> Edge {
    Edge { vec_x, vec_y, magnitude }
}

fn magnitudes(d: &Detection) -> Vec<Vec<u32>> {
    d.edges.iter().map(|column| column.iter().map(|e| e.magnitude).collect()).collect()
}

fn count(d: &Detection) -> usize {
    d.edges.iter().map(|column| column.iter().filter(|e| e.magnitude > 0).count()).sum()
}

/// A grid in which every edge has the direction `dir` and the magnitude 5.
fn even_grid(dir: (i32, i32)) -> Detection {
    Detection::from_columns(vec![vec![edge(dir.0, dir.1, 5); 3]; 3]).unwrap()
}

/// Five columns and rows with a vertical line in column 1 and a lone weak
/// edge in a corner.
fn line_grid() -> Detection {
    let mut d = Detection::zeroed(5, 5);
    let line = [30_000, 30_000, 90_000, 30_000, 30_000];
    for (y, m) in line.iter().enumerate() {
        d.set(1, y, edge(100_000, 0, *m));
    }
    d.set(4, 4, edge(100_000, 0, 30_000));
    d
}

#[test]
fn neighbour_pos_delta_goes_round_in_eighths() {
    assert_eq!(neighbour_pos_delta(0), (1, 0));
    assert_eq!(neighbour_pos_delta(1), (1, 1));
    assert_eq!(neighbour_pos_delta(2), (0, 1));
    assert_eq!(neighbour_pos_delta(3), (-1, 1));
    assert_eq!(neighbour_pos_delta(4), (-1, 0));
    assert_eq!(neighbour_pos_delta(5), (-1, -1));
    assert_eq!(neighbour_pos_delta(6), (0, -1));
    assert_eq!(neighbour_pos_delta(7), (1, -1));
}

#[test]
fn neighbour_pos_delta_wraps_after_a_full_turn() {
    assert_eq!(neighbour_pos_delta(8), (1, 0));
    assert_eq!(neighbour_pos_delta(13), (-1, -1));
    assert_eq!(neighbour_pos_delta(255), (1, -1));
}

#[test]
fn thresholds_must_be_in_order_and_inside_the_unit_interval() {
    assert!(check_thresholds(40_000, 20_000));
    assert!(check_thresholds(99_999, 1));
    assert!(!check_thresholds(40_000, 0));
    assert!(!check_thresholds(100_000, 20_000));
    assert!(!check_thresholds(40_000, 40_000));
    assert!(!check_thresholds(0, 0));
    assert!(!check_thresholds(u32::MAX, 20_000));
}

#[test]
fn swapped_thresholds_are_refused() {
    let pairs = [(40_000, 20_000), (99_999, 1), (50_000, 49_999), (2, 1)];
    for (strong, weak) in pairs {
        assert!(check_thresholds(strong, weak));
        assert!(!check_thresholds(weak, strong));
    }
}

#[test]
fn next_cell_picks_the_strongest_of_three_cells_ahead() {
    let mut columns = Vec::new();
    for x in 0..3u32 {
        let mut column = Vec::new();
        for y in 0..3u32 {
            column.push(edge(100_000, 0, 10_000 + 1_000 * (3 * x + y)));
        }
        columns.push(column);
    }
    let d = Detection::from_columns(columns).unwrap();
    assert_eq!(next_cell(&d, 1, 1, false), Some((2, 2)));
    assert_eq!(next_cell(&d, 1, 1, true), Some((2, 0)));
    assert_eq!(next_cell(&d, 0, 0, false), Some((1, 1)));
    assert_eq!(next_cell(&d, 1, 0, false), Some((2, 1)));
}

#[test]
fn next_cell_is_none_where_all_cells_ahead_are_outside() {
    let d = even_grid((100_000, 0));
    assert_eq!(next_cell(&d, 0, 0, true), None);
    assert_eq!(next_cell(&d, 2, 2, false), None);
    assert_eq!(next_cell(&d, 1, 2, false), None);
}

#[test]
fn next_cell_is_none_where_all_cells_ahead_are_zero() {
    let d = Detection::from_columns(vec![vec![edge(100_000, 0, 0); 3]; 3]).unwrap();
    assert_eq!(next_cell(&d, 1, 1, false), None);
    assert_eq!(next_cell(&d, 1, 1, true), None);
}

#[test]
fn next_cell_takes_the_first_of_equals() {
    // the first candidate is the one an eighth of a turn further round
    assert_eq!(next_cell(&even_grid((100_000, 0)), 1, 1, false), Some((0, 2)));
    assert_eq!(next_cell(&even_grid((100_000, 0)), 1, 1, true), Some((2, 0)));
}

#[test]
fn next_cell_travels_a_quarter_turn_from_the_edge_direction() {
    let cases = [
        ((100_000, 0), (0, 2), (2, 0)),
        ((70_710, 70_710), (0, 1), (2, 1)),
        ((0, 100_000), (0, 0), (2, 2)),
        ((-70_710, 70_710), (1, 0), (1, 2)),
        ((-100_000, 0), (2, 0), (0, 2)),
        ((-70_710, -70_710), (2, 1), (0, 1)),
        ((0, -100_000), (2, 2), (0, 0)),
        ((70_710, -70_710), (1, 2), (1, 0)),
    ];
    for (dir, ahead, behind) in cases {
        let d = even_grid(dir);
        assert_eq!(next_cell(&d, 1, 1, false), Some(ahead));
        assert_eq!(next_cell(&d, 1, 1, true), Some(behind));
    }
}

#[test]
fn weak_edges_connected_to_a_strong_edge_are_kept() {
    let d = line_grid();
    let linked = hysteresis(&d, 80_000, 20_000);
    assert_eq!(
        magnitudes(&linked),
        vec![
            vec![0, 0, 0, 0, 0],
            vec![30_000, 30_000, 90_000, 30_000, 30_000],
            vec![0, 0, 0, 0, 0],
            vec![0, 0, 0, 0, 0],
            vec![0, 0, 0, 0, 0],
        ]
    );
    for y in 0..5 {
        assert_eq!(linked.at(1, y), d.at(1, y));
    }
}

#[test]
fn a_lone_weak_edge_is_discarded() {
    let d = line_grid();
    let linked = hysteresis(&d, 80_000, 20_000);
    assert_eq!(d.at(4, 4).magnitude, 30_000);
    assert_eq!(linked.at(4, 4), Edge::zero());
}

#[test]
fn edges_below_the_weak_threshold_end_a_chain() {
    let linked = hysteresis(&line_grid(), 80_000, 35_000);
    assert_eq!(count(&linked), 1);
    assert_eq!(linked.at(1, 2), edge(100_000, 0, 90_000));
}

#[test]
fn an_edge_at_the_weak_threshold_continues_a_chain() {
    let linked = hysteresis(&line_grid(), 80_000, 30_000);
    assert_eq!(count(&linked), 5);
}

#[test]
fn without_a_strong_edge_nothing_is_kept() {
    let linked = hysteresis(&line_grid(), 95_000, 20_000);
    assert_eq!(count(&linked), 0);
    assert_eq!(linked.width(), 5);
    assert_eq!(linked.height(), 5);
}

#[test]
fn an_edge_at_the_strong_threshold_starts_a_chain() {
    let linked = hysteresis(&line_grid(), 90_000, 20_000);
    assert_eq!(count(&linked), 5);
}

#[test]
fn a_chain_follows_the_direction_of_each_edge() {
    let mut d = Detection::zeroed(4, 4);
    d.set(0, 0, edge(100_000, 0, 90_000));
    d.set(1, 1, edge(70_710, -70_710, 50_000));
    d.set(2, 2, edge(70_710, -70_710, 50_000));
    d.set(3, 3, edge(0, -100_000, 50_000));
    d.set(3, 0, edge(100_000, 0, 50_000));
    let linked = hysteresis(&d, 80_000, 20_000);
    assert_eq!(
        magnitudes(&linked),
        vec![
            vec![90_000, 0, 0, 0],
            vec![0, 50_000, 0, 0],
            vec![0, 0, 50_000, 0],
            vec![0, 0, 0, 50_000],
        ]
    );
}

#[test]
fn every_strong_edge_is_kept_and_nothing_is_invented() {
    let d = Detection::from_columns(vec![
        vec![edge(-70_710, -70_710, 90_000), edge(-100_000, 0, 30_000), edge(-70_710, -70_710, 90_000)],
        vec![edge(0, 100_000, 90_000), edge(-100_000, 0, 40_000), edge(-100_000, 0, 40_000)],
    ])
    .unwrap();
    let linked = hysteresis(&d, 80_000, 20_000);
    for x in 0..2 {
        for y in 0..3 {
            let e = linked.at(x, y);
            assert!(e == d.at(x, y) || e == Edge::zero());
            if d.at(x, y).magnitude >= 80_000 {
                assert_eq!(e, d.at(x, y));
            }
            if e != Edge::zero() {
                assert!(e.magnitude >= 20_000);
            }
        }
    }
}

#[test]
fn a_higher_weak_threshold_can_keep_more_cells() {
    // With the lower threshold the chain from the top left ends at the cell
    // below it, which the first chain has marked. With the higher threshold
    // that cell is too weak for the first chain, and a later chain runs on
    // through the second column.
    let d = Detection::from_columns(vec![
        vec![edge(-70_710, -70_710, 90_000), edge(-100_000, 0, 30_000), edge(-70_710, -70_710, 90_000)],
        vec![edge(0, 100_000, 90_000), edge(-100_000, 0, 40_000), edge(-100_000, 0, 40_000)],
    ])
    .unwrap();
    let lower = hysteresis(&d, 80_000, 20_000);
    let higher = hysteresis(&d, 80_000, 35_000);
    assert_eq!(magnitudes(&lower), vec![vec![90_000, 30_000, 90_000], vec![90_000, 0, 0]]);
    assert_eq!(magnitudes(&higher), vec![vec![90_000, 0, 90_000], vec![90_000, 40_000, 40_000]]);
    assert_eq!(count(&lower), 4);
    assert_eq!(count(&higher), 5);
}

#[test]
fn weak_thresholds_between_which_no_magnitude_lies_link_alike() {
    let d = Detection::from_columns(vec![
        vec![edge(-70_710, -70_710, 90_000), edge(-100_000, 0, 30_000), edge(-70_710, -70_710, 90_000)],
        vec![edge(0, 100_000, 90_000), edge(-100_000, 0, 40_000), edge(-100_000, 0, 40_000)],
    ])
    .unwrap();
    // the magnitudes are 30000, 40000 and 90000
    let a = hysteresis(&d, 80_000, 30_001);
    let b = hysteresis(&d, 80_000, 39_999);
    assert_eq!(a.edges, b.edges);
    let a = hysteresis(&d, 80_000, 1);
    let b = hysteresis(&d, 80_000, 29_999);
    assert_eq!(a.edges, b.edges);
    let a = hysteresis(&d, 80_000, 40_001);
    let b = hysteresis(&d, 80_000, 79_999);
    assert_eq!(a.edges, b.edges);
}

#[test]
fn a_chain_that_runs_in_a_circle_ends() {
    // the two edges at the weak threshold send the chain to each other
    let d = Detection::from_columns(vec![
        vec![edge(0, -100_000, 20_000)],
        vec![edge(0, 100_000, 20_000)],
        vec![edge(0, 100_000, 90_000)],
        vec![edge(0, 100_000, 20_000)],
    ])
    .unwrap();
    assert_eq!(next_cell(&d, 2, 0, false), Some((1, 0)));
    assert_eq!(next_cell(&d, 1, 0, false), Some((0, 0)));
    assert_eq!(next_cell(&d, 0, 0, false), Some((1, 0)));
    let linked = hysteresis(&d, 80_000, 20_000);
    assert_eq!(magnitudes(&linked), vec![vec![20_000], vec![20_000], vec![90_000], vec![20_000]]);
    let linked = hysteresis(&d, 80_000, 20_001);
    assert_eq!(magnitudes(&linked), vec![vec![0], vec![0], vec![90_000], vec![0]]);
}
