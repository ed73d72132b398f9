use canny_edge::detection::Detection;
use canny_edge::edge::Edge;

fn edge(vec_x: i32, vec_y: i32, magnitude: u32) -> Edge {
    Edge { vec_x, vec_y, magnitude }
}

/// Two columns and two rows: `edges[x][y]`.
fn square() -> Detection {
    Detection::from_columns(vec![
        vec![edge(100_000, 0, 10_000), edge(0, 100_000, 20_000)],
        vec![edge(-100_000, 0, 30_000), edge(0, -100_000, 40_000)],
    ])
    .unwrap()
}

#[test]
fn from_columns_rejects_empty_grids() {
    assert!(Detection::from_columns(vec![]).is_none());
    assert!(Detection::from_columns(vec![vec![]]).is_none());
    assert!(Detection::from_columns(vec![vec![], vec![]]).is_none());
}

#[test]
fn from_columns_rejects_ragged_grids() {
    let e = Edge::zero();
    assert!(Detection::from_columns(vec![vec![e, e], vec![e]]).is_none());
    assert!(Detection::from_columns(vec![vec![e], vec![e, e]]).is_none());
    assert!(Detection::from_columns(vec![vec![e], vec![e], vec![]]).is_none());
}

#[test]
fn from_columns_keeps_the_columns() {
    let a = edge(1, 2, 3);
    let b = edge(4, 5, 6);
    let d = Detection::from_columns(vec![vec![a], vec![b], vec![a]]).unwrap();
    assert_eq!(d.width(), 3);
    assert_eq!(d.height(), 1);
    assert_eq!(d.edges, vec![vec![a], vec![b], vec![a]]);
}

#[test]
fn zeroed_holds_zero_edges() {
    let d = Detection::zeroed(3, 2);
    assert_eq!(d.width(), 3);
    assert_eq!(d.height(), 2);
    for x in 0..3 {
        for y in 0..2 {
            assert_eq!(d.at(x, y), Edge::zero());
        }
    }
}

#[test]
fn set_changes_one_cell() {
    let mut d = Detection::zeroed(2, 3);
    d.set(1, 2, edge(7, 8, 9));
    for x in 0..2 {
        for y in 0..3 {
            let expected = if (x, y) == (1, 2) { edge(7, 8, 9) } else { Edge::zero() };
            assert_eq!(d.at(x, y), expected);
        }
    }
}

#[test]
fn at_reads_column_then_row() {
    let d = square();
    assert_eq!(d.at(0, 0), edge(100_000, 0, 10_000));
    assert_eq!(d.at(0, 1), edge(0, 100_000, 20_000));
    assert_eq!(d.at(1, 0), edge(-100_000, 0, 30_000));
    assert_eq!(d.at(1, 1), edge(0, -100_000, 40_000));
}

#[test]
fn at_index_counts_row_by_row() {
    let a = edge(0, 0, 1);
    let b = edge(0, 0, 2);
    let c = edge(0, 0, 3);
    let d = edge(0, 0, 4);
    let e = edge(0, 0, 5);
    let f = edge(0, 0, 6);
    // three columns, two rows
    let det = Detection::from_columns(vec![vec![a, d], vec![b, e], vec![c, f]]).unwrap();
    assert_eq!(det.at_index(0), a);
    assert_eq!(det.at_index(1), b);
    assert_eq!(det.at_index(2), c);
    assert_eq!(det.at_index(3), d);
    assert_eq!(det.at_index(4), e);
    assert_eq!(det.at_index(5), f);
    for x in 0..3 {
        for y in 0..2 {
            assert_eq!(det.at_index(x + y * det.width()), det.at(x, y));
        }
    }
}

#[test]
fn interpolate_at_a_cell_returns_the_cell() {
    let d = square();
    for x in 0..2usize {
        for y in 0..2usize {
            assert_eq!(d.interpolate(x as i64 * 100_000, y as i64 * 100_000), d.at(x, y));
        }
    }
}

#[test]
fn interpolate_half_way_between_two_cells() {
    let d = square();
    assert_eq!(d.interpolate(50_000, 0), edge(0, 0, 20_000));
}

#[test]
fn interpolate_in_the_middle_of_four_cells() {
    let d = square();
    assert_eq!(d.interpolate(50_000, 50_000), edge(0, 0, 25_000));
}

#[test]
fn interpolate_blends_along_x_then_along_y() {
    let d = square();
    assert_eq!(d.interpolate(25_000, 75_000), edge(12_500, 37_500, 22_500));
}

#[test]
fn interpolate_does_not_rescale_the_direction() {
    let d = square();
    let e = d.interpolate(25_000, 75_000);
    let norm = e.vec_x as i64 * e.vec_x as i64 + e.vec_y as i64 * e.vec_y as i64;
    assert_eq!(norm, 1_562_500_000);
}

#[test]
fn interpolate_beyond_the_border_uses_the_nearest_cells() {
    let d = square();
    // left of the grid: column 0 on both sides of the blend
    assert_eq!(d.interpolate(-50_000, 30_000), edge(70_000, 30_000, 13_000));
    // right of the grid: column 1 on both sides
    assert_eq!(d.interpolate(250_000, 30_000), edge(-70_000, -30_000, 33_000));
    // above the grid
    assert_eq!(d.interpolate(30_000, -1), edge(40_000, 0, 16_000));
    // below the grid
    assert_eq!(d.interpolate(30_000, 123_456), edge(0, 40_000, 26_000));
    assert_eq!(d.interpolate(i64::MIN, i64::MIN), d.at(0, 0));
    assert_eq!(d.interpolate(i64::MAX, i64::MAX), d.at(1, 1));
}

#[test]
fn interpolate_rounds_to_the_nearest_unit() {
    let d = square();
    assert_eq!(d.interpolate(1, 1), edge(99_997, 1, 10_000));
    assert_eq!(d.interpolate(99_999, 99_999), edge(-1, -99_997, 40_000));
}

#[test]
fn interpolate_on_a_single_cell() {
    let e = edge(60_000, 80_000, 12_345);
    let d = Detection::from_columns(vec![vec![e]]).unwrap();
    assert_eq!(d.interpolate(0, 0), e);
    assert_eq!(d.interpolate(33_333, -77_777), e);
    assert_eq!(d.interpolate(-1, 1_000_000), e);
}
