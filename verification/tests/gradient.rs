use canny_edge::detection::Detection;
use canny_edge::edge::Edge;
use canny_edge::gradient::{
    detect_edges, gradient_at, gradient_column, Kernel, PixelGrid, TAP_ONE,
};

const T: i32 = TAP_ONE as i32;

fn edge(vec_x: i32, vec_y: i32, magnitude: u32) -> Edge {
    Edge { vec_x, vec_y, magnitude }
}

/// Central differences: half the difference of the samples on both sides.
fn central_differences() -> Kernel {
    let mut taps = Vec::new();
    for ky in 0..3 {
        for kx in 0..3 {
            let along_x = if ky == 1 { (kx - 1) * (T / 2) } else { 0 };
            let along_y = if kx == 1 { (ky - 1) * (T / 2) } else { 0 };
            taps.push((along_x, along_y));
        }
    }
    Kernel::new(3, taps).unwrap()
}

fn magnitudes(d: &Detection) -> Vec<Vec<u32>> {
    d.edges.iter().map(|column| column.iter().map(|e| e.magnitude).collect()).collect()
}

#[test]
fn pixel_grid_needs_a_sample_for_every_cell() {
    assert!(PixelGrid::new(2, 3, vec![0; 6]).is_some());
    assert!(PixelGrid::new(2, 3, vec![0; 5]).is_none());
    assert!(PixelGrid::new(2, 3, vec![0; 7]).is_none());
    assert!(PixelGrid::new(1, 1, vec![9]).is_some());
}

#[test]
fn pixel_grid_of_no_area_is_refused() {
    assert!(PixelGrid::new(0, 0, vec![]).is_none());
    assert!(PixelGrid::new(0, 3, vec![]).is_none());
    assert!(PixelGrid::new(3, 0, vec![]).is_none());
    assert!(PixelGrid::new(usize::MAX, usize::MAX, vec![1]).is_none());
}

#[test]
fn pixel_grid_holds_its_samples_row_by_row() {
    let grid = PixelGrid::new(3, 2, vec![1, 2, 3, 4, 5, 6]).unwrap();
    assert_eq!(grid.width, 3);
    assert_eq!(grid.height, 2);
    assert_eq!(grid.pixel(0, 0), 1);
    assert_eq!(grid.pixel(1, 0), 2);
    assert_eq!(grid.pixel(2, 0), 3);
    assert_eq!(grid.pixel(0, 1), 4);
    assert_eq!(grid.pixel(1, 1), 5);
    assert_eq!(grid.pixel(2, 1), 6);
}

#[test]
fn kernel_needs_a_tap_for_every_cell() {
    assert!(Kernel::new(0, vec![]).is_some());
    assert!(Kernel::new(1, vec![(1, 2)]).is_some());
    assert!(Kernel::new(2, vec![(0, 0); 4]).is_some());
    assert!(Kernel::new(2, vec![(0, 0); 3]).is_none());
    assert!(Kernel::new(2, vec![(0, 0); 5]).is_none());
    assert!(Kernel::new(1, vec![]).is_none());
    assert!(Kernel::new(usize::MAX, vec![]).is_none());
    let k = Kernel::new(1, vec![(1, 2)]).unwrap();
    assert_eq!(k.size, 1);
    assert_eq!(k.taps, vec![(1, 2)]);
}

#[test]
fn gradient_of_a_single_tap() {
    let grid = PixelGrid::new(1, 1, vec![255]).unwrap();
    let kernel = Kernel::new(1, vec![(T, 0)]).unwrap();
    // the highest intensity under a weight of 1 gives the component 1
    assert_eq!(gradient_at(&grid, &kernel, 0, 0), Edge::new(100_000, 0));
    assert_eq!(gradient_at(&grid, &kernel, 0, 0), edge(100_000, 0, 70_710));
}

#[test]
fn gradient_scales_with_the_intensity() {
    let grid = PixelGrid::new(1, 1, vec![128]).unwrap();
    let kernel = Kernel::new(1, vec![(T, -T)]).unwrap();
    // 128 / 255 rounds to 50196 units
    assert_eq!(gradient_at(&grid, &kernel, 0, 0), Edge::new(50_196, -50_196));
    assert_eq!(gradient_at(&grid, &kernel, 0, 0), edge(70_710, -70_710, 50_196));
}

#[test]
fn gradient_components_are_limited_to_one() {
    let grid = PixelGrid::new(1, 1, vec![255]).unwrap();
    let kernel = Kernel::new(1, vec![(i32::MAX, i32::MIN)]).unwrap();
    assert_eq!(gradient_at(&grid, &kernel, 0, 0), edge(70_710, -70_710, 100_000));
}

#[test]
fn gradient_below_the_resolution_is_zero() {
    let grid = PixelGrid::new(1, 1, vec![1]).unwrap();
    let kernel = Kernel::new(1, vec![(3, 0)]).unwrap();
    assert_eq!(gradient_at(&grid, &kernel, 0, 0), Edge::zero());
}

#[test]
fn gradient_with_an_empty_kernel_is_zero() {
    let grid = PixelGrid::new(2, 1, vec![5, 6]).unwrap();
    let kernel = Kernel::new(0, vec![]).unwrap();
    let field = detect_edges(&grid, &kernel);
    assert_eq!(field.edges, vec![vec![Edge::zero()], vec![Edge::zero()]]);
}

#[test]
fn gradient_of_a_vertical_step_points_to_the_bright_side() {
    let grid = PixelGrid::new(4, 3, vec![0, 0, 255, 255, 0, 0, 255, 255, 0, 0, 255, 255]).unwrap();
    let field = detect_edges(&grid, &central_differences());
    assert_eq!(field.width(), 4);
    assert_eq!(field.height(), 3);
    for y in 0..3 {
        assert_eq!(field.at(0, y), Edge::zero());
        assert_eq!(field.at(1, y), edge(100_000, 0, 35_355));
        assert_eq!(field.at(2, y), edge(100_000, 0, 35_355));
        assert_eq!(field.at(3, y), Edge::zero());
    }
}

#[test]
fn gradient_at_the_border_repeats_the_nearest_sample() {
    let data = vec![10, 20, 30, 40, 50, 60, 70, 80, 90, 100, 110, 120];
    let grid = PixelGrid::new(4, 3, data).unwrap();
    let field = detect_edges(&grid, &central_differences());
    // in the corner both differences are halved by the repeated sample
    assert_eq!(field.at(0, 0), edge(24_256, 97_013, 5_716));
    assert_eq!(field.at(1, 0), edge(44_725, 89_440, 6_200));
    assert_eq!(field.at(0, 1), edge(12_405, 99_227, 11_178));
    assert_eq!(field.at(1, 1), edge(24_256, 97_013, 11_433));
    assert_eq!(field.at(3, 2), edge(24_256, 97_013, 5_716));
    assert_eq!(
        magnitudes(&field),
        vec![
            vec![5_716, 11_178, 5_716],
            vec![6_200, 11_433, 6_200],
            vec![6_200, 11_433, 6_200],
            vec![5_716, 11_178, 5_716],
        ]
    );
}

#[test]
fn gradient_of_a_uniform_grid_is_zero_for_a_balanced_kernel() {
    let grid = PixelGrid::new(4, 3, vec![77; 12]).unwrap();
    let field = detect_edges(&grid, &central_differences());
    for x in 0..4 {
        for y in 0..3 {
            assert_eq!(field.at(x, y), Edge::zero());
        }
    }
}

#[test]
fn gradient_of_a_uniform_grid_is_the_same_everywhere() {
    let grid = PixelGrid::new(3, 3, vec![255; 9]).unwrap();
    let kernel = Kernel::new(2, vec![(T / 2, 0), (0, 0), (0, 0), (0, T / 4)]).unwrap();
    let field = detect_edges(&grid, &kernel);
    let response = Edge::new(50_000, 25_000);
    for x in 0..3 {
        for y in 0..3 {
            assert_eq!(field.at(x, y), response);
        }
    }
}

#[test]
fn a_kernel_of_even_size_reaches_further_back_than_ahead() {
    // the taps of a kernel of size 2 lie at the offsets -1 and 0
    let grid = PixelGrid::new(2, 2, vec![0, 255, 255, 0]).unwrap();
    let first = Kernel::new(2, vec![(T, 0), (0, 0), (0, 0), (0, 0)]).unwrap();
    let field = detect_edges(&grid, &first);
    assert_eq!(magnitudes(&field), vec![vec![0, 0], vec![0, 0]]);
    let last = Kernel::new(2, vec![(0, 0), (0, 0), (0, 0), (0, T)]).unwrap();
    let field = detect_edges(&grid, &last);
    assert_eq!(field.at(0, 0), Edge::zero());
    assert_eq!(field.at(1, 0), edge(0, 100_000, 70_710));
    assert_eq!(field.at(0, 1), edge(0, 100_000, 70_710));
    assert_eq!(field.at(1, 1), Edge::zero());
}

#[test]
fn gradient_column_agrees_with_the_field() {
    let data = vec![10, 20, 30, 40, 50, 60, 70, 80, 90, 100, 110, 120];
    let grid = PixelGrid::new(4, 3, data).unwrap();
    let kernel = central_differences();
    let field = detect_edges(&grid, &kernel);
    for x in 0..4 {
        assert_eq!(gradient_column(&grid, &kernel, x), field.edges[x]);
    }
}
