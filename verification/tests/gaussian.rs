use canny_edge::gaussian::{
    exp_neg, filter_kernel, gaussian_tap, kernel_size, EXP_ONE, LN_2,
};
use canny_edge::gradient::TAP_ONE;

/// The weights in floating point: the derivatives of a Gaussian at the offset
/// `(x - size / 2, y - size / 2)`, in units of `1 / TAP_ONE`.
fn float_taps(sigma: f64) -> Vec<(f64, f64)> {
    let size = (sigma * 10.0).round() as usize;
    let two_sigma_sq = 2.0 * sigma * sigma;
    let mut taps = Vec::new();
    for y in 0..size {
        for x in 0..size {
            let xf = x as f64 - size as f64 / 2.0;
            let yf = y as f64 - size as f64 / 2.0;
            let g = (-(xf * xf + yf * yf) / two_sigma_sq).exp() / two_sigma_sq;
            taps.push((xf * g * TAP_ONE as f64, yf * g * TAP_ONE as f64));
        }
    }
    taps
}

#[test]
fn kernel_size_is_ten_times_the_scale_rounded() {
    assert_eq!(kernel_size(0), 0);
    assert_eq!(kernel_size(4_999), 0);
    assert_eq!(kernel_size(5_000), 1);
    assert_eq!(kernel_size(14_999), 1);
    assert_eq!(kernel_size(15_000), 2);
    assert_eq!(kernel_size(100_000), 10);
    assert_eq!(kernel_size(104_999), 10);
    assert_eq!(kernel_size(105_000), 11);
    assert_eq!(kernel_size(140_000), 14);
    assert_eq!(kernel_size(u32::MAX), 429_497);
}

#[test]
fn exp_neg_of_zero_is_one() {
    assert_eq!(exp_neg(0), EXP_ONE);
}

#[test]
fn exp_neg_exact_values() {
    assert_eq!(exp_neg(1), 4_294_967_295);
    assert_eq!(exp_neg(1_000), 4_294_966_297);
    // exp(-1)
    assert_eq!(exp_neg(EXP_ONE as u128), 1_580_030_169);
    // exp(-10)
    assert_eq!(exp_neg(10 * EXP_ONE as u128), 194_991);
    // exp(-ln 2) is a half
    assert_eq!(exp_neg(LN_2 as u128 - 1), 2_147_483_649);
    assert_eq!(exp_neg(LN_2 as u128), 2_147_483_648);
    assert_eq!(exp_neg(LN_2 as u128 + 1), 2_147_483_647);
}

#[test]
fn exp_neg_of_large_numbers_is_zero() {
    assert_eq!(exp_neg(40 * EXP_ONE as u128), 0);
    assert_eq!(exp_neg(64 * LN_2 as u128 - 1), 0);
    assert_eq!(exp_neg(64 * LN_2 as u128), 0);
    assert_eq!(exp_neg(u128::MAX), 0);
}

#[test]
fn exp_neg_is_close_to_the_exponential() {
    let mut t: u128 = 0;
    while t < 30 * EXP_ONE as u128 {
        let exact = (-(t as f64) / EXP_ONE as f64).exp() * EXP_ONE as f64;
        let got = exp_neg(t) as f64;
        assert!((got - exact).abs() <= 2.0);
        t += 123_456_789;
    }
}

#[test]
fn exp_neg_does_not_rise() {
    let mut t: u128 = 0;
    let mut before = exp_neg(0);
    while t < 3 * LN_2 as u128 {
        t += 9_999_991;
        let e = exp_neg(t);
        assert!(e <= before);
        before = e;
    }
}

#[test]
fn gaussian_tap_exact_values() {
    assert_eq!(gaussian_tap(100_000, 10, 0, 0), (0, 0));
    assert_eq!(gaussian_tap(100_000, 10, 4, 4), (-183_940, -183_940));
    assert_eq!(gaussian_tap(100_000, 10, 5, 4), (0, -303_265));
    assert_eq!(gaussian_tap(100_000, 10, 4, 5), (-303_265, 0));
    assert_eq!(gaussian_tap(100_000, 10, 5, 5), (0, 0));
    assert_eq!(gaussian_tap(100_000, 10, 6, 5), (303_265, 0));
    assert_eq!(gaussian_tap(100_000, 10, 5, 6), (0, 303_265));
    assert_eq!(gaussian_tap(100_000, 10, 3, 7), (-18_316, 18_316));
}

#[test]
fn gaussian_tap_at_the_limits_of_the_scale() {
    assert_eq!(gaussian_tap(5_000, 1, 0, 0), (0, 0));
    assert_eq!(gaussian_tap(u32::MAX, 429_497, 0, 0), (0, 0));
    assert_eq!(gaussian_tap(u32::MAX, 429_497, 214_748, 214_749), (0, 0));
    assert_eq!(gaussian_tap(1, 429_497, 0, 0), (0, 0));
}

#[test]
fn filter_kernel_of_a_small_scale() {
    let kernel = filter_kernel(30_000);
    assert_eq!(kernel.size, 3);
    assert_eq!(
        kernel.taps,
        vec![
            (0, 0),
            (-3, -8),
            (3, -8),
            (-8, -3),
            (-172_713, -172_713),
            (172_713, -172_713),
            (-8, 3),
            (-172_713, 172_713),
            (172_713, 172_713),
        ]
    );
}

#[test]
fn filter_kernel_below_the_smallest_scale_is_empty() {
    for sigma in [1, 100, 4_999] {
        let kernel = filter_kernel(sigma);
        assert_eq!(kernel.size, 0);
        assert!(kernel.taps.is_empty());
    }
}

#[test]
fn filter_kernel_holds_a_tap_for_every_cell() {
    for sigma in [5_000, 30_000, 100_000, 140_000, 250_000] {
        let kernel = filter_kernel(sigma);
        let size = kernel_size(sigma);
        assert_eq!(kernel.size, size);
        assert_eq!(kernel.taps.len(), size * size);
        for y in 0..size {
            for x in 0..size {
                assert_eq!(kernel.taps[y * size + x], gaussian_tap(sigma, size, x, y));
            }
        }
    }
}

#[test]
fn filter_kernel_agrees_with_the_weights_in_floating_point() {
    for sigma in [30_000u32, 50_000, 80_000, 100_000, 140_000, 250_000] {
        let kernel = filter_kernel(sigma);
        let exact = float_taps(sigma as f64 / 100_000.0);
        assert_eq!(kernel.taps.len(), exact.len());
        for (tap, weight) in kernel.taps.iter().zip(exact.iter()) {
            assert!((tap.0 as f64 - weight.0).abs() <= 0.75);
            assert!((tap.1 as f64 - weight.1).abs() <= 0.75);
        }
    }
}

#[test]
fn filter_kernel_is_odd_about_its_centre() {
    for sigma in [50_000u32, 100_000, 140_000] {
        let kernel = filter_kernel(sigma);
        let size = kernel.size;
        for y in 1..size {
            for x in 1..size {
                let tap = kernel.taps[y * size + x];
                let across = kernel.taps[y * size + (size - x)];
                let below = kernel.taps[(size - y) * size + x];
                assert_eq!(across, (-tap.0, tap.1));
                assert_eq!(below, (tap.0, -tap.1));
            }
        }
    }
}
