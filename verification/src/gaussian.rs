//! The kernel of the detector: the first derivatives of a Gaussian, in
//! fixed-point arithmetic.
//!
//! The weight of a tap at the offset `(dx, dy)` from the centre is
//! `(dx * g, dy * g)` with `g = exp(-(dx * dx + dy * dy) / (2 * sigma * sigma))
//! / (2 * sigma * sigma)`. The exponential is computed by halving and a
//! Taylor polynomial.
use crate::fixed::{clamp, div_round, spec_clamp, spec_div_round, ONE};
use crate::gradient::{Kernel, TAP_ONE};
use vstd::prelude::*;

verus! {

/// The scale of exponentials: the integer that stands for the real number 1.
pub const EXP_ONE: u64 = 0x1_0000_0000;

/// The natural logarithm of 2 in units of `1 / EXP_ONE`.
pub const LN_2: u64 = 2_977_044_472;

/// The degree of the Taylor polynomial of the exponential.
pub const EXP_TERMS: u64 = 12;

/// The largest number of taps along a side of a kernel.
pub const MAX_KERNEL_SIZE: usize = 429_497;

/// `ONE * ONE * TAP_ONE`: the factor from a weight to a tap.
pub const TAP_FACTOR: u64 = 10_000_000_000_000_000;

/// The number of taps along a side of the kernel for the scale `sigma`, given
/// in units of `1 / ONE`: ten times the scale, rounded.
pub open spec fn spec_kernel_size(sigma: u32) -> int {
    spec_div_round(10 * sigma, ONE as int)
}

/// The Taylor polynomial of `exp(-r)`, in units of `1 / EXP_ONE`, from the
/// term of degree `n - 1` on, in the form
/// `1 - r / n * (1 - r / (n + 1) * (...))` with every quotient rounded down.
pub open spec fn spec_exp_series(r: int, n: int) -> int
    decreases EXP_TERMS + 1 - n,
{
    if n > EXP_TERMS {
        EXP_ONE as int
    } else {
        EXP_ONE - (r * spec_exp_series(r, n + 1)) / (n * EXP_ONE)
    }
}

/// `v` halved `k` times, rounded down each time.
pub open spec fn spec_halved(v: int, k: int) -> int
    decreases k,
{
    if k <= 0 {
        v
    } else {
        spec_halved(v / 2, k - 1)
    }
}

/// `exp(-t)` in units of `1 / EXP_ONE`, for `t >= 0` in the same units: with
/// `t = k * ln 2 + r`, the polynomial for `exp(-r)`, halved `k` times.
pub open spec fn spec_exp_neg(t: int) -> int {
    if t / (LN_2 as int) >= 64 {
        0
    } else {
        spec_halved(spec_exp_series(t % (LN_2 as int), 1), t / (LN_2 as int))
    }
}

/// The exponent of the Gaussian at the offset `(dx2 / 2, dy2 / 2)` from the
/// centre, in units of `1 / EXP_ONE`: the squared distance divided by
/// `2 * sigma * sigma`, rounded down.
pub open spec fn spec_exponent(sigma: u32, dx2: int, dy2: int) -> int {
    ((dx2 * dx2 + dy2 * dy2) * (ONE as int * ONE as int) * EXP_ONE) / (8 * (sigma * sigma))
}

/// One component of a tap: the offset `d2 / 2` times the Gaussian `e`,
/// divided by `2 * sigma * sigma`, in units of `1 / TAP_ONE`.
pub open spec fn spec_weight(sigma: u32, d2: int, e: int) -> int {
    spec_clamp(
        spec_div_round((d2 * e) * TAP_FACTOR, 4 * (sigma * sigma) * EXP_ONE),
        -(i32::MAX as int),
        i32::MAX as int,
    )
}

/// The tap in column `x` and row `y` of the kernel of `size` taps a side: the
/// derivatives of the Gaussian at the offset `(x - size / 2, y - size / 2)`.
pub open spec fn spec_gaussian_tap(sigma: u32, size: int, x: int, y: int) -> (i32, i32) {
    let dx2 = 2 * x - size;
    let dy2 = 2 * y - size;
    let e = spec_exp_neg(spec_exponent(sigma, dx2, dy2));
    (spec_weight(sigma, dx2, e) as i32, spec_weight(sigma, dy2, e) as i32)
}

/// The kernel for the scale `sigma`, as a sequence of rows.
pub open spec fn spec_filter_kernel(sigma: u32) -> Seq<Seq<(i32, i32)>> {
    let size = spec_kernel_size(sigma);
    Seq::new(
        size as nat,
        |y: int| Seq::new(size as nat, |x: int| spec_gaussian_tap(sigma, size, x, y)),
    )
}

/// The position of the tap in column `kx` and row `ky` among the taps of a
/// kernel of `size` taps a side.
pub open spec fn tap_index(size: int, kx: int, ky: int) -> int {
    ky * size + kx
}

/// The Taylor polynomial of a number from 0 to below `ln 2` lies above 0 and
/// at most at 1.
proof fn lemma_exp_series_step(r: int, acc: int, n: int)
    requires
        0 <= r < LN_2,
        0 <= acc <= EXP_ONE,
        1 <= n,
    ensures
        0 <= r * acc <= 0xffff_ffff * 0x1_0000_0000,
        0 <= (r * acc) / (n * EXP_ONE) < EXP_ONE,
{
    assert(0 <= r * acc <= 0xffff_ffff * 0x1_0000_0000) by (nonlinear_arith)
        requires
            0 <= r <= 0xffff_ffff,
            0 <= acc <= 0x1_0000_0000,
    ;
    let d = n * EXP_ONE;
    assert(d >= EXP_ONE) by (nonlinear_arith)
        requires
            d == n * EXP_ONE,
            n >= 1,
    ;
    vstd::arithmetic::div_mod::lemma_fundamental_div_mod(r * acc, d);
    vstd::arithmetic::div_mod::lemma_mod_bound(r * acc, d);
    let q = (r * acc) / d;
    assert(0 <= q < EXP_ONE) by (nonlinear_arith)
        requires
            r * acc == d * q + (r * acc) % d,
            0 <= (r * acc) % d < d,
            0 <= r * acc <= 0xffff_ffff * 0x1_0000_0000,
            d >= 0x1_0000_0000,
            EXP_ONE == 0x1_0000_0000,
    ;
}

/// Computes the number of taps along a side of the kernel for the scale
/// `sigma`.
pub fn kernel_size(sigma: u32) -> (size: usize)
    ensures
        size == spec_kernel_size(sigma),
        size <= MAX_KERNEL_SIZE,
{
    proof {
        crate::fixed::lemma_div_round_bounds(10 * sigma, ONE as int, 0, MAX_KERNEL_SIZE as int);
    }
    div_round(10 * (sigma as i128), ONE as i128) as usize
}

/// Computes the Taylor polynomial of `exp(-r)`.
fn exp_series(r: u64) -> (e: u64)
    requires
        r < LN_2,
    ensures
        e == spec_exp_series(r as int, 1),
        0 < e <= EXP_ONE,
{
    let mut acc: u64 = EXP_ONE;
    let mut n: u64 = EXP_TERMS;
    while n > 0
        invariant
            n <= EXP_TERMS,
            r < LN_2,
            0 < acc <= EXP_ONE,
            acc == spec_exp_series(r as int, n + 1),
        decreases n,
    {
        proof {
            lemma_exp_series_step(r as int, acc as int, n as int);
        }
        let product: u128 = (r as u128) * (acc as u128);
        let step: u128 = product / ((n as u128) * (EXP_ONE as u128));
        acc = ((EXP_ONE as u128) - step) as u64;
        n = n - 1;
    }
    acc
}

/// Computes `exp(-t)` in units of `1 / EXP_ONE`.
pub fn exp_neg(t: u128) -> (e: u64)
    ensures
        e == spec_exp_neg(t as int),
        e <= EXP_ONE,
        t == 0 ==> e == EXP_ONE,
{
    let k: u128 = t / (LN_2 as u128);
    if k >= 64 {
        return 0;
    }
    let r: u64 = (t % (LN_2 as u128)) as u64;
    let whole: u64 = exp_series(r);
    proof {
        if t == 0 {
            lemma_exp_series_at_zero(1);
        }
    }
    let mut e: u64 = whole;
    let mut i: u128 = 0;
    while i < k
        invariant
            i <= k,
            e <= EXP_ONE,
            spec_halved(e as int, k - i) == spec_halved(whole as int, k as int),
        decreases k - i,
    {
        e = e / 2;
        i = i + 1;
    }
    e
}

/// The Taylor polynomial of `exp(-0)` is 1.
proof fn lemma_exp_series_at_zero(n: int)
    requires
        1 <= n,
    ensures
        spec_exp_series(0, n) == EXP_ONE,
    decreases EXP_TERMS + 1 - n,
{
    if n <= EXP_TERMS {
        lemma_exp_series_at_zero(n + 1);
        assert(0 * spec_exp_series(0, n + 1) == 0);
        assert(n * EXP_ONE > 0) by (nonlinear_arith)
            requires
                n >= 1,
        ;
        assert(0int / (n * EXP_ONE) == 0);
    }
}

/// Computes one component of a tap.
fn weight(sigma: u32, d2: i128, e: u64) -> (w: i32)
    requires
        sigma > 0,
        -(MAX_KERNEL_SIZE as int) <= d2 <= MAX_KERNEL_SIZE,
        e <= EXP_ONE,
    ensures
        w == spec_weight(sigma, d2 as int, e as int),
{
    let s: i128 = sigma as i128;
    assert(1 <= s * s <= 0xffff_ffff * 0xffff_ffff) by (nonlinear_arith)
        requires
            1 <= s <= 0xffff_ffff,
    ;
    assert(-429_497 * 0x1_0000_0000 <= d2 * (e as i128) <= 429_497 * 0x1_0000_0000)
        by (nonlinear_arith)
        requires
            -429_497 <= d2 <= 429_497,
            0 <= e as i128 <= 0x1_0000_0000,
    ;
    let product: i128 = d2 * (e as i128);
    let factor: i128 = TAP_FACTOR as i128;
    let one: i128 = EXP_ONE as i128;
    let sigma_sq: i128 = s * s;
    assert(-429_497 * 0x1_0000_0000 * 10_000_000_000_000_000 <= product * factor <= 429_497
        * 0x1_0000_0000 * 10_000_000_000_000_000) by (nonlinear_arith)
        requires
            -429_497 * 0x1_0000_0000 <= product <= 429_497 * 0x1_0000_0000,
            factor == 10_000_000_000_000_000,
    ;
    assert(0 < 4 * sigma_sq * one <= 4 * (0xffff_ffff * 0xffff_ffff) * 0x1_0000_0000)
        by (nonlinear_arith)
        requires
            1 <= sigma_sq <= 0xffff_ffff * 0xffff_ffff,
            one == 0x1_0000_0000,
    ;
    let scaled: i128 = product * factor;
    let divisor: i128 = 4 * sigma_sq * one;
    clamp(div_round(scaled, divisor), -(i32::MAX as i128), i32::MAX as i128) as i32
}

/// Computes the exponent of the Gaussian at an offset from the centre.
fn exponent(sigma: u32, dx2: i128, dy2: i128) -> (t: u128)
    requires
        sigma > 0,
        -(MAX_KERNEL_SIZE as int) <= dx2 <= MAX_KERNEL_SIZE,
        -(MAX_KERNEL_SIZE as int) <= dy2 <= MAX_KERNEL_SIZE,
    ensures
        t == spec_exponent(sigma, dx2 as int, dy2 as int),
{
    let s: u128 = sigma as u128;
    assert(1 <= s * s <= 0xffff_ffff * 0xffff_ffff) by (nonlinear_arith)
        requires
            1 <= s <= 0xffff_ffff,
    ;
    assert(0 <= dx2 * dx2 <= 429_497 * 429_497 && 0 <= dy2 * dy2 <= 429_497 * 429_497)
        by (nonlinear_arith)
        requires
            -429_497 <= dx2 <= 429_497,
            -429_497 <= dy2 <= 429_497,
    ;
    let distance: u128 = (dx2 * dx2 + dy2 * dy2) as u128;
    let unit: u128 = (ONE as u128) * (ONE as u128);
    let sigma_sq: u128 = s * s;
    let one: u128 = EXP_ONE as u128;
    assert(distance * unit <= 2 * (429_497 * 429_497) * 10_000_000_000) by (nonlinear_arith)
        requires
            distance <= 2 * (429_497 * 429_497),
            unit == 10_000_000_000,
    ;
    let scaled: u128 = distance * unit;
    assert(scaled * one <= 2 * (429_497 * 429_497) * 10_000_000_000 * 0x1_0000_0000)
        by (nonlinear_arith)
        requires
            scaled <= 2 * (429_497 * 429_497) * 10_000_000_000,
            one == 0x1_0000_0000,
    ;
    (scaled * one) / (8 * sigma_sq)
}

/// Computes the tap in column `x` and row `y` of the kernel of `size` taps a
/// side.
pub fn gaussian_tap(sigma: u32, size: usize, x: usize, y: usize) -> (tap: (i32, i32))
    requires
        sigma > 0,
        size <= MAX_KERNEL_SIZE,
        x < size,
        y < size,
    ensures
        tap == spec_gaussian_tap(sigma, size as int, x as int, y as int),
{
    let dx2: i128 = 2 * (x as i128) - (size as i128);
    let dy2: i128 = 2 * (y as i128) - (size as i128);
    let e = exp_neg(exponent(sigma, dx2, dy2));
    (weight(sigma, dx2, e), weight(sigma, dy2, e))
}

/// Builds the kernel for the scale `sigma`, given in units of `1 / ONE`: the
/// first derivatives of a Gaussian of that scale, on a square of
/// `round(sigma * 10)` taps a side.
pub fn filter_kernel(sigma: u32) -> (kernel: Kernel)
    requires
        sigma > 0,
    ensures
        kernel.wf(),
        kernel.size == spec_kernel_size(sigma),
        kernel@ == spec_filter_kernel(sigma),
{
    let size = kernel_size(sigma);
    let mut taps: Vec<(i32, i32)> = Vec::new();
    let mut y: usize = 0;
    while y < size
        invariant
            sigma > 0,
            size <= MAX_KERNEL_SIZE,
            y <= size,
            taps@.len() == y * size,
            forall|kx: int, ky: int|
                0 <= kx < size && 0 <= ky < y ==> taps@[#[trigger] tap_index(size as int, kx, ky)]
                    == spec_gaussian_tap(sigma, size as int, kx, ky),
        decreases size - y,
    {
        let mut x: usize = 0;
        while x < size
            invariant
                sigma > 0,
                size <= MAX_KERNEL_SIZE,
                y < size,
                x <= size,
                taps@.len() == y * size + x,
                forall|kx: int, ky: int|
                    0 <= kx < size && 0 <= ky < y ==> taps@[#[trigger] tap_index(
                        size as int,
                        kx,
                        ky,
                    )] == spec_gaussian_tap(sigma, size as int, kx, ky),
                forall|kx: int|
                    0 <= kx < x ==> taps@[#[trigger] tap_index(size as int, kx, y as int)]
                        == spec_gaussian_tap(sigma, size as int, kx, y as int),
            decreases size - x,
        {
            let tap = gaussian_tap(sigma, size, x, y);
            let ghost before = taps@;
            taps.push(tap);
            proof {
                assert forall|kx: int, ky: int| 0 <= kx < size && 0 <= ky < y implies taps@[#[trigger] tap_index(
                    size as int,
                    kx,
                    ky,
                )] == spec_gaussian_tap(sigma, size as int, kx, ky) by {
                    lemma_tap_index(size as int, kx, ky, y as int);
                    assert(taps@[tap_index(size as int, kx, ky)] == before[tap_index(
                        size as int,
                        kx,
                        ky,
                    )]);
                }
                assert forall|kx: int| 0 <= kx < x + 1 implies taps@[#[trigger] tap_index(
                    size as int,
                    kx,
                    y as int,
                )] == spec_gaussian_tap(sigma, size as int, kx, y as int) by {
                    if kx < x {
                        assert(taps@[tap_index(size as int, kx, y as int)] == before[tap_index(
                            size as int,
                            kx,
                            y as int,
                        )]);
                    }
                }
            }
            x += 1;
        }
        proof {
            assert((y + 1) * size == y * size + size) by (nonlinear_arith);
        }
        y += 1;
    }
    let kernel = Kernel { size, taps };
    proof {
        assert forall|ky: int, kx: int| 0 <= ky < size && 0 <= kx < size implies kernel@[ky][kx]
            == spec_filter_kernel(sigma)[ky][kx] by {
            assert(kernel@[ky][kx] == kernel.taps@[tap_index(size as int, kx, ky)]);
        }
        assert(kernel@ =~~= spec_filter_kernel(sigma));
    }
    kernel
}

/// The tap in row `ky` lies before the taps of the row `rows`, if `ky` is
/// below `rows`.
proof fn lemma_tap_index(size: int, kx: int, ky: int, rows: int)
    requires
        0 <= kx < size,
        0 <= ky < rows,
    ensures
        0 <= tap_index(size, kx, ky) < rows * size,
{
    assert(0 <= ky * size && ky * size + size <= rows * size) by (nonlinear_arith)
        requires
            0 <= ky,
            ky + 1 <= rows,
            0 < size,
    ;
}

/// The weights are odd about the centre of the kernel: the taps at opposite
/// offsets along an axis are opposite in that component.
pub proof fn lemma_gaussian_tap_is_odd(sigma: u32, size: int, x: int, y: int)
    requires
        sigma > 0,
    ensures
        spec_gaussian_tap(sigma, size, size - x, y).0 == -spec_gaussian_tap(sigma, size, x, y).0,
        spec_gaussian_tap(sigma, size, x, size - y).1 == -spec_gaussian_tap(sigma, size, x, y).1,
        spec_gaussian_tap(sigma, size, size - x, y).1 == spec_gaussian_tap(sigma, size, x, y).1,
        spec_gaussian_tap(sigma, size, x, size - y).0 == spec_gaussian_tap(sigma, size, x, y).0,
{
    let dx2 = 2 * x - size;
    let dy2 = 2 * y - size;
    assert((-dx2) * (-dx2) == dx2 * dx2) by (nonlinear_arith);
    assert((-dy2) * (-dy2) == dy2 * dy2) by (nonlinear_arith);
    let e = spec_exp_neg(spec_exponent(sigma, dx2, dy2));
    lemma_weight_is_odd(sigma, dx2, e);
    lemma_weight_is_odd(sigma, dy2, e);
}

/// A component of a tap changes its sign with the offset.
proof fn lemma_weight_is_odd(sigma: u32, d2: int, e: int)
    requires
        sigma > 0,
    ensures
        spec_weight(sigma, -d2, e) == -spec_weight(sigma, d2, e),
{
    let a = (d2 * e) * TAP_FACTOR;
    let b = 4 * (sigma * sigma) * EXP_ONE;
    assert(((-d2) * e) * TAP_FACTOR == -a) by (nonlinear_arith)
        requires
            a == (d2 * e) * TAP_FACTOR,
    ;
    assert(b > 0) by (nonlinear_arith)
        requires
            b == 4 * (sigma * sigma) * EXP_ONE,
            sigma > 0,
            EXP_ONE > 0,
    ;
    if a == 0 {
        crate::fixed::lemma_div_round_bounds(0, b, 0, 0);
    }
}

} // verus!
