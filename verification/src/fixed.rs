//! Fixed-point scalars: the scale, clamping, rounded division and integer
//! square roots.
use vstd::prelude::*;

verus! {

/// The fixed-point scale: the integer that stands for the real number 1.
pub const ONE: u32 = 100_000;

/// `v` limited to the interval from `lo` to `hi`.
pub open spec fn spec_clamp(v: int, lo: int, hi: int) -> int {
    if v > hi {
        hi
    } else if v < lo {
        lo
    } else {
        v
    }
}

/// Limits `v` to the interval from `lo` to `hi`.
pub fn clamp(v: i128, lo: i128, hi: i128) -> (r: i128)
    ensures
        r == spec_clamp(v as int, lo as int, hi as int),
        lo <= hi ==> lo <= r <= hi,
{
    if v > hi {
        hi
    } else if v < lo {
        lo
    } else {
        v
    }
}

/// The quotient `a / b` rounded to the nearest integer, halves away from zero.
pub open spec fn spec_div_round(a: int, b: int) -> int
    recommends
        b > 0,
{
    if a >= 0 {
        (2 * a + b) / (2 * b)
    } else {
        -((2 * (-a) + b) / (2 * b))
    }
}

/// Divides `a` by `b` and rounds to the nearest integer, halves away from zero.
pub fn div_round(a: i128, b: i128) -> (q: i128)
    requires
        0 < b <= 0x1fff_ffff_ffff_ffff_ffff_ffff_ffff_ffff,
        -0x1fff_ffff_ffff_ffff_ffff_ffff_ffff_ffff <= a <= 0x1fff_ffff_ffff_ffff_ffff_ffff_ffff_ffff,
    ensures
        q == spec_div_round(a as int, b as int),
{
    if a >= 0 {
        (2 * a + b) / (2 * b)
    } else {
        -((2 * (-a) + b) / (2 * b))
    }
}

/// A rounded quotient lies between the bounds that enclose the exact quotient:
/// if `lo * b <= a <= hi * b` then `lo <= round(a / b) <= hi`.
pub proof fn lemma_div_round_bounds(a: int, b: int, lo: int, hi: int)
    requires
        b > 0,
        lo * b <= a <= hi * b,
    ensures
        lo <= spec_div_round(a, b) <= hi,
{
    let d = 2 * b;
    if a >= 0 {
        let n = 2 * a + b;
        let q = n / d;
        assert(n == d * q + n % d && 0 <= n % d < d) by {
            vstd::arithmetic::div_mod::lemma_fundamental_div_mod(n, d);
            vstd::arithmetic::div_mod::lemma_mod_bound(n, d);
        }
        assert(q <= hi) by (nonlinear_arith)
            requires
                n == d * q + n % d,
                0 <= n % d,
                n == 2 * a + b,
                d == 2 * b,
                b > 0,
                a <= hi * b,
        ;
        assert(lo <= q) by (nonlinear_arith)
            requires
                n == d * q + n % d,
                n % d < d,
                n == 2 * a + b,
                d == 2 * b,
                b > 0,
                lo * b <= a,
        ;
    } else {
        let n = 2 * (-a) + b;
        let q = n / d;
        assert(n == d * q + n % d && 0 <= n % d < d) by {
            vstd::arithmetic::div_mod::lemma_fundamental_div_mod(n, d);
            vstd::arithmetic::div_mod::lemma_mod_bound(n, d);
        }
        assert(-q <= hi) by (nonlinear_arith)
            requires
                n == d * q + n % d,
                n % d < d,
                n == 2 * (-a) + b,
                d == 2 * b,
                b > 0,
                a <= hi * b,
                a < 0,
        ;
        assert(lo <= -q) by (nonlinear_arith)
            requires
                n == d * q + n % d,
                0 <= n % d,
                n == 2 * (-a) + b,
                d == 2 * b,
                b > 0,
                lo * b <= a,
        ;
    }
}

/// `r` is the integer square root of `n`: the largest integer whose square
/// does not exceed `n`.
pub open spec fn is_floor_sqrt(n: int, r: int) -> bool {
    0 <= r && r * r <= n < (r + 1) * (r + 1)
}

/// The integer square root of `n`, for `n >= 0`.
pub open spec fn floor_sqrt(n: int) -> int {
    choose|r: int| is_floor_sqrt(n, r)
}

/// At most one integer is the integer square root of `n`.
pub proof fn lemma_floor_sqrt_unique(n: int, r: int, s: int)
    requires
        is_floor_sqrt(n, r),
        is_floor_sqrt(n, s),
    ensures
        r == s,
{
    if r < s {
        assert((r + 1) * (r + 1) <= s * s) by (nonlinear_arith)
            requires
                0 <= r + 1 <= s,
        ;
    }
    if s < r {
        assert((s + 1) * (s + 1) <= r * r) by (nonlinear_arith)
            requires
                0 <= s + 1 <= r,
        ;
    }
}

/// Every non-negative integer has an integer square root.
pub proof fn lemma_floor_sqrt_exists(n: int)
    requires
        n >= 0,
    ensures
        is_floor_sqrt(n, floor_sqrt(n)),
    decreases n,
{
    if n == 0 {
        assert(is_floor_sqrt(0, 0));
    } else {
        lemma_floor_sqrt_exists(n - 1);
        let r = floor_sqrt(n - 1);
        if (r + 1) * (r + 1) <= n {
            assert(n < (r + 2) * (r + 2)) by (nonlinear_arith)
                requires
                    0 <= r,
                    n - 1 < (r + 1) * (r + 1),
            ;
            assert(is_floor_sqrt(n, r + 1));
        } else {
            assert(is_floor_sqrt(n, r));
        }
    }
}

/// An integer with the defining property is the integer square root.
pub proof fn lemma_floor_sqrt_is(n: int, r: int)
    requires
        is_floor_sqrt(n, r),
    ensures
        floor_sqrt(n) == r,
{
    lemma_floor_sqrt_unique(n, r, floor_sqrt(n));
}

/// Computes the integer square root of `n`.
pub fn isqrt(n: u128) -> (r: u64)
    ensures
        r == floor_sqrt(n as int),
        is_floor_sqrt(n as int, r as int),
{
    let mut lo: u128 = 0;
    let mut hi: u128 = 0x1_0000_0000_0000_0000;
    assert(n < hi * hi) by (nonlinear_arith)
        requires
            hi == 0x1_0000_0000_0000_0000,
            n <= u128::MAX,
    ;
    while hi - lo > 1
        invariant
            lo < hi <= 0x1_0000_0000_0000_0000,
            lo * lo <= n,
            n < hi * hi,
        decreases hi - lo,
    {
        let mid: u128 = lo + (hi - lo) / 2;
        assert(mid * mid <= u128::MAX) by (nonlinear_arith)
            requires
                0 <= mid < 0x1_0000_0000_0000_0000,
        ;
        if mid * mid <= n {
            lo = mid;
        } else {
            hi = mid;
        }
    }
    proof {
        lemma_floor_sqrt_is(n as int, lo as int);
    }
    lo as u64
}

} // verus!
