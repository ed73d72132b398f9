//! The response of the detector at one cell: a magnitude and a direction.
use crate::fixed::{
    clamp, div_round, floor_sqrt, is_floor_sqrt, isqrt, lemma_floor_sqrt_exists, spec_clamp,
    spec_div_round, ONE,
};
use vstd::prelude::*;

verus! {

/// The computed response at a single cell.
///
/// `magnitude` is the strength of the change in brightness, from 0 to `ONE`.
/// `(vec_x, vec_y)` is the direction of the change, from the dark side to the
/// bright side, as a vector of length `ONE`; it is `(0, 0)` where the magnitude
/// is 0.
#[derive(Clone, Copy, Debug, PartialEq, Eq, Structural)]
pub struct Edge {
    pub vec_x: i32,
    pub vec_y: i32,
    pub magnitude: u32,
}

/// The absolute value of `v`.
pub open spec fn spec_abs(v: int) -> int {
    if v < 0 {
        -v
    } else {
        v
    }
}

/// One component of the unit vector along `(cx, cy)`, scaled by `ONE` and
/// rounded toward zero: `c` is the component and `n` is `cx * cx + cy * cy`.
pub open spec fn spec_unit_component(c: int, n: int) -> int
    recommends
        n > 0,
{
    let a = floor_sqrt((c * c * (ONE as int * ONE as int)) / n);
    if c < 0 {
        -a
    } else {
        a
    }
}

/// The eighth of the full turn that the direction `(vx, vy)` is nearest to:
/// 0 is the positive x axis, 2 the positive y axis, and so on up to 7.
/// The zero vector counts as 0.
pub open spec fn spec_octant(vx: int, vy: int) -> int {
    let ax = spec_abs(vx);
    let ay = spec_abs(vy);
    let s = (ax + ay) * (ax + ay);
    if vx == 0 && vy == 0 {
        0
    } else if s < 2 * ax * ax {
        if vx > 0 {
            0
        } else {
            4
        }
    } else if s < 2 * ay * ay {
        if vy > 0 {
            2
        } else {
            6
        }
    } else if vy > 0 {
        if vx > 0 {
            1
        } else {
            3
        }
    } else {
        if vx < 0 {
            5
        } else {
            7
        }
    }
}

impl Edge {
    /// The edge of magnitude 0.
    pub open spec fn spec_zero() -> Edge {
        Edge { vec_x: 0, vec_y: 0, magnitude: 0 }
    }

    /// The edge for the gradient `(gx, gy)`, each component given in units of
    /// `1 / ONE` and limited to the interval from `-ONE` to `ONE`.
    ///
    /// The magnitude is the length of the limited gradient divided by the
    /// square root of 2, rounded down. The direction is the unit vector along
    /// the limited gradient.
    pub open spec fn spec_new(gx: int, gy: int) -> Edge {
        let cx = spec_clamp(gx, -(ONE as int), ONE as int);
        let cy = spec_clamp(gy, -(ONE as int), ONE as int);
        let n = cx * cx + cy * cy;
        let m = floor_sqrt(n / 2);
        if m == 0 {
            Edge::spec_zero()
        } else {
            Edge {
                vec_x: spec_unit_component(cx, n) as i32,
                vec_y: spec_unit_component(cy, n) as i32,
                magnitude: m as u32,
            }
        }
    }

    /// The magnitude and both direction components are within their bounds.
    pub open spec fn in_range(self) -> bool {
        &&& self.magnitude <= ONE
        &&& -(ONE as int) <= self.vec_x <= ONE as int
        &&& -(ONE as int) <= self.vec_y <= ONE as int
    }

    /// The squared length of the direction vector.
    pub open spec fn norm_sq(self) -> int {
        self.vec_x * self.vec_x + self.vec_y * self.vec_y
    }

    /// The edge is one that `new` can produce: it is in range, and its
    /// direction is the zero vector where the magnitude is 0 and a vector of
    /// length `ONE`, up to rounding, elsewhere.
    pub open spec fn wf(self) -> bool {
        &&& self.in_range()
        &&& self.magnitude == 0 ==> self.vec_x == 0 && self.vec_y == 0
        &&& self.magnitude > 0 ==> (ONE as int * ONE as int) - 4 * ONE - 2 < self.norm_sq() <= (
        ONE as int * ONE as int)
    }

    /// The direction lies along the x axis or the y axis, within one unit of
    /// the scale.
    pub open spec fn spec_axis_aligned(self) -> bool {
        ||| ONE - spec_abs(self.vec_x as int) <= 1
        ||| ONE - spec_abs(self.vec_y as int) <= 1
    }

    /// The direction scaled by the magnitude.
    pub open spec fn spec_dir(self) -> (int, int) {
        (
            spec_div_round(self.vec_x * self.magnitude, ONE as int),
            spec_div_round(self.vec_y * self.magnitude, ONE as int),
        )
    }

    /// Returns the edge of magnitude 0.
    pub fn zero() -> (e: Edge)
        ensures
            e == Edge::spec_zero(),
            e.wf(),
    {
        Edge { vec_x: 0, vec_y: 0, magnitude: 0 }
    }

    /// Builds the edge for the gradient `(gx, gy)`.
    pub fn new(gx: i32, gy: i32) -> (e: Edge)
        ensures
            e == Edge::spec_new(gx as int, gy as int),
            e.wf(),
    {
        let one: i128 = ONE as i128;
        let cx: i128 = clamp(gx as i128, -one, one);
        let cy: i128 = clamp(gy as i128, -one, one);
        assert(0 <= cx * cx <= 10_000_000_000 && 0 <= cy * cy <= 10_000_000_000)
            by (nonlinear_arith)
            requires
                -100_000 <= cx <= 100_000,
                -100_000 <= cy <= 100_000,
        ;
        let n: i128 = cx * cx + cy * cy;
        let m: u64 = isqrt((n / 2) as u128);
        if m == 0 {
            return Edge::zero();
        }
        proof {
            assert(m * m >= 1 && (m * m <= 10_000_000_000 ==> m <= 100_000)) by (nonlinear_arith)
                requires
                    m >= 1,
            ;
            assert(n >= 2);
            assert(cx != 0 || cy != 0) by (nonlinear_arith)
                requires
                    n == cx * cx + cy * cy,
                    n >= 2,
            ;
            lemma_unit_vector(cx as int, cy as int);
        }
        let sq: u128 = (ONE as u128) * (ONE as u128);
        assert((cx * cx) * sq <= 100_000_000_000_000_000_000 && (cy * cy) * sq
            <= 100_000_000_000_000_000_000) by (nonlinear_arith)
            requires
                0 <= cx * cx <= 10_000_000_000,
                0 <= cy * cy <= 10_000_000_000,
                sq == 10_000_000_000,
        ;
        let ax: u64 = isqrt(((cx * cx) as u128 * sq) / (n as u128));
        let ay: u64 = isqrt(((cy * cy) as u128 * sq) / (n as u128));
        let vx: i32 = if cx < 0 {
            -(ax as i32)
        } else {
            ax as i32
        };
        let vy: i32 = if cy < 0 {
            -(ay as i32)
        } else {
            ay as i32
        };
        Edge { vec_x: vx, vec_y: vy, magnitude: m as u32 }
    }

    /// The magnitude of the change in brightness, from 0 to `ONE`.
    pub fn magnitude(&self) -> (m: u32)
        ensures
            m == self.magnitude,
    {
        self.magnitude
    }

    /// The direction of the change in brightness as a vector of length `ONE`,
    /// pointing toward the brighter side.
    pub fn dir_norm(&self) -> (d: (i32, i32))
        ensures
            d == (self.vec_x, self.vec_y),
    {
        (self.vec_x, self.vec_y)
    }

    /// The direction scaled by the magnitude.
    pub fn dir(&self) -> (d: (i32, i32))
        requires
            self.in_range(),
        ensures
            (d.0 as int, d.1 as int) == self.spec_dir(),
    {
        let one: i128 = ONE as i128;
        let m: i128 = self.magnitude as i128;
        proof {
            lemma_scaled_bounds(self.vec_x as int, m as int);
            lemma_scaled_bounds(self.vec_y as int, m as int);
        }
        let px: i128 = self.vec_x as i128 * m;
        let py: i128 = self.vec_y as i128 * m;
        proof {
            crate::fixed::lemma_div_round_bounds(px as int, one as int, -(one as int), one as int);
            crate::fixed::lemma_div_round_bounds(py as int, one as int, -(one as int), one as int);
        }
        (div_round(px, one) as i32, div_round(py, one) as i32)
    }

    /// The eighth of the full turn that the direction is nearest to.
    pub fn octant(&self) -> (o: u8)
        ensures
            o == spec_octant(self.vec_x as int, self.vec_y as int),
            o < 8,
    {
        let vx: i128 = self.vec_x as i128;
        let vy: i128 = self.vec_y as i128;
        let ax: i128 = if vx < 0 {
            -vx
        } else {
            vx
        };
        let ay: i128 = if vy < 0 {
            -vy
        } else {
            vy
        };
        assert(0 <= (ax + ay) * (ax + ay) <= 0x1_0000_0000_0000_0000 && 0 <= 2 * ax * ax
            <= 0x1_0000_0000_0000_0000 && 0 <= 2 * ay * ay <= 0x1_0000_0000_0000_0000)
            by (nonlinear_arith)
            requires
                0 <= ax <= 0x8000_0000,
                0 <= ay <= 0x8000_0000,
        ;
        let s: i128 = (ax + ay) * (ax + ay);
        if vx == 0 && vy == 0 {
            0
        } else if s < 2 * ax * ax {
            if vx > 0 {
                0
            } else {
                4
            }
        } else if s < 2 * ay * ay {
            if vy > 0 {
                2
            } else {
                6
            }
        } else if vy > 0 {
            if vx > 0 {
                1
            } else {
                3
            }
        } else {
            if vx < 0 {
                5
            } else {
                7
            }
        }
    }

    /// Whether the direction lies along the x axis or the y axis, within one
    /// unit of the scale.
    pub fn is_axis_aligned(&self) -> (b: bool)
        ensures
            b == self.spec_axis_aligned(),
    {
        let one: i64 = ONE as i64;
        let vx: i64 = self.vec_x as i64;
        let vy: i64 = self.vec_y as i64;
        let ax: i64 = if vx < 0 {
            -vx
        } else {
            vx
        };
        let ay: i64 = if vy < 0 {
            -vy
        } else {
            vy
        };
        one - ax <= 1 || one - ay <= 1
    }
}

/// Every edge that `new` builds is well-formed: its magnitude lies between 0
/// and `ONE`, and its direction is a vector of length `ONE`, up to rounding,
/// unless the magnitude is 0.
pub proof fn lemma_new_wf(gx: int, gy: int)
    ensures
        Edge::spec_new(gx, gy).wf(),
{
    let one = ONE as int;
    let cx = spec_clamp(gx, -one, one);
    let cy = spec_clamp(gy, -one, one);
    let n = cx * cx + cy * cy;
    assert(0 <= cx * cx <= 10_000_000_000 && 0 <= cy * cy <= 10_000_000_000) by (nonlinear_arith)
        requires
            -100_000 <= cx <= 100_000,
            -100_000 <= cy <= 100_000,
    ;
    lemma_floor_sqrt_exists(n / 2);
    let m = floor_sqrt(n / 2);
    if m != 0 {
        assert(m * m >= 1 && (m * m <= 10_000_000_000 ==> m <= 100_000)) by (nonlinear_arith)
            requires
                m >= 1,
        ;
        assert(cx != 0 || cy != 0) by (nonlinear_arith)
            requires
                n == cx * cx + cy * cy,
                n >= 2,
        ;
        lemma_unit_vector(cx, cy);
    }
}

/// A direction component times a magnitude stays within `ONE * ONE`.
proof fn lemma_scaled_bounds(v: int, m: int)
    requires
        -(ONE as int) <= v <= ONE as int,
        0 <= m <= ONE as int,
    ensures
        -(ONE as int) * (ONE as int) <= v * m <= (ONE as int) * (ONE as int),
{
    assert(-100_000 * 100_000 <= v * m <= 100_000 * 100_000) by (nonlinear_arith)
        requires
            -100_000 <= v <= 100_000,
            0 <= m <= 100_000,
    ;
}

/// The components that `spec_new` gives to a gradient `(cx, cy)` other than
/// zero form a vector whose length is `ONE` up to rounding: its squared
/// length is at most `ONE * ONE` and falls short of it by less than
/// `4 * ONE + 2`.
pub proof fn lemma_unit_vector(cx: int, cy: int)
    requires
        cx != 0 || cy != 0,
    ensures
        ({
            let n = cx * cx + cy * cy;
            let vx = spec_unit_component(cx, n);
            let vy = spec_unit_component(cy, n);
            &&& -(ONE as int) <= vx <= ONE as int
            &&& -(ONE as int) <= vy <= ONE as int
            &&& (ONE as int * ONE as int) - 4 * ONE - 2 < vx * vx + vy * vy <= (ONE as int
                * ONE as int)
            &&& is_floor_sqrt((cx * cx * (ONE as int * ONE as int)) / n, spec_abs(vx))
            &&& is_floor_sqrt((cy * cy * (ONE as int * ONE as int)) / n, spec_abs(vy))
        }),
{
    let one = ONE as int;
    let sq = one * one;
    let n = cx * cx + cy * cy;
    assert(cx * cx >= 0 && cy * cy >= 0 && n > 0) by (nonlinear_arith)
        requires
            cx != 0 || cy != 0,
            n == cx * cx + cy * cy,
    ;
    let tx = cx * cx * sq;
    let ty = cy * cy * sq;
    assert(tx >= 0 && ty >= 0 && tx + ty == n * sq) by (nonlinear_arith)
        requires
            tx == cx * cx * sq,
            ty == cy * cy * sq,
            n == cx * cx + cy * cy,
            cx * cx >= 0,
            cy * cy >= 0,
            sq >= 0,
    ;
    let qx = tx / n;
    let qy = ty / n;
    assert(qx * n <= tx < (qx + 1) * n && qx >= 0) by {
        vstd::arithmetic::div_mod::lemma_fundamental_div_mod(tx, n);
        vstd::arithmetic::div_mod::lemma_mod_bound(tx, n);
        vstd::arithmetic::div_mod::lemma_div_pos_is_pos(tx, n);
        assert(n * qx == qx * n && (qx + 1) * n == qx * n + n) by (nonlinear_arith);
    }
    assert(qy * n <= ty < (qy + 1) * n && qy >= 0) by {
        vstd::arithmetic::div_mod::lemma_fundamental_div_mod(ty, n);
        vstd::arithmetic::div_mod::lemma_mod_bound(ty, n);
        vstd::arithmetic::div_mod::lemma_div_pos_is_pos(ty, n);
        assert(n * qy == qy * n && (qy + 1) * n == qy * n + n) by (nonlinear_arith);
    }
    lemma_floor_sqrt_exists(qx);
    lemma_floor_sqrt_exists(qy);
    let ax = floor_sqrt(qx);
    let ay = floor_sqrt(qy);
    // upper bound: (ax^2 + ay^2) * n <= (qx + qy) * n <= n * sq
    assert(ax * ax + ay * ay <= sq) by (nonlinear_arith)
        requires
            ax * ax <= qx,
            ay * ay <= qy,
            qx * n <= tx,
            qy * n <= ty,
            tx + ty == n * sq,
            n > 0,
    ;
    assert(ax <= one && ay <= one) by (nonlinear_arith)
        requires
            ax * ax + ay * ay <= sq,
            sq == one * one,
            ax >= 0,
            ay >= 0,
            one >= 0,
    ;
    // lower bound: ((ax + 1)^2 + (ay + 1)^2) * n > n * sq
    assert((ax + 1) * (ax + 1) + (ay + 1) * (ay + 1) > sq) by (nonlinear_arith)
        requires
            qx < (ax + 1) * (ax + 1),
            qy < (ay + 1) * (ay + 1),
            tx < (qx + 1) * n,
            ty < (qy + 1) * n,
            tx + ty == n * sq,
            n > 0,
    ;
    assert((ax + 1) * (ax + 1) + (ay + 1) * (ay + 1) == ax * ax + ay * ay + 2 * ax + 2 * ay + 2)
        by (nonlinear_arith);
    let vx = spec_unit_component(cx, n);
    let vy = spec_unit_component(cy, n);
    assert(vx * vx == ax * ax) by (nonlinear_arith)
        requires
            vx == ax || vx == -ax,
    ;
    assert(vy * vy == ay * ay) by (nonlinear_arith)
        requires
            vy == ay || vy == -ay,
    ;
}

} // verus!
