//! Fixed-point arithmetic for positions, angles and interpolation factors.
//!
//! All spatial quantities are integers in thousandths of a world unit, so the
//! whole replication path is exact: no floating point anywhere.

use vstd::prelude::*;
use vstd::arithmetic::div_mod::lemma_div_is_ordered;
use vstd::arithmetic::div_mod::lemma_div_by_multiple;
use vstd::arithmetic::mul::lemma_mul_inequality;

verus! {

/// Fixed-point denominator: interpolation factors, input directions and
/// sub-unit coordinates are all in thousandths.
pub const SCALE: i64 = 1000;

/// Bound on coordinates, angles and scales. Keeping every stored quantity
/// within this bound lets interpolation and kinematic integration stay inside
/// `i64` without overflow.
pub const COORD_LIMIT: i64 = 0x100_0000_0000;

/// A coordinate the replication layer is willing to store or transmit.
pub open spec fn coord_ok(c: i64) -> bool {
    -COORD_LIMIT <= c && c <= COORD_LIMIT
}

/// Mathematical value of truncated linear interpolation from `a` toward `b`
/// by `f` thousandths of the gap.
pub open spec fn lerp_spec(a: i64, b: i64, f: i64) -> int {
    if b >= a {
        a + (b - a) * f / (SCALE as int)
    } else {
        a - (a - b) * f / (SCALE as int)
    }
}

/// Linear interpolation from `a` toward `b`: exact fixed-point arithmetic,
/// always landing between the endpoints, and landing exactly on `b` when the
/// factor is the full `SCALE`.
pub fn lerp(a: i64, b: i64, f: i64) -> (r: i64)
    requires
        coord_ok(a),
        coord_ok(b),
        0 <= f <= SCALE,
    ensures
        r == lerp_spec(a, b, f),
        a <= b ==> a <= r <= b,
        b <= a ==> b <= r <= a,
        f == SCALE ==> r == b,
        f == 0 ==> r == a,
{
    if b >= a {
        let d: i64 = b - a;
        proof {
            lemma_step_bounds(d as int, f as int);
        }
        let step: i64 = d * f / SCALE;
        a + step
    } else {
        let d: i64 = a - b;
        proof {
            lemma_step_bounds(d as int, f as int);
        }
        let step: i64 = d * f / SCALE;
        a - step
    }
}

/// The interpolation step `d * f / SCALE` never exceeds the gap `d`, and
/// covers it exactly when `f == SCALE`.
proof fn lemma_step_bounds(d: int, f: int)
    requires
        0 <= d,
        0 <= f <= SCALE,
    ensures
        0 <= d * f / (SCALE as int) <= d,
        f == SCALE ==> d * f / (SCALE as int) == d,
        f == 0 ==> d * f / (SCALE as int) == 0,
{
    lemma_mul_inequality(f, SCALE as int, d);
    assert(d * f == f * d) by (nonlinear_arith);
    assert(d * SCALE == SCALE * d) by (nonlinear_arith);
    assert(0 <= d * f) by (nonlinear_arith)
        requires
            0 <= d,
            0 <= f,
    ;
    lemma_div_is_ordered(0, d * f, SCALE as int);
    lemma_div_is_ordered(d * f, d * (SCALE as int), SCALE as int);
    lemma_div_by_multiple(d, SCALE as int);
}

/// Clamp `v` into `[lo, hi]`.
pub fn clamp_i64(v: i64, lo: i64, hi: i64) -> (r: i64)
    requires
        lo <= hi,
    ensures
        r == clamp_spec(v, lo, hi),
{
    if v < lo {
        lo
    } else if v > hi {
        hi
    } else {
        v
    }
}

/// Mathematical clamp.
pub open spec fn clamp_spec(v: i64, lo: i64, hi: i64) -> i64 {
    if v < lo {
        lo
    } else if v > hi {
        hi
    } else {
        v
    }
}

/// A 2D vector in fixed-point world coordinates.
#[derive(Clone, Copy, PartialEq, Eq, Structural, Debug)]
pub struct Vec2i {
    pub x: i64,
    pub y: i64,
}

impl Vec2i {
    /// Both components in range.
    pub open spec fn ok(self) -> bool {
        coord_ok(self.x) && coord_ok(self.y)
    }
}

} // verus!
