//! Exact geometry on fixed-point coordinates.
//!
//! The order parameter of a bond against the z axis is the second Legendre
//! polynomial of the cosine of the tilt angle, `1.5 * cos(a)^2 - 0.5`.  For
//! a bond vector `(dx, dy, dz)` the squared cosine is the rational number
//! `dz^2 / (dx^2 + dy^2 + dz^2)`, so the whole quantity is computed exactly
//! in integers, scaled by [`OP_SCALE`] and rounded toward negative infinity.

use vstd::prelude::*;
use vstd::arithmetic::div_mod::{
    lemma_div_is_ordered, lemma_div_multiples_vanish, lemma_div_pos_is_pos,
    lemma_fundamental_div_mod, lemma_fundamental_div_mod_converse,
};
use crate::fixed::COORD_LIMIT;

verus! {

/// One unit of order parameter in fixed-point steps: results range over
/// `[-OP_SCALE / 2, OP_SCALE]`, standing for `[-0.5, 1.0]`.
pub const OP_SCALE: i64 = 1_000_000;

/// A point or displacement in fixed-point coordinates.
#[derive(Clone, Copy, Debug, PartialEq, Eq, Structural)]
pub struct Vec3 {
    pub x: i64,
    pub y: i64,
    pub z: i64,
}

/// Coordinates a record may carry; bounds every later square and sum.
pub open spec fn vec3_bounded(v: Vec3) -> bool {
    &&& -COORD_LIMIT <= v.x <= COORD_LIMIT
    &&& -COORD_LIMIT <= v.y <= COORD_LIMIT
    &&& -COORD_LIMIT <= v.z <= COORD_LIMIT
}

/// Squared Euclidean distance between two points, exactly.
pub open spec fn dist_sq_spec(a: Vec3, b: Vec3) -> int {
    (b.x - a.x) * (b.x - a.x) + (b.y - a.y) * (b.y - a.y) + (b.z - a.z) * (b.z - a.z)
}

/// The order parameter of the bond `(dx, dy, dz)` against the z axis, in
/// steps of `1 / OP_SCALE`: `(3 * dz^2 * OP_SCALE) / (2 * m) - OP_SCALE / 2`
/// with `m` the squared length.  A zero bond has no direction and counts as
/// zero.
pub open spec fn op_num(dx: int, dy: int, dz: int) -> int {
    let m = dx * dx + dy * dy + dz * dz;
    if m == 0 {
        0
    } else {
        3 * (dz * dz) * OP_SCALE / (2 * m) - OP_SCALE / 2
    }
}

/// Magnitude of an `i64`, as an exec helper.
fn abs_to_u64(v: i64) -> (r: u64)
    requires
        v > i64::MIN,
    ensures
        r == if v >= 0 { v as int } else { -(v as int) },
{
    if v >= 0 {
        v as u64
    } else {
        (-v) as u64
    }
}

/// Squared distance between two bounded points.
pub fn dist_sq(a: Vec3, b: Vec3) -> (r: u64)
    requires
        vec3_bounded(a),
        vec3_bounded(b),
    ensures
        r == dist_sq_spec(a, b),
        r <= 3_000_000_000_000,
{
    let dx = abs_to_u64(if a.x <= b.x { b.x - a.x } else { a.x - b.x });
    let dy = abs_to_u64(if a.y <= b.y { b.y - a.y } else { a.y - b.y });
    let dz = abs_to_u64(if a.z <= b.z { b.z - a.z } else { a.z - b.z });
    proof {
        lemma_abs_square(dx as int, b.x - a.x);
        lemma_abs_square(dy as int, b.y - a.y);
        lemma_abs_square(dz as int, b.z - a.z);
    }
    dx * dx + dy * dy + dz * dz
}

/// Squaring forgets the sign: if `a` is the magnitude of `d` and at most
/// a million, then `a * a == d * d <= 10^12`.
proof fn lemma_abs_square(a: int, d: int)
    requires
        a == if d >= 0 { d } else { -d },
        a <= 1_000_000,
    ensures
        a * a == d * d,
        0 <= a * a <= 1_000_000_000_000,
{
    assert(a * a == d * d) by (nonlinear_arith)
        requires
            a == if d >= 0 { d } else { -d };
    assert(0 <= a * a <= 1_000_000_000_000) by (nonlinear_arith)
        requires
            0 <= a <= 1_000_000;
}

/// The order parameter of the bond `(dx, dy, dz)` against the z axis, in
/// steps of `1 / OP_SCALE`.
pub fn order_param_fixed(dx: i64, dy: i64, dz: i64) -> (r: i64)
    requires
        -2 * COORD_LIMIT <= dx <= 2 * COORD_LIMIT,
        -2 * COORD_LIMIT <= dy <= 2 * COORD_LIMIT,
        -2 * COORD_LIMIT <= dz <= 2 * COORD_LIMIT,
    ensures
        r == op_num(dx as int, dy as int, dz as int),
        -OP_SCALE / 2 <= r <= OP_SCALE,
{
    let ax = abs_to_u64(dx);
    let ay = abs_to_u64(dy);
    let az = abs_to_u64(dz);
    proof {
        lemma_abs_square(ax as int, dx as int);
        lemma_abs_square(ay as int, dy as int);
        lemma_abs_square(az as int, dz as int);
    }
    let m: u64 = ax * ax + ay * ay + az * az;
    if m == 0 {
        0
    } else {
        let num: u64 = 3 * (az * az) * 1_000_000;
        let q: u64 = num / (2 * m);
        proof {
            lemma_op_quotient_bound(dx as int, dy as int, dz as int);
        }
        (q as i64) - 500_000
    }
}

/// For a nonzero bond the scaled quotient `3 * dz^2 * OP_SCALE / (2 * m)`
/// lies in `[0, 3 * OP_SCALE / 2]`, because `dz^2 <= m`.
proof fn lemma_op_quotient_bound(dx: int, dy: int, dz: int)
    requires
        dx * dx + dy * dy + dz * dz != 0,
    ensures
        0 <= 3 * (dz * dz) * OP_SCALE / (2 * (dx * dx + dy * dy + dz * dz)) <= 1_500_000,
{
    let m = dx * dx + dy * dy + dz * dz;
    assert(dz * dz >= 0 && dx * dx >= 0 && dy * dy >= 0) by (nonlinear_arith);
    assert(m > 0);
    assert(3 * (dz * dz) * OP_SCALE >= 0) by (nonlinear_arith)
        requires
            dz * dz >= 0;
    assert(3 * (dz * dz) * OP_SCALE <= (2 * m) * 1_500_000) by (nonlinear_arith)
        requires
            dz * dz <= m;
    lemma_div_pos_is_pos(3 * (dz * dz) * OP_SCALE, 2 * m);
    lemma_div_is_ordered(3 * (dz * dz) * OP_SCALE, (2 * m) * 1_500_000, 2 * m);
    lemma_div_multiples_vanish(1_500_000, 2 * m);
    assert((2 * m) * 1_500_000 / (2 * m) == 1_500_000);
}

/// The order parameter depends only on the bond's direction: scaling the
/// bond by any nonzero factor, in particular reversing it, leaves the value
/// unchanged.  This is the exact counterpart of the angle identities that a
/// vector makes angle `0` with itself and `pi` with its reverse, both of
/// which share one squared cosine.
pub proof fn lemma_op_scale_invariant(dx: int, dy: int, dz: int, k: int)
    requires
        k != 0,
    ensures
        op_num(k * dx, k * dy, k * dz) == op_num(dx, dy, dz),
{
    let m = dx * dx + dy * dy + dz * dz;
    let k2 = k * k;
    assert(dz * dz >= 0 && dx * dx >= 0 && dy * dy >= 0) by (nonlinear_arith);
    assert(k2 > 0) by (nonlinear_arith)
        requires
            k != 0,
            k2 == k * k;
    assert((k * dx) * (k * dx) == k2 * (dx * dx)) by (nonlinear_arith)
        requires
            k2 == k * k;
    assert((k * dy) * (k * dy) == k2 * (dy * dy)) by (nonlinear_arith)
        requires
            k2 == k * k;
    assert((k * dz) * (k * dz) == k2 * (dz * dz)) by (nonlinear_arith)
        requires
            k2 == k * k;
    assert((k * dx) * (k * dx) + (k * dy) * (k * dy) + (k * dz) * (k * dz) == k2 * m)
        by (nonlinear_arith)
        requires
            (k * dx) * (k * dx) == k2 * (dx * dx),
            (k * dy) * (k * dy) == k2 * (dy * dy),
            (k * dz) * (k * dz) == k2 * (dz * dz),
            m == dx * dx + dy * dy + dz * dz;
    if m == 0 {
        assert(k2 * m == 0) by (nonlinear_arith)
            requires
                m == 0;
    } else {
        assert(k2 * m != 0) by (nonlinear_arith)
            requires
                k2 > 0,
                m != 0;
        assert(3 * (dz * dz) * OP_SCALE >= 0) by (nonlinear_arith)
            requires
                dz * dz >= 0;
        assert(2 * m > 0);
        lemma_quotient_common_factor(3 * (dz * dz) * OP_SCALE, 2 * m, k2);
        assert(3 * ((k * dz) * (k * dz)) * OP_SCALE == k2 * (3 * (dz * dz) * OP_SCALE))
            by (nonlinear_arith)
            requires
                (k * dz) * (k * dz) == k2 * (dz * dz);
        assert(2 * (k2 * m) == k2 * (2 * m)) by (nonlinear_arith);
    }
}

/// A common positive factor in numerator and denominator of a Euclidean
/// division of a nonnegative value cancels.
proof fn lemma_quotient_common_factor(a: int, b: int, k: int)
    requires
        0 <= a,
        0 < b,
        0 < k,
    ensures
        (k * a) / (k * b) == a / b,
{
    let q = a / b;
    let r = a % b;
    lemma_fundamental_div_mod(a, b);
    assert(k * a == q * (k * b) + k * r) by (nonlinear_arith)
        requires
            a == b * q + r;
    assert(0 <= k * r && k * r < k * b) by (nonlinear_arith)
        requires
            0 <= r < b,
            0 < k;
    assert(k * b != 0) by (nonlinear_arith)
        requires
            0 < k,
            0 < b;
    lemma_fundamental_div_mod_converse(k * a, k * b, q, k * r);
}

/// The order parameter is total and bounded: every bond, degenerate ones
/// included, yields a value inside `[-OP_SCALE / 2, OP_SCALE]`.
pub proof fn lemma_op_range(dx: int, dy: int, dz: int)
    ensures
        -OP_SCALE / 2 <= op_num(dx, dy, dz) <= OP_SCALE,
{
    let m = dx * dx + dy * dy + dz * dz;
    if m != 0 {
        lemma_op_quotient_bound(dx, dy, dz);
    }
}

} // verus!
