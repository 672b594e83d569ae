//! Exact values and invariances of the fixed-point order parameter.

use frame_order::geometry::{dist_sq, order_param_fixed, Vec3};

/// A bond along the z axis makes angle zero: order parameter 1.0.
#[test]
fn op_along_axis_is_one() {
    assert_eq!(order_param_fixed(0, 0, 1000), 1_000_000);
    assert_eq!(order_param_fixed(0, 0, -400), 1_000_000);
}

/// A bond perpendicular to the z axis makes a right angle: order
/// parameter -0.5.
#[test]
fn op_perpendicular_is_minus_half() {
    assert_eq!(order_param_fixed(1000, 0, 0), -500_000);
    assert_eq!(order_param_fixed(0, 250, 0), -500_000);
    assert_eq!(order_param_fixed(300, -400, 0), -500_000);
}

/// At the magic angle, cosine squared is one third: order parameter 0.
#[test]
fn op_magic_angle_is_zero() {
    assert_eq!(order_param_fixed(1000, 1000, 1000), 0);
    assert_eq!(order_param_fixed(-2, 2, 2), 0);
}

/// The order parameter reads only the bond's direction: reversing or
/// rescaling the bond leaves it unchanged.
#[test]
fn op_direction_only() {
    let base = order_param_fixed(2, 3, 6);
    assert_eq!(order_param_fixed(-2, -3, -6), base);
    assert_eq!(order_param_fixed(20, 30, 60), base);
    assert_eq!(order_param_fixed(-200, -300, -600), base);
}

/// Every bond, the degenerate one included, yields a value inside
/// [-0.5, 1.0]; a zero bond has no direction and counts as zero.
#[test]
fn op_total_and_bounded() {
    assert_eq!(order_param_fixed(0, 0, 0), 0);
    let probes = [
        (1, 0, 0),
        (0, 1, 1),
        (999_999, -1, 7),
        (-1_000_000, 1_000_000, 1_000_000),
        (3, 4, 5),
    ];
    for &(x, y, z) in probes.iter() {
        let v = order_param_fixed(x, y, z);
        assert!(v >= -500_000);
        assert!(v <= 1_000_000);
    }
}

/// Squared distances are exact in fixed-point coordinates.
#[test]
fn dist_sq_exact() {
    let a = Vec3 { x: 0, y: 0, z: 0 };
    let b = Vec3 { x: 300, y: 0, z: 0 };
    assert_eq!(dist_sq(a, b), 90_000);
    let c = Vec3 { x: 100, y: -200, z: 200 };
    assert_eq!(dist_sq(a, c), 90_000);
    assert_eq!(dist_sq(c, c), 0);
}
