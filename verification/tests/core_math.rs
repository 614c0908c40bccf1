use raytrace::fixed::{fx_add, fx_div, fx_mul, fx_neg, fx_sqrt, fx_sub, FX_MAX, SCALE};
use raytrace::la::Vec3;

#[test]
fn add_and_sub_are_exact_in_range() {
    assert_eq!(fx_add(SCALE, SCALE), 2 * SCALE);
    assert_eq!(fx_sub(SCALE, 3 * SCALE), -2 * SCALE);
    assert_eq!(fx_neg(-7), 7);
}

#[test]
fn add_saturates_at_the_range_edge() {
    assert_eq!(fx_add(FX_MAX, FX_MAX), FX_MAX);
    assert_eq!(fx_sub(-FX_MAX, FX_MAX), -FX_MAX);
}

#[test]
fn mul_scales_and_truncates_toward_zero() {
    assert_eq!(fx_mul(2 * SCALE, 3 * SCALE), 6 * SCALE);
    assert_eq!(fx_mul(SCALE / 2, SCALE / 2), SCALE / 4);
    assert_eq!(fx_mul(-3, SCALE), -3);
    assert_eq!(fx_mul(-1, 1), 0);
    assert_eq!(fx_mul(SCALE, 0), 0);
}

#[test]
fn div_is_the_inverse_scale() {
    assert_eq!(fx_div(6 * SCALE, 3 * SCALE), 2 * SCALE);
    assert_eq!(fx_div(SCALE, 2 * SCALE), SCALE / 2);
    assert_eq!(fx_div(-SCALE, 2 * SCALE), -SCALE / 2);
}

#[test]
fn sqrt_of_perfect_squares_is_exact() {
    assert_eq!(fx_sqrt(0), 0);
    assert_eq!(fx_sqrt(SCALE), SCALE);
    assert_eq!(fx_sqrt(4 * SCALE), 2 * SCALE);
    assert_eq!(fx_sqrt(9 * SCALE), 3 * SCALE);
}

#[test]
fn dot_and_cross_match_hand_values() {
    let a = Vec3::new(SCALE, 2 * SCALE, 3 * SCALE);
    let b = Vec3::new(4 * SCALE, -5 * SCALE, 6 * SCALE);
    assert_eq!(a.dot(&b), (4 - 10 + 18) * SCALE);
    let c = a.cross(&b);
    assert_eq!(c.x(), (2 * 6 - 3 * (-5)) * SCALE);
    assert_eq!(c.y(), (3 * 4 - 6) * SCALE);
    assert_eq!(c.z(), (-5 - 2 * 4) * SCALE);
}

#[test]
fn componentwise_ops_match_hand_values() {
    let a = Vec3::new(SCALE, -2 * SCALE, 0);
    let b = Vec3::new(3 * SCALE, SCALE, 5);
    let s = a.vadd(&b);
    assert_eq!((s.x(), s.y(), s.z()), (4 * SCALE, -SCALE, 5));
    let d = a.vsub(&b);
    assert_eq!((d.x(), d.y(), d.z()), (-2 * SCALE, -3 * SCALE, -5));
    let p = a.vmul(&b);
    assert_eq!((p.x(), p.y(), p.z()), (3 * SCALE, -2 * SCALE, 0));
    let sc = a.scale(SCALE / 2);
    assert_eq!((sc.x(), sc.y(), sc.z()), (SCALE / 2, -SCALE, 0));
}

#[test]
fn near_zero_detects_vanishing_squares() {
    assert!(Vec3::new(255, -255, 0).is_near_zero());
    assert!(!Vec3::new(256, 0, 0).is_near_zero());
    assert!(!Vec3::new(0, 0, -256).is_near_zero());
}

#[test]
fn reflect_is_the_mirror_image() {
    // head-on: v = -n reflects to +n
    let n = Vec3::new(0, 0, SCALE);
    let v = Vec3::new(0, 0, -SCALE);
    let r = v.reflect(&n);
    assert_eq!((r.x(), r.y(), r.z()), (0, 0, SCALE));
    // grazing along the surface is unchanged
    let g = Vec3::new(SCALE, 0, 0);
    let rg = g.reflect(&n);
    assert_eq!((rg.x(), rg.y(), rg.z()), (SCALE, 0, 0));
}

#[test]
fn refract_with_unit_ratio_passes_straight_through() {
    let n = Vec3::new(0, 0, SCALE);
    let v = Vec3::new(0, 0, -SCALE);
    let r = v.refract(&n, SCALE);
    assert_eq!((r.x(), r.y(), r.z()), (0, 0, -SCALE));
}

#[test]
fn color_bytes_average_clamp_and_gamma() {
    // one sample, channels 1.0 / 0.25 / 0: sqrt gamma gives 255 / 127 / 0
    let c = Vec3::new(SCALE, SCALE / 4, 0);
    assert_eq!(c.as_u8_color(1), (255, 127, 0));
    // out-of-range values clamp before the square root
    let c2 = Vec3::new(10 * SCALE, -SCALE, SCALE);
    assert_eq!(c2.as_u8_color(1), (255, 0, 255));
    // the accumulated sum is divided by the sample count
    let c3 = Vec3::new(4 * SCALE, 0, 0);
    assert_eq!(c3.as_u8_color(4), (255, 0, 0));
    assert_eq!(c3.as_u8_color(16), (127, 0, 0));
}

#[test]
fn unit_vector_of_an_axis_multiple_is_exact() {
    // components that are multiples of 2^-8 square without truncation
    let v = Vec3::new(0, 0, -5 * SCALE);
    let u = v.as_unit_vector();
    assert_eq!((u.x(), u.y(), u.z()), (0, 0, -SCALE));
}

#[test]
fn unit_vector_length_is_one_within_tolerance() {
    let v = Vec3::new(3 * SCALE, 4 * SCALE, 12 * SCALE);
    let u = v.as_unit_vector();
    let ls = u.length_squared();
    assert!((ls - SCALE).abs() <= 16, "length squared {} off one", ls);
}
