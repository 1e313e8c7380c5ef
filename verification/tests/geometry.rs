use collision2d::fixed::{fx_add, fx_div, fx_mul, fx_sub, isqrt, FX_MAX, SCALE};
use collision2d::geometry::{convex_hull, sat_collision_detect, Vec2};

fn v(x: i64, y: i64) -> Vec2 {
    Vec2 { x, y }
}

/// Whole world units, as raw fixed-point values.
fn u(x: f64) -> i64 {
    (x * SCALE as f64).round() as i64
}

#[test]
fn test_convex_hull() {
    let points = vec![
        Vec2 { x: u(0.0), y: u(0.0) },
        Vec2 { x: u(1.0), y: u(0.0) },
        Vec2 { x: u(0.0), y: u(1.0) },
        Vec2 { x: u(1.0), y: u(1.0) },
        Vec2 { x: u(0.5), y: u(0.5) },
        Vec2 { x: u(0.5), y: u(0.0) },
        Vec2 { x: u(0.0), y: u(0.5) },
        Vec2 { x: u(0.5), y: u(1.0) },
        Vec2 { x: u(1.0), y: u(0.5) },
    ];

    let hull = convex_hull(points);

    assert_eq!(
        hull,
        vec![
            Vec2 { x: u(0.0), y: u(0.0) },
            Vec2 { x: u(1.0), y: u(0.0) },
            Vec2 { x: u(1.0), y: u(1.0) },
            Vec2 { x: u(0.0), y: u(1.0) },
        ]
    );
}

#[test]
fn convex_hull_single_point() {
    let hull = convex_hull(vec![v(3, 4)]);
    assert_eq!(hull, vec![v(3, 4)]);
}

#[test]
fn convex_hull_duplicates_collapse() {
    let hull = convex_hull(vec![v(5, 5), v(5, 5), v(5, 5)]);
    assert_eq!(hull, vec![v(5, 5)]);
}

#[test]
fn convex_hull_collinear_chain() {
    let hull = convex_hull(vec![v(0, 0), v(1, 1), v(2, 2), v(3, 3)]);
    assert_eq!(hull, vec![v(0, 0), v(3, 3)]);
}

#[test]
fn convex_hull_reordered_input_same_square() {
    let a = convex_hull(vec![v(0, 0), v(10, 0), v(10, 10), v(0, 10), v(5, 5)]);
    let b = convex_hull(vec![v(5, 5), v(0, 10), v(10, 10), v(0, 0), v(10, 0)]);
    assert_eq!(a, b);
    assert_eq!(a, vec![v(0, 0), v(10, 0), v(10, 10), v(0, 10)]);
}

fn square(cx: i64, cy: i64, half: i64) -> Vec<Vec2> {
    vec![
        v(cx - half, cy - half),
        v(cx + half, cy - half),
        v(cx + half, cy + half),
        v(cx - half, cy + half),
    ]
}

#[test]
fn sat_identical_squares_overlap() {
    let a = square(0, 0, u(1.0));
    let b = square(0, 0, u(1.0));
    assert!(sat_collision_detect(&a, &b));
}

#[test]
fn sat_separated_squares_x_axis() {
    let a = square(0, 0, u(1.0));
    let b = square(u(5.0), 0, u(1.0));
    assert!(!sat_collision_detect(&a, &b));
}

#[test]
fn sat_separated_squares_y_axis() {
    let a = square(0, 0, u(1.0));
    let b = square(0, u(5.0), u(1.0));
    assert!(!sat_collision_detect(&a, &b));
}

#[test]
fn sat_touching_squares_count_as_overlapping() {
    // Edge-to-edge contact: projections meet exactly; the test uses a
    // strict comparison, so touching is stably reported as overlap.
    let a = square(0, 0, u(1.0));
    let b = square(u(2.0), 0, u(1.0));
    assert!(sat_collision_detect(&a, &b));
    assert!(sat_collision_detect(&b, &a));
}

#[test]
fn sat_overlapping_offset_squares() {
    let a = square(0, 0, u(1.0));
    let b = square(u(1.5), u(1.5), u(1.0));
    assert!(sat_collision_detect(&a, &b));
}

#[test]
fn fixed_point_arithmetic_exact_cases() {
    assert_eq!(fx_add(u(1.5), u(2.25)), u(3.75));
    assert_eq!(fx_sub(u(1.0), u(2.5)), u(-1.5));
    assert_eq!(fx_mul(u(3.0), u(2.0)), u(6.0));
    assert_eq!(fx_mul(u(-3.0), u(2.0)), u(-6.0));
    assert_eq!(fx_div(u(1.0), u(3.0)), 333_333);
    assert_eq!(fx_div(u(-1.0), u(3.0)), -333_333);
    assert_eq!(fx_add(FX_MAX, FX_MAX), FX_MAX);
    assert_eq!(fx_sub(-FX_MAX, FX_MAX), -FX_MAX);
}

#[test]
fn isqrt_exact_cases() {
    assert_eq!(isqrt(0), 0);
    assert_eq!(isqrt(1), 1);
    assert_eq!(isqrt(2), 1);
    assert_eq!(isqrt(4), 2);
    assert_eq!(isqrt(2_000_000_000_000), 1_414_213);
}
