use planet_lod::geometry::{
    distance2, should_collapse, should_subdivide, Point, PointSampler, COLLAPSE_LIMIT,
    SUBDIVIDE_LIMIT, UNITS_PER_WORLD,
};

#[test]
fn distance_is_exact() {
    let a = Point { x: 1, y: -2, z: 3 };
    let b = Point { x: 4, y: 2, z: 3 };
    assert_eq!(distance2(a, b), 25);
    let c = Point { x: i32::MIN, y: i32::MIN, z: i32::MIN };
    let d = Point { x: i32::MAX, y: i32::MAX, z: i32::MAX };
    assert_eq!(distance2(c, d), 3 * (u32::MAX as u128) * (u32::MAX as u128));
}

#[test]
fn sampler_answers_nearest_point() {
    let s = PointSampler::new(vec![
        Point { x: 10, y: 0, z: 0 },
        Point { x: 0, y: 3, z: 0 },
        Point { x: 0, y: 0, z: -7 },
    ]);
    assert_eq!(s.distance2(Point { x: 0, y: 0, z: 0 }), 9);
    assert_eq!(s.distance2(Point { x: 9, y: 0, z: 0 }), 1);
}

#[test]
fn empty_sampler_answers_max() {
    let s = PointSampler::empty();
    assert_eq!(s.distance2(Point { x: 0, y: 0, z: 0 }), u128::MAX);
    for level in 0..70 {
        assert!(!should_subdivide(u128::MAX, level));
    }
}

#[test]
fn thresholds_follow_scale() {
    let u = UNITS_PER_WORLD as u128;
    assert_eq!(SUBDIVIDE_LIMIT, 100 * u * u);
    assert_eq!(COLLAPSE_LIMIT * 2, 3 * SUBDIVIDE_LIMIT);
    // Root: subdivide below 100, collapse above 150 (world units squared).
    assert!(should_subdivide(SUBDIVIDE_LIMIT - 1, 0));
    assert!(!should_subdivide(SUBDIVIDE_LIMIT, 0));
    assert!(should_collapse(COLLAPSE_LIMIT + 1, 0));
    assert!(!should_collapse(COLLAPSE_LIMIT, 0));
    // Level 3: thresholds divided by 64.
    assert!(should_subdivide(SUBDIVIDE_LIMIT / 64 - 1, 3));
    assert!(!should_subdivide(SUBDIVIDE_LIMIT / 64, 3));
    assert!(should_collapse(COLLAPSE_LIMIT / 64 + 1, 3));
    assert!(!should_collapse(COLLAPSE_LIMIT / 64, 3));
    // Very deep: only a zero distance subdivides, any other collapses.
    assert!(should_subdivide(0, 40));
    assert!(!should_subdivide(1, 40));
    assert!(should_collapse(1, 40));
    assert!(!should_collapse(0, 40));
}

#[test]
fn band_is_due_to_neither() {
    for level in 0..10usize {
        let q = 4u128.pow(level as u32);
        let d = SUBDIVIDE_LIMIT * 5 / 4 / q;
        assert!(!should_subdivide(d, level));
        assert!(!should_collapse(d, level));
    }
}
