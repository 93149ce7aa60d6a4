use rps_swarm::{blend, ceil_sqrt, clamp_length_max, div_toward_zero, scale_to, Point};

fn pt(x: i64, y: i64) -> Point {
    Point { x, y }
}

#[test]
fn ceil_sqrt_values() {
    let cases: [(u128, u64); 9] =
        [(0, 0), (1, 1), (2, 2), (4, 2), (5, 3), (99, 10), (100, 10), (101, 11), (500000, 708)];
    for (n, r) in cases {
        assert_eq!(ceil_sqrt(n), r, "ceil_sqrt({n})");
    }
}

#[test]
fn division_rounds_toward_zero() {
    assert_eq!(div_toward_zero(7, 2), 3);
    assert_eq!(div_toward_zero(-7, 2), -3);
    assert_eq!(div_toward_zero(-6, 3), -2);
    assert_eq!(div_toward_zero(0, 5), 0);
}

#[test]
fn rescaling() {
    assert_eq!(scale_to(3, 4, 10), pt(6, 8));
    assert_eq!(scale_to(-3, 4, 10), pt(-6, 8));
    assert_eq!(scale_to(1, 1, 10), pt(5, 5));
    assert_eq!(scale_to(0, 0, 5), pt(0, 0));
    assert_eq!(scale_to(-10, 0, 60), pt(-60, 0));
}

#[test]
fn clamping_to_the_arena() {
    assert_eq!(clamp_length_max(pt(1000, 0), 800), pt(800, 0));
    assert_eq!(clamp_length_max(pt(600, 800), 500), pt(300, 400));
    assert_eq!(clamp_length_max(pt(3, 4), 10), pt(3, 4));
    assert_eq!(clamp_length_max(pt(853, 853), 800), pt(565, 565));
}

#[test]
fn blending() {
    assert_eq!(blend(pt(0, 0), pt(10, -10), 500), pt(5, -5));
    assert_eq!(blend(pt(0, 0), pt(-3, 0), 500), pt(-1, 0));
    assert_eq!(blend(pt(4, 4), pt(10, 10), 0), pt(4, 4));
    assert_eq!(blend(pt(4, 4), pt(10, 10), 1000), pt(10, 10));
}
