use dynamic_prm::geometry::MILLI;
use dynamic_prm::geometry::Point;
use dynamic_prm::geometry::Rect;
use dynamic_prm::geometry::dist2_exec;
use dynamic_prm::geometry::in_rect_exec;
use dynamic_prm::geometry::isqrt;
use dynamic_prm::geometry::rounded_dist_exec;
use dynamic_prm::geometry::seg_intersects_rect_exec;
use dynamic_prm::config::PrmConfig;
use dynamic_prm::config::log2_exec;
use dynamic_prm::config::radius_sq_milli_exec;

fn rect(x_min: i64, y_min: i64, x_max: i64, y_max: i64) -> Rect {
    Rect { x_min, y_min, x_max, y_max }
}

#[test]
fn point_containment() {
    let r = rect(0, 0, 1000, 1000);
    assert!(in_rect_exec(&Point::new(0, 0), &r));
    assert!(in_rect_exec(&Point::new(1000, 1000), &r));
    assert!(in_rect_exec(&Point::new(500, 999), &r));
    assert!(!in_rect_exec(&Point::new(-1, 500), &r));
    assert!(!in_rect_exec(&Point::new(500, 1001), &r));
}

#[test]
fn segment_crossing_rectangle() {
    let r = rect(4000, 4000, 6000, 6000);
    // straight through the middle
    assert!(seg_intersects_rect_exec(&Point::new(0, 5000), &Point::new(10000, 5000), &r));
    // fully inside
    assert!(seg_intersects_rect_exec(&Point::new(4500, 4500), &Point::new(5500, 5500), &r));
    // one endpoint inside
    assert!(seg_intersects_rect_exec(&Point::new(5000, 5000), &Point::new(9000, 9000), &r));
    // touching a corner exactly
    assert!(seg_intersects_rect_exec(&Point::new(3000, 5000), &Point::new(5000, 3000), &r));
    // passing well outside
    assert!(!seg_intersects_rect_exec(&Point::new(0, 0), &Point::new(10000, 0), &r));
    // diagonal that misses the corner
    assert!(!seg_intersects_rect_exec(&Point::new(2000, 5000), &Point::new(5000, 2000), &r));
    // line through the rectangle but segment displaced beyond it
    assert!(!seg_intersects_rect_exec(&Point::new(7000, 5000), &Point::new(9000, 5000), &r));
}

#[test]
fn degenerate_segment_is_point_test() {
    let r = rect(0, 0, 1000, 1000);
    assert!(seg_intersects_rect_exec(&Point::new(500, 500), &Point::new(500, 500), &r));
    assert!(!seg_intersects_rect_exec(&Point::new(1500, 500), &Point::new(1500, 500), &r));
}

#[test]
fn squared_distance_exact() {
    assert_eq!(dist2_exec(&Point::new(0, 0), &Point::new(3, 4)), 25);
    assert_eq!(dist2_exec(&Point::new(-3, 0), &Point::new(0, 4)), 25);
    assert_eq!(dist2_exec(&Point::new(7, 7), &Point::new(7, 7)), 0);
}

#[test]
fn integer_square_root() {
    assert_eq!(isqrt(0), 0);
    assert_eq!(isqrt(1), 1);
    assert_eq!(isqrt(3), 1);
    assert_eq!(isqrt(4), 2);
    assert_eq!(isqrt(999_999), 999);
    assert_eq!(isqrt(1_000_000), 1000);
    assert_eq!(isqrt(u64::MAX), 0xFFFF_FFFF);
}

#[test]
fn rounded_distance_half_away_from_zero() {
    // 1.4142 world units rounds to 1
    assert_eq!(rounded_dist_exec(2_000_000), 1);
    // exactly 0.5 world units rounds up to 1
    assert_eq!(rounded_dist_exec(250_000), 1);
    // 0.499 world units rounds down to 0
    assert_eq!(rounded_dist_exec(249_001), 0);
    assert_eq!(rounded_dist_exec(0), 0);
    // 2.5 world units rounds up to 3
    assert_eq!(rounded_dist_exec(6_250_000), 3);
}

#[test]
fn binary_logarithm() {
    assert_eq!(log2_exec(1), 0);
    assert_eq!(log2_exec(2), 1);
    assert_eq!(log2_exec(3), 1);
    assert_eq!(log2_exec(100), 6);
    assert_eq!(log2_exec(1024), 10);
}

#[test]
fn prm_star_radius_formula() {
    // r*^2 = 3 * w * h * log2(n) * MILLI^2 * 113 / (710 * n)
    let cfg = PrmConfig::new(100, 10, 10, [0u8; 32], 4);
    let expected: u128 = 3 * 10 * 10 * 6 * (MILLI as u128) * (MILLI as u128) * 113 / (710 * 100);
    assert_eq!(radius_sq_milli_exec(&cfg), expected);
    assert_eq!(expected, 2_864_788);
    // a single vertex gets radius zero
    let cfg1 = PrmConfig::new(1, 10, 10, [0u8; 32], 1);
    assert_eq!(radius_sq_milli_exec(&cfg1), 0);
}

#[test]
fn rectangle_from_corners_normalizes() {
    let r = Rect::from_corners(Point::new(6000, 4000), Point::new(4000, 6000));
    assert_eq!(r.x_min, 4000);
    assert_eq!(r.y_min, 4000);
    assert_eq!(r.x_max, 6000);
    assert_eq!(r.y_max, 6000);
}
