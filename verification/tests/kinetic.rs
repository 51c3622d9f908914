use molecules::consts::FP;
use molecules::kinetic::{contact_circles, contact_mouse, CollisionsMap, Hit, ObjectType};
use molecules::math::{isqrt, div_to_zero, clamp64, Vec2i};

#[test]
fn isqrt_exact_squares() {
    assert_eq!(isqrt(0), 0);
    assert_eq!(isqrt(1), 1);
    assert_eq!(isqrt(144), 12);
    assert_eq!(isqrt(100_000_000), 10_000);
    assert_eq!(isqrt(9_223_372_036_854_775_807), 3_037_000_499);
}

#[test]
fn isqrt_rounds_down() {
    assert_eq!(isqrt(2), 1);
    assert_eq!(isqrt(143), 11);
    assert_eq!(isqrt(10_001), 100);
}

#[test]
fn division_truncates_toward_zero() {
    assert_eq!(div_to_zero(7, 2), 3);
    assert_eq!(div_to_zero(-7, 2), -3);
    assert_eq!(div_to_zero(0, 5), 0);
    assert_eq!(div_to_zero(-1, 1000), 0);
}

#[test]
fn clamping() {
    assert_eq!(clamp64(5, 0, 10), 5);
    assert_eq!(clamp64(-5, 0, 10), 0);
    assert_eq!(clamp64(15, 0, 10), 10);
}

#[test]
fn disjoint_circles_have_no_contact() {
    // centers 20 units apart, radii 6 + 6: disjoint
    let p1 = Vec2i { x: 0, y: 0 };
    let p2 = Vec2i { x: 20 * FP, y: 0 };
    let r = contact_circles(p1, 0, 6 * FP, p2, 0, 6 * FP);
    assert!(r.is_none());
}

#[test]
fn touching_circles_have_no_contact() {
    // centers exactly 12 units apart, radii 6 + 6: touching counts as disjoint
    let p1 = Vec2i { x: 0, y: 0 };
    let p2 = Vec2i { x: 12 * FP, y: 0 };
    let r = contact_circles(p1, 0, 6 * FP, p2, 0, 6 * FP);
    assert!(r.is_none());
}

#[test]
fn overlapping_circles_report_penetration() {
    // centers 10 units apart, radii 6 + 6: overlapping by 2 units
    let p1 = Vec2i { x: 0, y: 0 };
    let p2 = Vec2i { x: 10 * FP, y: 0 };
    let c = contact_circles(p1, 0, 6 * FP, p2, 0, 6 * FP).unwrap();
    assert_eq!(c.dist, -2 * FP);
    assert_eq!(c.normal1.x, FP);
    assert_eq!(c.normal1.y, 0);
    // contact point sits on the first circle's surface toward the second
    assert_eq!(c.point1.x, 6 * FP);
    assert_eq!(c.point1.y, 0);
}

#[test]
fn concentric_circles_use_zero_normal() {
    let p = Vec2i { x: 5 * FP, y: 5 * FP };
    let c = contact_circles(p, 0, 3 * FP, p, 0, 4 * FP).unwrap();
    assert_eq!(c.dist, -7 * FP);
    assert_eq!(c.normal1.x, 0);
    assert_eq!(c.normal1.y, 0);
}

#[test]
fn diagonal_overlap_has_unit_scale_normal() {
    // centers (3, 4) * 2 units apart: distance exactly 10 units
    let p1 = Vec2i { x: 0, y: 0 };
    let p2 = Vec2i { x: 6 * FP, y: 8 * FP };
    let c = contact_circles(p1, 0, 6 * FP, p2, 0, 6 * FP).unwrap();
    assert_eq!(c.dist, -2 * FP);
    assert_eq!(c.normal1.x, 600);
    assert_eq!(c.normal1.y, 800);
}

#[test]
fn mouse_hit_detection() {
    let center = Vec2i { x: 10 * FP, y: 10 * FP };
    assert!(contact_mouse(Vec2i { x: 10 * FP, y: 10 * FP }, center, 2 * FP));
    assert!(contact_mouse(Vec2i { x: 11 * FP, y: 10 * FP }, center, 2 * FP));
    assert!(!contact_mouse(Vec2i { x: 12 * FP, y: 10 * FP }, center, 2 * FP));
    assert!(!contact_mouse(Vec2i { x: 20 * FP, y: 20 * FP }, center, 2 * FP));
}

#[test]
fn collision_map_last_write_wins() {
    let mut map = CollisionsMap::new();
    assert!(map.get_collision(7).is_none());
    let first = Hit {
        normal: Vec2i { x: FP, y: 0 },
        overlap: -1000,
        target_type: ObjectType::Agent,
    };
    let second = Hit {
        normal: Vec2i { x: 0, y: FP },
        overlap: -2500,
        target_type: ObjectType::Agent,
    };
    map.add_collision(7, first);
    map.add_collision(9, first);
    map.add_collision(7, second);
    let got = map.get_collision(7).unwrap();
    assert_eq!(got.overlap, -2500);
    assert_eq!(got.normal.y, FP);
    let other = map.get_collision(9).unwrap();
    assert_eq!(other.overlap, -1000);
    assert!(map.get_collision(8).is_none());
}
