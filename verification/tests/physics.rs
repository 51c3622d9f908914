use molecules::consts::{FP, FIX_DT, WORLD_W, WORLD_H};
use molecules::math::Vec2i;
use molecules::world::World;

const CX: i64 = 400_000;
const CY: i64 = 400_000;

#[test]
fn new_world_is_empty() {
    let w = World::new();
    assert_eq!(w.get_physics_obj_num(), 0);
    assert_eq!(w.get_events_handled(), 0);
}

#[test]
fn build_adds_one_anchor_body() {
    let mut w = World::new();
    w.build();
    assert_eq!(w.get_physics_obj_num(), 1);
}

#[test]
fn world_constants_match_the_scenario() {
    assert_eq!(WORLD_W, 800 * FP);
    assert_eq!(WORLD_H, 800 * FP);
}

#[test]
fn added_body_reports_its_pose_and_field() {
    let mut w = World::new();
    let pos = Vec2i { x: 100_000, y: 200_000 };
    let h = w.add_circle_body(&pos, 6 * FP, 32 * FP);
    let d = w.get_physics_data(h).unwrap();
    assert_eq!(d.position.x, 100_000);
    assert_eq!(d.position.y, 200_000);
    // zero orientation is reported with the half-turn offset
    assert_eq!(d.rotation, 3_142);
    // the sensor radius is exactly the field radius passed at creation
    assert_eq!(d.field_radius, Some(32 * FP));
}

#[test]
fn static_body_has_no_field_radius() {
    let mut w = World::new();
    let pos = Vec2i { x: 300_000, y: 300_000 };
    let h = w.add_static_body(&pos, 10 * FP, 20 * FP);
    let d = w.get_physics_data(h).unwrap();
    assert_eq!(d.position.x, 300_000);
    // absence of a sensor is an explicit absence, not zero
    assert_eq!(d.field_radius, None);
}

#[test]
fn zero_field_radius_is_still_present() {
    let mut w = World::new();
    let pos = Vec2i { x: 300_000, y: 300_000 };
    let h = w.add_circle_body(&pos, 6 * FP, 0);
    let d = w.get_physics_data(h).unwrap();
    assert_eq!(d.field_radius, Some(0));
}

#[test]
fn removed_handle_never_resolves_again() {
    let mut w = World::new();
    let pos = Vec2i { x: 100_000, y: 100_000 };
    let h = w.add_circle_body(&pos, 6 * FP, 32 * FP);
    assert_eq!(w.get_physics_obj_num(), 1);
    w.remove_physics_object(h);
    assert_eq!(w.get_physics_obj_num(), 0);
    assert!(w.get_physics_data(h).is_none());
    // a later body may reuse the slot, but not the handle
    let h2 = w.add_circle_body(&pos, 6 * FP, 32 * FP);
    assert!(w.get_physics_data(h).is_none());
    assert!(w.get_physics_data(h2).is_some());
}

#[test]
fn removing_twice_is_harmless() {
    let mut w = World::new();
    let pos = Vec2i { x: 100_000, y: 100_000 };
    let h = w.add_circle_body(&pos, 6 * FP, 32 * FP);
    w.remove_physics_object(h);
    w.remove_physics_object(h);
    assert_eq!(w.get_physics_obj_num(), 0);
}

#[test]
fn zero_dt_step_changes_no_pose() {
    let mut w = World::new();
    w.build();
    let pos = Vec2i { x: 250_000, y: 350_000 };
    let h = w.add_circle_body(&pos, 6 * FP, 32 * FP);
    let before = w.get_physics_data(h).unwrap();
    w.step_physics(0);
    let after = w.get_physics_data(h).unwrap();
    assert_eq!(before.position.x, after.position.x);
    assert_eq!(before.position.y, after.position.y);
    assert_eq!(before.rotation, after.rotation);
}

#[test]
fn centered_body_stays_near_the_center() {
    // world 800 x 800, one circle at (400, 400), radius 6, field 32:
    // the central force vanishes at the exact center, so after one
    // 1/30 s step only the random initial velocity moves the body,
    // by less than one world unit
    let mut w = World::new();
    w.build();
    let center = Vec2i { x: CX, y: CY };
    let h = w.add_circle_body(&center, 6 * FP, 32 * FP);
    w.step_physics(FIX_DT);
    let d = w.get_physics_data(h).unwrap();
    let dx = (d.position.x - CX).abs();
    let dy = (d.position.y - CY).abs();
    assert!(dx <= 825, "moved {dx} sub-units in x");
    assert!(dy <= 825, "moved {dy} sub-units in y");
    assert_eq!(d.field_radius, Some(32 * FP));
}

#[test]
fn overlapping_circles_are_pushed_apart() {
    let mut w = World::new();
    let p1 = Vec2i { x: 300_000, y: 300_000 };
    let p2 = Vec2i { x: 310_000, y: 300_000 };
    let h1 = w.add_circle_body(&p1, 6 * FP, 0);
    let h2 = w.add_circle_body(&p2, 6 * FP, 0);
    w.step_physics(FIX_DT);
    let d1 = w.get_physics_data(h1).unwrap();
    let d2 = w.get_physics_data(h2).unwrap();
    let dx = (d2.position.x - d1.position.x) as i128;
    let dy = (d2.position.y - d1.position.y) as i128;
    let dist2 = dx * dx + dy * dy;
    // started 10 units apart with radii 6 + 6; resolution separates them
    assert!(dist2 >= 11_000i128 * 11_000, "still overlapping: {dist2}");
}

#[test]
fn body_inside_a_wall_is_pushed_into_the_world() {
    // the left wall slab spans x in [-100, 100] units; a body dropped at
    // x = 90 escapes through the slab's nearest face, to x = 106
    let mut w = World::new();
    w.build();
    let pos = Vec2i { x: 90_000, y: 400_000 };
    let h = w.add_circle_body(&pos, 6 * FP, 0);
    w.step_physics(FIX_DT);
    let d = w.get_physics_data(h).unwrap();
    assert_eq!(d.position.x, 106_000);
    assert!((d.position.y - 400_000).abs() <= 825);
}

#[test]
fn far_outside_body_is_confined_to_the_play_area() {
    // the walls confine the simulation: a circle dropped far outside the
    // play area is inside it after one step
    let mut w = World::new();
    w.build();
    let pos = Vec2i { x: -200_000, y: 400_000 };
    let h = w.add_circle_body(&pos, 6 * FP, 0);
    w.step_physics(FIX_DT);
    let d = w.get_physics_data(h).unwrap();
    assert_eq!(d.position.x, 106_000);
    assert!(d.position.y >= 106_000 && d.position.y <= 694_000);
    // and it stays confined on later steps
    for _ in 0..10 {
        w.step_physics(FIX_DT);
    }
    let d2 = w.get_physics_data(h).unwrap();
    assert!(d2.position.x >= 106_000 && d2.position.x <= 694_000);
    assert!(d2.position.y >= 106_000 && d2.position.y <= 694_000);
}

#[test]
fn sensor_overlaps_are_counted_each_step() {
    let mut w = World::new();
    // two circles 30 units apart: solid circles (6 + 6) stay clear, but
    // each 32-unit sensor overlaps the other's 6-unit solid circle
    let p1 = Vec2i { x: 300_000, y: 300_000 };
    let p2 = Vec2i { x: 330_000, y: 300_000 };
    let _h1 = w.add_circle_body(&p1, 6 * FP, 32 * FP);
    let _h2 = w.add_circle_body(&p2, 6 * FP, 32 * FP);
    assert_eq!(w.get_events_handled(), 0);
    w.step_physics(0);
    // both ordered pairs raise one notification; the queue is drained
    assert_eq!(w.get_events_handled(), 2);
    w.step_physics(0);
    assert_eq!(w.get_events_handled(), 4);
}

#[test]
fn distant_sensors_raise_no_notifications() {
    let mut w = World::new();
    let p1 = Vec2i { x: 200_000, y: 200_000 };
    let p2 = Vec2i { x: 600_000, y: 600_000 };
    let _h1 = w.add_circle_body(&p1, 6 * FP, 32 * FP);
    let _h2 = w.add_circle_body(&p2, 6 * FP, 32 * FP);
    w.step_physics(FIX_DT);
    assert_eq!(w.get_events_handled(), 0);
}

#[test]
fn gravity_pulls_a_body_toward_the_center() {
    let mut w = World::new();
    w.build();
    // far from the center, with no initial velocity direction guaranteed;
    // after a few steps the pull dominates the random start without
    // overshooting the center
    let pos = Vec2i { x: 200_000, y: 400_000 };
    let h = w.add_circle_body(&pos, 6 * FP, 0);
    let before = (w.get_physics_data(h).unwrap().position.x - CX).abs();
    for _ in 0..5 {
        w.step_physics(FIX_DT);
    }
    let after = (w.get_physics_data(h).unwrap().position.x - CX).abs();
    assert!(after < before, "no pull: {before} -> {after}");
}
