use molecules::consts::{FP, FIX_DT, WORLD_W, WORLD_H, MOLECULE_SPEED, FIELD_MIN, FIELD_MAX};
use molecules::math::Vec2i;
use molecules::world::{World, Shape};
use molecules::particle::{Molecule, MoleculesBox, StaticElement, StaticElementBox, KeyedBox};
use molecules::util::{Color, wrap_around, random_position, random_rotation, random_unit_vec2,
    random_color, Signals};
use molecules::actors;

fn test_molecule(x: i64, y: i64) -> Molecule {
    Molecule {
        pos: Vec2i { x, y },
        rot: 0,
        vel: 0,
        ang_vel: 0,
        size: 6 * FP,
        color: Color::Red,
        shape: Shape::Circle { radius: 6 * FP },
        field_range: 32 * FP,
        physics_handle: None,
    }
}

#[test]
fn random_molecules_stay_in_their_ranges() {
    for _ in 0..50 {
        let m = Molecule::new();
        assert!(m.pos.x >= 0 && m.pos.x < WORLD_W);
        assert!(m.pos.y >= 0 && m.pos.y < WORLD_H);
        assert!(m.size >= 2 * FP && m.size <= 6 * FP);
        assert_eq!(m.size % FP, 0);
        assert!(m.vel >= 0 && m.vel <= MOLECULE_SPEED);
        assert!(m.field_range >= FIELD_MIN && m.field_range < FIELD_MAX);
        assert!(m.physics_handle.is_none());
    }
}

#[test]
fn registry_binds_and_unbinds_keys() {
    let mut world = World::new();
    let mut mb: MoleculesBox = KeyedBox::new();
    assert_eq!(mb.count(), 0);
    let k1 = mb.add_molecule(test_molecule(100_000, 100_000), &mut world);
    let k2 = mb.add_molecule(test_molecule(200_000, 200_000), &mut world);
    assert_ne!(k1, k2);
    assert_eq!(mb.count(), 2);
    assert_eq!(world.get_physics_obj_num(), 2);
    assert!(mb.get(k1).is_some());
    assert_eq!(mb.get(k1).unwrap().pos.x, 100_000);
    mb.remove(k1);
    assert!(mb.get(k1).is_none());
    assert!(mb.get(k2).is_some());
    assert_eq!(mb.count(), 1);
    // removing the registry entry does not remove the physics body
    assert_eq!(world.get_physics_obj_num(), 2);
}

#[test]
fn add_many_molecules_registers_bodies() {
    let mut world = World::new();
    let mut mb: MoleculesBox = KeyedBox::new();
    mb.add_many_molecules(10, &mut world);
    assert_eq!(world.get_physics_obj_num(), 10);
}

#[test]
fn sync_pulls_pose_from_physics() {
    let mut world = World::new();
    let mut mb: MoleculesBox = KeyedBox::new();
    let k = mb.add_molecule(test_molecule(250_000, 350_000), &mut world);
    world.step_physics(FIX_DT);
    mb.sync_from_physics(&mut world);
    let m = mb.get(k).unwrap();
    let h = m.physics_handle.unwrap();
    let d = world.get_physics_data(h).unwrap();
    assert_eq!(m.pos.x, d.position.x);
    assert_eq!(m.pos.y, d.position.y);
    assert_eq!(m.rot, d.rotation);
    assert_eq!(m.field_range, 32 * FP);
}

#[test]
fn sync_after_body_removal_is_a_defined_no_op() {
    let mut world = World::new();
    let mut mb: MoleculesBox = KeyedBox::new();
    let k = mb.add_molecule(test_molecule(250_000, 350_000), &mut world);
    world.step_physics(FIX_DT);
    mb.sync_from_physics(&mut world);
    let pos_before = mb.get(k).unwrap().pos;
    let h = mb.get(k).unwrap().physics_handle.unwrap();
    // the body leaves the physics world, the registry entry stays
    world.remove_physics_object(h);
    world.step_physics(FIX_DT);
    mb.sync_from_physics(&mut world);
    let m = mb.get(k).unwrap();
    assert_eq!(m.pos.x, pos_before.x);
    assert_eq!(m.pos.y, pos_before.y);
}

#[test]
fn static_elements_register_boxes() {
    let mut world = World::new();
    let mut eb: StaticElementBox = KeyedBox::new();
    let e = StaticElement::new(Vec2i { x: 300_000, y: 300_000 }, 10 * FP, 20 * FP, Color::Gray);
    let k = eb.add_element(e, &mut world);
    assert_eq!(world.get_physics_obj_num(), 1);
    let got = eb.get(k).unwrap();
    assert_eq!(got.width, 10 * FP);
    let h = got.physics_handle.unwrap();
    let d = world.get_physics_data(h).unwrap();
    assert_eq!(d.field_radius, None);
}

#[test]
fn wrap_around_keeps_the_tolerance_band() {
    let inside = wrap_around(&Vec2i { x: 400_000, y: 400_000 });
    assert_eq!(inside.x, 400_000);
    assert_eq!(inside.y, 400_000);
    let right = wrap_around(&Vec2i { x: WORLD_W + 5_001, y: 0 });
    assert_eq!(right.x, -5_000);
    let left = wrap_around(&Vec2i { x: -5_001, y: 0 });
    assert_eq!(left.x, WORLD_W + 5_000);
    let down = wrap_around(&Vec2i { x: 0, y: WORLD_H + 9_000 });
    assert_eq!(down.y, -5_000);
    let up = wrap_around(&Vec2i { x: 0, y: -6_000 });
    assert_eq!(up.y, WORLD_H + 5_000);
}

#[test]
fn random_draws_stay_in_range() {
    for _ in 0..50 {
        let p = random_position(WORLD_W, WORLD_H);
        assert!(p.x >= 0 && p.x < WORLD_W);
        assert!(p.y >= 0 && p.y < WORLD_H);
        let r = random_rotation();
        assert!(r >= 0 && r < 6_284);
        let u = random_unit_vec2();
        assert!(u.x.abs() <= FP && u.y.abs() <= FP);
        let _c = random_color();
    }
}

#[test]
fn signals_start_cleared() {
    let s = Signals::new();
    assert!(!s.spawn_molecule);
    assert!(!s.new_sim);
    assert!(s.new_sim_name.is_empty());
}

#[test]
fn collision_map_scenario_reports_both_agents() {
    // two circles of radius 6 with centers 10 units apart overlap by 2:
    // both keys score a hit of -2 units with opposite normals
    let mut w = actors::World {
        size: Vec2i { x: WORLD_W, y: WORLD_H },
        agents: KeyedBox::new(),
        hit_map: molecules::kinetic::CollisionsMap::new(),
    };
    let a1 = actors::Agent {
        pos: Vec2i { x: 100_000, y: 100_000 },
        rot: 0,
        vel: Vec2i { x: 0, y: 0 },
        size: 6 * FP,
    };
    let a2 = actors::Agent {
        pos: Vec2i { x: 110_000, y: 100_000 },
        rot: 0,
        vel: Vec2i { x: 0, y: 0 },
        size: 6 * FP,
    };
    let k1 = w.agents.add_agent(a1);
    let k2 = w.agents.add_agent(a2);
    let map = w.map_collisions();
    let h1 = map.get_collision(k1).unwrap();
    let h2 = map.get_collision(k2).unwrap();
    assert_eq!(h1.overlap, -2 * FP);
    assert_eq!(h2.overlap, -2 * FP);
    assert_eq!(h1.normal.x, FP);
    assert_eq!(h1.normal.y, 0);
    assert_eq!(h2.normal.x, -FP);
    assert_eq!(h2.normal.y, 0);
}

#[test]
fn actor_world_update_separates_overlapping_agents() {
    let mut w = actors::World {
        size: Vec2i { x: WORLD_W, y: WORLD_H },
        agents: KeyedBox::new(),
        hit_map: molecules::kinetic::CollisionsMap::new(),
    };
    let a1 = actors::Agent {
        pos: Vec2i { x: 100_000, y: 100_000 },
        rot: 0,
        vel: Vec2i { x: 0, y: 0 },
        size: 6 * FP,
    };
    let a2 = actors::Agent {
        pos: Vec2i { x: 110_000, y: 100_000 },
        rot: 0,
        vel: Vec2i { x: 0, y: 0 },
        size: 6 * FP,
    };
    let k1 = w.agents.add_agent(a1);
    let k2 = w.agents.add_agent(a2);
    w.update(FIX_DT);
    // each agent moved back along its own contact normal by the overlap
    let g1 = *w.agents.get(k1).unwrap();
    let g2 = *w.agents.get(k2).unwrap();
    assert_eq!(g1.pos.x, 98_000);
    assert_eq!(g2.pos.x, 112_000);
    assert_eq!(g1.pos.y, 100_000);
    assert_eq!(g2.pos.y, 100_000);
}

#[test]
fn actor_world_new_spawns_agents() {
    let w = actors::World::new(Vec2i { x: WORLD_W, y: WORLD_H }, 8);
    assert!(w.agents.get_iter().len() <= 8);
    assert!(w.agents.get_iter().len() >= 1);
}

#[test]
fn moving_agent_advances_and_wraps() {
    let mut a = actors::Agent {
        pos: Vec2i { x: 100_000, y: 100_000 },
        rot: 0,
        vel: Vec2i { x: 10_000, y: -5_000 },
        size: 6 * FP,
    };
    a.update(1000);
    assert_eq!(a.pos.x, 110_000);
    assert_eq!(a.pos.y, 95_000);
}
