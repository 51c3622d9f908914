//! The Physics World: owner of every rigid body and collider. Bodies are
//! held in a slot arena and referenced from outside only through
//! generation-checked handles, so a lookup after removal fails instead of
//! returning stale data.

use vstd::prelude::*;
use crate::consts::{FP, WORLD_W, WORLD_H, WALL_THICKNESS, MOLECULE_SPEED, GRAV_NUM, HALF_TURN,
    POS_LIMIT, VEL_LIMIT, RADIUS_LIMIT, FORCE_LIMIT};
use crate::math::{Vec2i, abs_i, sdiv, clamp_i, sqrt_floor, is_sqrt_floor, lemma_mul_bound, lemma_sdiv_exact,
    lemma_sq_nonneg, lemma_abs_sq, lemma_sq_le, lemma_sdiv_bound, lemma_sdiv_abs,
    lemma_sqrt_floor_is, div_to_zero, clamp64, isqrt};
use crate::kinetic::{sq, in_coord_range, valid_radius};
use crate::channel::{EventQueue, QueueEvent, queue_contents, new_event_queue, push_event,
    pop_event};
use crate::util::random_unit_vec2;
use vstd::arithmetic::div_mod::lemma_fundamental_div_mod;

verus! {

/// Restitution of a molecule's solid collider (0.9 in `FP` fractions).
pub const MOLECULE_RESTITUTION: i64 = 900;
/// Friction of a molecule's solid collider (0.1 in `FP` fractions).
pub const MOLECULE_FRICTION: i64 = 100;
/// X coordinate of the world center.
pub const WORLD_CX: i64 = 400_000;
/// Y coordinate of the world center.
pub const WORLD_CY: i64 = 400_000;

/// Whether a body moves: walls and static boxes are `Fixed`, molecules are
/// `Dynamic`.
#[derive(Clone, Copy, PartialEq, Eq, Structural, Debug)]
pub enum BodyType {
    Fixed,
    Dynamic,
}

/// A collision shape: a circle or an axis-aligned box, each sized in
/// fixed-point units (box extents are half-widths).
#[derive(Clone, Copy, PartialEq, Eq, Structural, Debug)]
pub enum Shape {
    Circle { radius: i64 },
    Cuboid { half_w: i64, half_h: i64 },
}

/// A collision shape attached to one body, with its material. A sensor
/// collider reports overlaps but never pushes back.
#[derive(Clone, Copy, PartialEq, Eq, Structural, Debug)]
pub struct Collider {
    /// Position of the shape relative to the owning body's origin.
    pub offset: Vec2i,
    pub shape: Shape,
    pub sensor: bool,
    /// Bounciness in `FP` fractions (0 absorbs, `FP` reflects fully).
    pub restitution: i64,
    /// Friction coefficient in `FP` fractions.
    pub friction: i64,
    /// Whether overlaps of this collider raise queue notifications.
    pub events: bool,
}

/// A rigid body: pose, motion and its attached colliders.
pub struct RigidBody {
    pub pos: Vec2i,
    /// Orientation angle in fixed-point radians.
    pub rot: i64,
    pub vel: Vec2i,
    /// Force accumulated for the next integration; rebuilt every step.
    pub force: Vec2i,
    pub body_type: BodyType,
    /// Always false here: bodies never go dormant.
    pub can_sleep: bool,
    pub colliders: Vec<Collider>,
}

/// Mathematical image of a rigid body.
#[verifier::ext_equal]
pub struct BodyV {
    pub pos: Vec2i,
    pub rot: i64,
    pub vel: Vec2i,
    pub force: Vec2i,
    pub body_type: BodyType,
    pub can_sleep: bool,
    pub colliders: Seq<Collider>,
}

impl View for RigidBody {
    type V = BodyV;

    open spec fn view(&self) -> BodyV {
        BodyV {
            pos: self.pos,
            rot: self.rot,
            vel: self.vel,
            force: self.force,
            body_type: self.body_type,
            can_sleep: self.can_sleep,
            colliders: self.colliders@,
        }
    }
}

/// A generation-checked reference to a body. It stays valid until the body
/// is removed and never resolves to a different body afterwards.
#[derive(Clone, Copy, PartialEq, Eq, Structural, Hash, Debug)]
pub struct RigidBodyHandle {
    pub index: usize,
    pub generation: u64,
}

/// One arena slot: its current generation and the body living in it, if
/// any.
pub(crate) struct Slot {
    pub(crate) generation: u64,
    pub(crate) body: Option<RigidBody>,
}

/// Mathematical image of an arena slot.
#[verifier::ext_equal]
pub struct SlotV {
    pub generation: u64,
    pub body: Option<BodyV>,
}

impl View for Slot {
    type V = SlotV;

    closed spec fn view(&self) -> SlotV {
        SlotV {
            generation: self.generation,
            body: match self.body {
                Some(b) => Some(b@),
                None => None,
            },
        }
    }
}

/// Derived pose data pulled out of the world for one body.
#[derive(Clone, Copy, Debug)]
pub struct PhysicsData {
    pub position: Vec2i,
    /// Orientation with the deliberate half-turn offset applied.
    pub rotation: i64,
    /// Radius of the body's sensor collider; `None` when it has none.
    pub field_radius: Option<i64>,
}

/// A handle resolves exactly when its slot exists, carries the same
/// generation, and is occupied.
pub open spec fn valid_handle_v(s: Seq<SlotV>, h: RigidBodyHandle) -> bool {
    &&& (h.index as int) < s.len()
    &&& s[h.index as int].generation == h.generation
    &&& s[h.index as int].body is Some
}

/// Number of occupied slots.
pub open spec fn count_live(s: Seq<SlotV>) -> int
    decreases s.len(),
{
    if s.len() == 0 {
        0
    } else {
        count_live(s.drop_last()) + if s.last().body is Some {
            1int
        } else {
            0int
        }
    }
}

/// The slot count brackets the live count.
pub proof fn lemma_count_live_bounds(s: Seq<SlotV>)
    ensures
        0 <= count_live(s) <= s.len(),
    decreases s.len(),
{
    if s.len() > 0 {
        lemma_count_live_bounds(s.drop_last());
    }
}

/// How one slot update moves the live count.
pub proof fn lemma_count_live_update(s: Seq<SlotV>, i: int, slot: SlotV)
    requires
        0 <= i < s.len(),
    ensures
        count_live(s.update(i, slot)) == count_live(s) + (if slot.body is Some {
            1int
        } else {
            0int
        }) - (if s[i].body is Some {
            1int
        } else {
            0int
        }),
    decreases s.len(),
{
    let s2 = s.update(i, slot);
    if i == s.len() - 1 {
        assert(s2.drop_last() =~= s.drop_last());
    } else {
        assert(s2.drop_last() =~= s.drop_last().update(i, slot));
        lemma_count_live_update(s.drop_last(), i, slot);
    }
}

/// Appending a slot adds its occupancy to the live count.
pub proof fn lemma_count_live_push(s: Seq<SlotV>, slot: SlotV)
    ensures
        count_live(s.push(slot)) == count_live(s) + (if slot.body is Some {
            1int
        } else {
            0int
        }),
{
    assert(s.push(slot).drop_last() =~= s);
}

/// The live count only depends on which slots are occupied.
pub proof fn lemma_count_live_same_occupancy(s1: Seq<SlotV>, s2: Seq<SlotV>)
    requires
        s1.len() == s2.len(),
        forall|i: int| 0 <= i < s1.len() ==> (s1[i].body is Some <==> s2[i].body is Some),
    ensures
        count_live(s1) == count_live(s2),
    decreases s1.len(),
{
    if s1.len() > 0 {
        assert(forall|i: int|
            0 <= i < s1.drop_last().len() ==> (s1.drop_last()[i].body is Some
                <==> s2.drop_last()[i].body is Some));
        lemma_count_live_same_occupancy(s1.drop_last(), s2.drop_last());
    }
}

/// Well-formedness of one collider.
pub open spec fn collider_wf(c: Collider) -> bool {
    &&& abs_i(c.offset.x as int) <= RADIUS_LIMIT as int
    &&& abs_i(c.offset.y as int) <= RADIUS_LIMIT as int
    &&& match c.shape {
        Shape::Circle { radius } => if c.sensor {
            0 <= radius <= RADIUS_LIMIT
        } else {
            0 < radius <= RADIUS_LIMIT
        },
        Shape::Cuboid { half_w, half_h } => 0 < half_w <= RADIUS_LIMIT && 0 < half_h
            <= RADIUS_LIMIT,
    }
    &&& 0 <= c.restitution <= FP
    &&& 0 <= c.friction <= FP
}

/// Well-formedness of one body: bounded pose and motion, well-formed
/// colliders, and the shape discipline this world maintains — dynamic
/// bodies carry circles only, fixed bodies carry solid boxes only and do
/// not move.
pub open spec fn body_wf(b: BodyV) -> bool {
    &&& in_coord_range(b.pos)
    &&& abs_i(b.rot as int) <= 2 * HALF_TURN
    &&& abs_i(b.vel.x as int) <= VEL_LIMIT as int
    &&& abs_i(b.vel.y as int) <= VEL_LIMIT as int
    &&& abs_i(b.force.x as int) <= FORCE_LIMIT as int
    &&& abs_i(b.force.y as int) <= FORCE_LIMIT as int
    &&& forall|k: int| 0 <= k < b.colliders.len() ==> collider_wf(#[trigger] b.colliders[k])
    &&& match b.body_type {
        BodyType::Dynamic => forall|k: int|
            0 <= k < b.colliders.len() ==> (#[trigger] b.colliders[k]).shape is Circle,
        BodyType::Fixed => {
            &&& b.vel == (Vec2i { x: 0, y: 0 })
            &&& b.force == (Vec2i { x: 0, y: 0 })
            &&& forall|k: int|
                0 <= k < b.colliders.len() ==> (#[trigger] b.colliders[k]).shape is Cuboid
                    && !b.colliders[k].sensor
        },
    }
}

/// Well-formedness of the whole slot sequence.
pub open spec fn slots_wf(s: Seq<SlotV>) -> bool {
    forall|i: int|
        0 <= i < s.len() && (#[trigger] s[i]).body is Some ==> body_wf(s[i].body.unwrap())
}

/// Radius of the last sensor circle among a body's colliders, scanning in
/// collider order with later sensors shadowing earlier ones; `None` when
/// the body carries no sensor circle.
pub open spec fn sensor_radius_of(cs: Seq<Collider>) -> Option<i64>
    decreases cs.len(),
{
    if cs.len() == 0 {
        None
    } else {
        let c = cs.last();
        if c.sensor {
            match c.shape {
                Shape::Circle { radius } => Some(radius),
                Shape::Cuboid { .. } => sensor_radius_of(cs.drop_last()),
            }
        } else {
            sensor_radius_of(cs.drop_last())
        }
    }
}

/// The generation a slot carries after a removal: one higher, saturating
/// so a slot whose counter is exhausted is retired rather than recycled.
pub open spec fn bump_gen(g: u64) -> u64 {
    if g < u64::MAX {
        (g + 1) as u64
    } else {
        g
    }
}

/// The world: the slot arena, the live-body count, and the collision
/// notification queue with its drained-event tally.
pub struct World {
    pub(crate) slots: Vec<Slot>,
    pub(crate) live: usize,
    pub(crate) events: EventQueue,
    pub(crate) events_handled: u64,
}

impl View for World {
    type V = Seq<SlotV>;

    closed spec fn view(&self) -> Seq<SlotV> {
        self.slots@.map_values(|s: Slot| s@)
    }
}

/// The molecule's solid collision circle.
pub open spec fn spec_solid_circle_collider(radius: i64) -> Collider {
    Collider {
        offset: Vec2i { x: 0, y: 0 },
        shape: Shape::Circle { radius },
        sensor: false,
        restitution: MOLECULE_RESTITUTION,
        friction: MOLECULE_FRICTION,
        events: false,
    }
}

/// The molecule's non-solid sensor circle (its field range).
pub open spec fn spec_sensor_circle_collider(field_radius: i64) -> Collider {
    Collider {
        offset: Vec2i { x: 0, y: 0 },
        shape: Shape::Circle { radius: field_radius },
        sensor: true,
        restitution: 0,
        friction: 0,
        events: true,
    }
}

/// The body a circle-body request creates, up to its random velocity.
pub open spec fn spec_circle_bodyv(position: Vec2i, radius: i64, field_radius: i64, vel: Vec2i)
    -> BodyV {
    BodyV {
        pos: position,
        rot: 0,
        vel,
        force: Vec2i { x: 0, y: 0 },
        body_type: BodyType::Dynamic,
        can_sleep: false,
        colliders: seq![
            spec_solid_circle_collider(radius),
            spec_sensor_circle_collider(field_radius),
        ],
    }
}

/// The body a static-box request creates.
pub open spec fn spec_static_bodyv(position: Vec2i, width: i64, height: i64) -> BodyV {
    BodyV {
        pos: position,
        rot: 0,
        vel: Vec2i { x: 0, y: 0 },
        force: Vec2i { x: 0, y: 0 },
        body_type: BodyType::Fixed,
        can_sleep: false,
        colliders: seq![
            Collider {
                offset: Vec2i { x: 0, y: 0 },
                shape: Shape::Cuboid { half_w: width, half_h: height },
                sensor: false,
                restitution: FP,
                friction: 0,
                events: false,
            },
        ],
    }
}

/// One frictionless, perfectly rigid wall slab.
pub open spec fn spec_wall_collider(off_x: i64, off_y: i64, half_w: i64, half_h: i64) -> Collider {
    Collider {
        offset: Vec2i { x: off_x, y: off_y },
        shape: Shape::Cuboid { half_w, half_h },
        sensor: false,
        restitution: 0,
        friction: 0,
        events: false,
    }
}

/// The fixed anchor body `build` creates: one immovable body at the world
/// center carrying the four boundary wall slabs.
pub open spec fn spec_wall_anchor_bodyv() -> BodyV {
    BodyV {
        pos: Vec2i { x: WORLD_CX, y: WORLD_CY },
        rot: 0,
        vel: Vec2i { x: 0, y: 0 },
        force: Vec2i { x: 0, y: 0 },
        body_type: BodyType::Fixed,
        can_sleep: false,
        colliders: seq![
            spec_wall_collider((-WORLD_CX) as i64, 0, WALL_THICKNESS, WORLD_H),
            spec_wall_collider(WORLD_CX, 0, WALL_THICKNESS, WORLD_H),
            spec_wall_collider(0, (-WORLD_CY) as i64, WORLD_W, WALL_THICKNESS),
            spec_wall_collider(0, WORLD_CY, WORLD_W, WALL_THICKNESS),
        ],
    }
}

impl World {
    /// The world's structural invariant: every live body is well formed and
    /// the live counter matches the occupancy.
    pub closed spec fn wf(self) -> bool {
        &&& slots_wf(self@)
        &&& self.live as int == count_live(self@)
        &&& queue_contents(self.events).len() == 0
    }

    /// The collision notifications currently queued.
    pub closed spec fn queue(self) -> Seq<QueueEvent> {
        queue_contents(self.events)
    }

    /// Total sensor notifications drained so far.
    pub closed spec fn handled(self) -> u64 {
        self.events_handled
    }

    /// An empty world with an empty notification queue.
    pub fn new() -> (w: World)
        ensures
            w.wf(),
            w@.len() == 0,
            count_live(w@) == 0,
            w.queue() == Seq::<QueueEvent>::empty(),
            w.handled() == 0,
    {
        let w = World {
            slots: Vec::new(),
            live: 0,
            events: new_event_queue(),
            events_handled: 0,
        };
        proof {
            assert(w@ =~= Seq::<SlotV>::empty());
        }
        w
    }

    /// Index of a reusable slot: free and with generations to spare.
    fn find_free_slot(&self) -> (r: Option<usize>)
        ensures
            r matches Some(i) ==> (i as int) < self@.len() && self@[i as int].body is None
                && self@[i as int].generation < u64::MAX,
    {
        let n = self.slots.len();
        let mut i: usize = 0;
        while i < n
            invariant
                n == self.slots@.len(),
                i <= n,
            decreases n - i,
        {
            if self.slots[i].body.is_none() && self.slots[i].generation < u64::MAX {
                return Some(i);
            }
            i = i + 1;
        }
        None
    }

    /// Place a body in the first reusable free slot, or a fresh one.
    fn alloc_body(&mut self, body: RigidBody) -> (h: RigidBodyHandle)
        requires
            old(self).wf(),
            body_wf(body@),
        ensures
            final (self).wf(),
            valid_handle_v(final (self)@, h),
            final (self)@[h.index as int].body == Some(body@),
            final (self)@.len() == old(self)@.len() || final (self)@.len() == old(self)@.len()
                + 1,
            forall|i: int|
                0 <= i < old(self)@.len() && i != h.index as int ==> final (self)@[i] == old(
                    self,
                )@[i],
            (h.index as int) < old(self)@.len() ==> old(self)@[h.index as int].body is None
                && final (self)@[h.index as int].generation == old(self)@[h.index
                as int].generation,
            (h.index as int) == old(self)@.len() ==> final (self)@.len() == old(self)@.len() + 1
                && h.generation == 0,
            count_live(final (self)@) == count_live(old(self)@) + 1,
            final (self).queue() == old(self).queue(),
            final (self).handled() == old(self).handled(),
    {
        match self.find_free_slot() {
            Some(i) => {
                let g = self.slots[i].generation;
                proof {
                    lemma_count_live_update(
                        self@,
                        i as int,
                        SlotV { generation: g, body: Some(body@) },
                    );
                    lemma_count_live_bounds(self@.update(
                        i as int,
                        SlotV { generation: g, body: Some(body@) },
                    ));
                }
                self.slots.set(i, Slot { generation: g, body: Some(body) });
                proof {
                    assert(self@ =~= old(self)@.update(
                        i as int,
                        SlotV { generation: g, body: Some(self@[i as int].body.unwrap()) },
                    ));
                    assert(self@ =~= old(self)@.update(
                        i as int,
                        SlotV { generation: g, body: self@[i as int].body },
                    ));
                }
                let len_now = self.slots.len();
                proof {
                    assert(self.live as int == count_live(old(self)@));
                    assert(count_live(self@) <= len_now as int);
                }
                self.live = self.live + 1;
                RigidBodyHandle { index: i, generation: g }
            },
            None => {
                let n = self.slots.len();
                proof {
                    lemma_count_live_push(self@, SlotV { generation: 0, body: Some(body@) });
                    lemma_count_live_bounds(self@);
                }
                self.slots.push(Slot { generation: 0, body: Some(body) });
                proof {
                    assert(self@ =~= old(self)@.push(
                        SlotV { generation: 0, body: self@[n as int].body },
                    ));
                }
                let len_now = self.slots.len();
                proof {
                    assert(self.live as int == count_live(old(self)@));
                    assert(count_live(self@) <= len_now as int);
                }
                self.live = self.live + 1;
                RigidBodyHandle { index: n, generation: 0 }
            },
        }
    }

    /// Build the world boundary: one fixed anchor body at the world center
    /// carrying four wall slabs, one along each edge of the rectangle, so
    /// dynamic bodies bounce off an enclosing box.
    pub fn build(&mut self)
        requires
            old(self).wf(),
        ensures
            final (self).wf(),
            count_live(final (self)@) == count_live(old(self)@) + 1,
            final (self)@.len() == old(self)@.len() || final (self)@.len() == old(self)@.len()
                + 1,
            exists|a: int|
                0 <= a < final (self)@.len() && final (self)@[a].body == Some(
                    spec_wall_anchor_bodyv(),
                ) && (forall|i: int|
                    0 <= i < old(self)@.len() && i != a ==> final (self)@[i] == old(self)@[i]),
            final (self).queue() == old(self).queue(),
            final (self).handled() == old(self).handled(),
    {
        let mut colliders: Vec<Collider> = Vec::new();
        colliders.push(
            Collider {
                offset: Vec2i { x: -WORLD_CX, y: 0 },
                shape: Shape::Cuboid { half_w: WALL_THICKNESS, half_h: WORLD_H },
                sensor: false,
                restitution: 0,
                friction: 0,
                events: false,
            },
        );
        colliders.push(
            Collider {
                offset: Vec2i { x: WORLD_CX, y: 0 },
                shape: Shape::Cuboid { half_w: WALL_THICKNESS, half_h: WORLD_H },
                sensor: false,
                restitution: 0,
                friction: 0,
                events: false,
            },
        );
        colliders.push(
            Collider {
                offset: Vec2i { x: 0, y: -WORLD_CY },
                shape: Shape::Cuboid { half_w: WORLD_W, half_h: WALL_THICKNESS },
                sensor: false,
                restitution: 0,
                friction: 0,
                events: false,
            },
        );
        colliders.push(
            Collider {
                offset: Vec2i { x: 0, y: WORLD_CY },
                shape: Shape::Cuboid { half_w: WORLD_W, half_h: WALL_THICKNESS },
                sensor: false,
                restitution: 0,
                friction: 0,
                events: false,
            },
        );
        let anchor = RigidBody {
            pos: Vec2i { x: WORLD_CX, y: WORLD_CY },
            rot: 0,
            vel: Vec2i { x: 0, y: 0 },
            force: Vec2i { x: 0, y: 0 },
            body_type: BodyType::Fixed,
            can_sleep: false,
            colliders,
        };
        proof {
            assert(anchor@ =~= spec_wall_anchor_bodyv());
        }
        let h = self.alloc_body(anchor);
    }

    /// Create one dynamic circle body: a solid collision circle of
    /// `radius`, a sensor circle of `field_radius`, no initial force, and
    /// an initial velocity of magnitude about `MOLECULE_SPEED` in a random
    /// direction.
    pub fn add_circle_body(&mut self, position: &Vec2i, radius: i64, field_radius: i64) -> (h:
        RigidBodyHandle)
        requires
            old(self).wf(),
            in_coord_range(*position),
            valid_radius(radius as int),
            0 <= field_radius <= RADIUS_LIMIT,
        ensures
            final (self).wf(),
            valid_handle_v(final (self)@, h),
            exists|vel: Vec2i|
                abs_i(vel.x as int) <= MOLECULE_SPEED as int && abs_i(vel.y as int)
                    <= MOLECULE_SPEED as int && MOLECULE_SPEED * (MOLECULE_SPEED - 100) <= vel.x
                    * vel.x + vel.y * vel.y <= 3 * (MOLECULE_SPEED * MOLECULE_SPEED)
                    && final (self)@[h.index as int].body == Some(
                    spec_circle_bodyv(*position, radius, field_radius, vel),
                ),
            final (self)@.len() == old(self)@.len() || final (self)@.len() == old(self)@.len()
                + 1,
            forall|i: int|
                0 <= i < old(self)@.len() && i != h.index as int ==> final (self)@[i] == old(
                    self,
                )@[i],
            (h.index as int) < old(self)@.len() ==> old(self)@[h.index as int].body is None,
            count_live(final (self)@) == count_live(old(self)@) + 1,
            final (self).queue() == old(self).queue(),
            final (self).handled() == old(self).handled(),
    {
        let u = random_unit_vec2();
        proof {
            lemma_mul_bound(u.x as int, MOLECULE_SPEED as int, FP as int, MOLECULE_SPEED as int);
            lemma_mul_bound(u.y as int, MOLECULE_SPEED as int, FP as int, MOLECULE_SPEED as int);
            lemma_sdiv_bound(u.x as int * MOLECULE_SPEED as int, FP as int, MOLECULE_SPEED as int);
            lemma_sdiv_bound(u.y as int * MOLECULE_SPEED as int, FP as int, MOLECULE_SPEED as int);
        }
        proof {
            assert(u.x as int * MOLECULE_SPEED as int == (u.x as int * 25) * (FP as int)
                && u.y as int * MOLECULE_SPEED as int == (u.y as int * 25) * (FP as int))
                by (nonlinear_arith)
                requires
                    MOLECULE_SPEED as int == 25_000,
                    FP as int == 1000,
            ;
            lemma_sdiv_exact(u.x as int * 25, FP as int);
            lemma_sdiv_exact(u.y as int * 25, FP as int);
        }
        let vx = div_to_zero(u.x * MOLECULE_SPEED, FP);
        let vy = div_to_zero(u.y * MOLECULE_SPEED, FP);
        proof {
            assert(vx as int == u.x as int * 25 && vy as int == u.y as int * 25);
            // the direction is near-unit, so the speed is near MOLECULE_SPEED
            assert(MOLECULE_SPEED as int * (MOLECULE_SPEED as int - 100) <= vx as int * vx as int
                + vy as int * vy as int <= 3 * (MOLECULE_SPEED as int * MOLECULE_SPEED as int))
                by (nonlinear_arith)
                requires
                    vx as int == u.x as int * 25,
                    vy as int == u.y as int * 25,
                    FP as int * (FP as int - 4) <= u.x as int * u.x as int + u.y as int * u.y
                        as int <= 3 * (FP as int) * (FP as int),
                    FP as int == 1000,
                    MOLECULE_SPEED as int == 25_000,
            ;
        }
        let vel = Vec2i { x: vx, y: vy };
        let mut colliders: Vec<Collider> = Vec::new();
        colliders.push(
            Collider {
                offset: Vec2i { x: 0, y: 0 },
                shape: Shape::Circle { radius },
                sensor: false,
                restitution: MOLECULE_RESTITUTION,
                friction: MOLECULE_FRICTION,
                events: false,
            },
        );
        colliders.push(
            Collider {
                offset: Vec2i { x: 0, y: 0 },
                shape: Shape::Circle { radius: field_radius },
                sensor: true,
                restitution: 0,
                friction: 0,
                events: true,
            },
        );
        let ball = RigidBody {
            pos: Vec2i { x: position.x, y: position.y },
            rot: 0,
            vel,
            force: Vec2i { x: 0, y: 0 },
            body_type: BodyType::Dynamic,
            can_sleep: false,
            colliders,
        };
        proof {
            assert(ball@ =~= spec_circle_bodyv(*position, radius, field_radius, vel));
        }
        let h = self.alloc_body(ball);
        h
    }

    /// Create one immovable box body of the given half-extents, fully
    /// elastic and frictionless.
    pub fn add_static_body(&mut self, position: &Vec2i, width: i64, height: i64) -> (h:
        RigidBodyHandle)
        requires
            old(self).wf(),
            in_coord_range(*position),
            0 < width <= RADIUS_LIMIT,
            0 < height <= RADIUS_LIMIT,
        ensures
            final (self).wf(),
            valid_handle_v(final (self)@, h),
            final (self)@[h.index as int].body == Some(spec_static_bodyv(*position, width, height)),
            final (self)@.len() == old(self)@.len() || final (self)@.len() == old(self)@.len()
                + 1,
            forall|i: int|
                0 <= i < old(self)@.len() && i != h.index as int ==> final (self)@[i] == old(
                    self,
                )@[i],
            (h.index as int) < old(self)@.len() ==> old(self)@[h.index as int].body is None,
            count_live(final (self)@) == count_live(old(self)@) + 1,
            final (self).queue() == old(self).queue(),
            final (self).handled() == old(self).handled(),
    {
        let mut colliders: Vec<Collider> = Vec::new();
        colliders.push(
            Collider {
                offset: Vec2i { x: 0, y: 0 },
                shape: Shape::Cuboid { half_w: width, half_h: height },
                sensor: false,
                restitution: FP,
                friction: 0,
                events: false,
            },
        );
        let cube = RigidBody {
            pos: Vec2i { x: position.x, y: position.y },
            rot: 0,
            vel: Vec2i { x: 0, y: 0 },
            force: Vec2i { x: 0, y: 0 },
            body_type: BodyType::Fixed,
            can_sleep: false,
            colliders,
        };
        proof {
            assert(cube@ =~= spec_static_bodyv(*position, width, height));
        }
        self.alloc_body(cube)
    }

    /// Remove a body and its colliders. The handle is dead afterwards:
    /// every later lookup through it fails, and the slot's generation moves
    /// on so the handle can never resolve to a later occupant. Removing an
    /// already-dead handle does nothing.
    pub fn remove_physics_object(&mut self, body_handle: RigidBodyHandle)
        requires
            old(self).wf(),
        ensures
            final (self).wf(),
            !valid_handle_v(final (self)@, body_handle),
            final (self)@.len() == old(self)@.len(),
            forall|i: int|
                0 <= i < old(self)@.len() && i != body_handle.index as int ==> final (self)@[i]
                    == old(self)@[i],
            valid_handle_v(old(self)@, body_handle) ==> final (self)@[body_handle.index
                as int].body is None && final (self)@[body_handle.index as int].generation
                == bump_gen(body_handle.generation) && count_live(final (self)@) == count_live(
                old(self)@,
            ) - 1,
            !valid_handle_v(old(self)@, body_handle) ==> final (self)@ == old(self)@,
            final (self).queue() == old(self).queue(),
            final (self).handled() == old(self).handled(),
    {
        let i = body_handle.index;
        if i < self.slots.len() {
            let g = self.slots[i].generation;
            if g == body_handle.generation && self.slots[i].body.is_some() {
                let g2: u64 = if g < u64::MAX {
                    g + 1
                } else {
                    g
                };
                proof {
                    lemma_count_live_update(
                        self@,
                        i as int,
                        SlotV { generation: g2, body: None },
                    );
                    lemma_count_live_bounds(self@);
                    lemma_count_live_bounds(self@.update(
                        i as int,
                        SlotV { generation: g2, body: None },
                    ));
                }
                self.slots.set(i, Slot { generation: g2, body: None });
                self.live = self.live - 1;
                proof {
                    assert(self@ =~= old(self)@.update(
                        i as int,
                        SlotV { generation: g2, body: None },
                    ));
                }
                return ;
            }
        }
        proof {
            assert(self@ =~= old(self)@);
        }
    }

    /// Total sensor notifications drained since the world was created.
    pub fn get_events_handled(&self) -> (n: u64)
        ensures
            n == self.handled(),
    {
        self.events_handled
    }

    /// Number of live bodies.
    pub fn get_physics_obj_num(&self) -> (n: usize)
        requires
            self.wf(),
        ensures
            n as int == count_live(self@),
    {
        self.live
    }

    /// Pose and sensor data for one body: its position, its orientation
    /// with the half-turn offset applied, and the radius of its sensor
    /// collider if it has one. Fails — returns `None` — exactly when the
    /// handle no longer (or never did) resolve to a live body.
    pub fn get_physics_data(&self, handle: RigidBodyHandle) -> (r: Option<PhysicsData>)
        requires
            self.wf(),
        ensures
            r is Some <==> valid_handle_v(self@, handle),
            r matches Some(d) ==> {
                let b = self@[handle.index as int].body.unwrap();
                &&& d.position == b.pos
                &&& d.rotation == b.rot + HALF_TURN
                &&& d.field_radius == sensor_radius_of(b.colliders)
            },
    {
        let i = handle.index;
        if i >= self.slots.len() {
            return None;
        }
        if self.slots[i].generation != handle.generation {
            return None;
        }
        match &self.slots[i].body {
            None => None,
            Some(rb) => {
                let ghost bv = rb@;
                assert(body_wf(bv));
                let mut field_rad: Option<i64> = None;
                let ncols = rb.colliders.len();
                let mut k: usize = 0;
                proof {
                    assert(bv.colliders.take(0).len() == 0);
                }
                while k < ncols
                    invariant
                        ncols == rb.colliders@.len(),
                        k <= ncols,
                        bv == rb@,
                        field_rad == sensor_radius_of(bv.colliders.take(k as int)),
                    decreases ncols - k,
                {
                    let c = rb.colliders[k];
                    proof {
                        assert(bv.colliders.take(k as int + 1).last() == bv.colliders[k as int]);
                        assert(bv.colliders.take(k as int + 1).drop_last() =~= bv.colliders.take(
                            k as int,
                        ));
                    }
                    if c.sensor {
                        match c.shape {
                            Shape::Circle { radius } => {
                                field_rad = Some(radius);
                            },
                            Shape::Cuboid { .. } => {},
                        }
                    }
                    k = k + 1;
                }
                proof {
                    assert(bv.colliders.take(ncols as int) =~= bv.colliders);
                }
                Some(
                    PhysicsData {
                        position: rb.pos,
                        rotation: rb.rot + HALF_TURN,
                        field_radius: field_rad,
                    },
                )
            },
        }
    }
}

// ---------------------------------------------------------------------
// The step pipeline: force application, integration, collision
// resolution against other circles and against boxes, and sensor
// notifications.
// ---------------------------------------------------------------------

/// The gravity-like central force on a body at `pos`: directed toward the
/// world center with magnitude `GRAV_NUM / distance`, and zero exactly at
/// the center — the degenerate-direction fallback, so no undefined
/// normalization ever reaches the integrator.
pub open spec fn spec_grav_force(pos: Vec2i) -> Vec2i {
    let dx = WORLD_CX - pos.x;
    let dy = WORLD_CY - pos.y;
    let d = sqrt_floor(sq(dx) + sq(dy));
    if d == 0 {
        Vec2i { x: 0, y: 0 }
    } else {
        let m = GRAV_NUM as int / d;
        Vec2i { x: sdiv(dx * m, d) as i64, y: sdiv(dy * m, d) as i64 }
    }
}

/// One body after force application and, for positive `dt`, one
/// semi-implicit Euler step: dynamic bodies get the central force, then
/// velocity and position advance, clamped into the world's hard ranges.
/// With `dt <= 0` only the accumulated force changes.
pub open spec fn spec_move_body(b: BodyV, dt: int) -> BodyV {
    if !(b.body_type is Dynamic) {
        b
    } else {
        let f = spec_grav_force(b.pos);
        if dt <= 0 {
            BodyV { force: f, ..b }
        } else {
            let vx = clamp_i(
                b.vel.x + sdiv(f.x * dt, FP as int),
                -VEL_LIMIT as int,
                VEL_LIMIT as int,
            );
            let vy = clamp_i(
                b.vel.y + sdiv(f.y * dt, FP as int),
                -VEL_LIMIT as int,
                VEL_LIMIT as int,
            );
            let px = clamp_i(b.pos.x + sdiv(vx * dt, FP as int), -POS_LIMIT as int, POS_LIMIT as int);
            let py = clamp_i(b.pos.y + sdiv(vy * dt, FP as int), -POS_LIMIT as int, POS_LIMIT as int);
            BodyV {
                pos: Vec2i { x: px as i64, y: py as i64 },
                vel: Vec2i { x: vx as i64, y: vy as i64 },
                force: f,
                ..b
            }
        }
    }
}

/// A slot after the force/integration phase.
pub open spec fn spec_move_slot(s: SlotV, dt: int) -> SlotV {
    match s.body {
        Some(b) => SlotV { generation: s.generation, body: Some(spec_move_body(b, dt)) },
        None => s,
    }
}

/// The whole arena after the force/integration phase.
pub open spec fn spec_move_slots(s: Seq<SlotV>, dt: int) -> Seq<SlotV> {
    Seq::new(s.len(), |i: int| spec_move_slot(s[i], dt))
}

/// The central force, computed: exactly `spec_grav_force`.
fn grav_force(pos: Vec2i) -> (f: Vec2i)
    requires
        in_coord_range(pos),
    ensures
        f == spec_grav_force(pos),
        abs_i(f.x as int) <= FORCE_LIMIT as int,
        abs_i(f.y as int) <= FORCE_LIMIT as int,
{
    let dx: i64 = WORLD_CX - pos.x;
    let dy: i64 = WORLD_CY - pos.y;
    proof {
        lemma_mul_bound(dx as int, dx as int, POS_LIMIT + WORLD_CX, POS_LIMIT + WORLD_CX);
        lemma_mul_bound(dy as int, dy as int, POS_LIMIT + WORLD_CY, POS_LIMIT + WORLD_CY);
        lemma_sq_nonneg(dx as int);
        lemma_sq_nonneg(dy as int);
    }
    let d2: i64 = dx * dx + dy * dy;
    let d: i64 = isqrt(d2 as u64) as i64;
    proof {
        lemma_sqrt_floor_is(d2 as int, d as int);
    }
    if d == 0 {
        Vec2i { x: 0, y: 0 }
    } else {
        let m = div_to_zero(GRAV_NUM, d);
        proof {
            // m * d never exceeds GRAV_NUM
            lemma_fundamental_div_mod(GRAV_NUM as int, d as int);
            assert(m as int == GRAV_NUM as int / d as int);
            assert(d as int * (GRAV_NUM as int / d as int) == (GRAV_NUM as int / d as int) * d as int)
                by (nonlinear_arith);
            assert(m as int * d as int <= GRAV_NUM as int);
            assert(m >= 0);
            // |dx| <= d and |dy| <= d
            lemma_abs_sq(dx as int);
            lemma_abs_sq(dy as int);
            if abs_i(dx as int) > d as int {
                lemma_sq_le(d as int + 1, abs_i(dx as int));
            }
            if abs_i(dy as int) > d as int {
                lemma_sq_le(d as int + 1, abs_i(dy as int));
            }
            assert(abs_i(dx as int) <= d as int);
            assert(abs_i(dy as int) <= d as int);
            lemma_mul_bound(dx as int, m as int, d as int, m as int);
            lemma_mul_bound(dy as int, m as int, d as int, m as int);
            assert(d as int * m as int == m as int * d as int) by (nonlinear_arith);
            lemma_sdiv_bound(dx as int * m as int, d as int, m as int);
            lemma_sdiv_bound(dy as int * m as int, d as int, m as int);
        }
        let fx = div_to_zero(dx * m, d);
        let fy = div_to_zero(dy * m, d);
        Vec2i { x: fx, y: fy }
    }
}

impl World {
    /// Force application and integration: every dynamic body is pulled
    /// toward the world center and, for positive `dt`, advanced one Euler
    /// step.
    fn move_phase(&mut self, dt: i64)
        requires
            old(self).wf(),
            0 <= dt <= FP,
        ensures
            final (self).wf(),
            final (self)@ == spec_move_slots(old(self)@, dt as int),
            final (self).queue() == old(self).queue(),
            final (self).handled() == old(self).handled(),
    {
        let ghost s0 = self@;
        let n = self.slots.len();
        let mut i: usize = 0;
        while i < n
            invariant
                0 <= dt <= FP,
                s0 == old(self)@,
                n == self.slots@.len(),
                n == s0.len(),
                i <= n,
                slots_wf(s0),
                forall|k: int| 0 <= k < i ==> self@[k] == spec_move_slot(s0[k], dt as int),
                forall|k: int| i <= k < n ==> self@[k] == s0[k],
                forall|k: int|
                    0 <= k < n && (#[trigger] self@[k]).body is Some ==> body_wf(
                        self@[k].body.unwrap(),
                    ),
                self.live == old(self).live,
                self.events == old(self).events,
                self.events_handled == old(self).events_handled,
            decreases n - i,
        {
            let (is_dyn, pos0, vel0) = match &self.slots[i].body {
                Some(rb) => (rb.body_type == BodyType::Dynamic, rb.pos, rb.vel),
                None => (false, Vec2i { x: 0, y: 0 }, Vec2i { x: 0, y: 0 }),
            };
            if is_dyn {
                proof {
                    assert(self@[i as int] == s0[i as int]);
                    assert(body_wf(s0[i as int].body.unwrap()));
                }
                let f = grav_force(pos0);
                let mut nv = vel0;
                let mut np = pos0;
                if dt > 0 {
                    proof {
                        lemma_mul_bound(f.x as int, dt as int, FORCE_LIMIT as int, FP as int);
                        lemma_mul_bound(f.y as int, dt as int, FORCE_LIMIT as int, FP as int);
                        lemma_sdiv_bound(f.x as int * dt as int, FP as int, FORCE_LIMIT as int);
                        lemma_sdiv_bound(f.y as int * dt as int, FP as int, FORCE_LIMIT as int);
                    }
                    let vx = clamp64(vel0.x + div_to_zero(f.x * dt, FP), -VEL_LIMIT, VEL_LIMIT);
                    let vy = clamp64(vel0.y + div_to_zero(f.y * dt, FP), -VEL_LIMIT, VEL_LIMIT);
                    proof {
                        lemma_mul_bound(vx as int, dt as int, VEL_LIMIT as int, FP as int);
                        lemma_mul_bound(vy as int, dt as int, VEL_LIMIT as int, FP as int);
                        lemma_sdiv_bound(vx as int * dt as int, FP as int, VEL_LIMIT as int);
                        lemma_sdiv_bound(vy as int * dt as int, FP as int, VEL_LIMIT as int);
                    }
                    let px = clamp64(pos0.x + div_to_zero(vx * dt, FP), -POS_LIMIT, POS_LIMIT);
                    let py = clamp64(pos0.y + div_to_zero(vy * dt, FP), -POS_LIMIT, POS_LIMIT);
                    nv = Vec2i { x: vx, y: vy };
                    np = Vec2i { x: px, y: py };
                }
                let ghost pre_slots = self.slots@;
                let ghost pre_view = self@;
                let slot = &mut self.slots[i];
                match &mut slot.body {
                    Some(rb) => {
                        rb.force = f;
                        if dt > 0 {
                            rb.vel = nv;
                            rb.pos = np;
                        }
                    },
                    None => {},
                }
                proof {
                    assert(forall|k: int|
                        0 <= k < n && k != i ==> self.slots@[k] == pre_slots[k]);
                    assert(forall|k: int|
                        0 <= k < n && k != i ==> self@[k] == #[trigger] pre_view[k]);
                    assert(self@[i as int] =~= spec_move_slot(s0[i as int], dt as int));
                    assert(body_wf(self@[i as int].body.unwrap()));
                    assert forall|k: int|
                        0 <= k < n && (#[trigger] self@[k]).body is Some implies body_wf(
                        self@[k].body.unwrap(),
                    ) by {
                        if k != i as int {
                            assert(self@[k] == pre_view[k]);
                            assert(pre_view[k].body is Some ==> body_wf(pre_view[k].body.unwrap()));
                        }
                    }
                }
            } else {
                proof {
                    assert(self@[i as int] =~= spec_move_slot(s0[i as int], dt as int));
                    if s0[i as int].body is Some {
                        assert(body_wf(s0[i as int].body.unwrap()));
                        assert(body_wf(self@[i as int].body.unwrap()));
                    }
                }
            }
            i = i + 1;
        }
        proof {
            assert(self@ =~= spec_move_slots(s0, dt as int));
            lemma_count_live_same_occupancy(self@, s0);
        }
    }
}

/// Radius of a circle shape; zero for a box.
pub open spec fn circle_radius_of(sh: Shape) -> i64 {
    match sh {
        Shape::Circle { radius } => radius,
        Shape::Cuboid { .. } => 0,
    }
}

/// The first solid (non-sensor) circle collider of a body: the shape the
/// narrow phase collides.
pub open spec fn first_solid_circle(cs: Seq<Collider>) -> Option<Collider>
    decreases cs.len(),
{
    if cs.len() == 0 {
        None
    } else if !cs[0].sensor && cs[0].shape is Circle {
        Some(cs[0])
    } else {
        first_solid_circle(cs.drop_first())
    }
}

/// A found solid circle really is one of the body's colliders.
pub proof fn lemma_first_solid_circle_props(cs: Seq<Collider>)
    ensures
        first_solid_circle(cs) matches Some(c) ==> !c.sensor && c.shape is Circle && exists|k: int|
            0 <= k < cs.len() && cs[k] == c,
    decreases cs.len(),
{
    if cs.len() > 0 {
        if !(!cs[0].sensor && cs[0].shape is Circle) {
            lemma_first_solid_circle_props(cs.drop_first());
            if first_solid_circle(cs.drop_first()) is Some {
                let c = first_solid_circle(cs.drop_first()).unwrap();
                let k = choose|k: int| 0 <= k < cs.drop_first().len() && cs.drop_first()[k] == c;
                assert(cs[k + 1] == c);
            }
        }
    }
}

/// What a colliding circle pair becomes: the new positions and velocities
/// of the two bodies, or `None` when they are separated, exactly touching,
/// or concentric (no defined push direction). Penetration is split half
/// and half; the normal impulse uses the larger restitution of the two
/// and the tangential impulse the smaller friction, per the combine
/// rules.
pub open spec fn spec_pair_kick(
    pi: Vec2i,
    vi: Vec2i,
    ci: Collider,
    pj: Vec2i,
    vj: Vec2i,
    cj: Collider,
) -> Option<(Vec2i, Vec2i, Vec2i, Vec2i)> {
    let ri = circle_radius_of(ci.shape) as int;
    let rj = circle_radius_of(cj.shape) as int;
    let dx = (pj.x + cj.offset.x) - (pi.x + ci.offset.x);
    let dy = (pj.y + cj.offset.y) - (pi.y + ci.offset.y);
    let d2 = sq(dx) + sq(dy);
    let sum = ri + rj;
    if d2 >= sq(sum) {
        None
    } else {
        let d = sqrt_floor(d2);
        if d <= 0 {
            None
        } else {
            let ux = sdiv(dx * FP, d);
            let uy = sdiv(dy * FP, d);
            let half = sdiv(sum - d, 2);
            let push_x = sdiv(ux * half, FP as int);
            let push_y = sdiv(uy * half, FP as int);
            let pix = clamp_i(pi.x - push_x, -POS_LIMIT as int, POS_LIMIT as int);
            let piy = clamp_i(pi.y - push_y, -POS_LIMIT as int, POS_LIMIT as int);
            let pjx = clamp_i(pj.x + push_x, -POS_LIMIT as int, POS_LIMIT as int);
            let pjy = clamp_i(pj.y + push_y, -POS_LIMIT as int, POS_LIMIT as int);
            let rvx = vj.x - vi.x;
            let rvy = vj.y - vi.y;
            let rel_n = sdiv(rvx * ux + rvy * uy, FP as int);
            if rel_n < 0 {
                let e = (if ci.restitution >= cj.restitution {
                    ci.restitution
                } else {
                    cj.restitution
                }) as int;
                let mu = (if ci.friction <= cj.friction {
                    ci.friction
                } else {
                    cj.friction
                }) as int;
                let imp = sdiv(rel_n * (FP + e), 2 * FP as int);
                let dvx = sdiv(imp * ux, FP as int);
                let dvy = sdiv(imp * uy, FP as int);
                let tx = -uy;
                let ty = ux;
                let rel_t = sdiv(rvx * tx + rvy * ty, FP as int);
                let fimp = sdiv(rel_t * mu, 2 * FP as int);
                let fvx = sdiv(fimp * tx, FP as int);
                let fvy = sdiv(fimp * ty, FP as int);
                let vix = clamp_i(vi.x + dvx + fvx, -VEL_LIMIT as int, VEL_LIMIT as int);
                let viy = clamp_i(vi.y + dvy + fvy, -VEL_LIMIT as int, VEL_LIMIT as int);
                let vjx = clamp_i(vj.x - dvx - fvx, -VEL_LIMIT as int, VEL_LIMIT as int);
                let vjy = clamp_i(vj.y - dvy - fvy, -VEL_LIMIT as int, VEL_LIMIT as int);
                Some(
                    (
                        Vec2i { x: pix as i64, y: piy as i64 },
                        Vec2i { x: vix as i64, y: viy as i64 },
                        Vec2i { x: pjx as i64, y: pjy as i64 },
                        Vec2i { x: vjx as i64, y: vjy as i64 },
                    ),
                )
            } else {
                Some(
                    (
                        Vec2i { x: pix as i64, y: piy as i64 },
                        vi,
                        Vec2i { x: pjx as i64, y: pjy as i64 },
                        vj,
                    ),
                )
            }
        }
    }
}

/// What the pair phase reads of a body: its pose, velocity and solid
/// circle — present only for live dynamic bodies that have one.
pub open spec fn spec_pair_inputs(s: Seq<SlotV>, i: int) -> Option<(Vec2i, Vec2i, Collider)> {
    match s[i].body {
        Some(b) => if b.body_type is Dynamic {
            match first_solid_circle(b.colliders) {
                Some(c) => Some((b.pos, b.vel, c)),
                None => None,
            }
        } else {
            None
        },
        None => None,
    }
}

/// The arena after resolving the unordered pair `(i, j)`.
pub open spec fn spec_step_pair(s: Seq<SlotV>, i: int, j: int) -> Seq<SlotV> {
    match (spec_pair_inputs(s, i), spec_pair_inputs(s, j)) {
        (Some((pi, vi, ci)), Some((pj, vj, cj))) => match spec_pair_kick(pi, vi, ci, pj, vj, cj) {
            Some((p1, v1, p2, v2)) => {
                let bi = s[i].body.unwrap();
                let bj = s[j].body.unwrap();
                s.update(
                    i,
                    SlotV {
                        generation: s[i].generation,
                        body: Some(BodyV { pos: p1, vel: v1, ..bi }),
                    },
                ).update(
                    j,
                    SlotV {
                        generation: s[j].generation,
                        body: Some(BodyV { pos: p2, vel: v2, ..bj }),
                    },
                )
            },
            None => s,
        },
        _ => s,
    }
}

/// The arena after resolving the pairs `(i, i+1) .. (i, j-1)` in order.
pub open spec fn spec_pairs_row(s: Seq<SlotV>, i: int, j: int) -> Seq<SlotV>
    decreases j - i,
{
    if j <= i + 1 {
        s
    } else {
        spec_step_pair(spec_pairs_row(s, i, j - 1), i, j - 1)
    }
}

/// The arena after resolving every pair whose first index is below `i`.
pub open spec fn spec_pairs_rows(s: Seq<SlotV>, n: int, i: int) -> Seq<SlotV>
    decreases i,
{
    if i <= 0 {
        s
    } else {
        spec_pairs_row(spec_pairs_rows(s, n, i - 1), i - 1, n)
    }
}

/// The arena after the whole circle-circle narrow phase, pairs taken in
/// row order.
pub open spec fn spec_resolve_pairs(s: Seq<SlotV>) -> Seq<SlotV> {
    spec_pairs_rows(s, s.len() as int, s.len() as int)
}

/// The structural facts one pair step preserves: length, generations,
/// occupancy, untouched slots, every body's static fields, and
/// well-formedness.
pub open spec fn pairs_preserved(s: Seq<SlotV>, s2: Seq<SlotV>) -> bool {
    &&& s2.len() == s.len()
    &&& slots_wf(s2)
    &&& forall|k: int|
        0 <= k < s.len() ==> (#[trigger] s2[k]).generation == s[k].generation && (s2[k].body
            is Some <==> s[k].body is Some)
    &&& forall|k: int|
        0 <= k < s.len() && s[k].body is Some ==> {
            let b = s[k].body.unwrap();
            let b2 = (#[trigger] s2[k]).body.unwrap();
            b2.colliders == b.colliders && b2.body_type == b.body_type && b2.rot == b.rot
                && b2.can_sleep == b.can_sleep && b2.force == b.force
        }
}

/// Being preserved chains.
pub proof fn lemma_pairs_preserved_trans(s: Seq<SlotV>, s2: Seq<SlotV>, s3: Seq<SlotV>)
    requires
        pairs_preserved(s, s2),
        pairs_preserved(s2, s3),
    ensures
        pairs_preserved(s, s3),
{
}

/// One pair step preserves the arena's structure and well-formedness.
pub proof fn lemma_step_pair_preserves(s: Seq<SlotV>, i: int, j: int)
    requires
        slots_wf(s),
        0 <= i < s.len(),
        0 <= j < s.len(),
        i != j,
    ensures
        pairs_preserved(s, spec_step_pair(s, i, j)),
{
    let s2 = spec_step_pair(s, i, j);
    match (spec_pair_inputs(s, i), spec_pair_inputs(s, j)) {
        (Some((pi, vi, ci)), Some((pj, vj, cj))) => {
            match spec_pair_kick(pi, vi, ci, pj, vj, cj) {
                Some((p1, v1, p2, v2)) => {
                    assert(body_wf(s[i].body.unwrap()));
                    assert(body_wf(s[j].body.unwrap()));
                    assert(body_wf(s2[i].body.unwrap()));
                    assert(body_wf(s2[j].body.unwrap()));
                    assert(forall|k: int|
                        0 <= k < s.len() && k != i && k != j ==> s2[k] == #[trigger] s[k]);
                },
                None => {},
            }
        },
        _ => {},
    }
}

/// A whole row of pair steps preserves the arena's structure.
pub proof fn lemma_pairs_row_preserves(s: Seq<SlotV>, i: int, j: int)
    requires
        slots_wf(s),
        0 <= i < s.len(),
        j <= s.len(),
    ensures
        pairs_preserved(s, spec_pairs_row(s, i, j)),
    decreases j - i,
{
    if j <= i + 1 {
    } else {
        lemma_pairs_row_preserves(s, i, j - 1);
        let sprev = spec_pairs_row(s, i, j - 1);
        lemma_step_pair_preserves(sprev, i, j - 1);
        lemma_pairs_preserved_trans(s, sprev, spec_step_pair(sprev, i, j - 1));
    }
}

/// All rows of pair steps preserve the arena's structure.
pub proof fn lemma_pairs_rows_preserves(s: Seq<SlotV>, n: int, i: int)
    requires
        slots_wf(s),
        n == s.len(),
        0 <= i <= n,
    ensures
        pairs_preserved(s, spec_pairs_rows(s, n, i)),
    decreases i,
{
    if i <= 0 {
    } else {
        lemma_pairs_rows_preserves(s, n, i - 1);
        let sprev = spec_pairs_rows(s, n, i - 1);
        if i - 1 < n {
            lemma_pairs_row_preserves(sprev, i - 1, n);
            lemma_pairs_preserved_trans(s, sprev, spec_pairs_row(sprev, i - 1, n));
        }
    }
}

/// First solid circle of a body's collider list, computed.
fn find_solid_circle(cs: &Vec<Collider>) -> (r: Option<Collider>)
    ensures
        r == first_solid_circle(cs@),
{
    let n = cs.len();
    let mut k: usize = 0;
    proof {
        assert(cs@.skip(0) =~= cs@);
    }
    while k < n
        invariant
            n == cs@.len(),
            k <= n,
            first_solid_circle(cs@) == first_solid_circle(cs@.skip(k as int)),
        decreases n - k,
    {
        let c = cs[k];
        proof {
            assert(cs@.skip(k as int)[0] == cs@[k as int]);
        }
        if !c.sensor {
            match c.shape {
                Shape::Circle { .. } => {
                    return Some(c);
                },
                Shape::Cuboid { .. } => {},
            }
        }
        proof {
            assert(cs@.skip(k as int).drop_first() =~= cs@.skip(k as int + 1));
        }
        k = k + 1;
    }
    proof {
        assert(cs@.skip(n as int).len() == 0);
    }
    None
}

/// The colliding-pair update, computed: exactly `spec_pair_kick`.
#[verifier::rlimit(100)]
fn pair_kick(pi: Vec2i, vi: Vec2i, ci: Collider, pj: Vec2i, vj: Vec2i, cj: Collider) -> (r: Option<
    (Vec2i, Vec2i, Vec2i, Vec2i),
>)
    requires
        in_coord_range(pi),
        in_coord_range(pj),
        abs_i(vi.x as int) <= VEL_LIMIT as int,
        abs_i(vi.y as int) <= VEL_LIMIT as int,
        abs_i(vj.x as int) <= VEL_LIMIT as int,
        abs_i(vj.y as int) <= VEL_LIMIT as int,
        collider_wf(ci),
        collider_wf(cj),
        ci.shape is Circle,
        cj.shape is Circle,
        !ci.sensor,
        !cj.sensor,
    ensures
        r == spec_pair_kick(pi, vi, ci, pj, vj, cj),
{
    let ri: i64 = match ci.shape {
        Shape::Circle { radius } => radius,
        Shape::Cuboid { .. } => 0,
    };
    let rj: i64 = match cj.shape {
        Shape::Circle { radius } => radius,
        Shape::Cuboid { .. } => 0,
    };
    let dx: i64 = (pj.x + cj.offset.x) - (pi.x + ci.offset.x);
    let dy: i64 = (pj.y + cj.offset.y) - (pi.y + ci.offset.y);
    proof {
        assert(abs_i(ci.offset.x as int) <= RADIUS_LIMIT as int);
        assert(abs_i(cj.offset.x as int) <= RADIUS_LIMIT as int);
        assert(-2_000_000_000 <= dx as int <= 2_000_000_000);
        assert(-2_000_000_000 <= dy as int <= 2_000_000_000);
        lemma_mul_bound(dx as int, dx as int, 2_000_000_000, 2_000_000_000);
        lemma_mul_bound(dy as int, dy as int, 2_000_000_000, 2_000_000_000);
        lemma_sq_nonneg(dx as int);
        lemma_sq_nonneg(dy as int);
        lemma_mul_bound((ri + rj) as int, (ri + rj) as int, 2 * RADIUS_LIMIT, 2 * RADIUS_LIMIT);
    }
    let d2: i64 = dx * dx + dy * dy;
    let sum: i64 = ri + rj;
    if d2 >= sum * sum {
        return None;
    }
    let d: i64 = isqrt(d2 as u64) as i64;
    proof {
        lemma_sqrt_floor_is(d2 as int, d as int);
    }
    if d <= 0 {
        return None;
    }
    proof {
        lemma_abs_sq(dx as int);
        lemma_abs_sq(dy as int);
        if abs_i(dx as int) > d as int {
            lemma_sq_le(d as int + 1, abs_i(dx as int));
        }
        if abs_i(dy as int) > d as int {
            lemma_sq_le(d as int + 1, abs_i(dy as int));
        }
        assert(abs_i(dx as int) <= d as int);
        assert(abs_i(dy as int) <= d as int);
        lemma_mul_bound(dx as int, FP as int, d as int, FP as int);
        lemma_mul_bound(dy as int, FP as int, d as int, FP as int);
        lemma_sdiv_bound(dx as int * FP as int, d as int, FP as int);
        lemma_sdiv_bound(dy as int * FP as int, d as int, FP as int);
        // the centers are closer than the radius sum, so the penetration
        // is positive
        if d >= sum {
            lemma_sq_le(sum as int, d as int);
        }
        assert(d < sum);
    }
    let ux = div_to_zero(dx * FP, d);
    let uy = div_to_zero(dy * FP, d);
    let half = div_to_zero(sum - d, 2);
    proof {
        lemma_sdiv_abs((sum - d) as int, 2);
        lemma_mul_bound(ux as int, half as int, FP as int, 2 * RADIUS_LIMIT);
        lemma_mul_bound(uy as int, half as int, FP as int, 2 * RADIUS_LIMIT);
        lemma_sdiv_bound(ux as int * half as int, FP as int, 2 * RADIUS_LIMIT);
        lemma_sdiv_bound(uy as int * half as int, FP as int, 2 * RADIUS_LIMIT);
    }
    let push_x = div_to_zero(ux * half, FP);
    let push_y = div_to_zero(uy * half, FP);
    let pix = clamp64(pi.x - push_x, -POS_LIMIT, POS_LIMIT);
    let piy = clamp64(pi.y - push_y, -POS_LIMIT, POS_LIMIT);
    let pjx = clamp64(pj.x + push_x, -POS_LIMIT, POS_LIMIT);
    let pjy = clamp64(pj.y + push_y, -POS_LIMIT, POS_LIMIT);
    let rvx: i64 = vj.x - vi.x;
    let rvy: i64 = vj.y - vi.y;
    proof {
        lemma_mul_bound(rvx as int, ux as int, 2 * VEL_LIMIT, FP as int);
        lemma_mul_bound(rvy as int, uy as int, 2 * VEL_LIMIT, FP as int);
        lemma_sdiv_bound(rvx as int * ux as int + rvy as int * uy as int, FP as int, 4 * VEL_LIMIT);
    }
    let rel_n = div_to_zero(rvx * ux + rvy * uy, FP);
    if rel_n < 0 {
        let e: i64 = if ci.restitution >= cj.restitution {
            ci.restitution
        } else {
            cj.restitution
        };
        let mu: i64 = if ci.friction <= cj.friction {
            ci.friction
        } else {
            cj.friction
        };
        proof {
            lemma_mul_bound(rel_n as int, (FP + e) as int, 4 * VEL_LIMIT, 2 * FP as int);
            lemma_sdiv_bound(rel_n as int * (FP + e) as int, 2 * FP as int, 4 * VEL_LIMIT);
        }
        let imp = div_to_zero(rel_n * (FP + e), 2 * FP);
        proof {
            lemma_mul_bound(imp as int, ux as int, 4 * VEL_LIMIT, FP as int);
            lemma_mul_bound(imp as int, uy as int, 4 * VEL_LIMIT, FP as int);
            lemma_sdiv_bound(imp as int * ux as int, FP as int, 4 * VEL_LIMIT);
            lemma_sdiv_bound(imp as int * uy as int, FP as int, 4 * VEL_LIMIT);
        }
        let dvx = div_to_zero(imp * ux, FP);
        let dvy = div_to_zero(imp * uy, FP);
        let tx: i64 = -uy;
        let ty: i64 = ux;
        proof {
            lemma_mul_bound(rvx as int, tx as int, 2 * VEL_LIMIT, FP as int);
            lemma_mul_bound(rvy as int, ty as int, 2 * VEL_LIMIT, FP as int);
            lemma_sdiv_bound(
                rvx as int * tx as int + rvy as int * ty as int,
                FP as int,
                4 * VEL_LIMIT,
            );
        }
        let rel_t = div_to_zero(rvx * tx + rvy * ty, FP);
        proof {
            lemma_mul_bound(rel_t as int, mu as int, 4 * VEL_LIMIT, FP as int);
            lemma_sdiv_bound(rel_t as int * mu as int, 2 * FP as int, 4 * VEL_LIMIT);
        }
        let fimp = div_to_zero(rel_t * mu, 2 * FP);
        proof {
            lemma_mul_bound(fimp as int, tx as int, 4 * VEL_LIMIT, FP as int);
            lemma_mul_bound(fimp as int, ty as int, 4 * VEL_LIMIT, FP as int);
            lemma_sdiv_bound(fimp as int * tx as int, FP as int, 4 * VEL_LIMIT);
            lemma_sdiv_bound(fimp as int * ty as int, FP as int, 4 * VEL_LIMIT);
        }
        let fvx = div_to_zero(fimp * tx, FP);
        let fvy = div_to_zero(fimp * ty, FP);
        let vix = clamp64(vi.x + dvx + fvx, -VEL_LIMIT, VEL_LIMIT);
        let viy = clamp64(vi.y + dvy + fvy, -VEL_LIMIT, VEL_LIMIT);
        let vjx = clamp64(vj.x - dvx - fvx, -VEL_LIMIT, VEL_LIMIT);
        let vjy = clamp64(vj.y - dvy - fvy, -VEL_LIMIT, VEL_LIMIT);
        Some(
            (
                Vec2i { x: pix, y: piy },
                Vec2i { x: vix, y: viy },
                Vec2i { x: pjx, y: pjy },
                Vec2i { x: vjx, y: vjy },
            ),
        )
    } else {
        Some((Vec2i { x: pix, y: piy }, vi, Vec2i { x: pjx, y: pjy }, vj))
    }
}

impl World {
    /// What the pair phase reads of body `i`, computed.
    fn pair_inputs(&self, i: usize) -> (r: Option<(Vec2i, Vec2i, Collider)>)
        requires
            (i as int) < self@.len(),
        ensures
            r == spec_pair_inputs(self@, i as int),
    {
        match &self.slots[i].body {
            Some(rb) => {
                if rb.body_type == BodyType::Dynamic {
                    match find_solid_circle(&rb.colliders) {
                        Some(c) => Some((rb.pos, rb.vel, c)),
                        None => None,
                    }
                } else {
                    None
                }
            },
            None => None,
        }
    }

    /// The circle-circle narrow phase: resolve every unordered pair of
    /// live dynamic circles, in row order.
    #[verifier::rlimit(100)]
    fn resolve_pairs_phase(&mut self)
        requires
            old(self).wf(),
        ensures
            final (self).wf(),
            final (self)@ == spec_resolve_pairs(old(self)@),
            final (self).queue() == old(self).queue(),
            final (self).handled() == old(self).handled(),
    {
        let ghost s0 = self@;
        let n = self.slots.len();
        let mut i: usize = 0;
        while i < n
            invariant
                s0 == old(self)@,
                n == s0.len(),
                i <= n,
                slots_wf(s0),
                self@ == spec_pairs_rows(s0, n as int, i as int),
                self@.len() == n,
                slots_wf(self@),
                self.slots@.len() == n,
                self.live == old(self).live,
                self.events == old(self).events,
                self.events_handled == old(self).events_handled,
            decreases n - i,
        {
            proof {
                lemma_pairs_rows_preserves(s0, n as int, i as int);
            }
            let ghost row_start = self@;
            let mut j: usize = i + 1;
            proof {
                assert(spec_pairs_row(row_start, i as int, j as int) == row_start);
            }
            while j < n
                invariant
                    s0 == old(self)@,
                    n == s0.len(),
                    i < n,
                    i < j,
                    j <= n,
                    slots_wf(row_start),
                    row_start.len() == n,
                    row_start == spec_pairs_rows(s0, n as int, i as int),
                    self@ == spec_pairs_row(row_start, i as int, j as int),
                    self@.len() == n,
                    slots_wf(self@),
                    self.slots@.len() == n,
                    self.live == old(self).live,
                    self.events == old(self).events,
                    self.events_handled == old(self).events_handled,
                decreases n - j,
            {
                let ghost prev = self@;
                proof {
                    lemma_pairs_row_preserves(row_start, i as int, j as int);
                }
                let in_i = self.pair_inputs(i);
                let in_j = self.pair_inputs(j);
                match (in_i, in_j) {
                    (Some((pi_, vi_, ci_)), Some((pj_, vj_, cj_))) => {
                        proof {
                            assert(body_wf(prev[i as int].body.unwrap()));
                            assert(body_wf(prev[j as int].body.unwrap()));
                            lemma_first_solid_circle_props(prev[i as int].body.unwrap().colliders);
                            lemma_first_solid_circle_props(prev[j as int].body.unwrap().colliders);
                        }
                        match pair_kick(pi_, vi_, ci_, pj_, vj_, cj_) {
                            Some((p1, v1, p2, v2)) => {
                                let ghost mid = prev.update(
                                    i as int,
                                    SlotV {
                                        generation: prev[i as int].generation,
                                        body: Some(
                                            BodyV {
                                                pos: p1,
                                                vel: v1,
                                                ..prev[i as int].body.unwrap()
                                            },
                                        ),
                                    },
                                );
                                let sl = &mut self.slots[i];
                                match &mut sl.body {
                                    Some(rb) => {
                                        rb.pos = p1;
                                        rb.vel = v1;
                                    },
                                    None => {},
                                }
                                proof {
                                    assert(self@ =~= mid);
                                }
                                let sl2 = &mut self.slots[j];
                                match &mut sl2.body {
                                    Some(rb) => {
                                        rb.pos = p2;
                                        rb.vel = v2;
                                    },
                                    None => {},
                                }
                                proof {
                                    assert(self@ =~= mid.update(
                                        j as int,
                                        SlotV {
                                            generation: mid[j as int].generation,
                                            body: Some(
                                                BodyV {
                                                    pos: p2,
                                                    vel: v2,
                                                    ..mid[j as int].body.unwrap()
                                                },
                                            ),
                                        },
                                    ));
                                    assert(mid[j as int] == prev[j as int]);
                                    assert(mid[j as int].body.unwrap() =~= prev[
                                        j as int
                                    ].body.unwrap());
                                    assert(self@ =~= spec_step_pair(prev, i as int, j as int));
                                    lemma_step_pair_preserves(prev, i as int, j as int);
                                }
                            },
                            None => {
                                proof {
                                    assert(self@ == spec_step_pair(prev, i as int, j as int));
                                }
                            },
                        }
                    },
                    _ => {
                        proof {
                            assert(self@ == spec_step_pair(prev, i as int, j as int));
                        }
                    },
                }
                j = j + 1;
            }
            proof {
                assert(self@ == spec_pairs_row(row_start, i as int, n as int));
                assert(self@ == spec_pairs_rows(s0, n as int, i as int + 1));
            }
            i = i + 1;
        }
        proof {
            assert(self@ == spec_pairs_rows(s0, n as int, n as int));
            assert(self@ == spec_resolve_pairs(s0));
            lemma_pairs_rows_preserves(s0, n as int, n as int);
            lemma_count_live_same_occupancy(self@, s0);
        }
    }
}

/// Half-width of a box shape; zero for a circle.
pub open spec fn box_half_w(sh: Shape) -> int {
    match sh {
        Shape::Cuboid { half_w, .. } => half_w as int,
        Shape::Circle { .. } => 0,
    }
}

/// Half-height of a box shape; zero for a circle.
pub open spec fn box_half_h(sh: Shape) -> int {
    match sh {
        Shape::Cuboid { half_h, .. } => half_h as int,
        Shape::Circle { .. } => 0,
    }
}

/// What a circle pressed against one box becomes: the circle's new
/// position and velocity, or `None` when they do not touch. A circle
/// whose center lies inside the box escapes through the nearest face;
/// otherwise it is pushed out along the line from the closest box point
/// to its center, reflecting the approaching velocity component with the
/// larger restitution of the two colliders. The box never moves.
pub open spec fn spec_box_kick(p: Vec2i, v: Vec2i, c: Collider, bpos: Vec2i, bc: Collider)
    -> Option<(Vec2i, Vec2i)> {
    let r = circle_radius_of(c.shape) as int;
    let cx = p.x + c.offset.x;
    let cy = p.y + c.offset.y;
    let bx = bpos.x + bc.offset.x;
    let by = bpos.y + bc.offset.y;
    let hw = box_half_w(bc.shape);
    let hh = box_half_h(bc.shape);
    let e = (if c.restitution >= bc.restitution {
        c.restitution
    } else {
        bc.restitution
    }) as int;
    let nx = clamp_i(cx, bx - hw, bx + hw);
    let ny = clamp_i(cy, by - hh, by + hh);
    if nx == cx && ny == cy {
        let dl = cx - (bx - hw);
        let dr = (bx + hw) - cx;
        let db = cy - (by - hh);
        let dtp = (by + hh) - cy;
        if dl <= dr && dl <= db && dl <= dtp {
            let px = clamp_i(bx - hw - r - c.offset.x, -POS_LIMIT as int, POS_LIMIT as int);
            let vx = if v.x > 0 {
                -sdiv(v.x * e, FP as int)
            } else {
                v.x as int
            };
            Some((Vec2i { x: px as i64, y: p.y }, Vec2i { x: vx as i64, y: v.y }))
        } else if dr <= db && dr <= dtp {
            let px = clamp_i(bx + hw + r - c.offset.x, -POS_LIMIT as int, POS_LIMIT as int);
            let vx = if v.x < 0 {
                -sdiv(v.x * e, FP as int)
            } else {
                v.x as int
            };
            Some((Vec2i { x: px as i64, y: p.y }, Vec2i { x: vx as i64, y: v.y }))
        } else if db <= dtp {
            let py = clamp_i(by - hh - r - c.offset.y, -POS_LIMIT as int, POS_LIMIT as int);
            let vy = if v.y > 0 {
                -sdiv(v.y * e, FP as int)
            } else {
                v.y as int
            };
            Some((Vec2i { x: p.x, y: py as i64 }, Vec2i { x: v.x, y: vy as i64 }))
        } else {
            let py = clamp_i(by + hh + r - c.offset.y, -POS_LIMIT as int, POS_LIMIT as int);
            let vy = if v.y < 0 {
                -sdiv(v.y * e, FP as int)
            } else {
                v.y as int
            };
            Some((Vec2i { x: p.x, y: py as i64 }, Vec2i { x: v.x, y: vy as i64 }))
        }
    } else {
        let ddx = cx - nx;
        let ddy = cy - ny;
        let dd2 = sq(ddx) + sq(ddy);
        if dd2 >= sq(r) {
            None
        } else {
            let d = sqrt_floor(dd2);
            let ux = sdiv(ddx * FP, d);
            let uy = sdiv(ddy * FP, d);
            let push = r - d;
            let px = clamp_i(p.x + sdiv(ux * push, FP as int), -POS_LIMIT as int, POS_LIMIT as int);
            let py = clamp_i(p.y + sdiv(uy * push, FP as int), -POS_LIMIT as int, POS_LIMIT as int);
            let vn = sdiv(v.x * ux + v.y * uy, FP as int);
            if vn < 0 {
                let imp = sdiv(vn * (FP + e), FP as int);
                let vx = clamp_i(
                    v.x - sdiv(imp * ux, FP as int),
                    -VEL_LIMIT as int,
                    VEL_LIMIT as int,
                );
                let vy = clamp_i(
                    v.y - sdiv(imp * uy, FP as int),
                    -VEL_LIMIT as int,
                    VEL_LIMIT as int,
                );
                Some((Vec2i { x: px as i64, y: py as i64 }, Vec2i { x: vx as i64, y: vy as i64 }))
            } else {
                Some((Vec2i { x: px as i64, y: py as i64 }, v))
            }
        }
    }
}

/// Circle state after the first `k` colliders of one fixed body.
pub open spec fn spec_boxes_fold_colliders(
    pv: (Vec2i, Vec2i),
    c: Collider,
    bpos: Vec2i,
    cs: Seq<Collider>,
    k: int,
) -> (Vec2i, Vec2i)
    decreases k,
{
    if k <= 0 {
        pv
    } else {
        let prev = spec_boxes_fold_colliders(pv, c, bpos, cs, k - 1);
        let bc = cs[k - 1];
        if !bc.sensor && bc.shape is Cuboid {
            match spec_box_kick(prev.0, prev.1, c, bpos, bc) {
                Some(res) => res,
                None => prev,
            }
        } else {
            prev
        }
    }
}

/// Circle state after the boxes of every fixed body with index below `j`.
pub open spec fn spec_boxes_fold_bodies(s: Seq<SlotV>, pv: (Vec2i, Vec2i), c: Collider, j: int)
    -> (Vec2i, Vec2i)
    decreases j,
{
    if j <= 0 {
        pv
    } else {
        let prev = spec_boxes_fold_bodies(s, pv, c, j - 1);
        match s[j - 1].body {
            Some(ob) => if ob.body_type is Fixed {
                spec_boxes_fold_colliders(prev, c, ob.pos, ob.colliders, ob.colliders.len() as int)
            } else {
                prev
            },
            None => prev,
        }
    }
}

/// Whether a circle of radius `r` fits between the boundary walls.
pub open spec fn circle_fits_play_area(r: int) -> bool {
    &&& 0 <= r
    &&& WALL_THICKNESS + r <= WORLD_W - WALL_THICKNESS - r
    &&& WALL_THICKNESS + r <= WORLD_H - WALL_THICKNESS - r
}

/// A dynamic circle's center confined to the play area the boundary
/// walls enclose. The face push alone cannot promise containment — a
/// fast body can cross a slab's mid-plane in one step and would then
/// escape through the outer face — so the box phase ends with this hard
/// clamp. A circle too large to fit between the walls is left where the
/// push put it.
pub open spec fn spec_confined_pos(p: Vec2i, r: int) -> Vec2i {
    if circle_fits_play_area(r) {
        Vec2i {
            x: clamp_i(p.x as int, WALL_THICKNESS + r, WORLD_W - WALL_THICKNESS - r) as i64,
            y: clamp_i(p.y as int, WALL_THICKNESS + r, WORLD_H - WALL_THICKNESS - r) as i64,
        }
    } else {
        p
    }
}

/// One slot after the box phase: a dynamic circle takes every fixed box's
/// push in body order and is then confined to the play area. Boxes sit
/// only on fixed bodies, which never move, so each circle's outcome
/// depends only on the phase's input state.
pub open spec fn spec_resolve_boxes_slot(s: Seq<SlotV>, i: int) -> SlotV {
    match spec_pair_inputs(s, i) {
        Some((p, v, c)) => {
            let res = spec_boxes_fold_bodies(s, (p, v), c, s.len() as int);
            let pos2 = spec_confined_pos(res.0, circle_radius_of(c.shape) as int);
            let b = s[i].body.unwrap();
            SlotV { generation: s[i].generation, body: Some(BodyV { pos: pos2, vel: res.1, ..b }) }
        },
        None => s[i],
    }
}

/// The whole arena after the box phase.
pub open spec fn spec_resolve_boxes(s: Seq<SlotV>) -> Seq<SlotV> {
    Seq::new(s.len(), |i: int| spec_resolve_boxes_slot(s, i))
}

/// The box push keeps the circle's state inside the hard ranges.
pub proof fn lemma_box_kick_bounds(p: Vec2i, v: Vec2i, c: Collider, bpos: Vec2i, bc: Collider)
    requires
        in_coord_range(p),
        abs_i(v.x as int) <= VEL_LIMIT as int,
        abs_i(v.y as int) <= VEL_LIMIT as int,
        collider_wf(c),
        collider_wf(bc),
    ensures
        spec_box_kick(p, v, c, bpos, bc) matches Some((p2, v2)) ==> in_coord_range(p2) && abs_i(
            v2.x as int,
        ) <= VEL_LIMIT as int && abs_i(v2.y as int) <= VEL_LIMIT as int,
{
    let e = (if c.restitution >= bc.restitution {
        c.restitution
    } else {
        bc.restitution
    }) as int;
    lemma_mul_bound(v.x as int, e, VEL_LIMIT as int, FP as int);
    lemma_mul_bound(v.y as int, e, VEL_LIMIT as int, FP as int);
    lemma_sdiv_bound(v.x as int * e, FP as int, VEL_LIMIT as int);
    lemma_sdiv_bound(v.y as int * e, FP as int, VEL_LIMIT as int);
}

/// The whole collider fold keeps the circle's state inside the hard
/// ranges.
pub proof fn lemma_boxes_fold_colliders_bounds(
    pv: (Vec2i, Vec2i),
    c: Collider,
    bpos: Vec2i,
    cs: Seq<Collider>,
    k: int,
)
    requires
        in_coord_range(pv.0),
        abs_i(pv.1.x as int) <= VEL_LIMIT as int,
        abs_i(pv.1.y as int) <= VEL_LIMIT as int,
        collider_wf(c),
        forall|m: int| 0 <= m < cs.len() ==> collider_wf(#[trigger] cs[m]),
        k <= cs.len(),
    ensures
        ({
            let res = spec_boxes_fold_colliders(pv, c, bpos, cs, k);
            in_coord_range(res.0) && abs_i(res.1.x as int) <= VEL_LIMIT as int && abs_i(
                res.1.y as int,
            ) <= VEL_LIMIT as int
        }),
    decreases k,
{
    if k > 0 {
        lemma_boxes_fold_colliders_bounds(pv, c, bpos, cs, k - 1);
        let prev = spec_boxes_fold_colliders(pv, c, bpos, cs, k - 1);
        lemma_box_kick_bounds(prev.0, prev.1, c, bpos, cs[k - 1]);
    }
}

/// The body fold keeps the circle's state inside the hard ranges.
pub proof fn lemma_boxes_fold_bodies_bounds(s: Seq<SlotV>, pv: (Vec2i, Vec2i), c: Collider, j: int)
    requires
        slots_wf(s),
        in_coord_range(pv.0),
        abs_i(pv.1.x as int) <= VEL_LIMIT as int,
        abs_i(pv.1.y as int) <= VEL_LIMIT as int,
        collider_wf(c),
        j <= s.len(),
    ensures
        ({
            let res = spec_boxes_fold_bodies(s, pv, c, j);
            in_coord_range(res.0) && abs_i(res.1.x as int) <= VEL_LIMIT as int && abs_i(
                res.1.y as int,
            ) <= VEL_LIMIT as int
        }),
    decreases j,
{
    if j > 0 {
        lemma_boxes_fold_bodies_bounds(s, pv, c, j - 1);
        let prev = spec_boxes_fold_bodies(s, pv, c, j - 1);
        match s[j - 1].body {
            Some(ob) => {
                if ob.body_type is Fixed {
                    assert(body_wf(ob));
                    lemma_boxes_fold_colliders_bounds(
                        prev,
                        c,
                        ob.pos,
                        ob.colliders,
                        ob.colliders.len() as int,
                    );
                }
            },
            None => {},
        }
    }
}

/// The box phase preserves the arena's structure and well-formedness.
pub proof fn lemma_resolve_boxes_preserves(s: Seq<SlotV>)
    requires
        slots_wf(s),
    ensures
        pairs_preserved(s, spec_resolve_boxes(s)),
{
    let s2 = spec_resolve_boxes(s);
    assert forall|k: int| 0 <= k < s.len() && (#[trigger] s2[k]).body is Some implies body_wf(
        s2[k].body.unwrap(),
    ) by {
        match spec_pair_inputs(s, k) {
            Some((p, v, c)) => {
                assert(body_wf(s[k].body.unwrap()));
                lemma_first_solid_circle_props(s[k].body.unwrap().colliders);
                lemma_boxes_fold_bodies_bounds(s, (p, v), c, s.len() as int);
                let res = spec_boxes_fold_bodies(s, (p, v), c, s.len() as int);
                let r = circle_radius_of(c.shape) as int;
                if circle_fits_play_area(r) {
                    assert(in_coord_range(spec_confined_pos(res.0, r)));
                }
            },
            None => {},
        }
    }
}

/// The circle-box update, computed: exactly `spec_box_kick`.
#[verifier::rlimit(100)]
fn box_kick(p: Vec2i, v: Vec2i, c: Collider, bpos: Vec2i, bc: Collider) -> (r: Option<
    (Vec2i, Vec2i),
>)
    requires
        in_coord_range(p),
        in_coord_range(bpos),
        abs_i(v.x as int) <= VEL_LIMIT as int,
        abs_i(v.y as int) <= VEL_LIMIT as int,
        collider_wf(c),
        collider_wf(bc),
        c.shape is Circle,
        bc.shape is Cuboid,
    ensures
        r == spec_box_kick(p, v, c, bpos, bc),
{
    let rr: i64 = match c.shape {
        Shape::Circle { radius } => radius,
        Shape::Cuboid { .. } => 0,
    };
    let (hw, hh): (i64, i64) = match bc.shape {
        Shape::Cuboid { half_w, half_h } => (half_w, half_h),
        Shape::Circle { .. } => (0, 0),
    };
    let cx: i64 = p.x + c.offset.x;
    let cy: i64 = p.y + c.offset.y;
    let bx: i64 = bpos.x + bc.offset.x;
    let by: i64 = bpos.y + bc.offset.y;
    let e: i64 = if c.restitution >= bc.restitution {
        c.restitution
    } else {
        bc.restitution
    };
    let nx = clamp64(cx, bx - hw, bx + hw);
    let ny = clamp64(cy, by - hh, by + hh);
    if nx == cx && ny == cy {
        proof {
            lemma_mul_bound(v.x as int, e as int, VEL_LIMIT as int, FP as int);
            lemma_mul_bound(v.y as int, e as int, VEL_LIMIT as int, FP as int);
            lemma_sdiv_bound(v.x as int * e as int, FP as int, VEL_LIMIT as int);
            lemma_sdiv_bound(v.y as int * e as int, FP as int, VEL_LIMIT as int);
        }
        let dl: i64 = cx - (bx - hw);
        let dr: i64 = (bx + hw) - cx;
        let db: i64 = cy - (by - hh);
        let dtp: i64 = (by + hh) - cy;
        if dl <= dr && dl <= db && dl <= dtp {
            let px = clamp64(bx - hw - rr - c.offset.x, -POS_LIMIT, POS_LIMIT);
            let vx: i64 = if v.x > 0 {
                -div_to_zero(v.x * e, FP)
            } else {
                v.x
            };
            Some((Vec2i { x: px, y: p.y }, Vec2i { x: vx, y: v.y }))
        } else if dr <= db && dr <= dtp {
            let px = clamp64(bx + hw + rr - c.offset.x, -POS_LIMIT, POS_LIMIT);
            let vx: i64 = if v.x < 0 {
                -div_to_zero(v.x * e, FP)
            } else {
                v.x
            };
            Some((Vec2i { x: px, y: p.y }, Vec2i { x: vx, y: v.y }))
        } else if db <= dtp {
            let py = clamp64(by - hh - rr - c.offset.y, -POS_LIMIT, POS_LIMIT);
            let vy: i64 = if v.y > 0 {
                -div_to_zero(v.y * e, FP)
            } else {
                v.y
            };
            Some((Vec2i { x: p.x, y: py }, Vec2i { x: v.x, y: vy }))
        } else {
            let py = clamp64(by + hh + rr - c.offset.y, -POS_LIMIT, POS_LIMIT);
            let vy: i64 = if v.y < 0 {
                -div_to_zero(v.y * e, FP)
            } else {
                v.y
            };
            Some((Vec2i { x: p.x, y: py }, Vec2i { x: v.x, y: vy }))
        }
    } else {
        let ddx: i64 = cx - nx;
        let ddy: i64 = cy - ny;
        proof {
            assert(-2_100_000_000 <= ddx as int <= 2_100_000_000);
            assert(-2_100_000_000 <= ddy as int <= 2_100_000_000);
            lemma_mul_bound(ddx as int, ddx as int, 2_100_000_000, 2_100_000_000);
            lemma_mul_bound(ddy as int, ddy as int, 2_100_000_000, 2_100_000_000);
            lemma_sq_nonneg(ddx as int);
            lemma_sq_nonneg(ddy as int);
            lemma_mul_bound(rr as int, rr as int, RADIUS_LIMIT as int, RADIUS_LIMIT as int);
        }
        let dd2: i64 = ddx * ddx + ddy * ddy;
        if dd2 >= rr * rr {
            return None;
        }
        let d: i64 = isqrt(dd2 as u64) as i64;
        proof {
            lemma_sqrt_floor_is(dd2 as int, d as int);
            // the nearest point differs from the center, so d >= 1
            lemma_abs_sq(ddx as int);
            lemma_abs_sq(ddy as int);
            if ddx != 0 {
                lemma_sq_le(1, abs_i(ddx as int));
            }
            if ddy != 0 {
                lemma_sq_le(1, abs_i(ddy as int));
            }
            assert(dd2 >= 1);
            lemma_sq_nonneg(d as int);
            assert(d >= 1);
            if abs_i(ddx as int) > d as int {
                lemma_sq_le(d as int + 1, abs_i(ddx as int));
            }
            if abs_i(ddy as int) > d as int {
                lemma_sq_le(d as int + 1, abs_i(ddy as int));
            }
            assert(abs_i(ddx as int) <= d as int);
            assert(abs_i(ddy as int) <= d as int);
            lemma_mul_bound(ddx as int, FP as int, d as int, FP as int);
            lemma_mul_bound(ddy as int, FP as int, d as int, FP as int);
            lemma_sdiv_bound(ddx as int * FP as int, d as int, FP as int);
            lemma_sdiv_bound(ddy as int * FP as int, d as int, FP as int);
            if d >= rr {
                lemma_sq_le(rr as int, d as int);
            }
            assert(d < rr);
        }
        let ux = div_to_zero(ddx * FP, d);
        let uy = div_to_zero(ddy * FP, d);
        let push: i64 = rr - d;
        proof {
            lemma_mul_bound(ux as int, push as int, FP as int, RADIUS_LIMIT as int);
            lemma_mul_bound(uy as int, push as int, FP as int, RADIUS_LIMIT as int);
            lemma_sdiv_bound(ux as int * push as int, FP as int, RADIUS_LIMIT as int);
            lemma_sdiv_bound(uy as int * push as int, FP as int, RADIUS_LIMIT as int);
        }
        let px = clamp64(p.x + div_to_zero(ux * push, FP), -POS_LIMIT, POS_LIMIT);
        let py = clamp64(p.y + div_to_zero(uy * push, FP), -POS_LIMIT, POS_LIMIT);
        proof {
            lemma_mul_bound(v.x as int, ux as int, VEL_LIMIT as int, FP as int);
            lemma_mul_bound(v.y as int, uy as int, VEL_LIMIT as int, FP as int);
            lemma_sdiv_bound(
                v.x as int * ux as int + v.y as int * uy as int,
                FP as int,
                2 * VEL_LIMIT,
            );
        }
        let vn = div_to_zero(v.x * ux + v.y * uy, FP);
        if vn < 0 {
            proof {
                lemma_mul_bound(vn as int, (FP + e) as int, 2 * VEL_LIMIT, 2 * FP as int);
                lemma_sdiv_bound(vn as int * (FP + e) as int, FP as int, 4 * VEL_LIMIT);
            }
            let imp = div_to_zero(vn * (FP + e), FP);
            proof {
                lemma_mul_bound(imp as int, ux as int, 4 * VEL_LIMIT, FP as int);
                lemma_mul_bound(imp as int, uy as int, 4 * VEL_LIMIT, FP as int);
                lemma_sdiv_bound(imp as int * ux as int, FP as int, 4 * VEL_LIMIT);
                lemma_sdiv_bound(imp as int * uy as int, FP as int, 4 * VEL_LIMIT);
            }
            let vx = clamp64(v.x - div_to_zero(imp * ux, FP), -VEL_LIMIT, VEL_LIMIT);
            let vy = clamp64(v.y - div_to_zero(imp * uy, FP), -VEL_LIMIT, VEL_LIMIT);
            Some((Vec2i { x: px, y: py }, Vec2i { x: vx, y: vy }))
        } else {
            Some((Vec2i { x: px, y: py }, v))
        }
    }
}

impl World {
    /// The box narrow phase: every live dynamic circle takes the push of
    /// every fixed body's box colliders, in body order.
    #[verifier::rlimit(100)]
    fn resolve_boxes_phase(&mut self)
        requires
            old(self).wf(),
        ensures
            final (self).wf(),
            final (self)@ == spec_resolve_boxes(old(self)@),
            final (self).queue() == old(self).queue(),
            final (self).handled() == old(self).handled(),
    {
        let ghost s0 = self@;
        let n = self.slots.len();
        let mut i: usize = 0;
        while i < n
            invariant
                s0 == old(self)@,
                n == s0.len(),
                i <= n,
                slots_wf(s0),
                self@.len() == n,
                self.slots@.len() == n,
                forall|k: int| 0 <= k < i ==> self@[k] == spec_resolve_boxes_slot(s0, k),
                forall|k: int| i <= k < n ==> self@[k] == s0[k],
                self.live == old(self).live,
                self.events == old(self).events,
                self.events_handled == old(self).events_handled,
            decreases n - i,
        {
            let in_i = self.pair_inputs(i);
            match in_i {
                Some((p0, v0, cc)) => {
                    proof {
                        assert(self@[i as int] == s0[i as int]);
                        assert(spec_pair_inputs(self@, i as int) == spec_pair_inputs(s0, i as int));
                        assert(body_wf(s0[i as int].body.unwrap()));
                        lemma_first_solid_circle_props(s0[i as int].body.unwrap().colliders);
                        assert forall|m: int|
                            0 <= m < n && (#[trigger] s0[m]).body is Some && s0[m].body.unwrap()
                                .body_type is Fixed implies self@[m] == s0[m] by {
                            if m < i {
                                assert(self@[m] == spec_resolve_boxes_slot(s0, m));
                                assert(spec_pair_inputs(s0, m) is None);
                            } else {
                                assert(self@[m] == s0[m]);
                            }
                        }
                    }
                    let mut pcur = p0;
                    let mut vcur = v0;
                    let mut j: usize = 0;
                    while j < n
                        invariant
                            s0 == old(self)@,
                            n == s0.len(),
                            i < n,
                            j <= n,
                            slots_wf(s0),
                            self@.len() == n,
                            self.slots@.len() == n,
                            forall|k: int| 0 <= k < i ==> self@[k] == spec_resolve_boxes_slot(
                                s0,
                                k,
                            ),
                            forall|k: int| i <= k < n ==> self@[k] == s0[k],
                            collider_wf(cc),
                            cc.shape is Circle,
                            !cc.sensor,
                            forall|m: int|
                                0 <= m < n && (#[trigger] s0[m]).body is Some
                                    && s0[m].body.unwrap().body_type is Fixed ==> self@[m]
                                    == s0[m],
                            (pcur, vcur) == spec_boxes_fold_bodies(s0, (p0, v0), cc, j as int),
                            in_coord_range(pcur),
                            abs_i(vcur.x as int) <= VEL_LIMIT as int,
                            abs_i(vcur.y as int) <= VEL_LIMIT as int,
                            spec_pair_inputs(s0, i as int) == Some((p0, v0, cc)),
                            in_coord_range(p0),
                            abs_i(v0.x as int) <= VEL_LIMIT as int,
                            abs_i(v0.y as int) <= VEL_LIMIT as int,
                            self.live == old(self).live,
                            self.events == old(self).events,
                            self.events_handled == old(self).events_handled,
                        decreases n - j,
                    {
                        let (is_fixed, bpos, ncols) = match &self.slots[j].body {
                            Some(ob) => (ob.body_type == BodyType::Fixed, ob.pos, ob.colliders.len()),
                            None => (false, Vec2i { x: 0, y: 0 }, 0),
                        };
                        if is_fixed {
                            proof {
                                if j < i {
                                    match spec_pair_inputs(s0, j as int) {
                                        Some(t) => {
                                            assert(self@[j as int] == spec_resolve_boxes_slot(
                                                s0,
                                                j as int,
                                            ));
                                            assert(self@[j as int].body.unwrap().body_type
                                                is Dynamic);
                                            assert(false);
                                        },
                                        None => {
                                            assert(self@[j as int] == spec_resolve_boxes_slot(
                                                s0,
                                                j as int,
                                            ));
                                        },
                                    }
                                }
                                assert(self@[j as int] == s0[j as int]);
                            }
                            let ghost ob0 = s0[j as int].body.unwrap();
                            proof {
                                assert(body_wf(ob0));
                            }
                            let ghost pv_in = (pcur, vcur);
                            let mut k: usize = 0;
                            while k < ncols
                                invariant
                                    s0 == old(self)@,
                                    n == s0.len(),
                                    i < n,
                                    j < n,
                                    k <= ncols,
                                    slots_wf(s0),
                                    self@.len() == n,
                                    self.slots@.len() == n,
                                    forall|m: int|
                                        0 <= m < i ==> self@[m] == spec_resolve_boxes_slot(s0, m),
                                    forall|m: int| i <= m < n ==> self@[m] == s0[m],
                                    s0[j as int].body == Some(ob0),
                                    self@[j as int] == s0[j as int],
                                    ob0.body_type is Fixed,
                                    body_wf(ob0),
                                    cc.shape is Circle,
                                    !cc.sensor,
                                    bpos == ob0.pos,
                                    ncols == ob0.colliders.len(),
                                    collider_wf(cc),
                                    (pcur, vcur) == spec_boxes_fold_colliders(
                                        pv_in,
                                        cc,
                                        bpos,
                                        ob0.colliders,
                                        k as int,
                                    ),
                                    in_coord_range(pcur),
                                    abs_i(vcur.x as int) <= VEL_LIMIT as int,
                                    abs_i(vcur.y as int) <= VEL_LIMIT as int,
                                    in_coord_range(pv_in.0),
                                    abs_i(pv_in.1.x as int) <= VEL_LIMIT as int,
                                    abs_i(pv_in.1.y as int) <= VEL_LIMIT as int,
                                    self.live == old(self).live,
                                    self.events == old(self).events,
                                    self.events_handled == old(self).events_handled,
                                decreases ncols - k,
                            {
                                proof {
                                    assert(self@[j as int] == s0[j as int]);
                                }
                                let bc_opt: Option<Collider> = match &self.slots[j].body {
                                    Some(ob) => Some(ob.colliders[k]),
                                    None => None,
                                };
                                match bc_opt {
                                    Some(bc) => {
                                        proof {
                                            assert(bc == ob0.colliders[k as int]);
                                            assert(collider_wf(bc));
                                        }
                                        if !bc.sensor {
                                            match bc.shape {
                                                Shape::Cuboid { .. } => {
                                                    match box_kick(pcur, vcur, cc, bpos, bc) {
                                                        Some((p2, v2)) => {
                                                            proof {
                                                                lemma_box_kick_bounds(
                                                                    pcur,
                                                                    vcur,
                                                                    cc,
                                                                    bpos,
                                                                    bc,
                                                                );
                                                            }
                                                            pcur = p2;
                                                            vcur = v2;
                                                        },
                                                        None => {},
                                                    }
                                                },
                                                Shape::Circle { .. } => {},
                                            }
                                        }
                                    },
                                    None => {
                                        proof {
                                            assert(false);
                                        }
                                    },
                                }
                                k = k + 1;
                            }
                            proof {
                                assert((pcur, vcur) == spec_boxes_fold_colliders(
                                    pv_in,
                                    cc,
                                    bpos,
                                    ob0.colliders,
                                    ncols as int,
                                ));
                                assert((pcur, vcur) == spec_boxes_fold_bodies(
                                    s0,
                                    (p0, v0),
                                    cc,
                                    j as int + 1,
                                ));
                            }
                        } else {
                            proof {
                                if j < i {
                                    assert(self@[j as int] == spec_resolve_boxes_slot(
                                        s0,
                                        j as int,
                                    ));
                                    match spec_pair_inputs(s0, j as int) {
                                        Some(t) => {
                                            assert(s0[j as int].body.unwrap().body_type
                                                is Dynamic);
                                        },
                                        None => {
                                            assert(self@[j as int] == s0[j as int]);
                                        },
                                    }
                                } else {
                                    assert(self@[j as int] == s0[j as int]);
                                }
                                assert((pcur, vcur) == spec_boxes_fold_bodies(
                                    s0,
                                    (p0, v0),
                                    cc,
                                    j as int + 1,
                                ));
                            }
                        }
                        j = j + 1;
                    }
                    let rr: i64 = match cc.shape {
                        Shape::Circle { radius } => radius,
                        Shape::Cuboid { .. } => 0,
                    };
                    if rr >= 0 && WALL_THICKNESS + rr <= WORLD_W - WALL_THICKNESS - rr
                        && WALL_THICKNESS + rr <= WORLD_H - WALL_THICKNESS - rr {
                        pcur = Vec2i {
                            x: clamp64(pcur.x, WALL_THICKNESS + rr, WORLD_W - WALL_THICKNESS - rr),
                            y: clamp64(pcur.y, WALL_THICKNESS + rr, WORLD_H - WALL_THICKNESS - rr),
                        };
                    }
                    proof {
                        assert(pcur == spec_confined_pos(
                            spec_boxes_fold_bodies(s0, (p0, v0), cc, n as int).0,
                            rr as int,
                        ));
                    }
                    let ghost pre_view = self@;
                    let sl = &mut self.slots[i];
                    match &mut sl.body {
                        Some(rb) => {
                            rb.pos = pcur;
                            rb.vel = vcur;
                        },
                        None => {},
                    }
                    proof {
                        assert(forall|k: int|
                            0 <= k < n && k != i ==> self@[k] == #[trigger] pre_view[k]);
                        assert(self@[i as int] =~= spec_resolve_boxes_slot(s0, i as int));
                    }
                },
                None => {
                    proof {
                        assert(self@[i as int] == s0[i as int]);
                        assert(spec_pair_inputs(s0, i as int) is None);
                        assert(self@[i as int] == spec_resolve_boxes_slot(s0, i as int));
                    }
                },
            }
            i = i + 1;
        }
        proof {
            assert(self@ =~= spec_resolve_boxes(s0));
            lemma_resolve_boxes_preserves(s0);
            lemma_count_live_same_occupancy(self@, s0);
        }
    }
}

/// The sensor circle a body raises notifications through: its first
/// sensor circle collider with events enabled.
pub open spec fn first_sensor_circle(cs: Seq<Collider>) -> Option<Collider>
    decreases cs.len(),
{
    if cs.len() == 0 {
        None
    } else if cs[0].sensor && cs[0].events && cs[0].shape is Circle {
        Some(cs[0])
    } else {
        first_sensor_circle(cs.drop_first())
    }
}

/// A found sensor circle really is one of the body's colliders.
pub proof fn lemma_first_sensor_circle_props(cs: Seq<Collider>)
    ensures
        first_sensor_circle(cs) matches Some(c) ==> c.sensor && c.events && c.shape is Circle
            && exists|k: int| 0 <= k < cs.len() && cs[k] == c,
    decreases cs.len(),
{
    if cs.len() > 0 {
        if !(cs[0].sensor && cs[0].events && cs[0].shape is Circle) {
            lemma_first_sensor_circle_props(cs.drop_first());
            if first_sensor_circle(cs.drop_first()) is Some {
                let c = first_sensor_circle(cs.drop_first()).unwrap();
                let k = choose|k: int| 0 <= k < cs.drop_first().len() && cs.drop_first()[k] == c;
                assert(cs[k + 1] == c);
            }
        }
    }
}

/// The notification the ordered pair `(i, j)` raises, if any: body `i`'s
/// sensor circle overlapping body `j`'s solid circle.
pub open spec fn spec_pair_event(s: Seq<SlotV>, i: int, j: int) -> Option<QueueEvent> {
    if i == j {
        None
    } else {
        match (s[i].body, s[j].body) {
            (Some(bi), Some(bj)) => match (
                first_sensor_circle(bi.colliders),
                first_solid_circle(bj.colliders),
            ) {
                (Some(sc), Some(tc)) => {
                    let fi = circle_radius_of(sc.shape) as int;
                    let rj = circle_radius_of(tc.shape) as int;
                    let dx = (bj.pos.x + tc.offset.x) - (bi.pos.x + sc.offset.x);
                    let dy = (bj.pos.y + tc.offset.y) - (bi.pos.y + sc.offset.y);
                    if sq(dx) + sq(dy) < sq(fi + rj) {
                        Some((i as u64, j as u64, true))
                    } else {
                        None
                    }
                },
                _ => None,
            },
            _ => None,
        }
    }
}

/// The notifications raised by the pairs `(i, 0) .. (i, j-1)`, in order.
pub open spec fn spec_events_row(s: Seq<SlotV>, i: int, j: int) -> Seq<QueueEvent>
    decreases j,
{
    if j <= 0 {
        Seq::<QueueEvent>::empty()
    } else {
        spec_events_row(s, i, j - 1) + (match spec_pair_event(s, i, j - 1) {
            Some(ev) => seq![ev],
            None => Seq::<QueueEvent>::empty(),
        })
    }
}

/// The notifications raised by every pair whose first index is below `i`.
pub open spec fn spec_events_rows(s: Seq<SlotV>, i: int) -> Seq<QueueEvent>
    decreases i,
{
    if i <= 0 {
        Seq::<QueueEvent>::empty()
    } else {
        spec_events_rows(s, i - 1) + spec_events_row(s, i - 1, s.len() as int)
    }
}

/// Every sensor notification one step raises, in pair order.
pub open spec fn spec_sensor_events(s: Seq<SlotV>) -> Seq<QueueEvent> {
    spec_events_rows(s, s.len() as int)
}

/// Addition into a `u64` that stops at the top instead of wrapping.
pub open spec fn sat_add_u64(a: u64, b: int) -> u64 {
    if a + b <= u64::MAX {
        (a + b) as u64
    } else {
        u64::MAX
    }
}

/// Every raised notification carries the sensor flag.
pub proof fn lemma_events_row_flagged(s: Seq<SlotV>, i: int, j: int)
    ensures
        forall|k: int|
            0 <= k < spec_events_row(s, i, j).len() ==> (#[trigger] spec_events_row(s, i, j)[k]).2,
    decreases j,
{
    if j > 0 {
        lemma_events_row_flagged(s, i, j - 1);
        let pre = spec_events_row(s, i, j - 1);
        let cur = spec_events_row(s, i, j);
        assert forall|k: int| 0 <= k < cur.len() implies (#[trigger] cur[k]).2 by {
            if k < pre.len() {
                assert(cur[k] == pre[k]);
            } else {
                assert(spec_pair_event(s, i, j - 1) == Some(cur[k]));
            }
        }
    }
}

/// Every notification of a step carries the sensor flag.
pub proof fn lemma_events_rows_flagged(s: Seq<SlotV>, i: int)
    ensures
        forall|k: int|
            0 <= k < spec_events_rows(s, i).len() ==> (#[trigger] spec_events_rows(s, i)[k]).2,
    decreases i,
{
    if i > 0 {
        lemma_events_rows_flagged(s, i - 1);
        lemma_events_row_flagged(s, i - 1, s.len() as int);
        let pre = spec_events_rows(s, i - 1);
        let row = spec_events_row(s, i - 1, s.len() as int);
        let cur = spec_events_rows(s, i);
        assert forall|k: int| 0 <= k < cur.len() implies (#[trigger] cur[k]).2 by {
            if k < pre.len() {
                assert(cur[k] == pre[k]);
            } else {
                assert(cur[k] == row[k - pre.len()]);
            }
        }
    }
}

/// First sensor circle of a body's collider list, computed.
fn find_sensor_circle(cs: &Vec<Collider>) -> (r: Option<Collider>)
    ensures
        r == first_sensor_circle(cs@),
{
    let n = cs.len();
    let mut k: usize = 0;
    proof {
        assert(cs@.skip(0) =~= cs@);
    }
    while k < n
        invariant
            n == cs@.len(),
            k <= n,
            first_sensor_circle(cs@) == first_sensor_circle(cs@.skip(k as int)),
        decreases n - k,
    {
        let c = cs[k];
        proof {
            assert(cs@.skip(k as int)[0] == cs@[k as int]);
        }
        if c.sensor && c.events {
            match c.shape {
                Shape::Circle { .. } => {
                    return Some(c);
                },
                Shape::Cuboid { .. } => {},
            }
        }
        proof {
            assert(cs@.skip(k as int).drop_first() =~= cs@.skip(k as int + 1));
        }
        k = k + 1;
    }
    proof {
        assert(cs@.skip(n as int).len() == 0);
    }
    None
}

impl World {
    /// What the event phase reads of body `i`: its sensor circle.
    fn sensor_inputs(&self, i: usize) -> (r: Option<(Vec2i, Collider)>)
        requires
            (i as int) < self@.len(),
        ensures
            r matches Some((p, c)) ==> self@[i as int].body is Some && p == self@[
                i as int
            ].body.unwrap().pos && first_sensor_circle(self@[i as int].body.unwrap().colliders)
                == Some(c),
            r is None ==> (self@[i as int].body is Some ==> first_sensor_circle(
                self@[i as int].body.unwrap().colliders,
            ) is None),
    {
        match &self.slots[i].body {
            Some(rb) => match find_sensor_circle(&rb.colliders) {
                Some(c) => Some((rb.pos, c)),
                None => None,
            },
            None => None,
        }
    }

    /// Raise one notification per overlapping sensor/solid circle pair,
    /// then drain the queue to empty, tallying the sensor notifications:
    /// the integration point where field behavior would be added.
    ///
    /// The report is deliberately per step, not per edge: a pair that
    /// stays overlapping is reported again on every step, and there is no
    /// separate end-of-overlap notification.
    #[verifier::rlimit(100)]
    fn events_phase(&mut self)
        requires
            old(self).wf(),
        ensures
            final (self).wf(),
            final (self)@ == old(self)@,
            final (self).queue().len() == 0,
            final (self).handled() == sat_add_u64(
                old(self).handled(),
                spec_sensor_events(old(self)@).len() as int,
            ),
    {
        let ghost s0 = self@;
        let n = self.slots.len();
        let mut i: usize = 0;
        while i < n
            invariant
                s0 == old(self)@,
                n == s0.len(),
                i <= n,
                slots_wf(s0),
                self@ == s0,
                self.slots@.len() == n,
                queue_contents(self.events) == spec_events_rows(s0, i as int),
                self.live == old(self).live,
                self.events_handled == old(self).events_handled,
            decreases n - i,
        {
            let si = self.sensor_inputs(i);
            let mut j: usize = 0;
            proof {
                assert(queue_contents(self.events) + spec_events_row(s0, i as int, 0)
                    =~= queue_contents(self.events));
            }
            while j < n
                invariant
                    s0 == old(self)@,
                    n == s0.len(),
                    i < n,
                    j <= n,
                    slots_wf(s0),
                    self@ == s0,
                    self.slots@.len() == n,
                    queue_contents(self.events) == spec_events_rows(s0, i as int)
                        + spec_events_row(s0, i as int, j as int),
                    (si matches Some((p, c)) ==> s0[i as int].body is Some && p == s0[
                        i as int
                    ].body.unwrap().pos && first_sensor_circle(s0[i as int].body.unwrap().colliders)
                        == Some(c)),
                    (si is None ==> (s0[i as int].body is Some ==> first_sensor_circle(
                        s0[i as int].body.unwrap().colliders,
                    ) is None)),
                    self.live == old(self).live,
                    self.events_handled == old(self).events_handled,
                decreases n - j,
            {
                let ghost q_pre = queue_contents(self.events);
                let mut pushed = false;
                if j != i {
                    match si {
                        Some((pi_, sc)) => {
                            let tj = self.pair_inputs(j);
                            match tj {
                                Some((pj_, _vj, tc)) => {
                                    proof {
                                        assert(body_wf(s0[i as int].body.unwrap()));
                                        assert(body_wf(s0[j as int].body.unwrap()));
                                        lemma_first_sensor_circle_props(
                                            s0[i as int].body.unwrap().colliders,
                                        );
                                        lemma_first_solid_circle_props(
                                            s0[j as int].body.unwrap().colliders,
                                        );
                                    }
                                    let fi: i64 = match sc.shape {
                                        Shape::Circle { radius } => radius,
                                        Shape::Cuboid { .. } => 0,
                                    };
                                    let rj: i64 = match tc.shape {
                                        Shape::Circle { radius } => radius,
                                        Shape::Cuboid { .. } => 0,
                                    };
                                    let dx: i64 = (pj_.x + tc.offset.x) - (pi_.x + sc.offset.x);
                                    let dy: i64 = (pj_.y + tc.offset.y) - (pi_.y + sc.offset.y);
                                    proof {
                                        assert(-2_000_000_000 <= dx as int <= 2_000_000_000);
                                        assert(-2_000_000_000 <= dy as int <= 2_000_000_000);
                                        lemma_mul_bound(
                                            dx as int,
                                            dx as int,
                                            2_000_000_000,
                                            2_000_000_000,
                                        );
                                        lemma_mul_bound(
                                            dy as int,
                                            dy as int,
                                            2_000_000_000,
                                            2_000_000_000,
                                        );
                                        lemma_mul_bound(
                                            (fi + rj) as int,
                                            (fi + rj) as int,
                                            2 * RADIUS_LIMIT,
                                            2 * RADIUS_LIMIT,
                                        );
                                    }
                                    if dx * dx + dy * dy < (fi + rj) * (fi + rj) {
                                        push_event(&mut self.events, (i as u64, j as u64, true));
                                        pushed = true;
                                        proof {
                                            assert(spec_pair_event(s0, i as int, j as int) == Some(
                                                (i as u64, j as u64, true),
                                            ));
                                            assert(queue_contents(self.events) =~= q_pre + seq![
                                                (i as u64, j as u64, true),
                                            ]);
                                        }
                                    } else {
                                        proof {
                                            assert(spec_pair_event(s0, i as int, j as int)
                                                is None);
                                        }
                                    }
                                },
                                None => {
                                    proof {
                                        if s0[j as int].body is Some {
                                            assert(body_wf(s0[j as int].body.unwrap()));
                                            lemma_first_solid_circle_props(
                                                s0[j as int].body.unwrap().colliders,
                                            );
                                        }
                                        assert(spec_pair_event(s0, i as int, j as int) is None);
                                    }
                                },
                            }
                        },
                        None => {
                            proof {
                                assert(spec_pair_event(s0, i as int, j as int) is None);
                            }
                        },
                    }
                } else {
                    proof {
                        assert(spec_pair_event(s0, i as int, j as int) is None);
                    }
                }
                proof {
                    if !pushed {
                        assert(queue_contents(self.events) =~= q_pre + Seq::<QueueEvent>::empty());
                    }
                    assert(queue_contents(self.events) =~= spec_events_rows(s0, i as int)
                        + spec_events_row(s0, i as int, j as int + 1));
                }
                j = j + 1;
            }
            proof {
                assert(queue_contents(self.events) =~= spec_events_rows(s0, i as int + 1));
            }
            i = i + 1;
        }
        // drain to empty, tallying sensor notifications
        let ghost total = queue_contents(self.events);
        proof {
            assert(total == spec_sensor_events(s0));
            lemma_events_rows_flagged(s0, n as int);
            assert(total.skip(0) =~= total);
        }
        let ghost h0 = self.events_handled;
        let ghost mut gprocessed: int = 0;
        loop
            invariant_except_break
                s0 == old(self)@,
                self@ == s0,
                slots_wf(s0),
                0 <= gprocessed <= total.len(),
                queue_contents(self.events) == total.skip(gprocessed),
                self.events_handled == sat_add_u64(h0, gprocessed),
                forall|k: int| 0 <= k < total.len() ==> (#[trigger] total[k]).2,
                self.live == old(self).live,
                self.slots@.len() == s0.len(),
            ensures
                self@ == s0,
                queue_contents(self.events).len() == 0,
                self.events_handled == sat_add_u64(h0, total.len() as int),
                self.live == old(self).live,
                self.slots@.len() == s0.len(),
            decreases total.len() - gprocessed,
        {
            match pop_event(&mut self.events) {
                Some(ev) => {
                    proof {
                        assert(total.skip(gprocessed).len() > 0);
                        assert(ev == total.skip(gprocessed)[0]);
                        assert(ev == total[gprocessed]);
                        assert(total.skip(gprocessed).drop_first() =~= total.skip(gprocessed + 1));
                    }
                    if ev.2 {
                        self.events_handled = if self.events_handled < u64::MAX {
                            self.events_handled + 1
                        } else {
                            u64::MAX
                        };
                    }
                    proof {
                        gprocessed = gprocessed + 1;
                    }
                },
                None => {
                    proof {
                        assert(queue_contents(self.events).len() == 0);
                        assert(total.skip(gprocessed).len() == 0);
                        assert(gprocessed == total.len());
                    }
                    break ;
                },
            }
        }
        proof {
            lemma_count_live_same_occupancy(self@, s0);
        }
    }
}

/// The whole arena after one step: force application always, and for
/// positive `dt` integration, circle-circle resolution, then box
/// resolution.
pub open spec fn spec_step_slots(s: Seq<SlotV>, dt: int) -> Seq<SlotV> {
    let m = spec_move_slots(s, dt);
    if dt <= 0 {
        m
    } else {
        spec_resolve_boxes(spec_resolve_pairs(m))
    }
}

impl World {
    /// One simulation step: pull every dynamic body toward the world
    /// center, integrate by `dt`, resolve circle-circle and circle-box
    /// collisions confining every fitting circle to the walled play area,
    /// then raise and drain the sensor notifications. With `dt = 0` no
    /// body's position or velocity changes.
    pub fn step_physics(&mut self, dt: i64)
        requires
            old(self).wf(),
            0 <= dt <= FP,
        ensures
            final (self).wf(),
            final (self)@ == spec_step_slots(old(self)@, dt as int),
            count_live(final (self)@) == count_live(old(self)@),
            forall|h: RigidBodyHandle|
                valid_handle_v(old(self)@, h) <==> valid_handle_v(final (self)@, h),
            final (self).queue().len() == 0,
            final (self).handled() == sat_add_u64(
                old(self).handled(),
                spec_sensor_events(spec_step_slots(old(self)@, dt as int)).len() as int,
            ),
            // the boundary walls confine the simulation: after a moving
            // step, every live dynamic circle that fits between them sits
            // wholly inside the play area they enclose
            dt > 0 ==> forall|i: int|
                0 <= i < old(self)@.len() ==> (match spec_pair_inputs(old(self)@, i) {
                    Some(t) => ({
                        let r = circle_radius_of(t.2.shape) as int;
                        circle_fits_play_area(r) ==> {
                            &&& (#[trigger] final (self)@[i]).body is Some
                            &&& WALL_THICKNESS + r <= final (self)@[i].body.unwrap().pos.x
                                <= WORLD_W - WALL_THICKNESS - r
                            &&& WALL_THICKNESS + r <= final (self)@[i].body.unwrap().pos.y
                                <= WORLD_H - WALL_THICKNESS - r
                        }
                    }),
                    None => true,
                }),
    {
        let ghost s0 = self@;
        self.move_phase(dt);
        let ghost s1 = self@;
        proof {
            assert forall|k: int|
                0 <= k < s0.len() implies (#[trigger] s1[k]).generation == s0[k].generation && (
            s1[k].body is Some <==> s0[k].body is Some) by {
                assert(s1[k] == spec_move_slot(s0[k], dt as int));
            }
        }
        if dt > 0 {
            self.resolve_pairs_phase();
            proof {
                lemma_pairs_rows_preserves(s1, s1.len() as int, s1.len() as int);
            }
            self.resolve_boxes_phase();
            proof {
                lemma_resolve_boxes_preserves(spec_resolve_pairs(s1));
            }
            proof {
                let p = spec_resolve_pairs(s1);
                assert forall|i: int|
                    0 <= i < s0.len() implies (match spec_pair_inputs(s0, i) {
                    Some(t) => ({
                        let r = circle_radius_of(t.2.shape) as int;
                        circle_fits_play_area(r) ==> {
                            &&& (#[trigger] self@[i]).body is Some
                            &&& WALL_THICKNESS + r <= self@[i].body.unwrap().pos.x <= WORLD_W
                                - WALL_THICKNESS - r
                            &&& WALL_THICKNESS + r <= self@[i].body.unwrap().pos.y <= WORLD_H
                                - WALL_THICKNESS - r
                        }
                    }),
                    None => true,
                }) by {
                    match spec_pair_inputs(s0, i) {
                        Some(t) => {
                            // the body's solid circle survives the move and
                            // pair phases unchanged
                            assert(s1[i] == spec_move_slot(s0[i], dt as int));
                            assert(s1[i].body.unwrap().colliders == s0[i].body.unwrap().colliders);
                            assert(s1[i].body.unwrap().body_type == s0[i].body.unwrap().body_type);
                            assert(p[i].body.unwrap().colliders == s1[i].body.unwrap().colliders);
                            assert(p[i].body.unwrap().body_type == s1[i].body.unwrap().body_type);
                            assert(spec_pair_inputs(p, i) matches Some(t2) && t2.2 == t.2);
                            assert(self@[i] == spec_resolve_boxes_slot(p, i));
                        },
                        None => {},
                    }
                }
            }
        }
        self.events_phase();
        proof {
            lemma_count_live_same_occupancy(self@, s0);
        }
    }
}

/// A step with `dt = 0` leaves every body's position, velocity and
/// rotation unchanged: only the accumulated force is refreshed.
pub proof fn lemma_step_zero_dt_identity(s: Seq<SlotV>, i: int)
    requires
        0 <= i < s.len(),
        s[i].body is Some,
    ensures
        ({
            let s2 = spec_step_slots(s, 0);
            &&& s2[i].body is Some
            &&& s2[i].body.unwrap().pos == s[i].body.unwrap().pos
            &&& s2[i].body.unwrap().vel == s[i].body.unwrap().vel
            &&& s2[i].body.unwrap().rot == s[i].body.unwrap().rot
        }),
{
}

/// A circle body reports exactly the field radius it was created with:
/// its sensor circle is the last sensor among its colliders.
pub proof fn lemma_circle_body_field_radius(position: Vec2i, radius: i64, field_radius: i64, vel: Vec2i)
    ensures
        sensor_radius_of(spec_circle_bodyv(position, radius, field_radius, vel).colliders) == Some(
            field_radius,
        ),
{
    let cs = spec_circle_bodyv(position, radius, field_radius, vel).colliders;
    assert(cs.last() == spec_sensor_circle_collider(field_radius));
}

/// A static box body reports no field radius: none of its colliders is a
/// sensor.
pub proof fn lemma_static_body_no_field_radius(position: Vec2i, width: i64, height: i64)
    ensures
        sensor_radius_of(spec_static_bodyv(position, width, height).colliders) is None,
{
    let cs = spec_static_bodyv(position, width, height).colliders;
    assert(!cs.last().sensor);
    assert(cs.drop_last().len() == 0);
    assert(sensor_radius_of(cs.drop_last()) is None);
}

/// A body exactly at the world center feels no force: the degenerate
/// direction falls back to zero rather than an undefined value.
pub proof fn lemma_center_force_zero()
    ensures
        spec_grav_force(Vec2i { x: WORLD_CX, y: WORLD_CY }) == (Vec2i { x: 0, y: 0 }),
{
    assert(is_sqrt_floor(0, 0)) by (nonlinear_arith);
    lemma_sqrt_floor_is(0, 0);
    assert(sq(0) == 0) by (nonlinear_arith);
}

} // verus!
