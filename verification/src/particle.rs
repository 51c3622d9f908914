//! The simulation-facing entities: molecules and static elements, owned by
//! keyed registries, each holding a generation-checked handle into the
//! Physics World and pulling its pose from there every frame.

use vstd::prelude::*;
use crate::consts::{FP, WORLD_W, WORLD_H, MOLECULE_SPEED, HALF_TURN, RADIUS_LIMIT, FIELD_MIN,
    FIELD_MAX};
use crate::math::{Vec2i, abs_i, lemma_mul_bound, lemma_sdiv_bound, div_to_zero};
use crate::kinetic::{in_coord_range, valid_radius};
use crate::world::{World, RigidBodyHandle, Shape, SlotV, valid_handle_v, sensor_radius_of,
    spec_circle_bodyv, spec_static_bodyv, count_live};
use crate::util::{Color, random_position, random_rotation, random_color};
use crate::rng::{random_u64, random_i64_in};

verus! {

/// A circular molecule: its drawable state, and a handle to the physics
/// body that actually moves it. The pose fields are derived — refreshed
/// from the Physics World each frame, never integrated here.
#[derive(Clone, Copy)]
pub struct Molecule {
    pub pos: Vec2i,
    pub rot: i64,
    /// Linear speed, fixed-point units per second.
    pub vel: i64,
    pub ang_vel: i64,
    /// Radius of the solid circle, in fixed-point units.
    pub size: i64,
    pub color: Color,
    pub shape: Shape,
    /// Radius of the sensor circle, in fixed-point units.
    pub field_range: i64,
    pub physics_handle: Option<RigidBodyHandle>,
}

/// A molecule after one pull from the Physics World: a live handle
/// refreshes position, rotation (with the half-turn offset) and, when the
/// body carries a sensor, the field range; a missing or dead handle
/// leaves the molecule exactly as it was.
pub open spec fn spec_synced_molecule(m: Molecule, s: Seq<SlotV>) -> Molecule {
    match m.physics_handle {
        Some(h) => if valid_handle_v(s, h) {
            let b = s[h.index as int].body.unwrap();
            Molecule {
                pos: b.pos,
                rot: (b.rot + HALF_TURN) as i64,
                field_range: match sensor_radius_of(b.colliders) {
                    Some(r) => r,
                    None => m.field_range,
                },
                ..m
            }
        } else {
            m
        },
        None => m,
    }
}

/// Every registered molecule that carries a handle points at a live body:
/// the registry/world coherence the per-frame pull relies on.
pub open spec fn registry_coherent(s: Seq<(u64, Molecule)>, w: Seq<SlotV>) -> bool {
    forall|j: int|
        0 <= j < s.len() ==> match (#[trigger] s[j]).1.physics_handle {
            Some(h) => valid_handle_v(w, h),
            None => true,
        }
}

/// A molecule whose handle no longer resolves is left exactly as it was:
/// the pull is a defined no-op, never stale data dressed up as fresh.
pub proof fn lemma_sync_stale_handle(m: Molecule, s: Seq<SlotV>)
    requires
        match m.physics_handle {
            Some(h) => !valid_handle_v(s, h),
            None => true,
        },
    ensures
        spec_synced_molecule(m, s) == m,
{
}

impl Molecule {
    /// A randomized molecule: whole-unit size, random pose, speed, color
    /// and field range, not yet registered with the Physics World.
    pub fn new() -> (m: Molecule)
        ensures
            0 <= m.pos.x < WORLD_W,
            0 <= m.pos.y < WORLD_H,
            in_coord_range(m.pos),
            0 <= m.rot < 2 * HALF_TURN,
            0 <= m.vel <= MOLECULE_SPEED,
            m.ang_vel == 0,
            2 * FP <= m.size <= 6 * FP,
            (m.size as int) % (FP as int) == 0,
            valid_radius(m.size as int),
            m.shape == (Shape::Circle { radius: m.size }),
            FIELD_MIN <= m.field_range < FIELD_MAX,
            0 <= m.field_range <= RADIUS_LIMIT,
            (m.physics_handle is None),
    {
        let units = random_i64_in(2, 7);
        let size = units * FP;
        proof {
            assert((units as int * FP as int) % (FP as int) == 0) by (nonlinear_arith)
                requires
                    2 <= units < 7,
                    FP as int == 1000,
            ;
        }
        let raw = random_i64_in(0, FP + 1);
        proof {
            lemma_mul_bound(raw as int, MOLECULE_SPEED as int, FP as int, MOLECULE_SPEED as int);
            lemma_sdiv_bound(raw as int * MOLECULE_SPEED as int, FP as int, MOLECULE_SPEED as int);
        }
        let vel = div_to_zero(raw * MOLECULE_SPEED, FP);
        Molecule {
            pos: random_position(WORLD_W, WORLD_H),
            rot: random_rotation(),
            vel: if vel < 0 {
                0
            } else {
                vel
            },
            ang_vel: 0,
            size,
            color: random_color(),
            shape: Shape::Circle { radius: size },
            field_range: random_i64_in(FIELD_MIN, FIELD_MAX),
            physics_handle: None,
        }
    }

    /// Pull this molecule's pose from the Physics World. A molecule with
    /// no handle, or whose handle no longer resolves (the body was
    /// removed), is left untouched: a defined no-op, never a crash and
    /// never stale data dressed up as fresh.
    pub fn update2(&mut self, physics: &mut World)
        requires
            old(physics).wf(),
        ensures
            *final (physics) == *old(physics),
            *final (self) == spec_synced_molecule(*old(self), old(physics)@),
    {
        match self.physics_handle {
            Some(handle) => {
                match physics.get_physics_data(handle) {
                    Some(physics_data) => {
                        self.pos = physics_data.position;
                        self.rot = physics_data.rotation;
                        match physics_data.field_radius {
                            Some(r) => {
                                self.field_range = r;
                            },
                            None => {},
                        }
                    },
                    None => {},
                }
            },
            None => {},
        }
    }
}

/// A static rectangular element mirroring an immovable physics box.
pub struct StaticElement {
    pub pos: Vec2i,
    pub width: i64,
    pub height: i64,
    pub color: Color,
    pub shape: Shape,
    pub physics_handle: Option<RigidBodyHandle>,
}

impl StaticElement {
    /// A static element, not yet registered with the Physics World.
    pub fn new(position: Vec2i, w: i64, h: i64, color: Color) -> (r: StaticElement)
        ensures
            r.pos == position,
            r.width == w,
            r.height == h,
            r.color == color,
            r.shape == (Shape::Cuboid { half_w: w, half_h: h }),
            (r.physics_handle is None),
    {
        StaticElement {
            pos: position,
            width: w,
            height: h,
            color,
            shape: Shape::Cuboid { half_w: w, half_h: h },
            physics_handle: None,
        }
    }

    /// Pull this element's position from the Physics World; a missing or
    /// dead handle leaves it untouched.
    pub fn update2(&mut self, physics: &mut World)
        requires
            old(physics).wf(),
        ensures
            *final (physics) == *old(physics),
            (match old(self).physics_handle {
                Some(h) => valid_handle_v(old(physics)@, h) ==> final (self).pos == old(
                    physics,
                )@[h.index as int].body.unwrap().pos,
                None => true,
            }),
            (match old(self).physics_handle {
                Some(h) => !valid_handle_v(old(physics)@, h) ==> *final (self) == *old(self),
                None => *final (self) == *old(self),
            }),
            final (self).width == old(self).width,
            final (self).height == old(self).height,
            final (self).color == old(self).color,
            final (self).shape == old(self).shape,
            final (self).physics_handle == old(self).physics_handle,
    {
        match self.physics_handle {
            Some(handle) => {
                match physics.get_physics_data(handle) {
                    Some(physics_data) => {
                        self.pos = physics_data.position;
                    },
                    None => {},
                }
            },
            None => {},
        }
    }
}

/// Whether some entry of the registry carries this key.
pub open spec fn has_key<T>(s: Seq<(u64, T)>, id: u64) -> bool {
    exists|i: int| 0 <= i < s.len() && (#[trigger] s[i]).0 == id
}

/// No two entries share a key.
pub open spec fn keys_unique<T>(s: Seq<(u64, T)>) -> bool {
    forall|i: int, j: int| 0 <= i < j < s.len() ==> (#[trigger] s[i]).0 != (#[trigger] s[j]).0
}

/// The value stored under a key, scanning from the newest entry.
pub open spec fn seq_find<T>(s: Seq<(u64, T)>, id: u64) -> Option<T>
    decreases s.len(),
{
    if s.len() == 0 {
        None
    } else if s.last().0 == id {
        Some(s.last().1)
    } else {
        seq_find(s.drop_last(), id)
    }
}

/// A found value comes from some entry; a missing key finds nothing.
pub proof fn lemma_seq_find_has_key<T>(s: Seq<(u64, T)>, id: u64)
    ensures
        seq_find(s, id) is Some <==> has_key(s, id),
    decreases s.len(),
{
    if s.len() > 0 {
        lemma_seq_find_has_key(s.drop_last(), id);
        if s.last().0 != id && has_key(s, id) {
            let i = choose|i: int| 0 <= i < s.len() && (#[trigger] s[i]).0 == id;
            assert(i < s.len() - 1);
            assert(s.drop_last()[i].0 == id);
        }
        if has_key(s.drop_last(), id) {
            let i = choose|i: int|
                0 <= i < s.drop_last().len() && (#[trigger] s.drop_last()[i]).0 == id;
            assert(s[i].0 == id);
        }
    }
}

/// Overwriting the entry that holds a key rebinds that key and nothing
/// else.
pub proof fn lemma_seq_find_update<T>(s: Seq<(u64, T)>, i: int, e: (u64, T), id: u64)
    requires
        keys_unique(s),
        0 <= i < s.len(),
        s[i].0 == e.0,
    ensures
        seq_find(s.update(i, e), id) == (if id == e.0 {
            Some(e.1)
        } else {
            seq_find(s, id)
        }),
    decreases s.len(),
{
    let s2 = s.update(i, e);
    if i == s.len() - 1 {
        assert(s2.drop_last() =~= s.drop_last());
        if id == e.0 && s.last().0 != id {
        }
        if s.last().0 == id {
        }
        if id != e.0 {
            lemma_seq_find_has_key(s.drop_last(), id);
        }
    } else {
        assert(s2.drop_last() =~= s.drop_last().update(i, e));
        assert(forall|a: int, b: int|
            0 <= a < b < s.drop_last().len() ==> (#[trigger] s.drop_last()[a]).0 != (
            #[trigger] s.drop_last()[b]).0);
        lemma_seq_find_update(s.drop_last(), i, e, id);
        assert(s2.last() == s.last());
        if id == e.0 {
            assert(s.last().0 != e.0);
        }
    }
}

/// Removing the entry that holds a key unbinds that key and nothing else.
pub proof fn lemma_seq_find_remove<T>(s: Seq<(u64, T)>, i: int, id: u64)
    requires
        keys_unique(s),
        0 <= i < s.len(),
    ensures
        seq_find(s.remove(i), id) == (if id == s[i].0 {
            None
        } else {
            seq_find(s, id)
        }),
    decreases s.len(),
{
    let s2 = s.remove(i);
    if i == s.len() - 1 {
        assert(s2 =~= s.drop_last());
        if id == s[i].0 {
            lemma_seq_find_has_key(s.drop_last(), id);
            if has_key(s.drop_last(), id) {
                let a = choose|a: int|
                    0 <= a < s.drop_last().len() && (#[trigger] s.drop_last()[a]).0 == id;
                assert(s[a].0 == id);
            }
        }
    } else {
        assert(s2.drop_last() =~= s.drop_last().remove(i));
        assert(s2.last() == s.last());
        assert(forall|a: int, b: int|
            0 <= a < b < s.drop_last().len() ==> (#[trigger] s.drop_last()[a]).0 != (
            #[trigger] s.drop_last()[b]).0);
        lemma_seq_find_remove(s.drop_last(), i, id);
    }
}

/// A registry of values keyed by 64-bit identifiers, insertion order kept,
/// each key bound at most once.
pub struct KeyedBox<T> {
    entries: Vec<(u64, T)>,
}

impl<T> KeyedBox<T> {
    /// The entries in insertion order.
    pub closed spec fn entries_seq(self) -> Seq<(u64, T)> {
        self.entries@
    }

    /// The registry's invariant: no key bound twice.
    pub open spec fn wf(self) -> bool {
        keys_unique(self.entries_seq())
    }

    /// An empty registry.
    pub fn new() -> (r: KeyedBox<T>)
        ensures
            r.wf(),
            r.entries_seq() == Seq::<(u64, T)>::empty(),
    {
        KeyedBox { entries: Vec::new() }
    }

    /// Number of entries.
    pub fn count(&self) -> (n: usize)
        ensures
            n == self.entries_seq().len(),
    {
        self.entries.len()
    }

    /// Bind `key` to `value`, overwriting any entry already under it.
    pub fn insert_entry(&mut self, key: u64, value: T)
        requires
            old(self).wf(),
        ensures
            final (self).wf(),
            seq_find(final (self).entries_seq(), key) == Some(value),
            forall|k2: u64|
                k2 != key ==> #[trigger] seq_find(final (self).entries_seq(), k2) == seq_find(
                    old(self).entries_seq(),
                    k2,
                ),
            final (self).entries_seq().len() == old(self).entries_seq().len() + (if has_key(
                old(self).entries_seq(),
                key,
            ) {
                0int
            } else {
                1int
            }),
            (exists|idx: int|
                0 <= idx < old(self).entries_seq().len() && old(self).entries_seq()[idx].0 == key
                    && final (self).entries_seq() == old(self).entries_seq().update(
                    idx,
                    (key, value),
                )) || final (self).entries_seq() == old(self).entries_seq().push((key, value)),
    {
        let ghost s_old = self.entries@;
        let n = self.entries.len();
        let mut i: usize = 0;
        while i < n
            invariant
                n == self.entries@.len(),
                i <= n,
                self.entries@ == s_old,
                s_old == old(self).entries@,
                keys_unique(s_old),
                forall|k: int| 0 <= k < i ==> (#[trigger] self.entries@[k]).0 != key,
            decreases n - i,
        {
            if self.entries[i].0 == key {
                proof {
                    lemma_seq_find_update(s_old, i as int, (key, value), key);
                    assert(has_key(s_old, key));
                }
                self.entries.set(i, (key, value));
                proof {
                    assert(self.entries@ =~= s_old.update(i as int, (key, value)));
                    assert forall|a: int, b: int|
                        0 <= a < b < self.entries@.len() implies (#[trigger] self.entries@[a]).0
                        != (#[trigger] self.entries@[b]).0 by {
                        assert(self.entries@[a].0 == s_old[a].0);
                        assert(self.entries@[b].0 == s_old[b].0);
                    }
                    assert forall|k2: u64| k2 != key implies #[trigger] seq_find(
                        self.entries@,
                        k2,
                    ) == seq_find(s_old, k2) by {
                        lemma_seq_find_update(s_old, i as int, (key, value), k2);
                    }
                }
                return ;
            }
            i = i + 1;
        }
        proof {
            if has_key(s_old, key) {
                let w = choose|w: int| 0 <= w < s_old.len() && (#[trigger] s_old[w]).0 == key;
                assert(false);
            }
        }
        self.entries.push((key, value));
        proof {
            assert(self.entries@.drop_last() =~= s_old);
            assert(self.entries@.last() == (key, value));
            assert forall|a: int, b: int|
                0 <= a < b < self.entries@.len() implies (#[trigger] self.entries@[a]).0 != (
            #[trigger] self.entries@[b]).0 by {
                if b == s_old.len() {
                    assert(self.entries@[a] == s_old[a]);
                } else {
                    assert(self.entries@[a] == s_old[a]);
                    assert(self.entries@[b] == s_old[b]);
                }
            }
        }
    }

    /// The value under `id`, if the key is bound.
    pub fn get(&self, id: u64) -> (r: Option<&T>)
        requires
            self.wf(),
        ensures
            (match r {
                Some(v) => seq_find(self.entries_seq(), id) == Some(*v),
                None => seq_find(self.entries_seq(), id) is None,
            }),
    {
        let n = self.entries.len();
        let mut i: usize = n;
        proof {
            assert(self.entries@.take(n as int) =~= self.entries@);
        }
        while i > 0
            invariant
                n == self.entries@.len(),
                i <= n,
                seq_find(self.entries@, id) == seq_find(self.entries@.take(i as int), id),
            decreases i,
        {
            i = i - 1;
            if self.entries[i].0 == id {
                proof {
                    assert(self.entries@.take(i as int + 1).last() == self.entries@[i as int]);
                }
                return Some(&self.entries[i].1);
            }
            proof {
                assert(self.entries@.take(i as int + 1).drop_last() =~= self.entries@.take(
                    i as int,
                ));
            }
        }
        proof {
            assert(self.entries@.take(0).len() == 0);
        }
        None
    }

    /// Unbind `id`; a key that is not bound is left as it is.
    pub fn remove(&mut self, id: u64)
        requires
            old(self).wf(),
        ensures
            final (self).wf(),
            seq_find(final (self).entries_seq(), id) is None,
            forall|k2: u64|
                k2 != id ==> #[trigger] seq_find(final (self).entries_seq(), k2) == seq_find(
                    old(self).entries_seq(),
                    k2,
                ),
            final (self).entries_seq().len() == old(self).entries_seq().len() - (if has_key(
                old(self).entries_seq(),
                id,
            ) {
                1int
            } else {
                0int
            }),
    {
        let ghost s_old = self.entries@;
        let n = self.entries.len();
        let mut i: usize = 0;
        while i < n
            invariant
                n == self.entries@.len(),
                i <= n,
                self.entries@ == s_old,
                s_old == old(self).entries@,
                keys_unique(s_old),
                forall|k: int| 0 <= k < i ==> (#[trigger] self.entries@[k]).0 != id,
            decreases n - i,
        {
            if self.entries[i].0 == id {
                proof {
                    assert(has_key(s_old, id));
                    lemma_seq_find_remove(s_old, i as int, id);
                }
                self.entries.remove(i);
                proof {
                    assert(self.entries@ =~= s_old.remove(i as int));
                    assert forall|a: int, b: int|
                        0 <= a < b < self.entries@.len() implies (#[trigger] self.entries@[a]).0
                        != (#[trigger] self.entries@[b]).0 by {
                        if b < i {
                            assert(self.entries@[a] == s_old[a]);
                            assert(self.entries@[b] == s_old[b]);
                        } else if a < i {
                            assert(self.entries@[a] == s_old[a]);
                            assert(self.entries@[b] == s_old[b + 1]);
                        } else {
                            assert(self.entries@[a] == s_old[a + 1]);
                            assert(self.entries@[b] == s_old[b + 1]);
                        }
                    }
                    assert forall|k2: u64| k2 != id implies #[trigger] seq_find(
                        self.entries@,
                        k2,
                    ) == seq_find(s_old, k2) by {
                        lemma_seq_find_remove(s_old, i as int, k2);
                    }
                }
                return ;
            }
            i = i + 1;
        }
        proof {
            lemma_seq_find_has_key(s_old, id);
            if has_key(s_old, id) {
                let w = choose|w: int| 0 <= w < s_old.len() && (#[trigger] s_old[w]).0 == id;
                assert(false);
            }
        }
    }

    /// Read-only access to the entries, oldest first.
    pub fn get_iter(&self) -> (r: &Vec<(u64, T)>)
        ensures
            r@ == self.entries_seq(),
    {
        &self.entries
    }

    /// Mutable access to the entries. A caller that changes keys is on its
    /// own: the registry's invariant speaks of the state it is given back.
    pub fn get_iter_mut(&mut self) -> (r: &mut Vec<(u64, T)>)
        ensures
            r@ == old(self).entries_seq(),
            final (self).entries_seq() == final (r)@,
    {
        &mut self.entries
    }
}

/// The molecule registry.
pub type MoleculesBox = KeyedBox<Molecule>;

impl KeyedBox<Molecule> {
    /// Register one molecule: allocate its physics body (solid circle plus
    /// sensor circle), store the returned handle on the molecule, and bind
    /// it under a fresh random key, which is returned.
    pub fn add_molecule(&mut self, molecule: Molecule, physics_world: &mut World) -> (key: u64)
        requires
            old(self).wf(),
            old(physics_world).wf(),
            in_coord_range(molecule.pos),
            valid_radius(molecule.size as int),
            0 <= molecule.field_range <= RADIUS_LIMIT,
        ensures
            final (self).wf(),
            final (physics_world).wf(),
            count_live(final (physics_world)@) == count_live(old(physics_world)@) + 1,
            forall|hh: RigidBodyHandle|
                valid_handle_v(old(physics_world)@, hh) ==> valid_handle_v(
                    final (physics_world)@,
                    hh,
                ) && final (physics_world)@[hh.index as int] == old(physics_world)@[hh.index
                    as int],
            exists|h: RigidBodyHandle, vel: Vec2i|
                {
                    &&& valid_handle_v(final (physics_world)@, h)
                    &&& final (physics_world)@[h.index as int].body == Some(
                        spec_circle_bodyv(
                            molecule.pos,
                            molecule.size,
                            molecule.field_range,
                            vel,
                        ),
                    )
                    &&& abs_i(vel.x as int) <= MOLECULE_SPEED as int
                    &&& abs_i(vel.y as int) <= MOLECULE_SPEED as int
                    &&& MOLECULE_SPEED * (MOLECULE_SPEED - 100) <= vel.x * vel.x + vel.y * vel.y
                        <= 3 * (MOLECULE_SPEED * MOLECULE_SPEED)
                    &&& (exists|idx: int|
                        0 <= idx < old(self).entries_seq().len() && old(self).entries_seq()[
                            idx
                        ].0 == key && final (self).entries_seq() == old(
                            self,
                        ).entries_seq().update(
                            idx,
                            (key, Molecule { physics_handle: Some(h), ..molecule }),
                        )) || final (self).entries_seq() == old(self).entries_seq().push(
                        (key, Molecule { physics_handle: Some(h), ..molecule }),
                    )
                    &&& seq_find(final (self).entries_seq(), key) == Some(
                        Molecule { physics_handle: Some(h), ..molecule },
                    )
                },
            forall|k2: u64|
                k2 != key ==> #[trigger] seq_find(final (self).entries_seq(), k2) == seq_find(
                    old(self).entries_seq(),
                    k2,
                ),
            final (self).entries_seq().len() == old(self).entries_seq().len() + (if has_key(
                old(self).entries_seq(),
                key,
            ) {
                0int
            } else {
                1int
            }),
            registry_coherent(old(self).entries_seq(), old(physics_world)@) ==> registry_coherent(
                final (self).entries_seq(),
                final (physics_world)@,
            ),
    {
        let key: u64 = random_u64();
        let handle = physics_world.add_circle_body(&molecule.pos, molecule.size,
            molecule.field_range);
        let mut m2 = molecule;
        m2.physics_handle = Some(handle);
        proof {
            assert(m2 == Molecule { physics_handle: Some(handle), ..molecule });
        }
        let ghost entries_pre = self.entries_seq();
        self.insert_entry(key, m2);
        proof {
            if registry_coherent(entries_pre, old(physics_world)@) {
                assert forall|j: int| 0 <= j < self.entries_seq().len() implies match (
                #[trigger] self.entries_seq()[j]).1.physics_handle {
                    Some(hh) => valid_handle_v(physics_world@, hh),
                    None => true,
                } by {
                    if self.entries_seq()[j] == (key, m2) {
                    } else if j < entries_pre.len() && self.entries_seq()[j] == entries_pre[j] {
                    } else {
                    }
                }
            }
        }
        key
    }

    /// Pull every molecule's pose from the Physics World: the per-frame
    /// state refresh. Molecules without a handle, or whose body was
    /// removed, are left untouched.
    pub fn sync_from_physics(&mut self, physics: &mut World)
        requires
            old(self).wf(),
            old(physics).wf(),
        ensures
            final (self).wf(),
            *final (physics) == *old(physics),
            final (self).entries_seq().len() == old(self).entries_seq().len(),
            forall|k: int|
                0 <= k < old(self).entries_seq().len() ==> #[trigger] final (self).entries_seq()[k]
                    == (
                old(self).entries_seq()[k].0,
                spec_synced_molecule(old(self).entries_seq()[k].1, old(physics)@),
                ),
    {
        let ghost s0 = self.entries@;
        let ghost w0 = *physics;
        let n = self.entries.len();
        let mut k: usize = 0;
        while k < n
            invariant
                s0 == old(self).entries@,
                w0 == *old(physics),
                n == s0.len(),
                k <= n,
                keys_unique(s0),
                physics.wf(),
                *physics == w0,
                self.entries@.len() == n,
                forall|m: int|
                    0 <= m < k ==> #[trigger] self.entries@[m] == (
                    s0[m].0,
                    spec_synced_molecule(s0[m].1, w0@),
                    ),
                forall|m: int| k <= m < n ==> #[trigger] self.entries@[m] == s0[m],
            decreases n - k,
        {
            let key = self.entries[k].0;
            let mut molecule = self.entries[k].1;
            molecule.update2(physics);
            let ghost pre = self.entries@;
            self.entries.set(k, (key, molecule));
            proof {
                assert(self.entries@ =~= pre.update(k as int, (key, molecule)));
            }
            k = k + 1;
        }
        proof {
            assert forall|a: int, b: int|
                0 <= a < b < self.entries@.len() implies (#[trigger] self.entries@[a]).0 != (
            #[trigger] self.entries@[b]).0 by {
                assert(self.entries@[a].0 == s0[a].0);
                assert(self.entries@[b].0 == s0[b].0);
            }
        }
    }

    /// Spawn `molecules_num` randomized molecules into the registry and
    /// the Physics World.
    pub fn add_many_molecules(&mut self, molecules_num: usize, physics_world: &mut World)
        requires
            old(self).wf(),
            old(physics_world).wf(),
        ensures
            final (self).wf(),
            final (physics_world).wf(),
            count_live(final (physics_world)@) == count_live(old(physics_world)@)
                + molecules_num,
            old(self).entries_seq().len() <= final (self).entries_seq().len() <= old(
                self,
            ).entries_seq().len() + molecules_num,
            registry_coherent(old(self).entries_seq(), old(physics_world)@) ==> registry_coherent(
                final (self).entries_seq(),
                final (physics_world)@,
            ),
    {
        let mut i: usize = 0;
        while i < molecules_num
            invariant
                i <= molecules_num,
                self.wf(),
                physics_world.wf(),
                count_live(physics_world@) == count_live(old(physics_world)@) + i,
                old(self).entries_seq().len() <= self.entries_seq().len() <= old(
                    self,
                ).entries_seq().len() + i,
                registry_coherent(old(self).entries_seq(), old(physics_world)@)
                    ==> registry_coherent(self.entries_seq(), physics_world@),
            decreases molecules_num - i,
        {
            let molecule = Molecule::new();
            let _ = self.add_molecule(molecule, physics_world);
            i = i + 1;
        }
    }
}

/// The static-element registry.
pub type StaticElementBox = KeyedBox<StaticElement>;

impl KeyedBox<StaticElement> {
    /// Register one static element: allocate its immovable physics box,
    /// store the handle, and bind it under a fresh random key.
    pub fn add_element(&mut self, static_element: StaticElement, physics_world: &mut World) -> (key:
        u64)
        requires
            old(self).wf(),
            old(physics_world).wf(),
            in_coord_range(static_element.pos),
            0 < static_element.width <= RADIUS_LIMIT,
            0 < static_element.height <= RADIUS_LIMIT,
        ensures
            final (self).wf(),
            final (physics_world).wf(),
            count_live(final (physics_world)@) == count_live(old(physics_world)@) + 1,
            forall|hh: RigidBodyHandle|
                valid_handle_v(old(physics_world)@, hh) ==> valid_handle_v(
                    final (physics_world)@,
                    hh,
                ) && final (physics_world)@[hh.index as int] == old(physics_world)@[hh.index
                    as int],
            exists|h: RigidBodyHandle|
                {
                    &&& valid_handle_v(final (physics_world)@, h)
                    &&& final (physics_world)@[h.index as int].body == Some(
                        spec_static_bodyv(
                            static_element.pos,
                            static_element.width,
                            static_element.height,
                        ),
                    )
                    &&& seq_find(final (self).entries_seq(), key) == Some(
                        StaticElement { physics_handle: Some(h), ..static_element },
                    )
                },
            forall|k2: u64|
                k2 != key ==> #[trigger] seq_find(final (self).entries_seq(), k2) == seq_find(
                    old(self).entries_seq(),
                    k2,
                ),
            final (self).entries_seq().len() == old(self).entries_seq().len() + (if has_key(
                old(self).entries_seq(),
                key,
            ) {
                0int
            } else {
                1int
            }),
    {
        let key: u64 = random_u64();
        let handle = physics_world.add_static_body(&static_element.pos, static_element.width,
            static_element.height);
        let mut e2 = static_element;
        e2.physics_handle = Some(handle);
        proof {
            assert(e2 == StaticElement { physics_handle: Some(handle), ..static_element });
        }
        self.insert_entry(key, e2);
        key
    }
}

} // verus!
