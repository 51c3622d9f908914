//! The lightweight actor path: agents that move on their own, with a
//! brute-force all-pairs collision map instead of the full physics
//! pipeline. Quadratic in the number of agents by design — acceptable
//! only for small populations.

use vstd::prelude::*;
use crate::consts::{FP, WORLD_W, WORLD_H, MOLECULE_SPEED, VEL_LIMIT, RADIUS_LIMIT};
use crate::math::{Vec2i, abs_i, sdiv, clamp_i, lemma_mul_bound, lemma_sdiv_bound, div_to_zero,
    clamp64};
use crate::kinetic::{circles_overlap, circles_sep, unit_from_x, unit_from_y,
    valid_radius, contact_circles, Hit, ObjectType,
    CollisionsMap, last_hit};
use crate::util::{random_position, random_rotation, random_unit_vec2, spec_wrap_around,
    wrap_around, WRAP_TOLERANCE};
use crate::particle::{KeyedBox, keys_unique, seq_find};
use crate::rng::random_i64_in;

verus! {

/// A free-moving circular actor.
#[derive(Clone, Copy, PartialEq, Eq, Structural, Debug)]
pub struct Agent {
    pub pos: Vec2i,
    pub rot: i64,
    /// Velocity vector, fixed-point units per second.
    pub vel: Vec2i,
    /// Radius, fixed-point units.
    pub size: i64,
}

/// An agent's state stays in the wrap band around the world rectangle,
/// with bounded speed and a legal radius.
pub open spec fn agent_wf(a: Agent) -> bool {
    &&& -WRAP_TOLERANCE <= a.pos.x <= WORLD_W + WRAP_TOLERANCE
    &&& -WRAP_TOLERANCE <= a.pos.y <= WORLD_H + WRAP_TOLERANCE
    &&& abs_i(a.vel.x as int) <= VEL_LIMIT as int
    &&& abs_i(a.vel.y as int) <= VEL_LIMIT as int
    &&& valid_radius(a.size as int)
}

/// Where an agent is after moving freely for `dt`: one Euler step, then
/// wrap-around at the world edges.
pub open spec fn spec_agent_step(a: Agent, dt: int) -> Agent {
    let nx = (a.pos.x + sdiv(a.vel.x * dt, FP as int)) as i64;
    let ny = (a.pos.y + sdiv(a.vel.y * dt, FP as int)) as i64;
    Agent { pos: spec_wrap_around(Vec2i { x: nx, y: ny }), ..a }
}

/// Where an agent is after taking a hit: pushed back along the contact
/// normal by the (negative) overlap, clamped into the wrap band.
pub open spec fn spec_agent_hit(a: Agent, normal: Vec2i, overlap: int) -> Agent {
    let nx = clamp_i(
        a.pos.x + sdiv(normal.x * overlap, FP as int),
        -WRAP_TOLERANCE as int,
        (WORLD_W + WRAP_TOLERANCE) as int,
    );
    let ny = clamp_i(
        a.pos.y + sdiv(normal.y * overlap, FP as int),
        -WRAP_TOLERANCE as int,
        (WORLD_H + WRAP_TOLERANCE) as int,
    );
    Agent { pos: Vec2i { x: nx as i64, y: ny as i64 }, ..a }
}

impl Agent {
    /// A randomized agent: whole-unit radius, random pose and velocity.
    pub fn new() -> (a: Agent)
        ensures
            agent_wf(a),
    {
        let u = random_unit_vec2();
        proof {
            lemma_mul_bound(u.x as int, MOLECULE_SPEED as int, FP as int, MOLECULE_SPEED as int);
            lemma_mul_bound(u.y as int, MOLECULE_SPEED as int, FP as int, MOLECULE_SPEED as int);
            lemma_sdiv_bound(u.x as int * MOLECULE_SPEED as int, FP as int, MOLECULE_SPEED as int);
            lemma_sdiv_bound(u.y as int * MOLECULE_SPEED as int, FP as int, MOLECULE_SPEED as int);
        }
        let vx = div_to_zero(u.x * MOLECULE_SPEED, FP);
        let vy = div_to_zero(u.y * MOLECULE_SPEED, FP);
        let units = random_i64_in(2, 7);
        Agent {
            pos: random_position(WORLD_W, WORLD_H),
            rot: random_rotation(),
            vel: Vec2i { x: vx, y: vy },
            size: units * FP,
        }
    }

    /// Move freely for `dt`, wrapping around at the world edges.
    pub fn update(&mut self, dt: i64)
        requires
            agent_wf(*old(self)),
            0 <= dt <= FP,
        ensures
            *final (self) == spec_agent_step(*old(self), dt as int),
            agent_wf(*final (self)),
    {
        proof {
            lemma_mul_bound(self.vel.x as int, dt as int, VEL_LIMIT as int, FP as int);
            lemma_mul_bound(self.vel.y as int, dt as int, VEL_LIMIT as int, FP as int);
            lemma_sdiv_bound(self.vel.x as int * dt as int, FP as int, VEL_LIMIT as int);
            lemma_sdiv_bound(self.vel.y as int * dt as int, FP as int, VEL_LIMIT as int);
        }
        let nx = self.pos.x + div_to_zero(self.vel.x * dt, FP);
        let ny = self.pos.y + div_to_zero(self.vel.y * dt, FP);
        self.pos = wrap_around(&Vec2i { x: nx, y: ny });
    }

    /// Take a hit: move back along the contact normal by the (negative)
    /// overlap, staying inside the wrap band.
    pub fn update_collision(&mut self, normal: &Vec2i, overlap: i64, dt: i64)
        requires
            agent_wf(*old(self)),
            abs_i(normal.x as int) <= FP as int,
            abs_i(normal.y as int) <= FP as int,
            -(2 * RADIUS_LIMIT) <= overlap <= 0,
            0 <= dt <= FP,
        ensures
            *final (self) == spec_agent_hit(*old(self), *normal, overlap as int),
            agent_wf(*final (self)),
    {
        proof {
            lemma_mul_bound(normal.x as int, overlap as int, FP as int, 2 * RADIUS_LIMIT);
            lemma_mul_bound(normal.y as int, overlap as int, FP as int, 2 * RADIUS_LIMIT);
            lemma_sdiv_bound(normal.x as int * overlap as int, FP as int, 2 * RADIUS_LIMIT);
            lemma_sdiv_bound(normal.y as int * overlap as int, FP as int, 2 * RADIUS_LIMIT);
        }
        let nx = clamp64(
            self.pos.x + div_to_zero(normal.x * overlap, FP),
            -WRAP_TOLERANCE,
            WORLD_W + WRAP_TOLERANCE,
        );
        let ny = clamp64(
            self.pos.y + div_to_zero(normal.y * overlap, FP),
            -WRAP_TOLERANCE,
            WORLD_H + WRAP_TOLERANCE,
        );
        self.pos = Vec2i { x: nx, y: ny };
    }
}

/// The agent registry.
pub type AgentsBox = KeyedBox<Agent>;

impl KeyedBox<Agent> {
    /// Bind one agent under a fresh random key, which is returned.
    pub fn add_agent(&mut self, agent: Agent) -> (key: u64)
        requires
            old(self).wf(),
        ensures
            final (self).wf(),
            seq_find(final (self).entries_seq(), key) == Some(agent),
            forall|k2: u64|
                k2 != key ==> #[trigger] seq_find(final (self).entries_seq(), k2) == seq_find(
                    old(self).entries_seq(),
                    k2,
                ),
            (exists|idx: int|
                0 <= idx < old(self).entries_seq().len() && old(self).entries_seq()[idx].0 == key
                    && final (self).entries_seq() == old(self).entries_seq().update(
                    idx,
                    (key, agent),
                )) || final (self).entries_seq() == old(self).entries_seq().push((key, agent)),
            final (self).entries_seq().len() <= old(self).entries_seq().len() + 1,
    {
        let key: u64 = crate::rng::random_u64();
        self.insert_entry(key, agent);
        key
    }
}

/// The hit one ordered agent pair records, if the circles overlap: keyed
/// by the first agent, normal pointing from the first toward the second,
/// overlap the negative separation.
pub open spec fn spec_pair_hit(s: Seq<(u64, Agent)>, i: int, j: int) -> Option<(u64, Hit)> {
    if i == j {
        None
    } else {
        let a1 = s[i].1;
        let a2 = s[j].1;
        if circles_overlap(a1.pos, a1.size as int, a2.pos, a2.size as int) {
            Some(
                (
                    s[i].0,
                    Hit {
                        normal: Vec2i {
                            x: unit_from_x(a1.pos, a2.pos) as i64,
                            y: unit_from_y(a1.pos, a2.pos) as i64,
                        },
                        overlap: circles_sep(a1.pos, a1.size as int, a2.pos, a2.size as int) as i64,
                        target_type: ObjectType::Agent,
                    },
                ),
            )
        } else {
            None
        }
    }
}

/// The hits recorded by the ordered pairs `(i, 0) .. (i, j-1)`.
pub open spec fn spec_hits_row(s: Seq<(u64, Agent)>, i: int, j: int) -> Seq<(u64, Hit)>
    decreases j,
{
    if j <= 0 {
        Seq::<(u64, Hit)>::empty()
    } else {
        spec_hits_row(s, i, j - 1) + (match spec_pair_hit(s, i, j - 1) {
            Some(h) => seq![h],
            None => Seq::<(u64, Hit)>::empty(),
        })
    }
}

/// The hits recorded by every ordered pair whose first index is below
/// `i`, in pair order.
pub open spec fn spec_hits_rows(s: Seq<(u64, Agent)>, i: int) -> Seq<(u64, Hit)>
    decreases i,
{
    if i <= 0 {
        Seq::<(u64, Hit)>::empty()
    } else {
        spec_hits_rows(s, i - 1) + spec_hits_row(s, i - 1, s.len() as int)
    }
}

/// Every hit of one frame's collision map, in pair order: later pairs for
/// the same key shadow earlier ones ("last write wins").
pub open spec fn spec_hits_all(s: Seq<(u64, Agent)>) -> Seq<(u64, Hit)> {
    spec_hits_rows(s, s.len() as int)
}

/// Every agent entry is well formed.
pub open spec fn agents_wf(s: Seq<(u64, Agent)>) -> bool {
    forall|i: int| 0 <= i < s.len() ==> agent_wf((#[trigger] s[i]).1)
}

/// Every recorded hit has a component-bounded normal and an overlap in
/// `[-(2 * RADIUS_LIMIT), 0)`.
pub open spec fn hit_bounded(h: Hit) -> bool {
    &&& abs_i(h.normal.x as int) <= FP as int
    &&& abs_i(h.normal.y as int) <= FP as int
    &&& -(2 * RADIUS_LIMIT) <= h.overlap < 0
}

/// A recorded pair hit is bounded.
pub proof fn lemma_pair_hit_bounded(s: Seq<(u64, Agent)>, i: int, j: int)
    requires
        agents_wf(s),
        0 <= i < s.len(),
        0 <= j < s.len(),
    ensures
        spec_pair_hit(s, i, j) matches Some(h) ==> hit_bounded(h.1),
{
    if i != j {
        let a1 = s[i].1;
        let a2 = s[j].1;
        crate::kinetic::lemma_contact_detection(a1.pos, a1.size as int, a2.pos, a2.size as int);
    }
}

/// Every hit in a row is bounded.
pub proof fn lemma_hits_row_bounded(s: Seq<(u64, Agent)>, i: int, j: int)
    requires
        agents_wf(s),
        0 <= i < s.len(),
        j <= s.len(),
    ensures
        forall|k: int| 0 <= k < spec_hits_row(s, i, j).len() ==> hit_bounded(
            (#[trigger] spec_hits_row(s, i, j)[k]).1,
        ),
    decreases j,
{
    if j > 0 {
        lemma_hits_row_bounded(s, i, j - 1);
        lemma_pair_hit_bounded(s, i, j - 1);
        let pre = spec_hits_row(s, i, j - 1);
        let cur = spec_hits_row(s, i, j);
        assert forall|k: int| 0 <= k < cur.len() implies hit_bounded((#[trigger] cur[k]).1) by {
            if k < pre.len() {
                assert(cur[k] == pre[k]);
            } else {
                assert(spec_pair_hit(s, i, j - 1) == Some(cur[k]));
            }
        }
    }
}

/// Every hit in the whole map is bounded.
pub proof fn lemma_hits_rows_bounded(s: Seq<(u64, Agent)>, i: int)
    requires
        agents_wf(s),
        i <= s.len(),
    ensures
        forall|k: int| 0 <= k < spec_hits_rows(s, i).len() ==> hit_bounded(
            (#[trigger] spec_hits_rows(s, i)[k]).1,
        ),
    decreases i,
{
    if i > 0 {
        lemma_hits_rows_bounded(s, i - 1);
        lemma_hits_row_bounded(s, i - 1, s.len() as int);
        let pre = spec_hits_rows(s, i - 1);
        let row = spec_hits_row(s, i - 1, s.len() as int);
        let cur = spec_hits_rows(s, i);
        assert forall|k: int| 0 <= k < cur.len() implies hit_bounded((#[trigger] cur[k]).1) by {
            if k < pre.len() {
                assert(cur[k] == pre[k]);
            } else {
                assert(cur[k] == row[k - pre.len()]);
            }
        }
    }
}

/// A shadowed lookup of a bounded record list is bounded.
pub proof fn lemma_last_hit_bounded(r: Seq<(u64, Hit)>, id: u64)
    requires
        forall|k: int| 0 <= k < r.len() ==> hit_bounded((#[trigger] r[k]).1),
    ensures
        last_hit(r, id) matches Some(h) ==> hit_bounded(h),
    decreases r.len(),
{
    if r.len() > 0 {
        assert(r.drop_last() =~= r.take(r.len() - 1));
        assert(forall|k: int|
            0 <= k < r.drop_last().len() ==> r.drop_last()[k] == #[trigger] r[k]);
        lemma_last_hit_bounded(r.drop_last(), id);
    }
}

/// An agent's pose after one frame of the actor world: move freely, then
/// take the frame's recorded hit, if the collision map holds one for it.
pub open spec fn spec_world_update_agent(s: Seq<(u64, Agent)>, k: int, dt: int) -> Agent {
    let a1 = spec_agent_step(s[k].1, dt);
    match last_hit(spec_hits_all(s), s[k].0) {
        Some(h) => spec_agent_hit(a1, h.normal, h.overlap as int),
        None => a1,
    }
}

/// The actor world: its size, the agents, and the collision map of the
/// most recent frame.
pub struct World {
    pub size: Vec2i,
    pub agents: AgentsBox,
    pub hit_map: CollisionsMap,
}

impl World {
    /// The world's invariant: unique agent keys and well-formed agents.
    pub open spec fn wf(self) -> bool {
        &&& self.agents.wf()
        &&& agents_wf(self.agents.entries_seq())
    }

    /// A world of `agents_num` randomized agents (fewer only in the
    /// astronomically unlikely event of a random key collision) and an
    /// empty collision map.
    pub fn new(world_size: Vec2i, agents_num: usize) -> (w: World)
        ensures
            w.wf(),
            w.size == world_size,
            w.agents.entries_seq().len() <= agents_num,
            agents_num >= 1 ==> w.agents.entries_seq().len() >= 1,
            w.hit_map.records_seq() == Seq::<(u64, Hit)>::empty(),
    {
        let mut agents: AgentsBox = KeyedBox::new();
        let mut i: usize = 0;
        while i < agents_num
            invariant
                i <= agents_num,
                agents.wf(),
                agents_wf(agents.entries_seq()),
                agents.entries_seq().len() <= i,
                i >= 1 ==> agents.entries_seq().len() >= 1,
            decreases agents_num - i,
        {
            let agent = Agent::new();
            let _ = agents.add_agent(agent);
            i = i + 1;
        }
        World { size: world_size, agents, hit_map: CollisionsMap::new() }
    }

    /// The frame's collision map: run the contact check over every
    /// ordered pair of distinct agents and record a hit for each
    /// penetrating one, later pairs overwriting earlier records for the
    /// same key.
    pub fn map_collisions(&self) -> (r: CollisionsMap)
        requires
            self.wf(),
        ensures
            r.records_seq() == spec_hits_all(self.agents.entries_seq()),
    {
        let ghost s = self.agents.entries_seq();
        let mut hits = CollisionsMap::new();
        let entries = self.agents.get_iter();
        let n = entries.len();
        let mut i: usize = 0;
        while i < n
            invariant
                s == self.agents.entries_seq(),
                entries@ == s,
                n == s.len(),
                i <= n,
                agents_wf(s),
                hits.records_seq() == spec_hits_rows(s, i as int),
            decreases n - i,
        {
            let mut j: usize = 0;
            proof {
                assert(hits.records_seq() + spec_hits_row(s, i as int, 0) =~= hits.records_seq());
            }
            while j < n
                invariant
                    s == self.agents.entries_seq(),
                    entries@ == s,
                    n == s.len(),
                    i < n,
                    j <= n,
                    agents_wf(s),
                    hits.records_seq() == spec_hits_rows(s, i as int) + spec_hits_row(
                        s,
                        i as int,
                        j as int,
                    ),
                decreases n - j,
            {
                let ghost r_pre = hits.records_seq();
                if i != j {
                    let a1 = entries[i].1;
                    let a2 = entries[j].1;
                    let idx1 = entries[i].0;
                    proof {
                        assert(agent_wf(s[i as int].1));
                        assert(agent_wf(s[j as int].1));
                    }
                    let contact = contact_circles(a1.pos, a1.rot, a1.size, a2.pos, a2.rot, a2.size);
                    match contact {
                        Some(contact) => {
                            if contact.dist <= 0 {
                                let n2 = Vec2i { x: contact.normal1.x, y: contact.normal1.y };
                                let hit = Hit {
                                    normal: n2,
                                    overlap: contact.dist,
                                    target_type: ObjectType::Agent,
                                };
                                hits.add_collision(idx1, hit);
                                proof {
                                    assert(spec_pair_hit(s, i as int, j as int) == Some(
                                        (idx1, hit),
                                    ));
                                    assert(hits.records_seq() =~= r_pre + seq![(idx1, hit)]);
                                }
                            }
                        },
                        None => {
                            proof {
                                assert(spec_pair_hit(s, i as int, j as int) is None);
                            }
                        },
                    }
                }
                proof {
                    assert(hits.records_seq() =~= spec_hits_rows(s, i as int) + spec_hits_row(
                        s,
                        i as int,
                        j as int + 1,
                    ));
                }
                j = j + 1;
            }
            proof {
                assert(hits.records_seq() =~= spec_hits_rows(s, i as int + 1));
            }
            i = i + 1;
        }
        hits
    }

    /// One frame of the actor world: rebuild the collision map from the
    /// current poses, then move every agent and apply its recorded hit.
    pub fn update(&mut self, dt: i64)
        requires
            old(self).wf(),
            0 <= dt <= FP,
        ensures
            final (self).wf(),
            final (self).size == old(self).size,
            final (self).hit_map.records_seq() == spec_hits_all(old(self).agents.entries_seq()),
            final (self).agents.entries_seq().len() == old(self).agents.entries_seq().len(),
            forall|k: int|
                0 <= k < old(self).agents.entries_seq().len()
                    ==> #[trigger] final (self).agents.entries_seq()[k] == (
                old(self).agents.entries_seq()[k].0,
                spec_world_update_agent(old(self).agents.entries_seq(), k, dt as int),
                ),
    {
        let ghost s0 = self.agents.entries_seq();
        let hits = self.map_collisions();
        self.hit_map = hits;
        proof {
            lemma_hits_rows_bounded(s0, s0.len() as int);
        }
        let n = self.agents.count();
        let mut k: usize = 0;
        while k < n
            invariant
                s0 == old(self).agents.entries_seq(),
                n == s0.len(),
                k <= n,
                agents_wf(s0),
                keys_unique(s0),
                0 <= dt <= FP,
                self.size == old(self).size,
                self.hit_map.records_seq() == spec_hits_all(s0),
                forall|m: int|
                    0 <= m < spec_hits_all(s0).len() ==> hit_bounded(
                        (#[trigger] spec_hits_all(s0)[m]).1,
                    ),
                self.agents.entries_seq().len() == n,
                forall|m: int|
                    0 <= m < k ==> #[trigger] self.agents.entries_seq()[m] == (
                    s0[m].0,
                    spec_world_update_agent(s0, m, dt as int),
                    ),
                forall|m: int| k <= m < n ==> #[trigger] self.agents.entries_seq()[m] == s0[m],
            decreases n - k,
        {
            let entries = self.agents.get_iter_mut();
            let key = entries[k].0;
            let mut agent = entries[k].1;
            proof {
                assert(agent == s0[k as int].1);
                assert(agent_wf(agent));
            }
            agent.update(dt);
            let hit_opt = self.hit_map.get_collision(key);
            match hit_opt {
                Some(hit) => {
                    proof {
                        lemma_last_hit_bounded(spec_hits_all(s0), key);
                    }
                    agent.update_collision(&hit.normal, hit.overlap, dt);
                },
                None => {},
            }
            let ghost pre = entries@;
            entries.set(k, (key, agent));
            proof {
                assert(self.agents.entries_seq() =~= pre.update(k as int, (key, agent)));
                assert forall|a: int, b: int|
                    0 <= a < b < self.agents.entries_seq().len() implies (
                #[trigger] self.agents.entries_seq()[a]).0 != (
                #[trigger] self.agents.entries_seq()[b]).0 by {
                    assert(self.agents.entries_seq()[a].0 == s0[a].0);
                    assert(self.agents.entries_seq()[b].0 == s0[b].0);
                }
            }
            k = k + 1;
        }
    }
}

} // verus!
