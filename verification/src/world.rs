//! The arena: the entity store and the step that advances it by one frame.

use vstd::prelude::*;

use crate::entity::{
    collide_entities, collided, converts, moved, nudged, on_screen, pursue, reacted, reflected,
    thing_forces, turned, walls_ok, within_walls, Entity, Policy, FORCE_MAX, HALF_DIM,
};
use crate::fixed::Vec2;
use crate::kind::Kind;
use crate::revolvingrandom::{cursor_after, ranged, sample_at, samples_ok, RevolvingRandom};
use crate::rng::uniform;

verus! {

/// The largest displacement that jitter adds along an axis in a frame: 0.025.
pub const JITTER: i64 = 25_000;

/// The number of entities in a fresh world.
pub const POPULATION: usize = 50;

/// The jitter that the `n`-th draw gives, from a jitter source of the given
/// samples with its cursor at `cursor`.
pub open spec fn jitter_at(samples: Seq<i64>, cursor: int, n: nat) -> i64 {
    ranged(sample_at(samples, cursor, n) as int, -JITTER as int, JITTER as int) as i64
}

/// Entity `i` of the store after `micros` microseconds of movement and its
/// two draws of jitter, the first along x and the second along y.
pub open spec fn shaken(e: Entity, micros: u64, samples: Seq<i64>, cursor: int, i: int) -> Entity {
    nudged(
        moved(e, micros),
        jitter_at(samples, cursor, (2 * i) as nat),
        jitter_at(samples, cursor, (2 * i + 1) as nat),
    )
}

/// The store after integration: every entity moved and shaken, in order.
pub open spec fn integrated(things: Seq<Entity>, micros: u64, samples: Seq<i64>, cursor: int) -> Seq<
    Entity,
> {
    Seq::new(things.len(), |i: int| shaken(things[i], micros, samples, cursor, i))
}

/// The store after every entity was reflected off the walls.
pub open spec fn walled(things: Seq<Entity>, walls: Vec2) -> Seq<Entity> {
    Seq::new(things.len(), |i: int| reflected(things[i], walls))
}

/// The store after every entity turned round.
pub open spec fn all_turned(things: Seq<Entity>) -> Seq<Entity> {
    Seq::new(things.len(), |i: int| turned(things[i]))
}

/// Whether every entity of the store is of kind `k`.
pub open spec fn all_of_kind(things: Seq<Entity>, k: Kind) -> bool {
    forall|i: int| 0 <= i < things.len() ==> (#[trigger] things[i]).kind == k
}

/// Whether every entity of the store has its footprint between the walls.
pub open spec fn all_within(things: Seq<Entity>, walls: Vec2) -> bool {
    forall|i: int| 0 <= i < things.len() ==> within_walls((#[trigger] things[i]).position, walls)
}

/// Whether no entity of the store is faster than `FORCE_MAX`.
pub open spec fn all_capped(things: Seq<Entity>) -> bool {
    forall|i: int|
        0 <= i < things.len() ==> (#[trigger] things[i]).velocity.length_sq() <= FORCE_MAX
            * FORCE_MAX
}

/// Whether every entity of the store is representable.
pub open spec fn all_wf(things: Seq<Entity>) -> bool {
    forall|i: int| 0 <= i < things.len() ==> (#[trigger] things[i]).wf()
}

/// The test that an entity passes to stay in a draining store.
pub open spec fn stays(walls: Vec2) -> spec_fn(Entity) -> bool {
    |e: Entity| on_screen(e.position, walls)
}

/// The test that an entity passes to leave a draining store.
pub open spec fn leaves(walls: Vec2) -> spec_fn(Entity) -> bool {
    |e: Entity| !on_screen(e.position, walls)
}

/// The store after draining: the entities still on screen, in order.
pub open spec fn drained(things: Seq<Entity>, walls: Vec2) -> Seq<Entity> {
    things.filter(stays(walls))
}

/// The time between two readings of the clock; none where the clock went
/// backwards.
pub open spec fn elapsed(earlier: u64, now: u64) -> u64 {
    if now >= earlier {
        (now - earlier) as u64
    } else {
        0
    }
}

/// The state of one entity's scan of the others.
pub struct Scan {
    /// The entity that scans.
    pub thing: Entity,
    /// The others, those already met as the encounter left them.
    pub rest: Seq<Entity>,
    /// Whether any encounter so far converted an entity.
    pub hit: bool,
}

/// The scan of `thing` after it met the first `n` of `rest`, one after the
/// other, each encounter seeing what the earlier ones left.
pub open spec fn scanned(thing: Entity, rest: Seq<Entity>, n: nat) -> Scan
    decreases n,
{
    if n == 0 {
        Scan { thing, rest, hit: false }
    } else {
        let before = scanned(thing, rest, (n - 1) as nat);
        let pair = collided(before.thing, before.rest[n - 1]);
        Scan {
            thing: pair.0,
            rest: before.rest.update(n - 1, pair.1),
            hit: before.hit || converts(before.thing, before.rest[n - 1]),
        }
    }
}

/// The state of a resolver pass.
pub struct Pass {
    /// The entities that have not had their turn, the next one last.
    pub pending: Seq<Entity>,
    /// The entities that have had their turn, in the order of their turns.
    pub seen: Seq<Entity>,
    /// Whether any encounter so far converted an entity.
    pub did_collide: bool,
    /// The kind of the entity that had its turn last.
    pub last_kind: Kind,
}

/// One turn of a pass: the last pending entity meets all the other pending
/// ones, reacts to every other entity by the policy, and joins the seen
/// ones.
pub open spec fn turn(p: Pass, policy: Policy) -> Pass {
    if p.pending.len() == 0 {
        p
    } else {
        let s = scanned(p.pending.last(), p.pending.drop_last(), (p.pending.len() - 1) as nat);
        let thing = reacted(policy, s.thing, s.rest + p.seen);
        Pass {
            pending: s.rest,
            seen: p.seen.push(thing),
            did_collide: p.did_collide || s.hit,
            last_kind: thing.kind,
        }
    }
}

/// A pass over `things` after `k` turns.
pub open spec fn turns(things: Seq<Entity>, policy: Policy, k: nat) -> Pass
    decreases k,
{
    if k == 0 {
        Pass { pending: things, seen: Seq::empty(), did_collide: false, last_kind: Kind::Paper }
    } else {
        turn(turns(things, policy, (k - 1) as nat), policy)
    }
}

/// A whole pass over `things`: every entity has had its turn.
pub open spec fn resolved(things: Seq<Entity>, policy: Policy) -> Pass {
    turns(things, policy, things.len())
}

/// Whether a pass over `things` ends the active phase: an entity was
/// converted in it and it left all entities of one kind.
pub open spec fn takes_over(things: Seq<Entity>, policy: Policy) -> bool {
    resolved(things, policy).did_collide && all_of_kind(
        resolved(things, policy).seen,
        resolved(things, policy).last_kind,
    )
}

/// The store after a pass over `things` in a world that was homogeneous
/// or not: the entities in the order of their turns, all turned round where
/// the pass ends the active phase.
pub open spec fn settled(things: Seq<Entity>, policy: Policy, was_homogeneous: bool) -> Seq<
    Entity,
> {
    if takes_over(things, policy) && !was_homogeneous {
        all_turned(resolved(things, policy).seen)
    } else {
        resolved(things, policy).seen
    }
}

/// What a world is: the entity store, the clock reading of the previous
/// frame, the jitter source and the phase.
pub struct Frame {
    /// The entity store.
    pub entities: Seq<Entity>,
    /// The clock reading of the previous frame, in microseconds.
    pub baseline: Option<u64>,
    /// The samples of the jitter source.
    pub samples: Seq<i64>,
    /// The cursor of the jitter source.
    pub cursor: int,
    /// Whether one kind has taken over: the world is draining.
    pub homogeneous: bool,
    /// Whether the world has drained.
    pub finished: bool,
    /// The distance of the walls from the centre, per axis.
    pub walls: Vec2,
    /// How an entity reacts to the others.
    pub policy: Policy,
}

impl Frame {
    /// The walls leave room, the jitter source is sound and every entity
    /// is representable.
    pub open spec fn wf(self) -> bool {
        &&& walls_ok(self.walls)
        &&& samples_ok(self.samples, self.cursor)
        &&& all_wf(self.entities)
    }

    /// Whether the next frame advances the world: it is not finished and has
    /// a clock reading to measure from.
    pub open spec fn steps(self) -> bool {
        !self.finished && self.baseline.is_some()
    }
}

/// The world one frame on, at clock reading `now`. A finished world stays
/// as it is. The first frame only records the clock. Every later frame
/// integrates over the time since the one before; an active world then
/// reflects off the walls and runs a resolver pass, a homogeneous one
/// drains, and is finished once the store is empty.
pub open spec fn step(s: Frame, now: u64) -> Frame {
    if s.finished {
        s
    } else if s.baseline.is_none() {
        Frame { baseline: Some(now), ..s }
    } else {
        let micros = elapsed(s.baseline.unwrap(), now);
        let after = integrated(s.entities, micros, s.samples, s.cursor);
        let cursor = cursor_after(s.cursor, (2 * s.entities.len()) as nat);
        if s.homogeneous {
            let left = drained(after, s.walls);
            Frame { entities: left, baseline: Some(now), cursor, finished: left.len() == 0, ..s }
        } else {
            let bounced = walled(after, s.walls);
            Frame {
                entities: settled(bounced, s.policy, false),
                baseline: Some(now),
                cursor,
                homogeneous: takes_over(bounced, s.policy),
                ..s
            }
        }
    }
}

/// The world after the frames at the first `n` of the clock readings `nows`.
pub open spec fn run(s: Frame, nows: Seq<u64>, n: nat) -> Frame
    decreases n,
{
    if n == 0 {
        s
    } else {
        step(run(s, nows, (n - 1) as nat), nows[n - 1])
    }
}

/// The simulation: the entity store, the jitter source, the clock reading
/// of the previous frame and the phase.
pub struct World {
    things: Vec<Entity>,
    earlier: Option<u64>,
    revolve: RevolvingRandom,
    homo: bool,
    done: bool,
    walls: Vec2,
    policy: Policy,
}

impl View for World {
    type V = Frame;

    closed spec fn view(&self) -> Frame {
        Frame {
            entities: self.things@,
            baseline: self.earlier,
            samples: self.revolve.samples(),
            cursor: self.revolve.cursor(),
            homogeneous: self.homo,
            finished: self.done,
            walls: self.walls,
            policy: self.policy,
        }
    }
}

impl World {
    /// The entity store.
    pub open spec fn entities(&self) -> Seq<Entity> {
        self@.entities
    }

    /// The clock reading of the previous frame, in microseconds.
    pub open spec fn baseline(&self) -> Option<u64> {
        self@.baseline
    }

    /// Whether one kind has taken over: the world is draining.
    pub open spec fn homogeneous(&self) -> bool {
        self@.homogeneous
    }

    /// Whether the world has drained.
    pub open spec fn finished(&self) -> bool {
        self@.finished
    }

    /// The distance of the walls from the centre, per axis.
    pub open spec fn half_extent(&self) -> Vec2 {
        self@.walls
    }

    /// The world is sound.
    pub open spec fn wf(&self) -> bool {
        self@.wf()
    }

    /// Everything but the entity store and the phase is as in `other`.
    pub open spec fn same_frame(&self, other: &World) -> bool {
        &&& self@.baseline == other@.baseline
        &&& self@.samples == other@.samples
        &&& self@.cursor == other@.cursor
        &&& self@.finished == other@.finished
        &&& self@.walls == other@.walls
        &&& self@.policy == other@.policy
    }

    /// A world of the given entities; `None` where the walls leave no room
    /// for a footprint or an entity is not representable.
    pub fn from_parts(things: Vec<Entity>, revolve: RevolvingRandom, walls: Vec2) -> (w: Option<
        World,
    >)
        requires
            revolve.wf(),
        ensures
            w.is_some() <==> walls_ok(walls) && all_wf(things@),
            w.is_some() ==> {
                &&& w.unwrap().wf()
                &&& w.unwrap().entities() == things@
                &&& w.unwrap()@.samples == revolve.samples()
                &&& w.unwrap()@.cursor == revolve.cursor()
                &&& w.unwrap().half_extent() == walls
                &&& w.unwrap()@.policy == Policy::Flocking
                &&& w.unwrap().baseline().is_none()
                &&& !w.unwrap().homogeneous()
                &&& !w.unwrap().finished()
            },
    {
        let limit: i64 = crate::fixed::COORD_MAX;
        if walls.x <= HALF_DIM || walls.x > limit - HALF_DIM || walls.y <= HALF_DIM || walls.y
            > limit - HALF_DIM {
            return None;
        }
        let mut i: usize = 0;
        while i < things.len()
            invariant
                i <= things@.len(),
                limit == crate::fixed::COORD_MAX,
                forall|j: int| 0 <= j < i ==> (#[trigger] things@[j]).wf(),
            decreases things@.len() - i,
        {
            let e: Entity = things[i];
            if e.position.x < -limit || e.position.x > limit || e.position.y < -limit
                || e.position.y > limit || e.velocity.x < -limit || e.velocity.x > limit
                || e.velocity.y < -limit || e.velocity.y > limit {
                return None;
            }
            i += 1;
        }
        Some(
            World {
                things,
                earlier: None,
                revolve,
                homo: false,
                done: false,
                walls,
                policy: Policy::Flocking,
            },
        )
    }

    /// A point drawn uniformly from where a footprint fits between the
    /// walls.
    pub fn random_position(walls: Vec2) -> (p: Vec2)
        requires
            walls_ok(walls),
        ensures
            -(walls.x - HALF_DIM) <= p.x < walls.x - HALF_DIM,
            -(walls.y - HALF_DIM) <= p.y < walls.y - HALF_DIM,
            within_walls(p, walls),
            p.wf(),
    {
        let mx: i64 = walls.x - HALF_DIM;
        let my: i64 = walls.y - HALF_DIM;
        let x: i64 = uniform(-mx, mx);
        let y: i64 = uniform(-my, my);
        Vec2 { x, y }
    }

    /// A fresh world between the given walls: `POPULATION` entities at rest,
    /// each of a random kind at a random position between the walls, a
    /// fresh jitter source, no clock reading yet, active.
    pub fn new(walls: Vec2) -> (w: World)
        requires
            walls_ok(walls),
        ensures
            w.wf(),
            w.half_extent() == walls,
            w@.policy == Policy::Flocking,
            w.entities().len() == POPULATION,
            all_within(w.entities(), walls),
            forall|i: int|
                0 <= i < w.entities().len() ==> (#[trigger] w.entities()[i]).velocity == (Vec2 {
                    x: 0,
                    y: 0,
                }),
            w@.cursor == 0,
            w.baseline().is_none(),
            !w.homogeneous(),
            !w.finished(),
    {
        let mut things: Vec<Entity> = Vec::new();
        while things.len() < POPULATION
            invariant
                things@.len() <= POPULATION,
                walls_ok(walls),
                all_wf(things@),
                all_within(things@, walls),
                forall|i: int|
                    0 <= i < things@.len() ==> (#[trigger] things@[i]).velocity == (Vec2 {
                        x: 0,
                        y: 0,
                    }),
            decreases POPULATION - things@.len(),
        {
            let position: Vec2 = World::random_position(walls);
            let kind_idx: i64 = uniform(0, 3);
            let kind: Kind = Kind::from_index(kind_idx as u32);
            things.push(Entity { kind, position, velocity: Vec2::zero() });
        }
        World {
            things,
            earlier: None,
            revolve: RevolvingRandom::new(),
            homo: false,
            done: false,
            walls,
            policy: Policy::Flocking,
        }
    }

    /// The same world under another policy.
    pub fn with_policy(self, policy: Policy) -> (w: World)
        ensures
            w@ == (Frame { policy, ..self@ }),
    {
        World {
            things: self.things,
            earlier: self.earlier,
            revolve: self.revolve,
            homo: self.homo,
            done: self.done,
            walls: self.walls,
            policy,
        }
    }

    /// The entity store.
    pub fn things(&self) -> (r: &Vec<Entity>)
        ensures
            r@ == self.entities(),
    {
        &self.things
    }

    /// The distance of the walls from the centre, per axis.
    pub fn walls(&self) -> (r: Vec2)
        ensures
            r == self.half_extent(),
    {
        self.walls
    }

    /// How the entities react to each other.
    pub fn policy(&self) -> (r: Policy)
        ensures
            r == self@.policy,
    {
        self.policy
    }

    /// Whether one kind has taken over.
    pub fn is_homogeneous(&self) -> (r: bool)
        ensures
            r == self.homogeneous(),
    {
        self.homo
    }

    /// Whether the world has drained.
    pub fn is_done(&self) -> (r: bool)
        ensures
            r == self.finished(),
    {
        self.done
    }

    /// Reflects every entity off the walls.
    pub fn collide_walls(&mut self)
        requires
            old(self).wf(),
        ensures
            final(self).entities() == walled(old(self).entities(), old(self).half_extent()),
            final(self).same_frame(old(self)),
            final(self).homogeneous() == old(self).homogeneous(),
            final(self).wf(),
            all_within(final(self).entities(), final(self).half_extent()),
    {
        let ghost start = self.things@;
        let ghost pre = *self;
        let n: usize = self.things.len();
        let mut i: usize = 0;
        while i < n
            invariant
                i <= n,
                n == start.len(),
                self.things@.len() == n,
                self.earlier == pre.earlier,
                self.revolve == pre.revolve,
                self.homo == pre.homo,
                self.done == pre.done,
                self.walls == pre.walls,
                self.policy == pre.policy,
                walls_ok(self.walls),
                all_wf(start),
                forall|j: int| 0 <= j < i ==> #[trigger] self.things@[j] == reflected(start[j], self.walls),
                forall|j: int| i <= j < n ==> #[trigger] self.things@[j] == start[j],
            decreases n - i,
        {
            let e: Entity = self.things[i].reflect(self.walls);
            self.things.set(i, e);
            i += 1;
        }
        assert(self.things@ =~= walled(start, self.walls));
    }
    /// Moves every entity by its velocity over `micros` microseconds and
    /// shakes it by two draws of jitter, one per axis.
    pub fn integrate(&mut self, micros: u64)
        requires
            old(self).wf(),
        ensures
            final(self).entities() == integrated(
                old(self).entities(),
                micros,
                old(self)@.samples,
                old(self)@.cursor,
            ),
            final(self)@.samples == old(self)@.samples,
            final(self)@.cursor == cursor_after(
                old(self)@.cursor,
                (2 * old(self).entities().len()) as nat,
            ),
            final(self).baseline() == old(self).baseline(),
            final(self).homogeneous() == old(self).homogeneous(),
            final(self).finished() == old(self).finished(),
            final(self).half_extent() == old(self).half_extent(),
            final(self)@.policy == old(self)@.policy,
            final(self).wf(),
    {
        let ghost start = self.things@;
        let ghost pre = *self;
        let n: usize = self.things.len();
        let mut i: usize = 0;
        while i < n
            invariant
                i <= n,
                n == start.len(),
                self.things@.len() == n,
                self.earlier == pre.earlier,
                self.homo == pre.homo,
                self.done == pre.done,
                self.walls == pre.walls,
                self.policy == pre.policy,
                self.revolve.wf(),
                self.revolve.samples() == pre.revolve.samples(),
                self.revolve.cursor() == cursor_after(pre.revolve.cursor(), (2 * i) as nat),
                all_wf(start),
                forall|j: int|
                    0 <= j < i ==> #[trigger] self.things@[j] == shaken(
                        start[j],
                        micros,
                        pre.revolve.samples(),
                        pre.revolve.cursor(),
                        j,
                    ),
                forall|j: int| 0 <= j < i ==> (#[trigger] self.things@[j]).wf(),
                forall|j: int| i <= j < n ==> #[trigger] self.things@[j] == start[j],
            decreases n - i,
        {
            let e: Entity = self.things[i].advance(micros);
            let jx: i64 = self.revolve.range(-JITTER, JITTER);
            let jy: i64 = self.revolve.range(-JITTER, JITTER);
            assert(jx == jitter_at(pre.revolve.samples(), pre.revolve.cursor(), (2 * i) as nat));
            assert(jy == jitter_at(
                pre.revolve.samples(),
                pre.revolve.cursor(),
                (2 * i + 1) as nat,
            ));
            let e: Entity = e.nudge(jx, jy);
            self.things.set(i, e);
            i += 1;
        }
        assert(self.things@ =~= integrated(
            start,
            micros,
            pre.revolve.samples(),
            pre.revolve.cursor(),
        ));
    }

    /// Removes the entities that are beyond the walls by more than half a
    /// footprint; an entity on that bound stays. Returns how many were removed.
    pub fn kill_offscreen_things(&mut self) -> (removed: usize)
        requires
            old(self).wf(),
        ensures
            final(self).entities() == drained(old(self).entities(), old(self).half_extent()),
            removed == old(self).entities().len() - final(self).entities().len(),
            final(self).same_frame(old(self)),
            final(self).homogeneous() == old(self).homogeneous(),
            final(self).wf(),
    {
        let ghost start = self.things@;
        let n: usize = self.things.len();
        let mut kept: Vec<Entity> = Vec::new();
        let mut i: usize = 0;
        proof {
            reveal(Seq::filter);
            assert(start.take(0).filter(stays(self.walls)) =~= Seq::<Entity>::empty());
        }
        while i < n
            invariant
                i <= n,
                n == start.len(),
                self.things@ == start,
                walls_ok(self.walls),
                all_wf(start),
                all_wf(kept@),
                kept@.len() <= i,
                kept@ == start.take(i as int).filter(stays(self.walls)),
            decreases n - i,
        {
            let e: Entity = self.things[i];
            proof {
                assert(start.take(i + 1) =~= start.take(i as int).push(e));
                Seq::lemma_filter_push(start.take(i as int), e, stays(self.walls));
            }
            if e.is_on_screen(self.walls) {
                kept.push(e);
            }
            i += 1;
        }
        assert(start.take(n as int) =~= start);
        let removed: usize = n - kept.len();
        self.things = kept;
        removed
    }

    /// One resolver pass. Each entity in turn, from the end of the store,
    /// meets every entity that has not had its turn, converting or being
    /// converted on contact, and then reacts to all the others by the policy.
    /// Where an entity was converted and all entities are left of one kind,
    /// the world turns homogeneous and every entity turns round. The store
    /// ends in the order of the turns. Returns whether any entity was
    /// converted.
    pub fn tick_entities(&mut self) -> (did_collide: bool)
        requires
            old(self).wf(),
        ensures
            did_collide == resolved(old(self).entities(), old(self)@.policy).did_collide,
            final(self).entities() == settled(
                old(self).entities(),
                old(self)@.policy,
                old(self).homogeneous(),
            ),
            final(self).homogeneous() == (old(self).homogeneous() || takes_over(
                old(self).entities(),
                old(self)@.policy,
            )),
            final(self).same_frame(old(self)),
            final(self).wf(),
            final(self).entities().len() == old(self).entities().len(),
            all_within(old(self).entities(), old(self).half_extent()) ==> all_within(
                final(self).entities(),
                final(self).half_extent(),
            ),
            old(self)@.policy == Policy::Flocking ==> all_capped(final(self).entities()),
    {
        let ghost start = self.things@;
        let ghost pre = *self;
        let ghost mut k: nat = 0;
        let mut did_collide: bool = false;
        let mut last_kind: Kind = Kind::Paper;
        let mut seen: Vec<Entity> = Vec::new();
        while self.things.len() > 0
            invariant
                self.earlier == pre.earlier,
                self.revolve == pre.revolve,
                self.homo == pre.homo,
                self.done == pre.done,
                self.walls == pre.walls,
                self.policy == pre.policy,
                k + self.things@.len() == start.len(),
                seen@.len() == k,
                turns(start, self.policy, k) == (Pass {
                    pending: self.things@,
                    seen: seen@,
                    did_collide,
                    last_kind,
                }),
                all_wf(self.things@),
                all_wf(seen@),
                all_within(start, self.walls) ==> all_within(self.things@, self.walls)
                    && all_within(seen@, self.walls),
                self.policy == Policy::Flocking ==> all_capped(seen@),
            decreases self.things@.len(),
        {
            let ghost before = self.things@;
            let mut thing: Entity = self.things.pop().unwrap();
            let ghost first = thing;
            let ghost rest = self.things@;
            assert(rest == before.drop_last());
            let m: usize = self.things.len();
            let mut hit: bool = false;
            let mut i: usize = 0;
            while i < m
                invariant
                    i <= m,
                    m == rest.len(),
                    self.things@.len() == m,
                    self.earlier == pre.earlier,
                    self.revolve == pre.revolve,
                    self.homo == pre.homo,
                    self.done == pre.done,
                    self.walls == pre.walls,
                    self.policy == pre.policy,
                    scanned(first, rest, i as nat) == (Scan { thing, rest: self.things@, hit }),
                    all_wf(self.things@),
                    thing.wf(),
                    thing.position == first.position,
                    all_within(rest, self.walls) ==> all_within(self.things@, self.walls),
                decreases m - i,
            {
                let mut other: Entity = self.things[i];
                if collide_entities(&mut thing, &mut other) {
                    hit = true;
                }
                self.things.set(i, other);
                i += 1;
            }
            if hit {
                did_collide = true;
            }
            match self.policy {
                Policy::Flocking => thing_forces(&mut thing, &self.things, &seen),
                Policy::Pursuit => pursue(&mut thing, &self.things, &seen),
            }
            last_kind = thing.kind;
            seen.push(thing);
            proof {
                k = k + 1;
            }
        }
        assert(self.things@ =~= Seq::<Entity>::empty());
        self.things = seen;
        if did_collide {
            let mut homo: bool = true;
            let mut i: usize = 0;
            while i < self.things.len()
                invariant
                    i <= self.things@.len(),
                    self.earlier == pre.earlier,
                    self.revolve == pre.revolve,
                    self.homo == pre.homo,
                    self.done == pre.done,
                    self.walls == pre.walls,
                    self.policy == pre.policy,
                    self.things@ == resolved(start, self.policy).seen,
                    self.policy == Policy::Flocking ==> all_capped(self.things@),
                    homo == forall|j: int| 0 <= j < i ==> (#[trigger] self.things@[j]).kind == last_kind,
                decreases self.things@.len() - i,
            {
                if self.things[i].kind != last_kind {
                    homo = false;
                }
                i += 1;
            }
            if homo && !self.homo {
                self.homo = homo;
                let ghost all = self.things@;
                let n: usize = self.things.len();
                let mut i: usize = 0;
                while i < n
                    invariant
                        i <= n,
                        n == all.len(),
                        self.things@.len() == n,
                        self.earlier == pre.earlier,
                        self.revolve == pre.revolve,
                        self.homo,
                        self.done == pre.done,
                        self.walls == pre.walls,
                        self.policy == pre.policy,
                        all_wf(all),
                        self.policy == Policy::Flocking ==> all_capped(all),
                        forall|j: int| 0 <= j < i ==> #[trigger] self.things@[j] == turned(all[j]),
                        forall|j: int| i <= j < n ==> #[trigger] self.things@[j] == all[j],
                    decreases n - i,
                {
                    let e: Entity = self.things[i].turn();
                    self.things.set(i, e);
                    i += 1;
                }
                assert(self.things@ =~= all_turned(all));
                assert forall|j: int| 0 <= j < n implies (#[trigger] self.things@[j]).velocity.length_sq()
                    == all[j].velocity.length_sq() by {
                    lemma_turned_keeps_speed(all[j]);
                }
            }
        }
        did_collide
    }

    /// One frame at clock reading `now`, in microseconds. A finished world
    /// stays as it is. The first frame only records the clock. Every later
    /// frame integrates over the time since the one before; an active
    /// world then reflects off the walls and runs a resolver pass, a
    /// homogeneous one drains, and is finished once the store is empty.
    pub fn tick(&mut self, now: u64)
        requires
            old(self).wf(),
        ensures
            final(self)@ == step(old(self)@, now),
            final(self).wf(),
            old(self)@.steps() && !old(self).homogeneous() ==> all_within(
                final(self).entities(),
                final(self).half_extent(),
            ),
            old(self)@.steps() && !old(self).homogeneous() && old(self)@.policy == Policy::Flocking
                ==> all_capped(final(self).entities()),
    {
        if self.done {
            return ;
        }
        let micros: u64 = match self.earlier {
            None => {
                self.earlier = Some(now);
                return ;
            },
            Some(earlier) => {
                self.earlier = Some(now);
                if now >= earlier {
                    now - earlier
                } else {
                    0
                }
            },
        };
        self.integrate(micros);
        if !self.homo {
            self.collide_walls();
            self.tick_entities();
        } else {
            self.kill_offscreen_things();
            if self.things.len() == 0 {
                self.done = true;
            }
        }
    }
}

/// Turning round keeps the speed.
pub proof fn lemma_turned_keeps_speed(e: Entity)
    requires
        e.wf(),
    ensures
        turned(e).velocity.length_sq() == e.velocity.length_sq(),
        turned(e).wf(),
{
    let x = e.velocity.x as int;
    let y = e.velocity.y as int;
    assert((-x) * (-x) + (-y) * (-y) == x * x + y * y) by (nonlinear_arith);
}

/// A scan changes kinds only: the scanning entity and every other keep
/// their place and their movement.
pub proof fn lemma_scan_keeps_motion(thing: Entity, rest: Seq<Entity>, n: nat)
    requires
        n <= rest.len(),
    ensures
        scanned(thing, rest, n).rest.len() == rest.len(),
        scanned(thing, rest, n).thing.position == thing.position,
        scanned(thing, rest, n).thing.velocity == thing.velocity,
        forall|i: int|
            0 <= i < rest.len() ==> (#[trigger] scanned(thing, rest, n).rest[i]).position
                == rest[i].position && scanned(thing, rest, n).rest[i].velocity == rest[i].velocity,
    decreases n,
{
    if n > 0 {
        lemma_scan_keeps_motion(thing, rest, (n - 1) as nat);
    }
}

/// Reacting to the others changes the movement only, and leaves it
/// representable; under the flocking policy it leaves it under the cap.
pub proof fn lemma_reaction_sound(policy: Policy, us: Entity, others: Seq<Entity>)
    requires
        us.wf(),
    ensures
        reacted(policy, us, others).kind == us.kind,
        reacted(policy, us, others).position == us.position,
        reacted(policy, us, others).wf(),
        policy == Policy::Flocking ==> reacted(policy, us, others).velocity.length_sq() <= FORCE_MAX
            * FORCE_MAX,
{
    match policy {
        Policy::Flocking => {
            let f = crate::entity::force_sum(us, others, others.len());
            let step = crate::entity::force_step(f.0, f.1);
            let vx = crate::fixed::clamp_coord(us.velocity.x + step.0);
            let vy = crate::fixed::clamp_coord(us.velocity.y + step.1);
            crate::entity::lemma_capped_bound(vx, vy);
        },
        Policy::Pursuit => {
            if crate::entity::has_prey(us, others, others.len() as int) {
                let i = choose|i: int|
                    crate::entity::is_nearest_prey(us, others, others.len() as int, i);
                let dx = us.position.x - others[i].position.x;
                let dy = us.position.y - others[i].position.y;
                crate::fixed::lemma_normalized_length(dx, dy, crate::fixed::UNIT as int);
            }
        },
    }
}

/// A pass keeps a sound store sound and every entity in its place: after
/// any number of turns the pending and the seen entities are representable
/// and as many as before, they are between the walls if all were, and under
/// the flocking policy the seen ones respect the cap.
pub proof fn lemma_turns_sound(things: Seq<Entity>, policy: Policy, k: nat, walls: Vec2)
    requires
        all_wf(things),
    ensures
        all_wf(turns(things, policy, k).pending),
        all_wf(turns(things, policy, k).seen),
        turns(things, policy, k).pending.len() + turns(things, policy, k).seen.len()
            == things.len(),
        turns(things, policy, k).seen.len() == if k <= things.len() {
            k as int
        } else {
            things.len() as int
        },
        all_within(things, walls) ==> all_within(turns(things, policy, k).pending, walls)
            && all_within(turns(things, policy, k).seen, walls),
        policy == Policy::Flocking ==> all_capped(turns(things, policy, k).seen),
    decreases k,
{
    if k > 0 {
        lemma_turns_sound(things, policy, (k - 1) as nat, walls);
        let p = turns(things, policy, (k - 1) as nat);
        if p.pending.len() > 0 {
            let first = p.pending.last();
            let rest = p.pending.drop_last();
            lemma_scan_keeps_motion(first, rest, rest.len());
            let s = scanned(first, rest, rest.len());
            assert(first.wf());
            assert forall|i: int| 0 <= i < rest.len() implies (#[trigger] s.rest[i]).wf() && (
            all_within(things, walls) ==> within_walls(s.rest[i].position, walls)) by {
                assert(rest[i] == p.pending[i]);
                assert(p.pending[i].wf());
            }
            lemma_reaction_sound(policy, s.thing, s.rest + p.seen);
            let thing = reacted(policy, s.thing, s.rest + p.seen);
            let q = turn(p, policy);
            assert(q.seen == p.seen.push(thing));
            assert forall|i: int| 0 <= i < q.seen.len() implies (#[trigger] q.seen[i]).wf() && (
            all_within(things, walls) ==> within_walls(q.seen[i].position, walls)) && (policy
                == Policy::Flocking ==> q.seen[i].velocity.length_sq() <= FORCE_MAX * FORCE_MAX) by {
                if i < p.seen.len() {
                    assert(q.seen[i] == p.seen[i]);
                    assert(p.seen[i].wf());
                }
            }
        }
    }
}

/// Draining keeps a sound store sound.
pub proof fn lemma_drained_sound(things: Seq<Entity>, walls: Vec2)
    requires
        all_wf(things),
    ensures
        all_wf(drained(things, walls)),
    decreases things.len(),
{
    reveal(Seq::filter);
    if things.len() > 0 {
        let head = things.drop_last();
        let e = things.last();
        assert forall|i: int| 0 <= i < head.len() implies (#[trigger] head[i]).wf() by {
            assert(head[i] == things[i]);
        }
        lemma_drained_sound(head, walls);
        assert(things =~= head.push(e));
        Seq::lemma_filter_push(head, e, stays(walls));
    }
}

/// A frame keeps a sound world sound. A frame that advances an active world
/// leaves every footprint between the walls, and under the flocking policy
/// no entity faster than the cap.
pub proof fn lemma_step_sound(s: Frame, now: u64)
    requires
        s.wf(),
    ensures
        step(s, now).wf(),
        step(s, now).walls == s.walls,
        step(s, now).samples == s.samples,
        step(s, now).policy == s.policy,
        s.steps() && !s.homogeneous ==> all_within(step(s, now).entities, s.walls),
        s.steps() && !s.homogeneous && s.policy == Policy::Flocking ==> all_capped(
            step(s, now).entities,
        ),
{
    if s.steps() {
        let micros = elapsed(s.baseline.unwrap(), now);
        let after = integrated(s.entities, micros, s.samples, s.cursor);
        crate::revolvingrandom::lemma_cursor_after(s.cursor, (2 * s.entities.len()) as nat);
        assert forall|i: int| 0 <= i < after.len() implies (#[trigger] after[i]).wf() by {
            assert(s.entities[i].wf());
        }
        if s.homogeneous {
            lemma_drained_sound(after, s.walls);
        } else {
            let bounced = walled(after, s.walls);
            assert forall|i: int| 0 <= i < bounced.len() implies (#[trigger] bounced[i]).wf()
                && within_walls(bounced[i].position, s.walls) by {
                assert(after[i].wf());
            }
            lemma_turns_sound(bounced, s.policy, bounced.len(), s.walls);
            let seen = resolved(bounced, s.policy).seen;
            if takes_over(bounced, s.policy) {
                assert forall|i: int| 0 <= i < seen.len() implies (#[trigger] all_turned(
                    seen,
                )[i]).wf() && within_walls(all_turned(seen)[i].position, s.walls) && (s.policy
                    == Policy::Flocking ==> all_turned(seen)[i].velocity.length_sq() <= FORCE_MAX
                    * FORCE_MAX) by {
                    assert(seen[i].wf());
                    lemma_turned_keeps_speed(seen[i]);
                }
            }
        }
    }
}

/// Soundness, the walls, the samples and the policy last over any sequence
/// of frames.
pub proof fn lemma_run_sound(s: Frame, nows: Seq<u64>, n: nat)
    requires
        s.wf(),
    ensures
        run(s, nows, n).wf(),
        run(s, nows, n).walls == s.walls,
        run(s, nows, n).samples == s.samples,
        run(s, nows, n).policy == s.policy,
    decreases n,
{
    if n > 0 {
        lemma_run_sound(s, nows, (n - 1) as nat);
        lemma_step_sound(run(s, nows, (n - 1) as nat), nows[n - 1]);
    }
}

/// Draining splits the store: the entities that stay and those that leave
/// add up to all of them, and every one that stays is on screen.
pub proof fn lemma_drain_count(things: Seq<Entity>, walls: Vec2)
    ensures
        drained(things, walls).len() + things.filter(leaves(walls)).len() == things.len(),
        forall|i: int|
            0 <= i < drained(things, walls).len() ==> on_screen(
                (#[trigger] drained(things, walls)[i]).position,
                walls,
            ),
    decreases things.len(),
{
    reveal(Seq::filter);
    if things.len() > 0 {
        let head = things.drop_last();
        let e = things.last();
        lemma_drain_count(head, walls);
        assert(things =~= head.push(e));
        Seq::lemma_filter_push(head, e, stays(walls));
        Seq::lemma_filter_push(head, e, leaves(walls));
    }
}

/// A store in which nothing is off screen drains to itself.
pub proof fn lemma_drain_keeps_on_screen(things: Seq<Entity>, walls: Vec2)
    requires
        forall|i: int| 0 <= i < things.len() ==> on_screen((#[trigger] things[i]).position, walls),
    ensures
        drained(things, walls) == things,
    decreases things.len(),
{
    reveal(Seq::filter);
    if things.len() > 0 {
        let head = things.drop_last();
        let e = things.last();
        lemma_drain_keeps_on_screen(head, walls);
        assert(things =~= head.push(e));
        Seq::lemma_filter_push(head, e, stays(walls));
    }
}

/// An entity alone in the store meets nobody, feels no force and finds no
/// prey: a pass leaves it as it is, provided that under the flocking policy
/// its velocity respects the cap, and does not end the active phase.
pub proof fn lemma_lone_entity(e: Entity, policy: Policy)
    requires
        e.wf(),
        policy == Policy::Flocking ==> e.velocity.length_sq() <= FORCE_MAX * FORCE_MAX,
    ensures
        resolved(seq![e], policy).seen == seq![e],
        !resolved(seq![e], policy).did_collide,
        !takes_over(seq![e], policy),
        settled(seq![e], policy, false) == seq![e],
{
    let things = seq![e];
    let p0 = turns(things, policy, 0);
    assert(turns(things, policy, 1) == turn(p0, policy));
    assert(p0.pending.last() == e);
    assert(p0.pending.drop_last() =~= Seq::<Entity>::empty());
    let s = scanned(e, p0.pending.drop_last(), 0);
    let others = s.rest + p0.seen;
    assert(others =~= Seq::<Entity>::empty());
    if policy == Policy::Flocking {
        assert(crate::entity::force_sum(e, others, 0) == (0int, 0int));
        crate::entity::lemma_force_step_length(0, 0);
        assert(crate::entity::pushed(e, 0, 0) == e);
    }
    assert(reacted(policy, e, others) == e);
    assert(turn(p0, policy).seen =~= seq![e]);
}

/// Every draw of jitter lies in `-JITTER..JITTER`.
pub proof fn lemma_jitter_bound(samples: Seq<i64>, cursor: int, n: nat)
    requires
        samples_ok(samples, cursor),
    ensures
        -JITTER <= jitter_at(samples, cursor, n) < JITTER,
{
    crate::revolvingrandom::lemma_cursor_after(cursor, n);
    let sample = sample_at(samples, cursor, n) as int;
    assert(0 <= sample < crate::fixed::UNIT);
    let span = 2 * JITTER;
    let product = sample * span;
    assert(crate::fixed::magnitude(sample) * (crate::fixed::magnitude(-JITTER as int)
        + crate::fixed::magnitude(JITTER as int)) == product);
    assert(0 <= product < 50_000_000_000) by (nonlinear_arith)
        requires
            product == sample * span,
            0 <= sample < 1_000_000,
            span == 50_000,
    ;
    assert(0 <= product / 1_000_000 < 50_000) by (nonlinear_arith)
        requires
            0 <= product < 50_000_000_000,
    ;
    assert(crate::fixed::trunc_div(product, crate::fixed::UNIT as int) == product / 1_000_000);
}

/// A frame that advances an active world of one entity, whose velocity
/// respects the cap where the policy is flocking: the entity meets nobody
/// and feels no force. It moves by its velocity over the elapsed time and
/// by at most `JITTER` per axis, is reflected off the walls, and keeps its
/// kind; where it ends between the walls it keeps its velocity too. The
/// world stays active.
pub proof fn lemma_lone_frame(s: Frame, now: u64)
    requires
        s.wf(),
        s.steps(),
        !s.homogeneous,
        s.entities.len() == 1,
        s.policy == Policy::Flocking ==> s.entities[0].velocity.length_sq() <= FORCE_MAX
            * FORCE_MAX,
    ensures
        ({
            let e = s.entities[0];
            let micros = elapsed(s.baseline.unwrap(), now);
            let a = shaken(e, micros, s.samples, s.cursor, 0);
            &&& step(s, now).entities == seq![reflected(a, s.walls)]
            &&& !step(s, now).homogeneous
            &&& !step(s, now).finished
            &&& a.kind == e.kind
            &&& a.velocity == e.velocity
            &&& -JITTER <= a.position.x - moved(e, micros).position.x <= JITTER
            &&& -JITTER <= a.position.y - moved(e, micros).position.y <= JITTER
            &&& within_walls(a.position, s.walls) ==> step(s, now).entities == seq![a]
        }),
{
    let e = s.entities[0];
    let micros = elapsed(s.baseline.unwrap(), now);
    let a = shaken(e, micros, s.samples, s.cursor, 0);
    let r = reflected(a, s.walls);
    lemma_jitter_bound(s.samples, s.cursor, 0);
    lemma_jitter_bound(s.samples, s.cursor, 1);
    assert(e.wf());
    let after = integrated(s.entities, micros, s.samples, s.cursor);
    assert(after =~= seq![a]);
    let bounced = walled(after, s.walls);
    assert(bounced =~= seq![r]);
    assert(a.wf());
    assert(r.wf());
    let x = a.velocity.x as int;
    let y = a.velocity.y as int;
    assert((-x) * (-x) == x * x && (-y) * (-y) == y * y) by (nonlinear_arith);
    assert(r.velocity.length_sq() == e.velocity.length_sq());
    lemma_lone_entity(r, s.policy);
}

/// The active phase ends in exactly the frame whose resolver pass converts
/// an entity and leaves all of one kind, and draining is terminal: a frame
/// never takes a homogeneous world back, nor a finished one.
pub proof fn lemma_phase_change(s: Frame, now: u64)
    ensures
        s.homogeneous ==> step(s, now).homogeneous,
        s.finished ==> step(s, now) == s,
        !s.homogeneous ==> (step(s, now).homogeneous <==> s.steps() && takes_over(
            walled(
                integrated(s.entities, elapsed(s.baseline.unwrap(), now), s.samples, s.cursor),
                s.walls,
            ),
            s.policy,
        )),
        !s.finished ==> (step(s, now).finished <==> s.steps() && s.homogeneous && drained(
            integrated(s.entities, elapsed(s.baseline.unwrap(), now), s.samples, s.cursor),
            s.walls,
        ).len() == 0),
{
}

/// Over any sequence of frames the world turns homogeneous at most once:
/// if it is homogeneous after `m` frames, it is after every `n >= m`.
pub proof fn lemma_homogeneous_once(s: Frame, nows: Seq<u64>, m: nat, n: nat)
    requires
        m <= n,
        run(s, nows, m).homogeneous,
    ensures
        run(s, nows, n).homogeneous,
    decreases n,
{
    if m < n {
        lemma_homogeneous_once(s, nows, m, (n - 1) as nat);
    }
}

/// A draining world loses entities and never changes one: every entity of
/// the store after a frame is an integrated entity of the store before, and
/// the store does not grow.
pub proof fn lemma_draining_only_removes(s: Frame, now: u64)
    requires
        s.homogeneous,
        s.steps(),
    ensures
        step(s, now).entities == drained(
            integrated(s.entities, elapsed(s.baseline.unwrap(), now), s.samples, s.cursor),
            s.walls,
        ),
        step(s, now).entities.len() <= s.entities.len(),
{
    let after = integrated(s.entities, elapsed(s.baseline.unwrap(), now), s.samples, s.cursor);
    lemma_drain_count(after, s.walls);
}

} // verus!
