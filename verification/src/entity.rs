//! One particle: what it is, where it is and where it is going.

use vstd::prelude::*;

use crate::fixed::{
    clamp_coord, in_coord_range, lemma_normalized_length, length, length_up, mul_div, norm_sq,
    normalize, normalized, saturate, trunc_div, Vec2, COORD_MAX, MICROS_PER_SECOND, UNIT,
};
use crate::kind::{convert, converted, Kind};

verus! {

/// The side of the square footprint of an entity: 1.0.
pub const ENTITY_DIM: i64 = 1_000_000;

/// Half the side of the footprint.
pub const HALF_DIM: i64 = 500_000;

/// What the force model adds to a velocity along the summed force: 0.5.
pub const FORCE_STEP: i64 = 500_000;

/// The cap on the magnitude of a velocity: 1.5.
pub const FORCE_MAX: i64 = 1_500_000;

/// The bound at which each component of a summed force saturates: 10 to the
/// 37th, far beyond what the entities of an arena sum to.
pub const FORCE_SUM_MAX: i128 = 10_000_000_000_000_000_000_000_000_000_000_000_000;

/// By how much, at most, a normalized vector falls short of its length: three
/// millionths.
pub const ROUNDING: i64 = 3;

/// A simulated particle.
#[derive(Copy, Clone, Debug, PartialEq, Eq, Structural)]
pub struct Entity {
    pub kind: Kind,
    pub position: Vec2,
    /// Movement per second.
    pub velocity: Vec2,
}

/// The squared distance between two points.
pub open spec fn dist_sq(a: Vec2, b: Vec2) -> int {
    norm_sq(a.x - b.x, a.y - b.y)
}

/// Two entities collide when their distance is strictly less than one
/// footprint side. That is the side itself and not the reach of two
/// footprints, so entities overlap deeply before they react.
pub open spec fn touching(a: Entity, b: Entity) -> bool {
    dist_sq(a.position, b.position) < ENTITY_DIM * ENTITY_DIM
}

/// An encounter converts one of the two when they collide and differ in
/// kind.
pub open spec fn converts(a: Entity, b: Entity) -> bool {
    touching(a, b) && a.kind != b.kind
}

/// A coordinate after `micros` microseconds at `v` per second.
pub open spec fn advanced(p: int, v: int, micros: int) -> int {
    clamp_coord(p + trunc_div(v * micros, MICROS_PER_SECOND as int))
}

/// The entity after `micros` microseconds of free movement.
pub open spec fn moved(e: Entity, micros: u64) -> Entity {
    Entity {
        position: Vec2 {
            x: advanced(e.position.x as int, e.velocity.x as int, micros as int) as i64,
            y: advanced(e.position.y as int, e.velocity.y as int, micros as int) as i64,
        },
        ..e
    }
}

/// The entity displaced by `(jx, jy)`.
pub open spec fn nudged(e: Entity, jx: i64, jy: i64) -> Entity {
    Entity {
        position: Vec2 {
            x: clamp_coord(e.position.x + jx) as i64,
            y: clamp_coord(e.position.y + jy) as i64,
        },
        ..e
    }
}

/// One axis of a wall reflection: a footprint that sticks out beyond a wall
/// is put back against it and the movement along the axis turns round.
pub open spec fn reflected_axis(p: int, v: int, wall: int) -> (int, int) {
    if p + HALF_DIM > wall {
        (wall - HALF_DIM, -v)
    } else if p - HALF_DIM < -wall {
        (-wall + HALF_DIM, -v)
    } else {
        (p, v)
    }
}

/// The entity after reflection off the walls at `walls` from the centre.
pub open spec fn reflected(e: Entity, walls: Vec2) -> Entity {
    let (px, vx) = reflected_axis(e.position.x as int, e.velocity.x as int, walls.x as int);
    let (py, vy) = reflected_axis(e.position.y as int, e.velocity.y as int, walls.y as int);
    Entity {
        kind: e.kind,
        position: Vec2 { x: px as i64, y: py as i64 },
        velocity: Vec2 { x: vx as i64, y: vy as i64 },
    }
}

/// Whether half extents leave room for a footprint and for the margin
/// beyond the walls.
pub open spec fn walls_ok(walls: Vec2) -> bool {
    &&& HALF_DIM < walls.x <= COORD_MAX - HALF_DIM
    &&& HALF_DIM < walls.y <= COORD_MAX - HALF_DIM
}

/// Whether the footprint of an entity at `p` lies between the walls.
pub open spec fn within_walls(p: Vec2, walls: Vec2) -> bool {
    &&& -walls.x + HALF_DIM <= p.x <= walls.x - HALF_DIM
    &&& -walls.y + HALF_DIM <= p.y <= walls.y - HALF_DIM
}

/// Whether `p` has not left the walls moved out by half a footprint: it lies
/// inside them or on them.
pub open spec fn on_screen(p: Vec2, walls: Vec2) -> bool {
    &&& -(walls.x + HALF_DIM) <= p.x <= walls.x + HALF_DIM
    &&& -(walls.y + HALF_DIM) <= p.y <= walls.y + HALF_DIM
}

/// The entity with its movement turned round.
pub open spec fn turned(e: Entity) -> Entity {
    Entity { velocity: Vec2 { x: (-e.velocity.x) as i64, y: (-e.velocity.y) as i64 }, ..e }
}

/// The two entities after an encounter: on contact the conversion rule
/// applies to their kinds, and nothing else changes.
pub open spec fn collided(a: Entity, b: Entity) -> (Entity, Entity) {
    if touching(a, b) {
        (
            Entity { kind: converted(a.kind, b.kind).0, ..a },
            Entity { kind: converted(a.kind, b.kind).1, ..b },
        )
    } else {
        (a, b)
    }
}

/// A force component saturated at `FORCE_SUM_MAX`.
pub open spec fn clamp_force(v: int) -> int {
    if v > FORCE_SUM_MAX {
        FORCE_SUM_MAX as int
    } else if v < -FORCE_SUM_MAX {
        -FORCE_SUM_MAX
    } else {
        v
    }
}

/// The force that `other` exerts on `us`: along the line toward `other`,
/// scaled by the force between the kinds and by the distance. It is the
/// product of the three in millionths, undivided, so that no pull rounds to
/// nothing.
pub open spec fn pull(us: Entity, other: Entity) -> (int, int) {
    let dx = other.position.x - us.position.x;
    let dy = other.position.y - us.position.y;
    let f = us.kind.spec_force_from(other.kind);
    let dist = length_up(dx, dy);
    (dx * f * dist, dy * f * dist)
}

/// The force on `us` summed over the first `n` of `others`.
pub open spec fn force_sum(us: Entity, others: Seq<Entity>, n: nat) -> (int, int)
    decreases n,
{
    if n == 0 {
        (0, 0)
    } else {
        let before = force_sum(us, others, (n - 1) as nat);
        let term = pull(us, others[n - 1]);
        (clamp_force(before.0 + term.0), clamp_force(before.1 + term.1))
    }
}

/// The step of length `FORCE_STEP` along `(fx, fy)`; no step along a zero
/// force.
pub open spec fn force_step(fx: int, fy: int) -> (int, int) {
    normalized(fx, fy, FORCE_STEP as int)
}

/// A velocity rescaled to magnitude `FORCE_MAX` where it exceeds it.
pub open spec fn capped(vx: int, vy: int) -> (int, int) {
    if norm_sq(vx, vy) > FORCE_MAX * FORCE_MAX {
        normalized(vx, vy, FORCE_MAX as int)
    } else {
        (vx, vy)
    }
}

/// The entity after the force `(fx, fy)` acted on it: a step along the force
/// is added to the velocity, which is then capped.
pub open spec fn pushed(us: Entity, fx: int, fy: int) -> Entity {
    let step = force_step(fx, fy);
    let v = capped(clamp_coord(us.velocity.x + step.0), clamp_coord(us.velocity.y + step.1));
    Entity { velocity: Vec2 { x: v.0 as i64, y: v.1 as i64 }, ..us }
}

/// How an entity reacts to the others once its encounters are resolved.
#[derive(Copy, Clone, Debug, PartialEq, Eq, Structural)]
pub enum Policy {
    /// Every other entity pulls or pushes; the velocity follows the summed
    /// force and is capped.
    Flocking,
    /// The nearest prey alone decides the heading.
    Pursuit,
}

/// Whether `other` is of the kind that `us` beats.
pub open spec fn is_prey(us: Entity, other: Entity) -> bool {
    other.kind == us.kind.spec_beats()
}

/// Whether there is prey for `us` among the first `n` of `others`.
pub open spec fn has_prey(us: Entity, others: Seq<Entity>, n: int) -> bool {
    exists|j: int| 0 <= j < n && is_prey(us, #[trigger] others[j])
}

/// Whether `others[i]` is, among the first `n` of `others`, the prey
/// nearest to `us`, and the first of those equally near.
pub open spec fn is_nearest_prey(us: Entity, others: Seq<Entity>, n: int, i: int) -> bool {
    &&& 0 <= i < n
    &&& is_prey(us, others[i])
    &&& forall|j: int|
        0 <= j < n && is_prey(us, #[trigger] others[j]) ==> dist_sq(us.position, others[i].position)
            <= dist_sq(us.position, others[j].position)
    &&& forall|j: int|
        0 <= j < i && is_prey(us, #[trigger] others[j]) ==> dist_sq(us.position, others[i].position)
            < dist_sq(us.position, others[j].position)
}

/// The heading of unit length that points from `target` to `us`; the old
/// heading of `us` where the two are at one place.
pub open spec fn heading_away(us: Entity, target: Entity) -> Vec2 {
    let dx = us.position.x - target.position.x;
    let dy = us.position.y - target.position.y;
    if dx == 0 && dy == 0 {
        us.velocity
    } else {
        Vec2 {
            x: normalized(dx, dy, UNIT as int).0 as i64,
            y: normalized(dx, dy, UNIT as int).1 as i64,
        }
    }
}

/// The entity after it chose its heading by its nearest prey among
/// `others`; the entity as it is where there is no prey.
pub open spec fn pursuing(us: Entity, others: Seq<Entity>) -> Entity {
    if has_prey(us, others, others.len() as int) {
        let i = choose|i: int| is_nearest_prey(us, others, others.len() as int, i);
        Entity { velocity: heading_away(us, others[i]), ..us }
    } else {
        us
    }
}

/// The entity after it reacted to `others` by the given policy.
pub open spec fn reacted(policy: Policy, us: Entity, others: Seq<Entity>) -> Entity {
    match policy {
        Policy::Flocking => {
            let f = force_sum(us, others, others.len());
            pushed(us, f.0, f.1)
        },
        Policy::Pursuit => pursuing(us, others),
    }
}

/// No two entities are the nearest prey.
pub proof fn lemma_nearest_prey_unique(us: Entity, others: Seq<Entity>, n: int, i: int, k: int)
    requires
        is_nearest_prey(us, others, n, i),
        is_nearest_prey(us, others, n, k),
    ensures
        i == k,
{
}

/// Where there is prey, one of them is the nearest.
pub proof fn lemma_nearest_prey_exists(us: Entity, others: Seq<Entity>, n: int)
    requires
        0 <= n <= others.len(),
        has_prey(us, others, n),
    ensures
        exists|i: int| is_nearest_prey(us, others, n, i),
    decreases n,
{
    if n > 0 {
        let cand = others[n - 1];
        let m = n - 1;
        if has_prey(us, others, m) {
            lemma_nearest_prey_exists(us, others, m);
            let b = choose|i: int| is_nearest_prey(us, others, m, i);
            if is_prey(us, cand) && dist_sq(us.position, cand.position) < dist_sq(
                us.position,
                others[b].position,
            ) {
                assert(is_nearest_prey(us, others, n, m));
            } else {
                assert(is_nearest_prey(us, others, n, b));
            }
        } else {
            assert(is_prey(us, cand));
            assert(is_nearest_prey(us, others, n, m));
        }
    }
}

/// No capped velocity is longer than `FORCE_MAX`, and one that was rescaled
/// is shorter by less than `ROUNDING`.
pub proof fn lemma_capped_bound(vx: int, vy: int)
    ensures
        norm_sq(capped(vx, vy).0, capped(vx, vy).1) <= FORCE_MAX * FORCE_MAX,
        -FORCE_MAX <= capped(vx, vy).0 <= FORCE_MAX,
        -FORCE_MAX <= capped(vx, vy).1 <= FORCE_MAX,
        norm_sq(vx, vy) > FORCE_MAX * FORCE_MAX ==> (FORCE_MAX - ROUNDING) * (FORCE_MAX - ROUNDING)
            <= norm_sq(capped(vx, vy).0, capped(vx, vy).1),
{
    if norm_sq(vx, vy) > FORCE_MAX * FORCE_MAX {
        lemma_normalized_length(vx, vy, FORCE_MAX as int);
    } else {
        assert(-FORCE_MAX <= vx <= FORCE_MAX && -FORCE_MAX <= vy <= FORCE_MAX) by (nonlinear_arith)
            requires
                vx * vx + vy * vy <= FORCE_MAX * FORCE_MAX,
        ;
    }
}

/// The step along a force that is not zero is `FORCE_STEP` long: no longer,
/// and shorter by less than `ROUNDING`, however small or large the force.
/// Along no force there is no step.
pub proof fn lemma_force_step_length(fx: int, fy: int)
    ensures
        norm_sq(force_step(fx, fy).0, force_step(fx, fy).1) <= FORCE_STEP * FORCE_STEP,
        -FORCE_STEP <= force_step(fx, fy).0 <= FORCE_STEP,
        -FORCE_STEP <= force_step(fx, fy).1 <= FORCE_STEP,
        (fx != 0 || fy != 0) ==> (FORCE_STEP - ROUNDING) * (FORCE_STEP - ROUNDING) <= norm_sq(
            force_step(fx, fy).0,
            force_step(fx, fy).1,
        ),
        (fx != 0 || fy != 0) ==> force_step(fx, fy) != (0int, 0int),
        fx == 0 && fy == 0 ==> force_step(fx, fy) == (0int, 0int),
{
    lemma_normalized_length(fx, fy, FORCE_STEP as int);
    assert((FORCE_STEP - ROUNDING) * (FORCE_STEP - ROUNDING) > 0) by (nonlinear_arith)
        requires
            FORCE_STEP - ROUNDING > 0,
    ;
}

/// The heading by a prey that is not at the same place is one unit long: no
/// longer, and shorter by less than `ROUNDING`, however near or far the prey.
pub proof fn lemma_heading_length(us: Entity, target: Entity)
    requires
        us.position != target.position,
    ensures
        heading_away(us, target).length_sq() <= UNIT * UNIT,
        (UNIT - ROUNDING) * (UNIT - ROUNDING) <= heading_away(us, target).length_sq(),
        heading_away(us, target).wf(),
{
    let dx = us.position.x - target.position.x;
    let dy = us.position.y - target.position.y;
    lemma_normalized_length(dx, dy, UNIT as int);
}

/// Two vectors, one no longer than `a` and one no longer than `b`, add up
/// to one no longer than `a + b`.
pub proof fn lemma_sum_length(vx: int, vy: int, sx: int, sy: int, a: int, b: int)
    requires
        0 <= a,
        0 <= b,
        norm_sq(vx, vy) <= a * a,
        norm_sq(sx, sy) <= b * b,
    ensures
        norm_sq(vx + sx, vy + sy) <= (a + b) * (a + b),
{
    let v2 = vx * vx + vy * vy;
    let s2 = sx * sx + sy * sy;
    let dot = vx * sx + vy * sy;
    let cross = vx * sy - vy * sx;
    let ab = a * b;
    let xx = vx * sx;
    let yy = vy * sy;
    let xy = vx * sy;
    let yx = vy * sx;
    assert(xx * yy == xy * yx) by (nonlinear_arith)
        requires
            xx == vx * sx,
            yy == vy * sy,
            xy == vx * sy,
            yx == vy * sx,
    ;
    assert((vx * vx) * (sx * sx) == xx * xx) by (nonlinear_arith)
        requires
            xx == vx * sx,
    ;
    assert((vy * vy) * (sy * sy) == yy * yy) by (nonlinear_arith)
        requires
            yy == vy * sy,
    ;
    assert((vx * vx) * (sy * sy) == xy * xy) by (nonlinear_arith)
        requires
            xy == vx * sy,
    ;
    assert((vy * vy) * (sx * sx) == yx * yx) by (nonlinear_arith)
        requires
            yx == vy * sx,
    ;
    assert(v2 * s2 == (vx * vx) * (sx * sx) + (vx * vx) * (sy * sy) + (vy * vy) * (sx * sx) + (vy
        * vy) * (sy * sy)) by (nonlinear_arith)
        requires
            v2 == vx * vx + vy * vy,
            s2 == sx * sx + sy * sy,
    ;
    assert(dot * dot + cross * cross == xx * xx + yy * yy + xy * xy + yx * yx + 2 * (xx * yy) - 2
        * (xy * yx)) by (nonlinear_arith)
        requires
            dot == xx + yy,
            cross == xy - yx,
    ;
    assert(v2 * s2 == dot * dot + cross * cross);
    assert(cross * cross >= 0) by (nonlinear_arith);
    assert(v2 >= 0 && s2 >= 0) by (nonlinear_arith)
        requires
            v2 == vx * vx + vy * vy,
            s2 == sx * sx + sy * sy,
    ;
    assert(v2 * s2 <= (a * a) * (b * b)) by (nonlinear_arith)
        requires
            0 <= v2 <= a * a,
            0 <= s2 <= b * b,
    ;
    assert((a * a) * (b * b) == ab * ab) by (nonlinear_arith)
        requires
            ab == a * b,
    ;
    assert(ab >= 0) by (nonlinear_arith)
        requires
            ab == a * b,
            a >= 0,
            b >= 0,
    ;
    assert(dot <= ab) by (nonlinear_arith)
        requires
            dot * dot <= ab * ab,
            ab >= 0,
    ;
    assert(norm_sq(vx + sx, vy + sy) == v2 + 2 * dot + s2) by (nonlinear_arith)
        requires
            v2 == vx * vx + vy * vy,
            s2 == sx * sx + sy * sy,
            dot == vx * sx + vy * sy,
    ;
    assert((a + b) * (a + b) == a * a + 2 * ab + b * b) by (nonlinear_arith)
        requires
            ab == a * b,
    ;
}

/// A force that is not zero changes a velocity of at most one unit by a
/// step of `FORCE_STEP`: the change is no longer, and shorter by less than
/// `ROUNDING`. No force leaves such a velocity as it is.
pub proof fn lemma_pushed_step(us: Entity, fx: int, fy: int)
    requires
        us.velocity.length_sq() <= UNIT * UNIT,
    ensures
        norm_sq(
            pushed(us, fx, fy).velocity.x - us.velocity.x,
            pushed(us, fx, fy).velocity.y - us.velocity.y,
        ) <= FORCE_STEP * FORCE_STEP,
        (fx != 0 || fy != 0) ==> (FORCE_STEP - ROUNDING) * (FORCE_STEP - ROUNDING) <= norm_sq(
            pushed(us, fx, fy).velocity.x - us.velocity.x,
            pushed(us, fx, fy).velocity.y - us.velocity.y,
        ),
        fx == 0 && fy == 0 ==> pushed(us, fx, fy) == us,
        pushed(us, fx, fy).kind == us.kind,
        pushed(us, fx, fy).position == us.position,
{
    let vx = us.velocity.x as int;
    let vy = us.velocity.y as int;
    let s = force_step(fx, fy);
    lemma_force_step_length(fx, fy);
    lemma_sum_length(vx, vy, s.0, s.1, UNIT as int, FORCE_STEP as int);
    let wx = vx + s.0;
    let wy = vy + s.1;
    assert(-FORCE_MAX <= wx <= FORCE_MAX && -FORCE_MAX <= wy <= FORCE_MAX) by (nonlinear_arith)
        requires
            wx * wx + wy * wy <= FORCE_MAX * FORCE_MAX,
    ;
    assert(capped(wx, wy) == (wx, wy));
    assert(pushed(us, fx, fy).velocity.x == wx);
    assert(pushed(us, fx, fy).velocity.y == wy);
}

impl Entity {
    /// Position and velocity are representable.
    pub open spec fn wf(self) -> bool {
        self.position.wf() && self.velocity.wf()
    }

    /// An entity of the given kind at `position`, moving at `velocity`.
    pub fn new(kind: Kind, position: Vec2, velocity: Vec2) -> (e: Entity)
        ensures
            e == (Entity { kind, position, velocity }),
    {
        Entity { kind, position, velocity }
    }

    /// Whether the two entities are closer than one footprint side.
    pub fn collides_with(&self, other: &Entity) -> (hit: bool)
        ensures
            hit == touching(*self, *other),
    {
        let dx: i128 = self.position.x as i128 - other.position.x as i128;
        let dy: i128 = self.position.y as i128 - other.position.y as i128;
        let dim: i128 = ENTITY_DIM as i128;
        if dx >= dim || dx <= -dim || dy >= dim || dy <= -dim {
            assert(dx * dx + dy * dy >= dim * dim) by (nonlinear_arith)
                requires
                    dx >= dim || dx <= -dim || dy >= dim || dy <= -dim,
                    dim >= 0,
            ;
            false
        } else {
            assert(dx * dx < dim * dim && dy * dy < dim * dim && dx * dx >= 0 && dy * dy >= 0)
                by (nonlinear_arith)
                requires
                    -dim < dx < dim,
                    -dim < dy < dim,
            ;
            dx * dx + dy * dy < dim * dim
        }
    }

    /// The entity after `micros` microseconds of free movement.
    pub fn advance(self, micros: u64) -> (e: Entity)
        requires
            self.wf(),
        ensures
            e == moved(self, micros),
            e.wf(),
            e.kind == self.kind,
            e.velocity == self.velocity,
    {
        let m: i128 = micros as i128;
        assert(-i128::MAX <= self.velocity.x * m <= i128::MAX && -i128::MAX <= self.velocity.y * m
            <= i128::MAX) by (nonlinear_arith)
            requires
                in_coord_range(self.velocity.x as int),
                in_coord_range(self.velocity.y as int),
                0 <= m <= u64::MAX,
        ;
        let sx: i128 = mul_div(self.velocity.x as i128, m, MICROS_PER_SECOND as i128);
        let sy: i128 = mul_div(self.velocity.y as i128, m, MICROS_PER_SECOND as i128);
        let x: i64 = saturate(self.position.x as i128 + sx);
        let y: i64 = saturate(self.position.y as i128 + sy);
        Entity { kind: self.kind, position: Vec2 { x, y }, velocity: self.velocity }
    }

    /// The entity displaced by `(jx, jy)`.
    pub fn nudge(self, jx: i64, jy: i64) -> (e: Entity)
        ensures
            e == nudged(self, jx, jy),
            e.position.wf(),
            e.kind == self.kind,
            e.velocity == self.velocity,
    {
        let x: i64 = saturate(self.position.x as i128 + jx as i128);
        let y: i64 = saturate(self.position.y as i128 + jy as i128);
        Entity { kind: self.kind, position: Vec2 { x, y }, velocity: self.velocity }
    }

    /// The entity after reflection off the walls: a footprint beyond a wall
    /// is put back against it and the movement along that axis turns round.
    pub fn reflect(self, walls: Vec2) -> (e: Entity)
        requires
            self.wf(),
            walls_ok(walls),
        ensures
            e == reflected(self, walls),
            e.wf(),
            within_walls(e.position, walls),
            e.kind == self.kind,
    {
        let half: i64 = HALF_DIM;
        let mut e: Entity = self;
        if e.position.x + half > walls.x {
            e.position.x = walls.x - half;
            e.velocity.x = -e.velocity.x;
        } else if e.position.x - half < -walls.x {
            e.position.x = -walls.x + half;
            e.velocity.x = -e.velocity.x;
        }
        if e.position.y + half > walls.y {
            e.position.y = walls.y - half;
            e.velocity.y = -e.velocity.y;
        } else if e.position.y - half < -walls.y {
            e.position.y = -walls.y + half;
            e.velocity.y = -e.velocity.y;
        }
        e
    }

    /// The entity with its movement turned round.
    pub fn turn(self) -> (e: Entity)
        requires
            self.wf(),
        ensures
            e == turned(self),
            e.wf(),
    {
        Entity { kind: self.kind, position: self.position, velocity: self.velocity.reversed() }
    }

    /// Whether the entity has not left the walls moved out by half a
    /// footprint; on the bound it has not.
    pub fn is_on_screen(&self, walls: Vec2) -> (b: bool)
        requires
            walls_ok(walls),
        ensures
            b == on_screen(self.position, walls),
    {
        let mx: i64 = walls.x + HALF_DIM;
        let my: i64 = walls.y + HALF_DIM;
        self.position.x <= mx && self.position.x >= -mx && self.position.y <= my
            && self.position.y >= -my
    }
}

/// Resolves one encounter: on contact the conversion rule is applied to the
/// kinds of the two. Returns whether one of them was converted.
pub fn collide_entities(a: &mut Entity, b: &mut Entity) -> (changed: bool)
    ensures
        changed == converts(*old(a), *old(b)),
        changed == ((*final(a), *final(b)) != (*old(a), *old(b))),
        (*final(a), *final(b)) == collided(*old(a), *old(b)),
{
    if a.collides_with(b) {
        let differ: bool = a.kind != b.kind;
        let kinds = convert(a.kind, b.kind);
        a.kind = kinds.0;
        b.kind = kinds.1;
        return differ;
    }
    false
}

/// A force component saturated at `FORCE_SUM_MAX`.
fn saturate_force(v: i128) -> (r: i128)
    ensures
        r as int == clamp_force(v as int),
        -FORCE_SUM_MAX <= r <= FORCE_SUM_MAX,
{
    if v > FORCE_SUM_MAX {
        FORCE_SUM_MAX
    } else if v < -FORCE_SUM_MAX {
        -FORCE_SUM_MAX
    } else {
        v
    }
}

/// Adds to the running force `(fx, fy)` on `us` the pull of `other`.
fn add_pull(us: &Entity, other: &Entity, fx: i128, fy: i128) -> (r: (i128, i128))
    requires
        us.wf(),
        other.wf(),
        -FORCE_SUM_MAX <= fx <= FORCE_SUM_MAX,
        -FORCE_SUM_MAX <= fy <= FORCE_SUM_MAX,
    ensures
        r.0 as int == clamp_force(fx + pull(*us, *other).0),
        r.1 as int == clamp_force(fy + pull(*us, *other).1),
        -FORCE_SUM_MAX <= r.0 <= FORCE_SUM_MAX,
        -FORCE_SUM_MAX <= r.1 <= FORCE_SUM_MAX,
{
    let dx: i128 = other.position.x as i128 - us.position.x as i128;
    let dy: i128 = other.position.y as i128 - us.position.y as i128;
    let f: i128 = us.kind.force_from(other.kind) as i128;
    let dist: i128 = length(dx, dy);
    let bound: i128 = 2 * COORD_MAX as i128;
    assert(-(bound * 10 * UNIT) <= dx * f <= bound * 10 * UNIT && -(bound * 10 * UNIT) <= dy * f
        <= bound * 10 * UNIT) by (nonlinear_arith)
        requires
            -bound <= dx <= bound,
            -bound <= dy <= bound,
            -10 * UNIT <= f <= 10 * UNIT,
            bound >= 0,
    ;
    let ax: i128 = dx * f;
    let ay: i128 = dy * f;
    assert(-(bound * 10 * UNIT * (2 * bound)) <= ax * dist <= bound * 10 * UNIT * (2 * bound) && -(
    bound * 10 * UNIT * (2 * bound)) <= ay * dist <= bound * 10 * UNIT * (2 * bound))
        by (nonlinear_arith)
        requires
            -(bound * 10 * UNIT) <= ax <= bound * 10 * UNIT,
            -(bound * 10 * UNIT) <= ay <= bound * 10 * UNIT,
            0 <= dist <= 2 * bound,
            bound >= 0,
    ;
    assert(bound * 10 * UNIT * (2 * bound) == 80_000_000_000_000_000_000_000_000_000_000int)
        by (nonlinear_arith)
        requires
            bound == 2_000_000_000_000int,
            UNIT == 1_000_000int,
    ;
    let px: i128 = ax * dist;
    let py: i128 = ay * dist;
    (saturate_force(fx + px), saturate_force(fy + py))
}

/// The force model: every entity of `near` and of `seen` pulls or pushes
/// `us` by its kind and its distance; a step of `FORCE_STEP` along the sum
/// is added to the velocity of `us`, which is then capped at `FORCE_MAX`.
pub fn thing_forces(us: &mut Entity, near: &Vec<Entity>, seen: &Vec<Entity>)
    requires
        old(us).wf(),
        forall|i: int| 0 <= i < near@.len() ==> (#[trigger] near@[i]).wf(),
        forall|i: int| 0 <= i < seen@.len() ==> (#[trigger] seen@[i]).wf(),
    ensures
        *final(us) == pushed(
            *old(us),
            force_sum(*old(us), near@ + seen@, (near@ + seen@).len()).0,
            force_sum(*old(us), near@ + seen@, (near@ + seen@).len()).1,
        ),
        final(us).wf(),
        final(us).kind == old(us).kind,
        final(us).position == old(us).position,
        final(us).velocity.length_sq() <= FORCE_MAX * FORCE_MAX,
        old(us).velocity.length_sq() <= UNIT * UNIT ==> norm_sq(
            final(us).velocity.x - old(us).velocity.x,
            final(us).velocity.y - old(us).velocity.y,
        ) <= FORCE_STEP * FORCE_STEP,
        old(us).velocity.length_sq() <= UNIT * UNIT && force_sum(
            *old(us),
            near@ + seen@,
            (near@ + seen@).len(),
        ) != (0int, 0int) ==> (FORCE_STEP - ROUNDING) * (FORCE_STEP - ROUNDING) <= norm_sq(
            final(us).velocity.x - old(us).velocity.x,
            final(us).velocity.y - old(us).velocity.y,
        ),
{
    let ghost all = near@ + seen@;
    let ghost start = *us;
    let mut fx: i128 = 0;
    let mut fy: i128 = 0;
    let mut i: usize = 0;
    while i < near.len()
        invariant
            i <= near@.len(),
            all == near@ + seen@,
            *us == start,
            start.wf(),
            forall|j: int| 0 <= j < near@.len() ==> (#[trigger] near@[j]).wf(),
            -FORCE_SUM_MAX <= fx <= FORCE_SUM_MAX,
            -FORCE_SUM_MAX <= fy <= FORCE_SUM_MAX,
            (fx as int, fy as int) == force_sum(start, all, i as nat),
        decreases near@.len() - i,
    {
        assert(all[i as int] == near@[i as int]);
        let sum = add_pull(us, &near[i], fx, fy);
        fx = sum.0;
        fy = sum.1;
        i += 1;
    }
    let mut j: usize = 0;
    while j < seen.len()
        invariant
            j <= seen@.len(),
            all == near@ + seen@,
            *us == start,
            start.wf(),
            forall|k: int| 0 <= k < seen@.len() ==> (#[trigger] seen@[k]).wf(),
            -FORCE_SUM_MAX <= fx <= FORCE_SUM_MAX,
            -FORCE_SUM_MAX <= fy <= FORCE_SUM_MAX,
            (fx as int, fy as int) == force_sum(start, all, (near@.len() + j) as nat),
        decreases seen@.len() - j,
    {
        assert(all[near@.len() + j] == seen@[j as int]);
        let sum = add_pull(us, &seen[j], fx, fy);
        fx = sum.0;
        fy = sum.1;
        j += 1;
    }
    let step = normalize(fx, fy, FORCE_STEP);
    let vx: i64 = saturate(us.velocity.x as i128 + step.0 as i128);
    let vy: i64 = saturate(us.velocity.y as i128 + step.1 as i128);
    let wx: i128 = vx as i128;
    let wy: i128 = vy as i128;
    assert(0 <= wx * wx <= COORD_MAX * COORD_MAX && 0 <= wy * wy <= COORD_MAX * COORD_MAX)
        by (nonlinear_arith)
        requires
            -COORD_MAX <= wx <= COORD_MAX,
            -COORD_MAX <= wy <= COORD_MAX,
    ;
    let cap: i128 = FORCE_MAX as i128;
    if wx * wx + wy * wy > cap * cap {
        let capped = normalize(wx, wy, FORCE_MAX);
        us.velocity = Vec2 { x: capped.0, y: capped.1 };
    } else {
        us.velocity = Vec2 { x: vx, y: vy };
    }
    proof {
        lemma_capped_bound(vx as int, vy as int);
        if start.velocity.length_sq() <= UNIT * UNIT {
            lemma_pushed_step(start, fx as int, fy as int);
        }
    }
}

/// The squared distance between two points.
pub fn distance_with(a: Vec2, b: Vec2) -> (d: i128)
    requires
        a.wf(),
        b.wf(),
    ensures
        d as int == dist_sq(a, b),
        d >= 0,
{
    let dx: i128 = a.x as i128 - b.x as i128;
    let dy: i128 = a.y as i128 - b.y as i128;
    let bound: i128 = 2 * COORD_MAX as i128;
    assert(0 <= dx * dx <= bound * bound && 0 <= dy * dy <= bound * bound) by (nonlinear_arith)
        requires
            -bound <= dx <= bound,
            -bound <= dy <= bound,
    ;
    assert(bound * bound == 4_000_000_000_000_000_000_000_000int) by (nonlinear_arith)
        requires
            bound == 2_000_000_000_000int,
    ;
    dx * dx + dy * dy
}

/// Looks for prey nearer to `us` than the best so far among `more`, which
/// continues the sequence `all` from index `base`.
fn nearer_prey(
    us: &Entity,
    more: &Vec<Entity>,
    best: Option<Entity>,
    Ghost(all): Ghost<Seq<Entity>>,
    Ghost(base): Ghost<int>,
    Ghost(at): Ghost<int>,
) -> (r: (Option<Entity>, Ghost<int>))
    requires
        us.wf(),
        0 <= base,
        base + more@.len() <= all.len(),
        forall|j: int| 0 <= j < more@.len() ==> #[trigger] more@[j] == all[base + j],
        forall|j: int| 0 <= j < all.len() ==> (#[trigger] all[j]).wf(),
        best.is_some() == has_prey(*us, all, base),
        best.is_some() ==> is_nearest_prey(*us, all, base, at) && all[at] == best.unwrap(),
    ensures
        r.0.is_some() == has_prey(*us, all, base + more@.len()),
        r.0.is_some() ==> is_nearest_prey(*us, all, base + more@.len(), r.1@) && all[r.1@]
            == r.0.unwrap(),
{
    let mut best: Option<Entity> = best;
    let ghost mut at: int = at;
    let prey: Kind = us.kind.beats();
    let mut i: usize = 0;
    while i < more.len()
        invariant
            i <= more@.len(),
            us.wf(),
            prey == us.kind.spec_beats(),
            0 <= base,
            base + more@.len() <= all.len(),
            forall|j: int| 0 <= j < more@.len() ==> #[trigger] more@[j] == all[base + j],
            forall|j: int| 0 <= j < all.len() ==> (#[trigger] all[j]).wf(),
            best.is_some() == has_prey(*us, all, base + i),
            best.is_some() ==> is_nearest_prey(*us, all, base + i, at) && all[at] == best.unwrap(),
        decreases more@.len() - i,
    {
        let cand: Entity = more[i];
        assert(cand == all[base + i]);
        if cand.kind == prey {
            let nearer: bool = match best {
                None => true,
                Some(b) => distance_with(us.position, cand.position) < distance_with(
                    us.position,
                    b.position,
                ),
            };
            if nearer {
                best = Some(cand);
                proof {
                    at = base + i;
                }
            }
        }
        i += 1;
    }
    (best, Ghost(at))
}

/// The pursuit policy: the nearest entity of the kind that `us` beats,
/// among `near` and then `seen`, decides the heading of `us`, which becomes
/// the unit vector that points from the prey to `us`. Without prey the
/// heading stays, as it does where prey and `us` are at one place.
pub fn pursue(us: &mut Entity, near: &Vec<Entity>, seen: &Vec<Entity>)
    requires
        old(us).wf(),
        forall|i: int| 0 <= i < near@.len() ==> (#[trigger] near@[i]).wf(),
        forall|i: int| 0 <= i < seen@.len() ==> (#[trigger] seen@[i]).wf(),
    ensures
        *final(us) == pursuing(*old(us), near@ + seen@),
        final(us).wf(),
        final(us).kind == old(us).kind,
        final(us).position == old(us).position,
        final(us).velocity == old(us).velocity || ((UNIT - ROUNDING) * (UNIT - ROUNDING)
            <= final(us).velocity.length_sq() <= UNIT * UNIT),
{
    let ghost all = near@ + seen@;
    let first = nearer_prey(us, near, None, Ghost(all), Ghost(0), Ghost(0));
    let both = nearer_prey(us, seen, first.0, Ghost(all), Ghost(near@.len() as int), first.1);
    match both.0 {
        None => {},
        Some(target) => {
            proof {
                let picked = choose|i: int| is_nearest_prey(*us, all, all.len() as int, i);
                lemma_nearest_prey_unique(*us, all, all.len() as int, both.1@, picked);
            }
            let dx: i128 = us.position.x as i128 - target.position.x as i128;
            let dy: i128 = us.position.y as i128 - target.position.y as i128;
            if dx != 0 || dy != 0 {
                let heading = normalize(dx, dy, UNIT);
                proof {
                    lemma_normalized_length(dx as int, dy as int, UNIT as int);
                }
                us.velocity = Vec2 { x: heading.0, y: heading.1 };
            }
        },
    }
}

} // verus!
