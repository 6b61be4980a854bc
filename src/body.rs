use vstd::prelude::*;

use crate::geometry::{
    Vec2, LIMIT, DIV_RANGE, in_bounds, floor_div, clamp_spec, clamp, div_floor, sq_dist, floor_sqrt,
    isqrt, sq_distance,
};
use crate::gravity::{Gravity, gravity_force, STRENGTH_LIMIT};
use crate::grid::{Grid, ColliderDesc};
use std::collections::HashMap;

verus! {

/// The mass of a body, at least 1.
#[derive(Clone, Copy, Debug, PartialEq, Eq, Structural)]
pub struct Mass(pub i64);

/// The velocity of a body, in length units per time unit.
#[derive(Clone, Copy, Debug, PartialEq, Eq, Structural)]
pub struct Velocity(pub Vec2);

/// The acceleration of a body, recomputed from the forces of each tick.
#[derive(Clone, Copy, Debug, PartialEq, Eq, Structural)]
pub struct Acceleration(pub Vec2);

/// The dynamic state of one body.
#[derive(Clone, Copy, Debug, PartialEq, Eq, Structural)]
pub struct DynamicBody {
    pub mass: Mass,
    pub velocity: Velocity,
    pub acceleration: Acceleration,
    /// How many other bodies overlapped this one at the last tick.
    pub n_collisions: usize,
}

/// The stable identity of a body.
#[derive(Clone, Copy, Debug, PartialEq, Eq, Structural)]
pub struct Ball(pub usize);

/// The radius of a body.
#[derive(Clone, Copy, Debug, PartialEq, Eq, Structural)]
pub struct Radius(pub i64);

/// One body of the simulation: its identity, position, size and dynamics.
#[derive(Clone, Copy, Debug, PartialEq, Eq, Structural)]
pub struct BallState {
    pub ball: Ball,
    pub position: Vec2,
    pub radius: Radius,
    pub body: DynamicBody,
}

/// Each component of `v` divided by `d`, rounded down, then clamped.
pub open spec fn scaled_down(v: Vec2, d: int) -> Vec2 {
    Vec2 {
        x: clamp_spec(floor_div(v.x as int, d)) as i64,
        y: clamp_spec(floor_div(v.y as int, d)) as i64,
    }
}

impl DynamicBody {
    pub open spec fn wf(&self) -> bool {
        &&& 1 <= self.mass.0 <= LIMIT
        &&& in_bounds(self.velocity.0)
        &&& in_bounds(self.acceleration.0)
    }

    /// Sets the acceleration to `force / mass` (rounded down, clamped).
    pub fn apply_force(&mut self, force: Vec2)
        requires
            old(self).wf(),
        ensures
            final(self).wf(),
            *final(self) == (DynamicBody {
                acceleration: Acceleration(scaled_down(force, old(self).mass.0 as int)),
                ..*old(self)
            }),
    {
        let m = self.mass.0 as i128;
        let x = clamp(div_floor(force.x as i128, m));
        let y = clamp(div_floor(force.y as i128, m));
        self.acceleration = Acceleration(Vec2 { x, y });
    }

    /// Sets the velocity to `impulse / mass` (rounded down, clamped).
    pub fn apply_impulse(&mut self, impulse: Vec2)
        requires
            old(self).wf(),
        ensures
            final(self).wf(),
            *final(self) == (DynamicBody {
                velocity: Velocity(scaled_down(impulse, old(self).mass.0 as int)),
                ..*old(self)
            }),
    {
        let m = self.mass.0 as i128;
        let x = clamp(div_floor(impulse.x as i128, m));
        let y = clamp(div_floor(impulse.y as i128, m));
        self.velocity = Velocity(Vec2 { x, y });
    }
}

impl Default for DynamicBody {
    fn default() -> (r: DynamicBody)
        ensures
            r.wf(),
            r.mass.0 == 1,
            r.velocity.0 == (Vec2 { x: 0, y: 0 }),
            r.acceleration.0 == (Vec2 { x: 0, y: 0 }),
            r.n_collisions == 0,
    {
        DynamicBody {
            mass: Mass(1),
            velocity: Velocity(Vec2 { x: 0, y: 0 }),
            acceleration: Acceleration(Vec2 { x: 0, y: 0 }),
            n_collisions: 0,
        }
    }
}

impl BallState {
    pub open spec fn wf(&self) -> bool {
        &&& self.body.wf()
        &&& in_bounds(self.position)
        &&& 0 <= self.radius.0 <= LIMIT
    }
}

/// Every body of the store is well-formed.
pub open spec fn all_wf(bodies: Seq<BallState>) -> bool {
    forall|i: int| 0 <= i < bodies.len() ==> (#[trigger] bodies[i]).wf()
}

/// The sum of the forces that the sources exert on a body at `p`.
pub open spec fn total_force(gravities: Seq<Gravity>, p: Vec2) -> (int, int)
    decreases gravities.len(),
{
    if gravities.len() == 0 {
        (0, 0)
    } else {
        let rest = total_force(gravities.drop_last(), p);
        let last = gravities.last();
        let f = gravity_force(last.center, last.strength as int, p);
        (rest.0 + f.0, rest.1 + f.1)
    }
}

/// `b` with its acceleration recomputed from the sources: the summed force
/// divided by its mass.
pub open spec fn accelerated(b: BallState, gravities: Seq<Gravity>) -> BallState {
    let f = total_force(gravities, b.position);
    let m = b.body.mass.0 as int;
    BallState {
        body: DynamicBody {
            acceleration: Acceleration(
                Vec2 {
                    x: clamp_spec(floor_div(f.0, m)) as i64,
                    y: clamp_spec(floor_div(f.1, m)) as i64,
                },
            ),
            ..b.body
        },
        ..b
    }
}

/// The velocity of `b` after `dt`: `v + a * dt`, clamped.
pub open spec fn stepped_velocity(b: BallState, dt: int) -> Vec2 {
    Vec2 {
        x: clamp_spec(b.body.velocity.0.x + b.body.acceleration.0.x * dt) as i64,
        y: clamp_spec(b.body.velocity.0.y + b.body.acceleration.0.y * dt) as i64,
    }
}

/// `b` after `dt`: the new velocity, then the position moved by it.
pub open spec fn stepped(b: BallState, dt: int) -> BallState {
    let v = stepped_velocity(b, dt);
    BallState {
        position: Vec2 {
            x: clamp_spec(b.position.x + v.x * dt) as i64,
            y: clamp_spec(b.position.y + v.y * dt) as i64,
        },
        body: DynamicBody { velocity: Velocity(v), ..b.body },
        ..b
    }
}

impl DynamicBody {
    /// Recomputes each body's acceleration from the summed pull of all
    /// sources; with no source the acceleration becomes zero.
    pub fn apply_gravity(bodies: &mut Vec<BallState>, gravities: &Vec<Gravity>)
        requires
            all_wf(old(bodies)@),
            forall|k: int| 0 <= k < gravities@.len() ==> (#[trigger] gravities@[k]).wf(),
        ensures
            all_wf(final(bodies)@),
            final(bodies)@.len() == old(bodies)@.len(),
            forall|i: int| 0 <= i < final(bodies)@.len()
                ==> #[trigger] final(bodies)@[i] == accelerated(old(bodies)@[i], gravities@),
    {
        let ghost start = bodies@;
        let mut i: usize = 0;
        while i < bodies.len()
            invariant
                i <= bodies@.len(),
                bodies@.len() == start.len(),
                all_wf(start),
                all_wf(bodies@),
                forall|k: int| 0 <= k < gravities@.len() ==> (#[trigger] gravities@[k]).wf(),
                forall|j: int| 0 <= j < i ==> #[trigger] bodies@[j] == accelerated(start[j], gravities@),
                forall|j: int| i <= j < bodies@.len() ==> #[trigger] bodies@[j] == start[j],
            decreases bodies@.len() - i,
        {
            let b = bodies[i];
            assert(b.wf());
            let mut fx: i128 = 0;
            let mut fy: i128 = 0;
            let mut k: usize = 0;
            while k < gravities.len()
                invariant
                    k <= gravities@.len(),
                    b.wf(),
                    forall|k2: int| 0 <= k2 < gravities@.len() ==> (#[trigger] gravities@[k2]).wf(),
                    (fx as int, fy as int) == total_force(gravities@.subrange(0, k as int), b.position),
                    -k * (2 * LIMIT * STRENGTH_LIMIT) <= fx <= k * (2 * LIMIT * STRENGTH_LIMIT),
                    -k * (2 * LIMIT * STRENGTH_LIMIT) <= fy <= k * (2 * LIMIT * STRENGTH_LIMIT),
                decreases gravities@.len() - k,
            {
                let f = gravities[k].apply_gravity(b.body.mass, b.position);
                proof {
                    let pre = gravities@.subrange(0, k as int + 1);
                    assert(pre.drop_last() =~= gravities@.subrange(0, k as int));
                    assert(pre.last() == gravities@[k as int]);
                    assert(k < 0x1_0000_0000_0000_0000);
                    let c = 2 * LIMIT * STRENGTH_LIMIT;
                    assert(-(k + 1) * c <= fx + f.x <= (k + 1) * c && -(k + 1) * c <= fy + f.y <= (k + 1) * c
                        && -(0x1_0000_0000_0000_0000 * c) <= fx + f.x <= 0x1_0000_0000_0000_0000 * c
                        && -(0x1_0000_0000_0000_0000 * c) <= fy + f.y <= 0x1_0000_0000_0000_0000 * c) by (nonlinear_arith)
                        requires
                            c == 2 * LIMIT * STRENGTH_LIMIT,
                            k < 0x1_0000_0000_0000_0000,
                            -k * c <= fx <= k * c,
                            -k * c <= fy <= k * c,
                            -c <= f.x <= c,
                            -c <= f.y <= c,
                    ;
                    assert(0x1_0000_0000_0000_0000 * c < 0x7fff_ffff_ffff_ffff_ffff_ffff_ffff_ffff);
                }
                fx = fx + f.x as i128;
                fy = fy + f.y as i128;
                k = k + 1;
            }
            assert(gravities@.subrange(0, gravities@.len() as int) =~= gravities@);
            assert(-DIV_RANGE <= fx <= DIV_RANGE && -DIV_RANGE <= fy <= DIV_RANGE) by (nonlinear_arith)
                requires
                    k < 0x1_0000_0000_0000_0000,
                    -k * (2 * LIMIT * STRENGTH_LIMIT) <= fx <= k * (2 * LIMIT * STRENGTH_LIMIT),
                    -k * (2 * LIMIT * STRENGTH_LIMIT) <= fy <= k * (2 * LIMIT * STRENGTH_LIMIT),
            ;
            let m = b.body.mass.0 as i128;
            let ax = clamp(div_floor(fx, m));
            let ay = clamp(div_floor(fy, m));
            let nb = BallState {
                body: DynamicBody { acceleration: Acceleration(Vec2 { x: ax, y: ay }), ..b.body },
                ..b
            };
            bodies.set(i, nb);
            i = i + 1;
        }
    }

    /// Advances every body by `dt` (velocity from acceleration, then
    /// position from the new velocity) and rebuilds the grid from scratch:
    /// afterwards it holds exactly one collider per body, whose id is the
    /// body's index in `bodies`.
    pub fn apply_physics(bodies: &mut Vec<BallState>, dt: i64, grid: &mut Grid)
        requires
            all_wf(old(bodies)@),
            old(grid).wf(),
            0 <= dt <= LIMIT,
        ensures
            all_wf(final(bodies)@),
            final(bodies)@.len() == old(bodies)@.len(),
            forall|i: int| 0 <= i < final(bodies)@.len()
                ==> #[trigger] final(bodies)@[i] == stepped(old(bodies)@[i], dt as int),
            final(grid).wf(),
            final(grid).cell_size_spec() == old(grid).cell_size_spec(),
            final(grid).radius_spec() == old(grid).radius_spec(),
            forall|c: ColliderDesc| #[trigger] final(grid).holds(c) <==> exists|i: int|
                0 <= i < final(bodies)@.len() && c == collider_of(#[trigger] final(bodies)@[i]),
    {
        grid.clear();
        let ghost start = bodies@;
        let mut i: usize = 0;
        while i < bodies.len()
            invariant
                i <= bodies@.len(),
                bodies@.len() == start.len(),
                0 <= dt <= LIMIT,
                all_wf(start),
                all_wf(bodies@),
                grid.wf(),
                grid.cell_size_spec() == old(grid).cell_size_spec(),
                grid.radius_spec() == old(grid).radius_spec(),
                forall|j: int| 0 <= j < i ==> #[trigger] bodies@[j] == stepped(start[j], dt as int),
                forall|j: int| i <= j < bodies@.len() ==> #[trigger] bodies@[j] == start[j],
                forall|c: ColliderDesc| #[trigger] grid.holds(c) <==> exists|j: int|
                    0 <= j < i && c == collider_of(#[trigger] bodies@[j]),
            decreases bodies@.len() - i,
        {
            let b = bodies[i];
            assert(b.wf());
            let d = dt as i128;
            let v = b.body.velocity.0;
            let a = b.body.acceleration.0;
            assert(-LIMIT * LIMIT <= a.x * d <= LIMIT * LIMIT && -LIMIT * LIMIT <= a.y * d <= LIMIT * LIMIT) by (nonlinear_arith)
                requires -LIMIT <= a.x <= LIMIT, -LIMIT <= a.y <= LIMIT, 0 <= d <= LIMIT;
            let nv = Vec2 { x: clamp(v.x as i128 + a.x as i128 * d), y: clamp(v.y as i128 + a.y as i128 * d) };
            assert(-LIMIT * LIMIT <= nv.x * d <= LIMIT * LIMIT && -LIMIT * LIMIT <= nv.y * d <= LIMIT * LIMIT) by (nonlinear_arith)
                requires -LIMIT <= nv.x <= LIMIT, -LIMIT <= nv.y <= LIMIT, 0 <= d <= LIMIT;
            let np = Vec2 { x: clamp(b.position.x as i128 + nv.x as i128 * d), y: clamp(b.position.y as i128 + nv.y as i128 * d) };
            let nb = BallState {
                position: np,
                body: DynamicBody { velocity: Velocity(nv), ..b.body },
                ..b
            };
            let ghost before = bodies@;
            bodies.set(i, nb);
            grid.add(ColliderDesc { id: b.ball.0, position: np });
            proof {
                assert(collider_of(bodies@[i as int]) == (ColliderDesc { id: b.ball.0, position: np }));
                assert forall|c: ColliderDesc| #[trigger] grid.holds(c) <==> exists|j: int|
                    0 <= j < i + 1 && c == collider_of(#[trigger] bodies@[j]) by {
                    if exists|j: int| 0 <= j < i && c == collider_of(#[trigger] before[j]) {
                        let j = choose|j: int| 0 <= j < i && c == collider_of(#[trigger] before[j]);
                        assert(bodies@[j] == before[j]);
                    }
                    if exists|j: int| 0 <= j < i + 1 && c == collider_of(#[trigger] bodies@[j]) {
                        let j = choose|j: int| 0 <= j < i + 1 && c == collider_of(#[trigger] bodies@[j]);
                        if j < i {
                            assert(bodies@[j] == before[j]);
                        }
                    }
                }
            }
            i = i + 1;
        }
    }
}

/// Moving without forces: with no gravity source a body's acceleration
/// becomes zero, its velocity stays as it was and its position advances by
/// exactly `velocity * dt` (where that stays in bounds).
pub proof fn lemma_free_motion(b: BallState, dt: int)
    requires
        b.wf(),
        0 <= dt <= LIMIT,
        -LIMIT <= b.position.x + b.body.velocity.0.x * dt <= LIMIT,
        -LIMIT <= b.position.y + b.body.velocity.0.y * dt <= LIMIT,
    ensures
        accelerated(b, Seq::<Gravity>::empty()).body.acceleration.0 == (Vec2 { x: 0, y: 0 }),
        stepped(accelerated(b, Seq::<Gravity>::empty()), dt).body.velocity == b.body.velocity,
        stepped(accelerated(b, Seq::<Gravity>::empty()), dt).position.x == b.position.x + b.body.velocity.0.x * dt,
        stepped(accelerated(b, Seq::<Gravity>::empty()), dt).position.y == b.position.y + b.body.velocity.0.y * dt,
{
    let a = accelerated(b, Seq::<Gravity>::empty());
    assert(total_force(Seq::<Gravity>::empty(), b.position) == (0int, 0int));
    assert(floor_div(0, b.body.mass.0 as int) == 0);
    assert(a.body.acceleration.0.x == 0 && a.body.acceleration.0.y == 0);
    assert(a.body.acceleration.0.x * dt == 0) by (nonlinear_arith) requires a.body.acceleration.0.x == 0;
    assert(a.body.acceleration.0.y * dt == 0) by (nonlinear_arith) requires a.body.acceleration.0.y == 0;
}

/// Numerator of the damping factor applied to a velocity on collision.
pub const DAMPING_NUM: i64 = 2;

/// Denominator of the damping factor; the factor is `DAMPING_NUM / DAMPING_DEN`.
pub const DAMPING_DEN: i64 = 5;

/// A velocity reversed and damped by `DAMPING_NUM / DAMPING_DEN`, rounded down.
pub open spec fn damped(v: Vec2) -> Vec2 {
    Vec2 {
        x: floor_div(-DAMPING_NUM * v.x, DAMPING_DEN as int) as i64,
        y: floor_div(-DAMPING_NUM * v.y, DAMPING_DEN as int) as i64,
    }
}

/// The shift that moves `me` towards `other` by half their overlap (a
/// negative overlap pushes them apart), along the line between them.
/// Only meaningful when the two are not at the same position.
pub open spec fn pair_shift(me: BallState, other: BallState) -> (int, int) {
    let d = floor_sqrt(sq_dist(me.position, other.position));
    let overlap = floor_div(d - me.radius.0 - other.radius.0, 2);
    (
        floor_div((other.position.x - me.position.x) * overlap, d),
        floor_div((other.position.y - me.position.y) * overlap, d),
    )
}

/// The outcome of resolving `me` against `other`: each takes the other's
/// velocity reversed and damped, `me` moves by the pair shift and `other`
/// by its opposite. Two bodies at the same position are left as they are.
pub open spec fn resolved(me: BallState, other: BallState) -> (BallState, BallState) {
    if sq_dist(me.position, other.position) == 0 {
        (me, other)
    } else {
        let s = pair_shift(me, other);
        (
            BallState {
                position: Vec2 {
                    x: clamp_spec(me.position.x + s.0) as i64,
                    y: clamp_spec(me.position.y + s.1) as i64,
                },
                body: DynamicBody { velocity: Velocity(damped(other.body.velocity.0)), ..me.body },
                ..me
            },
            BallState {
                position: Vec2 {
                    x: clamp_spec(other.position.x - s.0) as i64,
                    y: clamp_spec(other.position.y - s.1) as i64,
                },
                body: DynamicBody { velocity: Velocity(damped(me.body.velocity.0)), ..other.body },
                ..other
            },
        )
    }
}

/// Resolves the overlap of two bodies; see `resolved`.
pub fn resolve_pair(me: &BallState, other: &BallState) -> (r: (BallState, BallState))
    requires
        me.wf(),
        other.wf(),
    ensures
        r == resolved(*me, *other),
        r.0.wf(),
        r.1.wf(),
{
    let n = sq_distance(me.position, other.position);
    if n == 0 {
        return (*me, *other);
    }
    let d = isqrt(n) as i128;
    let gap = d - me.radius.0 as i128 - other.radius.0 as i128;
    let overlap = div_floor(gap, 2);
    let dx = other.position.x as i128 - me.position.x as i128;
    let dy = other.position.y as i128 - me.position.y as i128;
    assert(-0x1_0000_0000_0000_0000_0000_0000_0000 <= dx * overlap <= 0x1_0000_0000_0000_0000_0000_0000_0000
        && -0x1_0000_0000_0000_0000_0000_0000_0000 <= dy * overlap <= 0x1_0000_0000_0000_0000_0000_0000_0000)
        by (nonlinear_arith)
        requires
            -0x1_0000_0000_0000 <= dx <= 0x1_0000_0000_0000,
            -0x1_0000_0000_0000 <= dy <= 0x1_0000_0000_0000,
            -0x1_0000_0000_0000 <= overlap <= 0x1_0000_0000_0000,
    ;
    let sx = div_floor(dx * overlap, d);
    let sy = div_floor(dy * overlap, d);
    let vm = me.body.velocity.0;
    let vo = other.body.velocity.0;
    let dm = Vec2 {
        x: div_floor(-(DAMPING_NUM as i128) * vo.x as i128, DAMPING_DEN as i128) as i64,
        y: div_floor(-(DAMPING_NUM as i128) * vo.y as i128, DAMPING_DEN as i128) as i64,
    };
    let d_o = Vec2 {
        x: div_floor(-(DAMPING_NUM as i128) * vm.x as i128, DAMPING_DEN as i128) as i64,
        y: div_floor(-(DAMPING_NUM as i128) * vm.y as i128, DAMPING_DEN as i128) as i64,
    };
    proof {
        assert(-LIMIT <= floor_div(-DAMPING_NUM * vo.x, DAMPING_DEN as int) <= LIMIT) by (nonlinear_arith) requires -LIMIT <= vo.x <= LIMIT, floor_div(-DAMPING_NUM * vo.x, DAMPING_DEN as int) == (-2 * vo.x) / 5, DAMPING_NUM == 2, DAMPING_DEN == 5;
        assert(-LIMIT <= floor_div(-DAMPING_NUM * vo.y, DAMPING_DEN as int) <= LIMIT) by (nonlinear_arith) requires -LIMIT <= vo.y <= LIMIT, floor_div(-DAMPING_NUM * vo.y, DAMPING_DEN as int) == (-2 * vo.y) / 5, DAMPING_NUM == 2, DAMPING_DEN == 5;
        assert(-LIMIT <= floor_div(-DAMPING_NUM * vm.x, DAMPING_DEN as int) <= LIMIT) by (nonlinear_arith) requires -LIMIT <= vm.x <= LIMIT, floor_div(-DAMPING_NUM * vm.x, DAMPING_DEN as int) == (-2 * vm.x) / 5, DAMPING_NUM == 2, DAMPING_DEN == 5;
        assert(-LIMIT <= floor_div(-DAMPING_NUM * vm.y, DAMPING_DEN as int) <= LIMIT) by (nonlinear_arith) requires -LIMIT <= vm.y <= LIMIT, floor_div(-DAMPING_NUM * vm.y, DAMPING_DEN as int) == (-2 * vm.y) / 5, DAMPING_NUM == 2, DAMPING_DEN == 5;
    }
    let new_me = BallState {
        position: Vec2 { x: clamp(me.position.x as i128 + sx), y: clamp(me.position.y as i128 + sy) },
        body: DynamicBody { velocity: Velocity(dm), ..me.body },
        ..*me
    };
    let new_other = BallState {
        position: Vec2 { x: clamp(other.position.x as i128 - sx), y: clamp(other.position.y as i128 - sy) },
        body: DynamicBody { velocity: Velocity(d_o), ..other.body },
        ..*other
    };
    (new_me, new_other)
}

/// Resolving a pair moves the two bodies by opposite shifts, so each moves
/// as far as the other (where neither reaches the edge of the world).
pub proof fn lemma_symmetric_correction(me: BallState, other: BallState)
    requires
        me.wf(),
        other.wf(),
        sq_dist(me.position, other.position) != 0,
        -LIMIT <= me.position.x + pair_shift(me, other).0 <= LIMIT,
        -LIMIT <= me.position.y + pair_shift(me, other).1 <= LIMIT,
        -LIMIT <= other.position.x - pair_shift(me, other).0 <= LIMIT,
        -LIMIT <= other.position.y - pair_shift(me, other).1 <= LIMIT,
    ensures
        resolved(me, other).0.position.x - me.position.x == -(resolved(me, other).1.position.x - other.position.x),
        resolved(me, other).0.position.y - me.position.y == -(resolved(me, other).1.position.y - other.position.y),
{
}

/// A colour signal for the rendering side: the share of red and of blue,
/// in percent, that a body should show.
#[derive(Clone, Copy, Debug, PartialEq, Eq, Structural)]
pub struct Feedback {
    pub id: usize,
    pub red: u32,
    pub blue: u32,
}

/// Why a collision pass could not run.
#[derive(Clone, Copy, Debug, PartialEq, Eq, Structural)]
pub enum CollisionError {
    /// The grid holds a collider whose id names no body.
    LookupMiss(usize),
}

/// Red share, in percent, for `n` collisions: five per collision, at most 100.
pub open spec fn red_level(n: int) -> int {
    if n >= 20 {
        100
    } else {
        n * 5
    }
}

/// The signal to emit for body `id` when its collision count goes from
/// `previous` to `count`: none when the count is unchanged.
pub open spec fn feedback_spec(previous: int, count: int, id: usize) -> Option<Feedback> {
    if previous == count {
        None
    } else {
        Some(Feedback { id, red: red_level(count) as u32, blue: (100 - red_level(count)) as u32 })
    }
}

/// The colour signal for a body whose collision count went from `previous`
/// to `count`, or `None` when it did not change.
pub fn collision_feedback(previous: usize, count: usize, id: usize) -> (r: Option<Feedback>)
    ensures
        r == feedback_spec(previous as int, count as int, id),
{
    if previous == count {
        None
    } else {
        let red: u32 = if count >= 20 { 100 } else { count as u32 * 5 };
        Some(Feedback { id, red, blue: 100 - red })
    }
}

/// The ids of the bodies, slot by slot.
pub open spec fn ball_ids(bodies: Seq<BallState>) -> Seq<usize> {
    bodies.map_values(|b: BallState| b.ball.0)
}

/// No two slots hold the same id.
pub open spec fn ids_unique(ids: Seq<usize>) -> bool {
    forall|i: int, j: int| 0 <= i < ids.len() && 0 <= j < ids.len() && i != j ==> #[trigger] ids[i] != #[trigger] ids[j]
}

/// The slot that holds `id`.
pub open spec fn slot_in(ids: Seq<usize>, id: usize) -> int {
    choose|i: int| 0 <= i < ids.len() && ids[i] == id
}

proof fn lemma_slot_in(ids: Seq<usize>, id: usize)
    requires
        ids.contains(id),
    ensures
        0 <= slot_in(ids, id) < ids.len(),
        ids[slot_in(ids, id)] == id,
{
}

proof fn lemma_slot_of(ids: Seq<usize>, i: int)
    requires
        ids_unique(ids),
        0 <= i < ids.len(),
    ensures
        slot_in(ids, ids[i]) == i,
{
    assert(ids.contains(ids[i]));
    lemma_slot_in(ids, ids[i]);
}

/// Every collider of the grid carries the id of some body.
pub open spec fn ids_known(grid: &Grid, ids: Seq<usize>) -> bool {
    forall|c: ColliderDesc| #[trigger] grid.holds(c) ==> ids.contains(c.id)
}

/// The collider that stands for `b` in the grid.
pub open spec fn collider_of(b: BallState) -> ColliderDesc {
    ColliderDesc { id: b.ball.0, position: b.position }
}

/// A map from each body's id to its slot.
fn slot_map(bodies: &Vec<BallState>) -> (r: HashMap<usize, usize>)
    requires
        ids_unique(ball_ids(bodies@)),
    ensures
        forall|id: usize| #[trigger] r@.contains_key(id) <==> ball_ids(bodies@).contains(id),
        forall|id: usize| #[trigger] r@.contains_key(id) ==> r@[id] as int == slot_in(ball_ids(bodies@), id),
{
    let ghost ids = ball_ids(bodies@);
    let mut m: HashMap<usize, usize> = HashMap::new();
    let mut i: usize = 0;
    while i < bodies.len()
        invariant
            i <= bodies@.len(),
            ids == ball_ids(bodies@),
            ids_unique(ids),
            forall|id: usize| #[trigger] m@.contains_key(id) <==> exists|j: int| 0 <= j < i && #[trigger] ids[j] == id,
            forall|id: usize| #[trigger] m@.contains_key(id) ==> m@[id] < i && ids[m@[id] as int] == id,
        decreases bodies@.len() - i,
    {
        let id = bodies[i].ball.0;
        m.insert(id, i);
        proof {
            assert(ids[i as int] == id);
        }
        i = i + 1;
    }
    proof {
        assert forall|id: usize| #[trigger] m@.contains_key(id) <==> ids.contains(id) by {
            if ids.contains(id) {
                let j = choose|j: int| 0 <= j < ids.len() && ids[j] == id;
                assert(ids[j] == id);
            }
        }
        assert forall|id: usize| #[trigger] m@.contains_key(id) implies m@[id] as int == slot_in(ids, id) by {
            lemma_slot_of(ids, m@[id] as int);
        }
    }
    m
}

/// `a` and `b` are the same body, with the same size, mass and acceleration.
pub open spec fn same_identity(a: BallState, b: BallState) -> bool {
    &&& a.ball == b.ball
    &&& a.radius == b.radius
    &&& a.body.mass == b.body.mass
    &&& a.body.acceleration == b.body.acceleration
}

/// The first collider of the grid whose id is not a key of `slots`, if any.
fn find_unknown_id(grid: &Grid, slots: &HashMap<usize, usize>) -> (r: Option<usize>)
    requires
        grid.wf(),
    ensures
        r is None <==> forall|c: ColliderDesc| #[trigger] grid.holds(c) ==> slots@.contains_key(c.id),
        r matches Some(id) ==> !slots@.contains_key(id) && exists|c: ColliderDesc| grid.holds(c) && c.id == id,
{
    let cells = grid.get_cells();
    let mut a: usize = 0;
    while a < cells.len()
        invariant
            cells@ == grid.cells_spec(),
            a <= cells@.len(),
            forall|a2: int, b2: int| 0 <= a2 < a && 0 <= b2 < cells@[a2].colliders().len()
                ==> slots@.contains_key((#[trigger] cells@[a2].colliders()[b2]).id),
        decreases cells@.len() - a,
    {
        let data = cells[a].get_colliders();
        let mut b: usize = 0;
        while b < data.len()
            invariant
                cells@ == grid.cells_spec(),
                a < cells@.len(),
                data@ == cells@[a as int].colliders(),
                b <= data@.len(),
                forall|a2: int, b2: int| 0 <= a2 < a && 0 <= b2 < cells@[a2].colliders().len()
                    ==> slots@.contains_key((#[trigger] cells@[a2].colliders()[b2]).id),
                forall|b2: int| 0 <= b2 < b ==> slots@.contains_key((#[trigger] data@[b2]).id),
            decreases data@.len() - b,
        {
            if !slots.contains_key(&data[b].id) {
                assert(grid.holds(data@[b as int])) by {
                    assert(grid.cells_spec()[a as int].colliders()[b as int] == data@[b as int]);
                }
                return Some(data[b].id);
            }
            b = b + 1;
        }
        proof {
            assert forall|a2: int, b2: int| 0 <= a2 < a + 1 && 0 <= b2 < cells@[a2].colliders().len()
                implies slots@.contains_key((#[trigger] cells@[a2].colliders()[b2]).id) by {
                if a2 == a {
                    assert(data@[b2] == cells@[a2].colliders()[b2]);
                }
            }
        }
        a = a + 1;
    }
    None
}

/// `f` is the signal for some body of `bodies` and some change of its count.
pub open spec fn signal_of(f: Feedback, bodies: Seq<BallState>) -> bool {
    exists|i: int, n: int, p: int|
        0 <= i < bodies.len() && 0 <= p && 0 <= n && Some(f) == #[trigger] feedback_spec(p, n, bodies[i].ball.0)
}

/// `now` keeps the bodies of `start`: as many, with the same identities,
/// sizes, masses and accelerations, and all well-formed.
pub open spec fn kept(start: Seq<BallState>, now: Seq<BallState>) -> bool {
    &&& now.len() == start.len()
    &&& all_wf(now)
    &&& forall|i: int| 0 <= i < now.len() ==> same_identity(#[trigger] now[i], start[i])
}

/// `b` with its collision count set to `n`.
pub open spec fn with_count(b: BallState, n: int) -> BallState {
    BallState { body: DynamicBody { n_collisions: n as usize, ..b.body }, ..b }
}

/// The bodies after resolving body `me` against each collider of `list`
/// in turn, every pair from the state the previous ones left.
pub open spec fn resolve_against(ids: Seq<usize>, bodies: Seq<BallState>, me: int, list: Seq<ColliderDesc>) -> Seq<BallState>
    decreases list.len(),
{
    if list.len() == 0 {
        bodies
    } else {
        let b = resolve_against(ids, bodies, me, list.drop_last());
        let o = slot_in(ids, list.last().id);
        let r = resolved(b[me], b[o]);
        b.update(o, r.1).update(me, r.0)
    }
}

/// The bodies and the signals so far, after the collision step of the
/// collider `c`: `c`'s body is resolved against everything near it, then
/// takes the number found as its count, with a signal if that changed it.
pub open spec fn settle(grid: &Grid, ids: Seq<usize>, st: (Seq<BallState>, Seq<Feedback>), c: ColliderDesc) -> (Seq<BallState>, Seq<Feedback>) {
    let list = grid.collided_upto(c.position, 9);
    let slot = slot_in(ids, c.id);
    let b = resolve_against(ids, st.0, slot, list);
    let me = b[slot];
    match feedback_spec(me.body.n_collisions as int, list.len() as int, me.ball.0) {
        Some(f) => (b.update(slot, with_count(me, list.len() as int)), st.1.push(f)),
        None => (b, st.1),
    }
}

/// The collision steps of the first `j` colliders of `data`.
pub open spec fn settle_cell(grid: &Grid, ids: Seq<usize>, st: (Seq<BallState>, Seq<Feedback>), data: Seq<ColliderDesc>, j: int) -> (Seq<BallState>, Seq<Feedback>)
    decreases j,
{
    if j <= 0 {
        st
    } else {
        settle(grid, ids, settle_cell(grid, ids, st, data, j - 1), data[j - 1])
    }
}

/// The collision steps of every collider of the first `a` cells, cell by
/// cell, each in insertion order.
pub open spec fn settle_cells(grid: &Grid, ids: Seq<usize>, st: (Seq<BallState>, Seq<Feedback>), a: int) -> (Seq<BallState>, Seq<Feedback>)
    decreases a,
{
    if a <= 0 {
        st
    } else {
        let data = grid.cells_spec()[a - 1].colliders();
        settle_cell(grid, ids, settle_cells(grid, ids, st, a - 1), data, data.len() as int)
    }
}

impl DynamicBody {
    /// One collision pass. Cell by cell, and in each cell collider by
    /// collider, the colliders near the collider's position are resolved
    /// against it one after the other (each pair from the bodies' current
    /// state); then its collision count is set to the number found, and a
    /// colour signal is emitted, in this order, for each count that changed.
    /// Pairs are applied one after the other rather than accumulated, so
    /// where a body overlaps several others the outcome depends on this
    /// order, which the contract fixes.
    /// Colliders name bodies by id; each id is looked up once per pass.
    /// Fails, changing nothing, when a collider's id names no body.
    pub fn fix_collisions(bodies: &mut Vec<BallState>, grid: &Grid) -> (r: Result<Vec<Feedback>, CollisionError>)
        requires
            all_wf(old(bodies)@),
            ids_unique(ball_ids(old(bodies)@)),
            grid.wf(),
        ensures
            ids_known(grid, ball_ids(old(bodies)@)) <==> r is Ok,
            r matches Err(CollisionError::LookupMiss(id)) ==> !ball_ids(old(bodies)@).contains(id)
                && exists|c: ColliderDesc| grid.holds(c) && c.id == id,
            r is Err ==> final(bodies)@ == old(bodies)@,
            kept(old(bodies)@, final(bodies)@),
            r matches Ok(fb) ==> forall|k: int| 0 <= k < fb@.len() ==> signal_of(#[trigger] fb@[k], old(bodies)@),
            r matches Ok(fb) ==> (final(bodies)@, fb@) == settle_cells(
                grid,
                ball_ids(old(bodies)@),
                (old(bodies)@, Seq::<Feedback>::empty()),
                grid.cells_spec().len() as int,
            ),
    {
        let ghost ids = ball_ids(bodies@);
        let slots = slot_map(bodies);
        match find_unknown_id(grid, &slots) {
            Some(id) => {
                proof {
                    let c = choose|c: ColliderDesc| grid.holds(c) && c.id == id;
                    assert(!ids_known(grid, ids));
                }
                return Err(CollisionError::LookupMiss(id));
            },
            None => {},
        }
        let ghost start = bodies@;
        let mut out: Vec<Feedback> = Vec::new();
        let cells = grid.get_cells();
        let mut a: usize = 0;
        while a < cells.len()
            invariant
                cells@ == grid.cells_spec(),
                grid.wf(),
                a <= cells@.len(),
                ids == ball_ids(start),
                ids_unique(ids),
                forall|id: usize| #[trigger] slots@.contains_key(id) <==> ids.contains(id),
                forall|id: usize| #[trigger] slots@.contains_key(id) ==> slots@[id] as int == slot_in(ids, id),
                forall|c: ColliderDesc| #[trigger] grid.holds(c) ==> slots@.contains_key(c.id),
                kept(start, bodies@),
                forall|k: int| 0 <= k < out@.len() ==> signal_of(#[trigger] out@[k], start),
                (bodies@, out@) == settle_cells(grid, ids, (start, Seq::<Feedback>::empty()), a as int),
            decreases cells@.len() - a,
        {
            let data = cells[a].get_colliders();
            let mut b: usize = 0;
            while b < data.len()
                invariant
                    cells@ == grid.cells_spec(),
                    grid.wf(),
                    a < cells@.len(),
                    data@ == cells@[a as int].colliders(),
                    b <= data@.len(),
                    ids == ball_ids(start),
                    ids_unique(ids),
                    forall|id: usize| #[trigger] slots@.contains_key(id) <==> ids.contains(id),
                    forall|id: usize| #[trigger] slots@.contains_key(id) ==> slots@[id] as int == slot_in(ids, id),
                    forall|c: ColliderDesc| #[trigger] grid.holds(c) ==> slots@.contains_key(c.id),
                    kept(start, bodies@),
                    forall|k: int| 0 <= k < out@.len() ==> signal_of(#[trigger] out@[k], start),
                    (bodies@, out@) == settle_cell(
                        grid,
                        ids,
                        settle_cells(grid, ids, (start, Seq::<Feedback>::empty()), a as int),
                        data@,
                        b as int,
                    ),
                decreases data@.len() - b,
            {
                let me = data[b];
                assert(grid.holds(me)) by {
                    assert(grid.cells_spec()[a as int].colliders()[b as int] == me);
                }
                let me_slot = *slots.get(&me.id).unwrap();
                proof {
                    lemma_slot_in(ids, me.id);
                }
                let collided = grid.get_collided(me.position);
                let n = collided.len();
                let ghost at_me = bodies@;
                let mut j: usize = 0;
                while j < collided.len()
                    invariant
                        grid.wf(),
                        ids == ball_ids(start),
                        ids_unique(ids),
                        forall|id: usize| #[trigger] slots@.contains_key(id) <==> ids.contains(id),
                        forall|id: usize| #[trigger] slots@.contains_key(id) ==> slots@[id] as int == slot_in(ids, id),
                        forall|c: ColliderDesc| #[trigger] grid.holds(c) ==> slots@.contains_key(c.id),
                        me_slot as int == slot_in(ids, me.id),
                        me_slot < start.len(),
                        kept(start, bodies@),
                        j <= collided@.len(),
                        forall|m: int| 0 <= m < collided@.len() ==> grid.holds(#[trigger] collided@[m]),
                        forall|k: int| 0 <= k < out@.len() ==> signal_of(#[trigger] out@[k], start),
                        bodies@ == resolve_against(ids, at_me, me_slot as int, collided@.subrange(0, j as int)),
                    decreases collided@.len() - j,
                {
                    let other_id = collided[j].id;
                    assert(grid.holds(collided@[j as int]));
                    let other_slot = *slots.get(&other_id).unwrap();
                    proof {
                        lemma_slot_in(ids, other_id);
                    }
                    let (new_me, new_other) = resolve_pair(&bodies[me_slot], &bodies[other_slot]);
                    let ghost mid = bodies@;
                    bodies.set(other_slot, new_other);
                    bodies.set(me_slot, new_me);
                    proof {
                        assert(collided@.subrange(0, j as int + 1).drop_last() =~= collided@.subrange(0, j as int));
                        assert(collided@.subrange(0, j as int + 1).last() == collided@[j as int]);
                        assert forall|i: int| 0 <= i < bodies@.len() implies same_identity(#[trigger] bodies@[i], start[i])
                            && bodies@[i].wf() by {
                            assert(same_identity(mid[i], start[i]));
                        }
                    }
                    j = j + 1;
                }
                assert(collided@.subrange(0, collided@.len() as int) =~= collided@);
                let prev = bodies[me_slot].body.n_collisions;
                let fb = collision_feedback(prev, n, bodies[me_slot].ball.0);
                match fb {
                    Some(f) => {
                        let mut nb = bodies[me_slot];
                        nb.body.n_collisions = n;
                        let ghost mid = bodies@;
                        bodies.set(me_slot, nb);
                        out.push(f);
                        proof {
                            assert forall|i: int| 0 <= i < bodies@.len() implies same_identity(#[trigger] bodies@[i], start[i])
                                && bodies@[i].wf() by {
                                assert(same_identity(mid[i], start[i]));
                            }
                            assert(bodies@[me_slot as int].ball == start[me_slot as int].ball);
                            assert(Some(f) == feedback_spec(prev as int, n as int, start[me_slot as int].ball.0));
                            assert(signal_of(f, start));
                            assert forall|k: int| 0 <= k < out@.len() implies signal_of(#[trigger] out@[k], start) by {
                                if k == out@.len() - 1 {
                                    assert(out@[k] == f);
                                }
                            }
                        }
                    },
                    None => {},
                }
                assert(data@[b as int] == me);
                b = b + 1;
            }
            a = a + 1;
        }
        Ok(out)
    }
}

/// Each body after the gravity and integration phases of a tick.
pub open spec fn advanced(bodies: Seq<BallState>, gravities: Seq<Gravity>, dt: int) -> Seq<BallState> {
    bodies.map_values(|b: BallState| stepped(accelerated(b, gravities), dt))
}

impl BallState {
    /// A body at rest in acceleration, with the given identity, radius,
    /// position and velocity, and mass 1.
    pub fn new(id: usize, radius: i64, position: Vec2, velocity: Vec2) -> (r: BallState)
        requires
            0 <= radius <= LIMIT,
            in_bounds(position),
            in_bounds(velocity),
        ensures
            r.wf(),
            r.ball == Ball(id),
            r.radius == Radius(radius),
            r.position == position,
            r.body.velocity == Velocity(velocity),
            r.body.mass == Mass(1),
            r.body.acceleration.0 == (Vec2 { x: 0, y: 0 }),
            r.body.n_collisions == 0,
    {
        let body = DynamicBody { velocity: Velocity(velocity), ..DynamicBody::default() };
        BallState { ball: Ball(id), position, radius: Radius(radius), body }
    }
}

impl DynamicBody {
    /// One tick: accelerations from the gravity sources, then integration
    /// over `dt` with the grid rebuilt from the new positions, then one
    /// collision pass over that grid. The grid names every body by its
    /// index, so the pass always runs.
    pub fn tick(bodies: &mut Vec<BallState>, gravities: &Vec<Gravity>, grid: &mut Grid, dt: i64) -> (r: Vec<Feedback>)
        requires
            all_wf(old(bodies)@),
            ids_unique(ball_ids(old(bodies)@)),
            forall|k: int| 0 <= k < gravities@.len() ==> (#[trigger] gravities@[k]).wf(),
            old(grid).wf(),
            0 <= dt <= LIMIT,
        ensures
            final(bodies)@.len() == old(bodies)@.len(),
            all_wf(final(bodies)@),
            forall|i: int| 0 <= i < final(bodies)@.len() ==> (#[trigger] final(bodies)@[i]).ball == old(bodies)@[i].ball
                && final(bodies)@[i].radius == old(bodies)@[i].radius
                && final(bodies)@[i].body.mass == old(bodies)@[i].body.mass,
            final(grid).wf(),
            final(grid).cell_size_spec() == old(grid).cell_size_spec(),
            final(grid).radius_spec() == old(grid).radius_spec(),
            forall|k: int| 0 <= k < r@.len() ==> signal_of(#[trigger] r@[k], old(bodies)@),
            forall|c: ColliderDesc| #[trigger] final(grid).holds(c) <==> exists|i: int|
                0 <= i < old(bodies)@.len() && c == collider_of(
                    #[trigger] advanced(old(bodies)@, gravities@, dt as int)[i],
                ),
            (final(bodies)@, r@) == settle_cells(
                &*final(grid),
                ball_ids(old(bodies)@),
                (advanced(old(bodies)@, gravities@, dt as int), Seq::<Feedback>::empty()),
                final(grid).cells_spec().len() as int,
            ),
    {
        let ghost start = bodies@;
        DynamicBody::apply_gravity(bodies, gravities);
        DynamicBody::apply_physics(bodies, dt, grid);
        let ghost moved = bodies@;
        proof {
            assert(moved =~= advanced(start, gravities@, dt as int));
            assert forall|i: int| 0 <= i < bodies@.len() implies (#[trigger] bodies@[i]).ball == start[i].ball
                && bodies@[i].radius == start[i].radius && bodies@[i].body.mass == start[i].body.mass by {
                assert(bodies@[i] == stepped(accelerated(start[i], gravities@), dt as int));
            }
            assert(ball_ids(moved) =~= ball_ids(start));
            assert forall|c: ColliderDesc| #[trigger] grid.holds(c) implies ball_ids(moved).contains(c.id) by {
                let i = choose|i: int| 0 <= i < moved.len() && c == collider_of(#[trigger] moved[i]);
                assert(ball_ids(moved)[i] == c.id);
            }
        }
        let fb = DynamicBody::fix_collisions(bodies, grid).unwrap();
        proof {
            assert forall|k: int| 0 <= k < fb@.len() implies signal_of(#[trigger] fb@[k], start) by {
                assert(signal_of(fb@[k], moved));
                let (i, n, p) = choose|i: int, n: int, p: int|
                    0 <= i < moved.len() && 0 <= p && 0 <= n && Some(fb@[k]) == #[trigger] feedback_spec(p, n, moved[i].ball.0);
                assert(moved[i].ball == start[i].ball);
            }
            assert forall|i: int| 0 <= i < bodies@.len() implies (#[trigger] bodies@[i]).ball == start[i].ball
                && bodies@[i].radius == start[i].radius && bodies@[i].body.mass == start[i].body.mass by {
                assert(same_identity(bodies@[i], moved[i]));
                assert(moved[i].ball == start[i].ball);
            }
        }
        fb
    }
}

proof fn lemma_quiet_cell(grid: &Grid, ids: Seq<usize>, bodies: Seq<BallState>, data: Seq<ColliderDesc>, j: int)
    requires
        0 <= j <= data.len(),
        ids == ball_ids(bodies),
        forall|m: int| 0 <= m < data.len() ==> grid.holds(#[trigger] data[m]),
        ids_known(grid, ids),
        forall|c: ColliderDesc| #[trigger] grid.holds(c) ==> grid.collided_upto(c.position, 9).len() == 0,
        forall|i: int| 0 <= i < bodies.len() ==> (#[trigger] bodies[i]).body.n_collisions == 0,
    ensures
        settle_cell(grid, ids, (bodies, Seq::<Feedback>::empty()), data, j) == (bodies, Seq::<Feedback>::empty()),
    decreases j,
{
    if j > 0 {
        lemma_quiet_cell(grid, ids, bodies, data, j - 1);
        let c = data[j - 1];
        assert(grid.holds(c));
        lemma_slot_in(ids, c.id);
    }
}

/// A pass over a grid where no collider has another within the collision
/// radius, on bodies that had no collisions, changes no body and emits no
/// signal: far-apart bodies are left exactly as they were.
pub proof fn lemma_quiet_pass(grid: &Grid, bodies: Seq<BallState>)
    requires
        grid.wf(),
        ids_known(grid, ball_ids(bodies)),
        forall|c: ColliderDesc, d: ColliderDesc| grid.holds(c) && grid.holds(d) ==> !#[trigger] grid.near(d, c.position),
        forall|i: int| 0 <= i < bodies.len() ==> (#[trigger] bodies[i]).body.n_collisions == 0,
    ensures
        settle_cells(grid, ball_ids(bodies), (bodies, Seq::<Feedback>::empty()), grid.cells_spec().len() as int)
            == (bodies, Seq::<Feedback>::empty()),
{
    let ids = ball_ids(bodies);
    assert forall|c: ColliderDesc| #[trigger] grid.holds(c) implies grid.collided_upto(c.position, 9).len() == 0 by {
        grid.lemma_collided_held(c.position, 9);
        grid.lemma_collided_only_near(c.position, 9);
        let l = grid.collided_upto(c.position, 9);
        if l.len() > 0 {
            assert(grid.holds(l[0]));
            assert(grid.near(l[0], c.position));
        }
    }
    lemma_quiet_cells(grid, ids, bodies, grid.cells_spec().len() as int);
}

proof fn lemma_quiet_cells(grid: &Grid, ids: Seq<usize>, bodies: Seq<BallState>, a: int)
    requires
        grid.wf(),
        0 <= a <= grid.cells_spec().len(),
        ids == ball_ids(bodies),
        ids_known(grid, ids),
        forall|c: ColliderDesc| #[trigger] grid.holds(c) ==> grid.collided_upto(c.position, 9).len() == 0,
        forall|i: int| 0 <= i < bodies.len() ==> (#[trigger] bodies[i]).body.n_collisions == 0,
    ensures
        settle_cells(grid, ids, (bodies, Seq::<Feedback>::empty()), a) == (bodies, Seq::<Feedback>::empty()),
    decreases a,
{
    if a > 0 {
        lemma_quiet_cells(grid, ids, bodies, a - 1);
        let data = grid.cells_spec()[a - 1].colliders();
        assert forall|m: int| 0 <= m < data.len() implies grid.holds(#[trigger] data[m]) by {
            assert(grid.cells_spec()[a - 1].colliders()[m] == data[m]);
        }
        lemma_quiet_cell(grid, ids, bodies, data, data.len() as int);
    }
}

} // verus!
