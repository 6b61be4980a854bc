use vstd::prelude::*;

use crate::body::Mass;
use crate::geometry::{
    Vec2, LIMIT, in_bounds, sq_dist, floor_sqrt, floor_div, div_floor, isqrt, sq_distance,
};

verus! {

/// Largest pull strength of a gravity source.
pub const STRENGTH_LIMIT: i64 = 1_000_000;

/// A point attractor: every body is pulled towards `center` with a force
/// of magnitude `strength`, whatever its distance.
#[derive(Clone, Copy, Debug, PartialEq, Eq, Structural)]
pub struct Gravity {
    pub center: Vec2,
    pub strength: i64,
}

/// The force that a source at `center` of the given strength exerts on a
/// body at `p`: the direction towards the centre, scaled by the strength
/// and divided by the rounded-down distance; zero at the centre itself.
pub open spec fn gravity_force(center: Vec2, strength: int, p: Vec2) -> (int, int) {
    let n = sq_dist(center, p);
    if n == 0 {
        (0, 0)
    } else {
        let len = floor_sqrt(n);
        (
            floor_div((center.x - p.x) * strength, len),
            floor_div((center.y - p.y) * strength, len),
        )
    }
}

impl Gravity {
    pub open spec fn wf(&self) -> bool {
        in_bounds(self.center) && 0 < self.strength <= STRENGTH_LIMIT
    }

    pub fn new(center: Vec2, strength: i64) -> (r: Gravity)
        requires
            in_bounds(center),
            0 < strength <= STRENGTH_LIMIT,
        ensures
            r.wf(),
            r.center == center,
            r.strength == strength,
    {
        Gravity { center, strength }
    }

    /// The force this source exerts on a body at `position`. The pull does
    /// not depend on the body's mass: the integrator divides by it.
    pub fn apply_gravity(&self, _mass: Mass, position: Vec2) -> (r: Vec2)
        requires
            self.wf(),
            in_bounds(position),
        ensures
            (r.x as int, r.y as int) == gravity_force(self.center, self.strength as int, position),
            -2 * LIMIT * STRENGTH_LIMIT <= r.x <= 2 * LIMIT * STRENGTH_LIMIT,
            -2 * LIMIT * STRENGTH_LIMIT <= r.y <= 2 * LIMIT * STRENGTH_LIMIT,
    {
        let n = sq_distance(self.center, position);
        if n == 0 {
            return Vec2 { x: 0, y: 0 };
        }
        let len = isqrt(n);
        proof {
            if len == 0 {
                assert(n < 1);
            }
        }
        let dx: i128 = self.center.x as i128 - position.x as i128;
        let dy: i128 = self.center.y as i128 - position.y as i128;
        let s: i128 = self.strength as i128;
        assert(-2 * LIMIT * STRENGTH_LIMIT <= dx * s <= 2 * LIMIT * STRENGTH_LIMIT) by (nonlinear_arith)
            requires -2 * LIMIT <= dx <= 2 * LIMIT, 0 < s <= STRENGTH_LIMIT;
        assert(-2 * LIMIT * STRENGTH_LIMIT <= dy * s <= 2 * LIMIT * STRENGTH_LIMIT) by (nonlinear_arith)
            requires -2 * LIMIT <= dy <= 2 * LIMIT, 0 < s <= STRENGTH_LIMIT;
        let fx = div_floor(dx * s, len as i128);
        let fy = div_floor(dy * s, len as i128);
        Vec2 { x: fx as i64, y: fy as i64 }
    }
}

/// A body at the centre of a source feels no force from it.
pub proof fn lemma_no_pull_at_center(g: Gravity)
    requires
        g.wf(),
    ensures
        gravity_force(g.center, g.strength as int, g.center) == (0int, 0int),
{
}

} // verus!
