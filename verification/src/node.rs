//! A point mass on the curve: position, velocity, acceleration and its two
//! scalar limits. Integration is exact fixed-point arithmetic, with the
//! velocity magnitude capped at `max_speed` on every step.
use vstd::prelude::*;
use crate::intmath::clamp_sym;
use crate::vec2::{cap_spec, cap_to, norm2, scale_spec, scale_to, vadd, vsub, Vec2};
use crate::intmath::lemma_abs_le_of_sq_le;
use crate::{ACC_MAX, LIMIT_MAX, WORLD_MAX};

verus! {

/// A point is inside the world box.
pub open spec fn in_world(p: (int, int)) -> bool {
    &&& -WORLD_MAX <= p.0 <= WORLD_MAX
    &&& -WORLD_MAX <= p.1 <= WORLD_MAX
}

#[derive(Clone, Copy, PartialEq, Eq, Structural, Debug)]
pub struct Node {
    pub position: Vec2,
    pub velocity: Vec2,
    pub acceleration: Vec2,
    pub max_force: i64,
    pub max_speed: i64,
}

/// Well-formedness of a node: positive bounded limits, position inside the
/// world box, velocity within `max_speed`, acceleration within the
/// accumulator bound.
pub open spec fn node_ok(n: Node) -> bool {
    &&& 0 < n.max_speed <= LIMIT_MAX
    &&& 0 < n.max_force <= LIMIT_MAX
    &&& in_world(n.position@)
    &&& norm2(n.velocity@) <= n.max_speed * n.max_speed
    &&& -ACC_MAX <= n.acceleration.x <= ACC_MAX
    &&& -ACC_MAX <= n.acceleration.y <= ACC_MAX
}

/// Acceleration accumulation: componentwise addition, clamped into the
/// accumulator bound.
pub open spec fn apply_force_spec(acc: (int, int), f: (int, int)) -> (int, int) {
    (clamp_sym(acc.0 + f.0, ACC_MAX as int), clamp_sym(acc.1 + f.1, ACC_MAX as int))
}

/// One integration step for the velocity: add the acceleration, then cap the
/// magnitude at `s`.
pub open spec fn update_vel_spec(vel: (int, int), acc: (int, int), s: int) -> (int, int) {
    cap_spec(vadd(vel, acc), s)
}

/// One integration step for the position: add the new velocity, clamped into
/// the world box.
pub open spec fn update_pos_spec(pos: (int, int), vel: (int, int)) -> (int, int) {
    (clamp_sym(pos.0 + vel.0, WORLD_MAX as int), clamp_sym(pos.1 + vel.1, WORLD_MAX as int))
}

/// Steering toward a target: the desired velocity points from `pos` to
/// `target` rescaled to magnitude `s` (left untouched when zero), minus the
/// current velocity, capped at `mf`.
pub open spec fn seek_spec(
    pos: (int, int),
    vel: (int, int),
    target: (int, int),
    s: int,
    mf: int,
) -> (int, int) {
    cap_spec(vsub(scale_spec(vsub(target, pos), s), vel), mf)
}

/// Clamp an `i128` into `[-b, b]`; exactly `clamp_sym`.
pub fn clamp_i(x: i128, b: i64) -> (r: i64)
    requires
        b >= 0,
    ensures
        r as int == clamp_sym(x as int, b as int),
{
    if x > b as i128 {
        b
    } else if x < -(b as i128) {
        -b
    } else {
        x as i64
    }
}

impl Node {
    /// A fresh node at `position` with zero velocity and acceleration.
    pub fn new(position: Vec2, max_speed: i64, max_force: i64) -> (n: Node)
        requires
            0 < max_speed <= LIMIT_MAX,
            0 < max_force <= LIMIT_MAX,
            in_world(position@),
        ensures
            n.position == position,
            n.velocity@ == (0int, 0int),
            n.acceleration@ == (0int, 0int),
            n.max_speed == max_speed,
            n.max_force == max_force,
            node_ok(n),
    {
        proof {
            assert(max_speed as int * max_speed as int >= 0) by (nonlinear_arith);
        }
        Node {
            position,
            velocity: Vec2 { x: 0, y: 0 },
            acceleration: Vec2 { x: 0, y: 0 },
            max_speed,
            max_force,
        }
    }

    /// Add `force` into the acceleration accumulator. No limit is enforced
    /// here beyond the machine clamp; capping happens at the force producers
    /// and again on the velocity inside `update`.
    pub fn apply_force(&mut self, force: &Vec2)
        ensures
            final(self).acceleration@ == apply_force_spec(old(self).acceleration@, force@),
            final(self).position == old(self).position,
            final(self).velocity == old(self).velocity,
            final(self).max_speed == old(self).max_speed,
            final(self).max_force == old(self).max_force,
            node_ok(*old(self)) ==> node_ok(*final(self)),
    {
        let ax: i128 = self.acceleration.x as i128 + force.x as i128;
        let ay: i128 = self.acceleration.y as i128 + force.y as i128;
        self.acceleration = Vec2 { x: clamp_i(ax, ACC_MAX), y: clamp_i(ay, ACC_MAX) };
    }

    /// Integrate one step: `velocity += acceleration`, cap the velocity
    /// magnitude at `max_speed`, `position += velocity` (clamped into the
    /// world box), and reset the acceleration to zero.
    pub fn update(&mut self)
        requires
            node_ok(*old(self)),
        ensures
            final(self).velocity@ == update_vel_spec(
                old(self).velocity@,
                old(self).acceleration@,
                old(self).max_speed as int,
            ),
            final(self).position@ == update_pos_spec(old(self).position@, final(self).velocity@),
            final(self).acceleration@ == (0int, 0int),
            final(self).max_speed == old(self).max_speed,
            final(self).max_force == old(self).max_force,
            norm2(final(self).velocity@) <= old(self).max_speed * old(self).max_speed,
            node_ok(*final(self)),
    {
        proof {
            let vx0 = old(self).velocity.x as int;
            let vy0 = old(self).velocity.y as int;
            assert(vx0 * vx0 >= 0) by (nonlinear_arith);
            assert(vy0 * vy0 >= 0) by (nonlinear_arith);
            lemma_abs_le_of_sq_le(vx0, old(self).max_speed as int);
            lemma_abs_le_of_sq_le(vy0, old(self).max_speed as int);
        }
        let vx: i128 = self.velocity.x as i128 + self.acceleration.x as i128;
        let vy: i128 = self.velocity.y as i128 + self.acceleration.y as i128;
        let v1 = cap_to(Vec2 { x: vx as i64, y: vy as i64 }, self.max_speed);
        let px: i128 = self.position.x as i128 + v1.x as i128;
        let py: i128 = self.position.y as i128 + v1.y as i128;
        self.velocity = v1;
        self.position = Vec2 { x: clamp_i(px, WORLD_MAX), y: clamp_i(py, WORLD_MAX) };
        self.acceleration = Vec2 { x: 0, y: 0 };
    }

    /// The steering force toward `target`, capped at `max_force`; the shared
    /// primitive behind cohesion.
    pub fn seek(&self, target: &Vec2) -> (r: Vec2)
        requires
            node_ok(*self),
            in_world(target@),
        ensures
            r@ == seek_spec(
                self.position@,
                self.velocity@,
                target@,
                self.max_speed as int,
                self.max_force as int,
            ),
            norm2(r@) <= self.max_force * self.max_force,
            -self.max_force <= r.x <= self.max_force,
            -self.max_force <= r.y <= self.max_force,
    {
        proof {
            let vx0 = self.velocity.x as int;
            let vy0 = self.velocity.y as int;
            assert(vx0 * vx0 >= 0) by (nonlinear_arith);
            assert(vy0 * vy0 >= 0) by (nonlinear_arith);
            lemma_abs_le_of_sq_le(vx0, self.max_speed as int);
            lemma_abs_le_of_sq_le(vy0, self.max_speed as int);
        }
        let dx: i128 = target.x as i128 - self.position.x as i128;
        let dy: i128 = target.y as i128 - self.position.y as i128;
        let desired = scale_to(Vec2 { x: dx as i64, y: dy as i64 }, self.max_speed);
        let sx: i128 = desired.x as i128 - self.velocity.x as i128;
        let sy: i128 = desired.y as i128 - self.velocity.y as i128;
        cap_to(Vec2 { x: sx as i64, y: sy as i64 }, self.max_force)
    }
}

} // verus!
