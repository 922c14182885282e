//! The neighbour accumulator of one agent and the acceleration that
//! follows from it.
//!
//! A neighbour counts toward separation when it is closer than the
//! separation radius, and toward alignment and cohesion when it is closer
//! than theirs. A neighbour farther than the interaction radius, or
//! nearer than a thousandth of a world unit, counts toward nothing: the
//! one is out of sight, the other is the agent itself or stands on it, and
//! a push away from it would have no sensible size. Distances are compared
//! by their squares, which is exact.

use vstd::prelude::*;
use crate::agent::{memberships, same_but_acceleration, same_motion, Agent, Velocity};
use crate::disc::disc_cells;
use crate::membership::{filed_under, in_sync, lemma_cell_at_assigned};
use crate::plane::{cell_at, Vec2};
use crate::spatial_index::{bucket_of, gather, lemma_query_complete, Buckets, SpatialIndex};
use crate::steering::{
    arrive_force, arrive_wide, arrive_wish, clamped_to, div_toward_zero,
    lemma_arrive_force_bounded, lemma_limited_close, lemma_steer_force_bounded, norm2,
    steer_force, steer_wide, steer_wish, trunc_div,
};

verus! {

/// How far an agent looks for neighbours: twenty world units.
pub const BOID_RADIUS: i32 = 20480;

/// Neighbours closer than this push the agent away: ten world units.
pub const SEPARATION_RADIUS: i32 = 10240;

/// Neighbours closer than this pull the agent's heading toward theirs.
pub const ALIGNMENT_RADIUS: i32 = 20480;

/// Neighbours closer than this pull the agent toward their midst.
pub const COHESION_RADIUS: i32 = 20480;

/// The largest squared distance, in steps, at which a neighbour counts
/// as standing on the agent. A thousandth of a world unit is a little
/// more than one step, so this covers the agent's own lattice point and
/// the four next to it.
pub const COINCIDENT_DISTANCE2: i32 = 1;

/// The size of a separation push at a distance of one step. A push is
/// the offset from the neighbour divided by the squared distance, so it
/// shrinks as the distance grows; it is counted in parts of this many, so
/// that a push from the edge of the separation radius still has some
/// hundred thousand parts.
pub const SEPARATION_SCALE: i32 = 1073741824;

/// A running sum of vectors and the number of vectors in it.
pub struct Tally {
    pub sum: (int, int),
    pub count: nat,
}

/// What an accumulator holds.
pub struct Neighbourhood {
    /// Where the agent is.
    pub position: Vec2,
    /// How the agent moves.
    pub velocity: Velocity,
    /// The pushes away from close neighbours.
    pub separation: Tally,
    /// The velocities of neighbours.
    pub alignment: Tally,
    /// The positions of neighbours.
    pub cohesion: Tally,
}

/// A tally of nothing.
pub open spec fn empty_tally() -> Tally {
    Tally { sum: (0, 0), count: 0 }
}

/// The tally `t` with `(x, z)` added.
pub open spec fn tally_add(t: Tally, x: int, z: int) -> Tally {
    Tally { sum: (t.sum.0 + x, t.sum.1 + z), count: t.count + 1 }
}

/// The mean of a tally, each component rounded toward zero.
pub open spec fn mean(t: Tally) -> (int, int) {
    (trunc_div(t.sum.0, t.count as int), trunc_div(t.sum.1, t.count as int))
}

/// The accumulator of an agent that has seen no neighbour.
pub open spec fn alone(position: Vec2, velocity: Velocity) -> Neighbourhood {
    Neighbourhood {
        position,
        velocity,
        separation: empty_tally(),
        alignment: empty_tally(),
        cohesion: empty_tally(),
    }
}

/// One component of the push away from a neighbour at offset `d` along
/// this axis and squared distance `d2`.
pub open spec fn push_away(d: int, d2: int) -> int {
    trunc_div(d * SEPARATION_SCALE, d2)
}

/// The accumulator after one more neighbour, at `position` and moving
/// with `velocity`.
pub open spec fn absorb(n: Neighbourhood, position: Vec2, velocity: Vec2) -> Neighbourhood {
    let dx = n.position.x - position.x;
    let dz = n.position.z - position.z;
    let d2 = norm2(dx, dz);
    if d2 > BOID_RADIUS * BOID_RADIUS || d2 <= COINCIDENT_DISTANCE2 {
        n
    } else {
        Neighbourhood {
            position: n.position,
            velocity: n.velocity,
            separation: if d2 < SEPARATION_RADIUS * SEPARATION_RADIUS {
                tally_add(n.separation, push_away(dx, d2), push_away(dz, d2))
            } else {
                n.separation
            },
            alignment: if d2 < ALIGNMENT_RADIUS * ALIGNMENT_RADIUS {
                tally_add(n.alignment, velocity.x as int, velocity.z as int)
            } else {
                n.alignment
            },
            cohesion: if d2 < COHESION_RADIUS * COHESION_RADIUS {
                tally_add(n.cohesion, position.x as int, position.z as int)
            } else {
                n.cohesion
            },
        }
    }
}

/// The force on an agent from the neighbours in its accumulator: a steer
/// along the mean push, a steer along the mean heading, and a steer
/// toward the mean position, each only if some neighbour counted for it.
/// Each steer is limited by itself; the sum of the three is not.
pub open spec fn flocking(n: Neighbourhood) -> (int, int) {
    let apart = if n.separation.count > 0 {
        steer_force(mean(n.separation).0, mean(n.separation).1, n.velocity)
    } else {
        (0, 0)
    };
    let along = if n.alignment.count > 0 {
        steer_force(mean(n.alignment).0, mean(n.alignment).1, n.velocity)
    } else {
        (0, 0)
    };
    let toward = if n.cohesion.count > 0 {
        steer_force(
            mean(n.cohesion).0 - n.position.x,
            mean(n.cohesion).1 - n.position.z,
            n.velocity,
        )
    } else {
        (0, 0)
    };
    (apart.0 + along.0 + toward.0, apart.1 + along.1 + toward.1)
}

/// The acceleration of an agent: the force from its neighbours plus a
/// steer toward `target`. Each of the up to four steers is limited to the
/// agent's steering force by itself; their sum is not limited again, so
/// an acceleration may be up to four steering forces long.
pub open spec fn acceleration(n: Neighbourhood, target: Vec2) -> (int, int) {
    let goal = steer_force(target.x - n.position.x, target.z - n.position.z, n.velocity);
    (flocking(n).0 + goal.0, flocking(n).1 + goal.1)
}

/// Every tally has room for one more neighbour.
pub open spec fn has_room(n: Neighbourhood) -> bool {
    &&& n.separation.count < u64::MAX
    &&& n.alignment.count < u64::MAX
    &&& n.cohesion.count < u64::MAX
}

/// An agent without neighbours feels no flocking force: its acceleration
/// is the steer toward the target alone.
pub proof fn lemma_alone_seeks(position: Vec2, velocity: Velocity, target: Vec2)
    ensures
        flocking(alone(position, velocity)) == (0int, 0int),
        acceleration(alone(position, velocity), target) == steer_force(
            target.x - position.x,
            target.z - position.z,
            velocity,
        ),
{
}

/// A flocking force is at most three steering forces long along each
/// axis, and an acceleration at most four.
pub proof fn lemma_acceleration_bounded(n: Neighbourhood, target: Vec2)
    ensures
        -3 * n.velocity.max_force <= flocking(n).0 <= 3 * n.velocity.max_force,
        -3 * n.velocity.max_force <= flocking(n).1 <= 3 * n.velocity.max_force,
        -4 * n.velocity.max_force <= acceleration(n, target).0 <= 4 * n.velocity.max_force,
        -4 * n.velocity.max_force <= acceleration(n, target).1 <= 4 * n.velocity.max_force,
{
    lemma_steer_force_bounded(mean(n.separation).0, mean(n.separation).1, n.velocity);
    lemma_steer_force_bounded(mean(n.alignment).0, mean(n.alignment).1, n.velocity);
    lemma_steer_force_bounded(
        mean(n.cohesion).0 - n.position.x,
        mean(n.cohesion).1 - n.position.z,
        n.velocity,
    );
    lemma_steer_force_bounded(target.x - n.position.x, target.z - n.position.z, n.velocity);
}

/// `force` is the wished change of velocity toward `(dx, dz)` where the
/// wish is within the agent's steering force, and the wish clamped to the
/// steering force where it is longer.
pub open spec fn clamps_wish(force: Vec2, dx: int, dz: int, v: Velocity) -> bool {
    let wish = steer_wish(dx, dz, v);
    (dx != 0 || dz != 0) ==> if norm2(wish.0, wish.1) > v.max_force * v.max_force {
        clamped_to(force.x as int, force.z as int, wish.0, wish.1, v.max_force as int)
    } else {
        force@ == wish
    }
}

/// `force` is the velocity wanted on the way to a target `(dx, dz)` away
/// where that is within the agent's steering force, and that velocity
/// clamped to the steering force where it is longer.
pub open spec fn clamps_arrival(force: Vec2, dx: int, dz: int, v: Velocity) -> bool {
    let wish = arrive_wish(dx, dz, v);
    (dx != 0 || dz != 0) ==> if norm2(wish.0, wish.1) > v.max_force * v.max_force {
        clamped_to(force.x as int, force.z as int, wish.0, wish.1, v.max_force as int)
    } else {
        force@ == wish
    }
}

/// An arrival force is the wanted velocity, clamped to the agent's
/// steering force where it is longer.
pub proof fn lemma_arrive_force_close(dx: int, dz: int, v: Velocity)
    ensures
        forall|force: Vec2| force@ == arrive_force(dx, dz, v) ==> clamps_arrival(force, dx, dz, v),
{
    let wish = arrive_wish(dx, dz, v);
    if (dx != 0 || dz != 0) && norm2(wish.0, wish.1) > v.max_force * v.max_force {
        lemma_limited_close(wish.0, wish.1, v.max_force as int);
    }
}

/// A steering force is the wished change of velocity, clamped to the
/// agent's steering force where the wish is longer.
pub proof fn lemma_steer_force_close(dx: int, dz: int, v: Velocity)
    ensures
        forall|force: Vec2| force@ == steer_force(dx, dz, v) ==> clamps_wish(force, dx, dz, v),
{
    let wish = steer_wish(dx, dz, v);
    if (dx != 0 || dz != 0) && norm2(wish.0, wish.1) > v.max_force * v.max_force {
        lemma_limited_close(wish.0, wish.1, v.max_force as int);
    }
}

/// A push away is at most the separation scale in size.
proof fn lemma_push_away_bounded(d: int, other: int)
    requires
        norm2(d, other) > 0,
    ensures
        -SEPARATION_SCALE <= push_away(d, norm2(d, other)) <= SEPARATION_SCALE,
{
    let d2 = norm2(d, other);
    let a = if d < 0 { -d } else { d };
    assert(a <= d * d && other * other >= 0) by (nonlinear_arith)
        requires
            a == d || a == -d,
            a >= 0,
    ;
    assert((a * 1073741824) / d2 <= 1073741824) by (nonlinear_arith)
        requires
            0 <= a <= d2,
            d2 > 0,
    ;
    assert((a * 1073741824) / d2 >= 0) by (nonlinear_arith)
        requires
            0 <= a,
            d2 > 0,
    ;
}

/// The mean of a tally whose entries are at most `bound` in size is at
/// most `bound` in size.
proof fn lemma_mean_bounded(sum: int, count: int, bound: int)
    requires
        count > 0,
        bound >= 0,
        -count * bound <= sum <= count * bound,
    ensures
        -bound <= trunc_div(sum, count) <= bound,
{
    let a = if sum < 0 { -sum } else { sum };
    assert(-count * bound == -(count * bound)) by (nonlinear_arith);
    assert(0 <= a / count <= bound) by (nonlinear_arith)
        requires
            0 <= a <= count * bound,
            count > 0,
    ;
}

/// The accumulator of one agent: what its neighbours add up to.
pub struct Boid {
    position: Vec2,
    velocity: Velocity,
    sep_sum: (i128, i128),
    sep_count: u64,
    align_sum: (i128, i128),
    align_count: u64,
    cohesion_sum: (i128, i128),
    cohesion_count: u64,
}

/// A sum of `count` vectors whose components are at most `bound` in size.
spec fn within(sum: (i128, i128), count: u64, bound: int) -> bool {
    &&& -count * bound <= sum.0 <= count * bound
    &&& -count * bound <= sum.1 <= count * bound
}

impl View for Boid {
    type V = Neighbourhood;

    closed spec fn view(&self) -> Neighbourhood {
        Neighbourhood {
            position: self.position,
            velocity: self.velocity,
            separation: Tally {
                sum: (self.sep_sum.0 as int, self.sep_sum.1 as int),
                count: self.sep_count as nat,
            },
            alignment: Tally {
                sum: (self.align_sum.0 as int, self.align_sum.1 as int),
                count: self.align_count as nat,
            },
            cohesion: Tally {
                sum: (self.cohesion_sum.0 as int, self.cohesion_sum.1 as int),
                count: self.cohesion_count as nat,
            },
        }
    }
}

impl Boid {
    #[verifier::type_invariant]
    spec fn sums_within(&self) -> bool {
        &&& within(self.sep_sum, self.sep_count, SEPARATION_SCALE as int)
        &&& within(self.align_sum, self.align_count, 0x8000_0000)
        &&& within(self.cohesion_sum, self.cohesion_count, 0x8000_0000)
    }

    /// The accumulator of an agent at `position` that moves as `velocity`
    /// says and has seen no neighbour yet.
    pub fn new(position: Vec2, velocity: Velocity) -> (boid: Self)
        ensures
            boid@ == alone(position, velocity),
    {
        Boid {
            position,
            velocity,
            sep_sum: (0, 0),
            sep_count: 0,
            align_sum: (0, 0),
            align_count: 0,
            cohesion_sum: (0, 0),
            cohesion_count: 0,
        }
    }

    /// How many neighbours count toward separation.
    pub fn sep_count(&self) -> (count: u64)
        ensures
            count == self@.separation.count,
    {
        self.sep_count
    }

    /// How many neighbours count toward alignment.
    pub fn align_count(&self) -> (count: u64)
        ensures
            count == self@.alignment.count,
    {
        self.align_count
    }

    /// How many neighbours count toward cohesion.
    pub fn cohesion_count(&self) -> (count: u64)
        ensures
            count == self@.cohesion.count,
    {
        self.cohesion_count
    }

    /// The sum of the pushes away from close neighbours.
    pub fn sep_sum(&self) -> (sum: (i128, i128))
        ensures
            (sum.0 as int, sum.1 as int) == self@.separation.sum,
    {
        self.sep_sum
    }

    /// The sum of the velocities of neighbours.
    pub fn align_sum(&self) -> (sum: (i128, i128))
        ensures
            (sum.0 as int, sum.1 as int) == self@.alignment.sum,
    {
        self.align_sum
    }

    /// The sum of the positions of neighbours.
    pub fn cohesion_sum(&self) -> (sum: (i128, i128))
        ensures
            (sum.0 as int, sum.1 as int) == self@.cohesion.sum,
    {
        self.cohesion_sum
    }

    /// Folds one neighbour into the sums. A neighbour beyond the
    /// interaction radius, or nearer than a thousandth of a world unit,
    /// leaves them as they are.
    pub fn add_other(&mut self, position: Vec2, velocity: Vec2)
        requires
            has_room(old(self)@),
        ensures
            final(self)@ == absorb(old(self)@, position, velocity),
    {
        proof {
            use_type_invariant(&*self);
        }
        let dx: i64 = self.position.x as i64 - position.x as i64;
        let dz: i64 = self.position.z as i64 - position.z as i64;
        let reach: i64 = BOID_RADIUS as i64;
        if dx < -reach || dx > reach || dz < -reach || dz > reach {
            assert(norm2(dx as int, dz as int) > reach * reach) by (nonlinear_arith)
                requires
                    dx < -reach || dx > reach || dz < -reach || dz > reach,
                    reach == 20480,
            ;
            return ;
        }
        assert(0 <= dx * dx <= 419430400 && 0 <= dz * dz <= 419430400) by (nonlinear_arith)
            requires
                -20480 <= dx <= 20480,
                -20480 <= dz <= 20480,
        ;
        let d2: i64 = dx * dx + dz * dz;
        let near: i64 = SEPARATION_RADIUS as i64;
        let heading: i64 = ALIGNMENT_RADIUS as i64;
        let midst: i64 = COHESION_RADIUS as i64;
        assert(reach * reach == 419430400 && near * near == 104857600 && heading * heading
            == 419430400 && midst * midst == 419430400) by (nonlinear_arith)
            requires
                reach == 20480,
                near == 10240,
                heading == 20480,
                midst == 20480,
        ;
        if d2 > reach * reach || d2 <= COINCIDENT_DISTANCE2 as i64 {
            return ;
        }
        if d2 < near * near {
            proof {
                lemma_push_away_bounded(dx as int, dz as int);
                lemma_push_away_bounded(dz as int, dx as int);
            }
            let scale: i128 = SEPARATION_SCALE as i128;
            let wx = div_toward_zero(dx as i128 * scale, d2 as u64);
            let wz = div_toward_zero(dz as i128 * scale, d2 as u64);
            self.sep_count = self.sep_count + 1;
            self.sep_sum = (self.sep_sum.0 + wx, self.sep_sum.1 + wz);
        }
        if d2 < heading * heading {
            self.align_count = self.align_count + 1;
            self.align_sum = (
                self.align_sum.0 + velocity.x as i128,
                self.align_sum.1 + velocity.z as i128,
            );
        }
        if d2 < midst * midst {
            self.cohesion_count = self.cohesion_count + 1;
            self.cohesion_sum = (
                self.cohesion_sum.0 + position.x as i128,
                self.cohesion_sum.1 + position.z as i128,
            );
        }
    }

    /// The force from the neighbours seen so far: the sum of up to three
    /// steers, each limited by itself.
    pub fn get_acceleration(&self) -> (force: Vec2)
        ensures
            force@ == flocking(self@),
    {
        proof {
            use_type_invariant(self);
        }
        let mut x: i32 = 0;
        let mut z: i32 = 0;
        if self.sep_count > 0 {
            proof {
                lemma_mean_bounded(
                    self.sep_sum.0 as int,
                    self.sep_count as int,
                    SEPARATION_SCALE as int,
                );
                lemma_mean_bounded(
                    self.sep_sum.1 as int,
                    self.sep_count as int,
                    SEPARATION_SCALE as int,
                );
            }
            let mx = div_toward_zero(self.sep_sum.0, self.sep_count);
            let mz = div_toward_zero(self.sep_sum.1, self.sep_count);
            let apart = steer_wide(mx as i64, mz as i64, &self.velocity);
            x = x + apart.x;
            z = z + apart.z;
        }
        if self.align_count > 0 {
            proof {
                lemma_mean_bounded(self.align_sum.0 as int, self.align_count as int, 0x8000_0000);
                lemma_mean_bounded(self.align_sum.1 as int, self.align_count as int, 0x8000_0000);
            }
            let mx = div_toward_zero(self.align_sum.0, self.align_count);
            let mz = div_toward_zero(self.align_sum.1, self.align_count);
            let along = steer_wide(mx as i64, mz as i64, &self.velocity);
            x = x + along.x;
            z = z + along.z;
        }
        if self.cohesion_count > 0 {
            proof {
                lemma_mean_bounded(
                    self.cohesion_sum.0 as int,
                    self.cohesion_count as int,
                    0x8000_0000,
                );
                lemma_mean_bounded(
                    self.cohesion_sum.1 as int,
                    self.cohesion_count as int,
                    0x8000_0000,
                );
            }
            let mx = div_toward_zero(self.cohesion_sum.0, self.cohesion_count);
            let mz = div_toward_zero(self.cohesion_sum.1, self.cohesion_count);
            let toward = steer_wide(
                mx as i64 - self.position.x as i64,
                mz as i64 - self.position.z as i64,
                &self.velocity,
            );
            x = x + toward.x;
            z = z + toward.z;
        }
        Vec2 { x, z }
    }

    /// The force that steers the agent toward `target`.
    pub fn seek(&self, target: Vec2) -> (force: Vec2)
        ensures
            force@ == steer_force(
                target.x - self@.position.x,
                target.z - self@.position.z,
                self@.velocity,
            ),
            norm2(force.x as int, force.z as int) <= self@.velocity.max_force
                * self@.velocity.max_force,
            clamps_wish(
                force,
                target.x - self@.position.x,
                target.z - self@.position.z,
                self@.velocity,
            ),
    {
        proof {
            lemma_steer_force_bounded(
                target.x - self.position.x,
                target.z - self.position.z,
                self.velocity,
            );
            lemma_steer_force_close(
                target.x - self.position.x,
                target.z - self.position.z,
                self.velocity,
            );
        }
        steer_wide(
            target.x as i64 - self.position.x as i64,
            target.z as i64 - self.position.z as i64,
            &self.velocity,
        )
    }

    /// The force that steers the agent along `dir`: none for a zero
    /// direction; otherwise the direction at the agent's full speed, less
    /// its current velocity, limited to its steering force.
    pub fn steer(&self, dir: Vec2) -> (force: Vec2)
        ensures
            force@ == steer_force(
                dir.x as int,
                dir.z as int,
                self@.velocity,
            ),
            norm2(force.x as int, force.z as int) <= self@.velocity.max_force
                * self@.velocity.max_force,
            clamps_wish(force, dir.x as int, dir.z as int, self@.velocity),
    {
        proof {
            lemma_steer_force_bounded(dir.x as int, dir.z as int, self.velocity);
            lemma_steer_force_close(dir.x as int, dir.z as int, self.velocity);
        }
        steer_wide(dir.x as i64, dir.z as i64, &self.velocity)
    }

    /// The force that brings the agent to rest at `target`.
    pub fn arrive(&self, target: Vec2) -> (force: Vec2)
        ensures
            force@ == arrive_force(
                target.x - self@.position.x,
                target.z - self@.position.z,
                self@.velocity,
            ),
            norm2(force.x as int, force.z as int) <= self@.velocity.max_force
                * self@.velocity.max_force,
            clamps_arrival(
                force,
                target.x - self@.position.x,
                target.z - self@.position.z,
                self@.velocity,
            ),
    {
        proof {
            lemma_arrive_force_bounded(
                target.x - self.position.x,
                target.z - self.position.z,
                self.velocity,
            );
            lemma_arrive_force_close(
                target.x - self.position.x,
                target.z - self.position.z,
                self.velocity,
            );
        }
        arrive_wide(
            target.x as i64 - self.position.x as i64,
            target.z as i64 - self.position.z as i64,
            &self.velocity,
        )
    }
}

/// The accumulator `start` of agent `me` after the first `n` of `others`,
/// each given as handle, position and velocity: every entry under another
/// handle is folded in, and entries under the agent's own handle are
/// skipped.
pub open spec fn fold_of(
    start: Neighbourhood,
    me: u64,
    others: Seq<(u64, Vec2, Vec2)>,
    n: int,
) -> Neighbourhood
    decreases n,
{
    if n <= 0 {
        start
    } else {
        let so_far = fold_of(start, me, others, n - 1);
        let other = others[n - 1];
        if other.0 != me {
            absorb(so_far, other.1, other.2)
        } else {
            so_far
        }
    }
}

/// The counts of a fold never exceed the number of entries folded.
proof fn lemma_fold_counts(
    position: Vec2,
    velocity: Velocity,
    me: u64,
    others: Seq<(u64, Vec2, Vec2)>,
    n: int,
)
    requires
        0 <= n,
    ensures
        fold_of(alone(position, velocity), me, others, n).separation.count <= n,
        fold_of(alone(position, velocity), me, others, n).alignment.count <= n,
        fold_of(alone(position, velocity), me, others, n).cohesion.count <= n,
    decreases n,
{
    if n > 0 {
        lemma_fold_counts(position, velocity, me, others, n - 1);
    }
}

/// Folds the candidates of a neighbour search into a fresh accumulator
/// for the agent `me`. The candidates come under the caller's own
/// handles, each with its position and velocity.
pub fn fold_neighbours(
    me: u64,
    position: Vec2,
    velocity: Velocity,
    others: &Vec<(u64, Vec2, Vec2)>,
) -> (boid: Boid)
    ensures
        boid@ == fold_of(alone(position, velocity), me, others@, others@.len() as int),
{
    let mut boid = Boid::new(position, velocity);
    let mut j: usize = 0;
    while j < others.len()
        invariant
            j <= others.len(),
            boid@ == fold_of(alone(position, velocity), me, others@, j as int),
        decreases others.len() - j,
    {
        let other = others[j];
        proof {
            lemma_fold_counts(position, velocity, me, others@, j as int);
        }
        if other.0 != me {
            boid.add_other(other.1, other.2);
        }
        j = j + 1;
    }
    boid
}

/// The accumulator of agent `focal` after the first `n` of `candidates`:
/// each candidate that is another agent of the registry is folded in; the
/// agent itself and handles that the registry does not know are skipped.
pub open spec fn tally_neighbours(
    agents: Seq<Agent>,
    focal: int,
    candidates: Seq<u64>,
    n: int,
) -> Neighbourhood
    decreases n,
{
    if n <= 0 {
        alone(agents[focal].position, agents[focal].velocity)
    } else {
        let so_far = tally_neighbours(agents, focal, candidates, n - 1);
        let other = candidates[n - 1];
        if other != focal && other < agents.len() {
            absorb(so_far, agents[other as int].position, agents[other as int].velocity.velocity)
        } else {
            so_far
        }
    }
}

/// The handles that a query around agent `focal` yields.
pub open spec fn candidates_of(agents: Seq<Agent>, buckets: Buckets, focal: int) -> Seq<u64> {
    gather(buckets, disc_cells(agents[focal].position, BOID_RADIUS as int))
}

/// The accumulator of agent `focal` after one query of the index.
pub open spec fn neighbourhood_of(agents: Seq<Agent>, buckets: Buckets, focal: int)
    -> Neighbourhood {
    tally_neighbours(
        agents,
        focal,
        candidates_of(agents, buckets, focal),
        candidates_of(agents, buckets, focal).len() as int,
    )
}

/// Only positions and velocities play a part in what an accumulator
/// holds: accelerations and membership records do not.
pub proof fn lemma_tally_reads_motion(
    a: Seq<Agent>,
    b: Seq<Agent>,
    focal: int,
    candidates: Seq<u64>,
    n: int,
)
    requires
        a.len() == b.len(),
        0 <= focal < a.len(),
        0 <= n <= candidates.len(),
        forall|i: int| 0 <= i < a.len() ==> same_motion(#[trigger] a[i], b[i]),
    ensures
        tally_neighbours(a, focal, candidates, n) == tally_neighbours(b, focal, candidates, n),
    decreases n,
{
    assert(same_motion(a[focal], b[focal]));
    if n > 0 {
        lemma_tally_reads_motion(a, b, focal, candidates, n - 1);
        let other = candidates[n - 1];
        if other < a.len() {
            assert(same_motion(a[other as int], b[other as int]));
        }
    }
}

/// An agent that the index files under the cell of its position, and
/// that is nearer to agent `focal` than the interaction radius, is among
/// the candidates that a query around `focal` yields. These are all the
/// agents that count for any of the three rules.
pub proof fn lemma_neighbour_is_candidate(
    agents: Seq<Agent>,
    buckets: Buckets,
    focal: int,
    other: int,
)
    requires
        in_sync(buckets, memberships(agents)),
        0 <= focal < agents.len(),
        0 <= other < agents.len(),
        other <= u64::MAX,
        agents[other].association@.current == cell_at(agents[other].position),
        norm2(
            agents[other].position.x - agents[focal].position.x,
            agents[other].position.z - agents[focal].position.z,
        ) < BOID_RADIUS * BOID_RADIUS,
    ensures
        candidates_of(agents, buckets, focal).contains(other as u64),
{
    let there = agents[other].position;
    lemma_cell_at_assigned(there);
    assert(memberships(agents)[other] == agents[other].association@);
    assert(filed_under(memberships(agents), other as u64, cell_at(there)));
    assert(bucket_of(buckets, cell_at(there)).contains(other as u64));
    lemma_query_complete(
        buckets,
        agents[focal].position,
        BOID_RADIUS,
        there.x as int,
        there.z as int,
        other as u64,
    );
}

/// The counts of an accumulator never exceed the number of candidates.
proof fn lemma_tally_counts(agents: Seq<Agent>, focal: int, candidates: Seq<u64>, n: int)
    requires
        0 <= n,
    ensures
        tally_neighbours(agents, focal, candidates, n).separation.count <= n,
        tally_neighbours(agents, focal, candidates, n).alignment.count <= n,
        tally_neighbours(agents, focal, candidates, n).cohesion.count <= n,
    decreases n,
{
    if n > 0 {
        lemma_tally_counts(agents, focal, candidates, n - 1);
    }
}

/// Queries the index around agent `focal` and folds every other agent
/// found into a fresh accumulator. There is none for a handle that the
/// registry does not know.
pub fn neighbourhood(agents: &Vec<Agent>, index: &SpatialIndex, focal: usize) -> (boid: Option<
    Boid,
>)
    ensures
        focal < agents@.len() <==> boid is Some,
        boid matches Some(b) ==> b@ == neighbourhood_of(agents@, index@, focal as int),
{
    if focal >= agents.len() {
        return None;
    }
    let me = agents[focal];
    let mut boid = Boid::new(me.position, me.velocity);
    let found = index.query(me.position, BOID_RADIUS);
    let mut j: usize = 0;
    while j < found.len()
        invariant
            j <= found.len(),
            focal < agents.len(),
            boid@ == tally_neighbours(agents@, focal as int, found@, j as int),
        decreases found.len() - j,
    {
        let other = found[j];
        proof {
            lemma_tally_counts(agents@, focal as int, found@, j as int);
        }
        if other != focal as u64 && other < agents.len() as u64 {
            let them = agents[other as usize];
            boid.add_other(them.position, them.velocity.velocity);
        }
        j = j + 1;
    }
    Some(boid)
}

/// The acceleration phase: gives every agent the force from its
/// neighbours plus a steer toward `target`. The sum is not limited to the
/// agent's steering force: only each steer in it is. Positions,
/// velocities and membership records stay as they are.
pub fn calc_acceleration(agents: &mut Vec<Agent>, index: &SpatialIndex, target: Vec2)
    ensures
        final(agents)@.len() == old(agents)@.len(),
        forall|i: int|
            0 <= i < old(agents)@.len() ==> {
                &&& same_but_acceleration(#[trigger] final(agents)@[i], old(agents)@[i])
                &&& final(agents)@[i].acceleration@ == acceleration(
                    neighbourhood_of(old(agents)@, index@, i),
                    target,
                )
            },
{
    let mut i: usize = 0;
    while i < agents.len()
        invariant
            i <= agents.len(),
            agents@.len() == old(agents)@.len(),
            forall|j: int|
                0 <= j < agents@.len() ==> same_but_acceleration(
                    #[trigger] agents@[j],
                    old(agents)@[j],
                ),
            forall|j: int|
                0 <= j < i ==> (#[trigger] agents@[j]).acceleration@ == acceleration(
                    neighbourhood_of(old(agents)@, index@, j),
                    target,
                ),
        decreases agents.len() - i,
    {
        let ghost candidates = candidates_of(agents@, index@, i as int);
        proof {
            assert forall|k: int| 0 <= k < agents@.len() implies same_motion(
                #[trigger] agents@[k],
                old(agents)@[k],
            ) by {
                assert(same_but_acceleration(agents@[k], old(agents)@[k]));
            }
            lemma_tally_reads_motion(
                agents@,
                old(agents)@,
                i as int,
                candidates,
                candidates.len() as int,
            );
        }
        match neighbourhood(agents, index, i) {
            Some(boid) => {
                proof {
                    lemma_acceleration_bounded(boid@, target);
                }
                let flock = boid.get_acceleration();
                let goal = boid.seek(target);
                let mut agent = agents[i];
                agent.acceleration = Vec2 { x: flock.x + goal.x, z: flock.z + goal.z };
                agents.set(i, agent);
            },
            None => {},
        }
        i = i + 1;
    }
}

} // verus!
