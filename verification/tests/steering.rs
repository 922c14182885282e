use flocking::agent::{Agent, Velocity};
use flocking::boid::{
    calc_acceleration, fold_neighbours, neighbourhood, Boid, ALIGNMENT_RADIUS, BOID_RADIUS,
    COHESION_RADIUS, COINCIDENT_DISTANCE2, SEPARATION_RADIUS, SEPARATION_SCALE,
};
use flocking::membership::{update_cell_association, update_spatial_index};
use flocking::plane::{Vec2, STEPS_PER_UNIT};
use flocking::spatial_index::SpatialIndex;
use flocking::steering::{limit, BRAKE_RADIUS};

const U: i32 = STEPS_PER_UNIT;

/// The vector `(x, z)` in world units.
fn at(x: i32, z: i32) -> Vec2 {
    Vec2 { x: x * U, z: z * U }
}

/// The vector `(x, z)` in lattice steps.
fn steps(x: i32, z: i32) -> Vec2 {
    Vec2 { x, z }
}

/// Speed and force limits are given in world units.
fn moving(velocity: Vec2, max_velocity: u16, max_force: u16) -> Velocity {
    Velocity { velocity, max_velocity: max_velocity * U as u16, max_force: max_force * U as u16 }
}

fn length(v: Vec2) -> f64 {
    ((v.x as f64) * (v.x as f64) + (v.z as f64) * (v.z as f64)).sqrt()
}

fn cross(a: Vec2, b: Vec2) -> i64 {
    a.x as i64 * b.z as i64 - a.z as i64 * b.x as i64
}

/// `r` has the length `max` and the direction of `v`, to within two
/// steps of length and one step across.
fn assert_clamped(r: Vec2, v: Vec2, max: u16) {
    let len2 = (r.x as i64) * (r.x as i64) + (r.z as i64) * (r.z as i64);
    assert!(len2 <= (max as i64) * (max as i64), "{:?} to {}", v, max);
    assert!(length(r) > max as f64 - 2.0, "{:?} to {}", v, max);
    assert!(cross(r, v).abs() <= (v.x as i64).abs() + (v.z as i64).abs(), "{:?} to {}", v, max);
    assert!(r.x.signum() == v.x.signum() || r.x == 0);
    assert!(r.z.signum() == v.z.signum() || r.z == 0);
}

#[test]
fn the_radii_are_those_of_the_flocking_rules() {
    assert_eq!(BOID_RADIUS, 20 * U);
    assert_eq!(SEPARATION_RADIUS, 10 * U);
    assert_eq!(ALIGNMENT_RADIUS, 20 * U);
    assert_eq!(COHESION_RADIUS, 20 * U);
    assert_eq!(BRAKE_RADIUS, 50 * U);
    assert_eq!(SEPARATION_SCALE, 1 << 30);
    // a thousandth of a unit is 1.024 steps
    assert_eq!(COINCIDENT_DISTANCE2, 1);
}

#[test]
fn limit_leaves_a_short_vector_alone() {
    assert_eq!(limit(at(3, 4), 5 * U as u16), at(3, 4));
    assert_eq!(limit(at(3, 4), 6 * U as u16), at(3, 4));
    assert_eq!(limit(at(0, 0), 0), at(0, 0));
    assert_eq!(limit(at(-7, 0), 7 * U as u16), at(-7, 0));
    assert_eq!(limit(steps(3, 4), 5), steps(3, 4));
}

#[test]
fn limit_clamps_a_long_vector_to_exactly_the_maximum() {
    assert_eq!(limit(at(30, 40), 10 * U as u16), at(6, 8));
    assert_eq!(limit(at(-30, 40), 10 * U as u16), at(-6, 8));
    assert_eq!(limit(at(300, -400), 5 * U as u16), at(3, -4));
    assert_eq!(limit(at(0, 1000), 7 * U as u16), at(0, 7));
    assert_eq!(limit(at(-1000, 0), 7 * U as u16), at(-7, 0));
}

#[test]
fn limit_to_one_unit() {
    // (0.6, 0.8) world units, each component rounded toward zero
    assert_eq!(limit(at(3, 4), U as u16), steps(614, 819));
    assert!((length(limit(at(3, 4), U as u16)) - 1024.0).abs() < 1.0);
    // (1.2, 1.6)
    assert_eq!(limit(at(3, 4), 2 * U as u16), steps(1228, 1638));
    // (0.7071, 0.7071)
    assert_eq!(limit(at(1, 1), U as u16), steps(724, 724));
}

#[test]
fn limit_keeps_the_direction() {
    let v = at(30, 40);
    let r = limit(v, 10 * U as u16);
    assert_eq!(length(r), 10240.0);
    assert_eq!(cross(r, v), 0);
    assert!(r.x > 0 && r.z > 0);
    let w = at(3, 4);
    let s = limit(w, U as u16);
    // off the line of (3, 4) by a quarter of a step
    assert!((cross(s, w) as f64 / length(w)).abs() < 0.25);
}

#[test]
fn limit_rounds_each_component_toward_zero() {
    assert_eq!(limit(at(100, 100), 10 * U as u16), steps(7240, 7240));
    assert_eq!(limit(at(-100, 100), 10 * U as u16), steps(-7240, 7240));
    assert_eq!(limit(steps(3, 4), 1), steps(0, 0));
    assert_eq!(limit(at(5, 5), 0), at(0, 0));
}

#[test]
fn limit_clamps_to_the_maximum_and_keeps_the_direction() {
    let maxima = [0u16, 1, 2, 3, 10, 99, 1000, 1024, 10240, u16::MAX];
    let vectors = [
        steps(1, 0),
        steps(1, 1),
        steps(-3, 5),
        at(3, 4),
        at(1, 1),
        steps(1234, -4321),
        steps(123456, 7),
        steps(i32::MAX, i32::MAX),
        steps(i32::MIN, i32::MIN),
        steps(i32::MIN, i32::MAX),
        steps(i32::MAX, 1),
        steps(0, i32::MIN),
    ];
    for max in maxima {
        for v in vectors {
            let r = limit(v, max);
            if length(v) <= max as f64 {
                assert_eq!(r, v);
            } else {
                assert_clamped(r, v, max);
            }
        }
    }
}

#[test]
fn steer_along_no_direction_is_no_force() {
    let boid = Boid::new(at(0, 0), moving(at(3, 3), 10, 5));
    assert_eq!(boid.steer(at(0, 0)), at(0, 0));
    assert_eq!(boid.seek(at(0, 0)), at(0, 0));
    assert_eq!(boid.arrive(at(0, 0)), at(0, 0));
}

#[test]
fn steer_is_the_wanted_velocity_less_the_current_one() {
    let boid = Boid::new(at(0, 0), moving(at(1, 2), 10, 58));
    assert_eq!(boid.steer(at(3, 4)), at(5, 6));
    assert_eq!(boid.steer(at(300, 400)), at(5, 6));
    assert_eq!(boid.steer(at(-3, -4)), at(-7, -10));
    assert_eq!(boid.steer(steps(3, 4)), at(5, 6));
}

#[test]
fn steer_is_clamped_to_the_steering_force() {
    let boid = Boid::new(at(0, 0), moving(at(0, 0), 10, 5));
    assert_eq!(boid.steer(at(3, 4)), at(3, 4));
    let slow = Boid::new(at(0, 0), moving(at(0, 0), 10, 1));
    assert_eq!(slow.steer(at(0, 9)), at(0, 1));
    assert_eq!(slow.steer(at(-9, 0)), at(-1, 0));
}

#[test]
fn steer_with_a_steering_force_of_one_unit() {
    let boid = Boid::new(at(0, 0), moving(at(0, 0), 5, 1));
    let force = boid.steer(at(3, 4));
    assert_eq!(force, steps(614, 819));
    assert_clamped(force, at(3, 4), U as u16);
    let fast = Boid::new(at(0, 0), moving(at(0, 0), 10, 1));
    assert_eq!(fast.steer(at(1, 1)), steps(724, 724));
    assert!((length(fast.steer(at(1, 1))) - 1024.0).abs() < 1.0);
}

#[test]
fn steer_of_an_agent_at_full_speed_along_the_direction_is_no_force() {
    let boid = Boid::new(at(0, 0), moving(at(6, 8), 10, 5));
    assert_eq!(boid.steer(at(3, 4)), at(0, 0));
}

#[test]
fn steer_handles_the_longest_directions() {
    let limits = Velocity { velocity: at(0, 0), max_velocity: u16::MAX, max_force: u16::MAX };
    let boid = Boid::new(at(0, 0), limits);
    assert_eq!(boid.steer(steps(i32::MAX, 0)), steps(65535, 0));
    assert_eq!(boid.steer(steps(0, i32::MIN)), steps(0, -65535));
    assert_eq!(boid.steer(steps(i32::MIN, i32::MIN)), steps(-46340, -46340));
    let far = Boid::new(
        steps(i32::MIN, i32::MIN),
        Velocity { velocity: steps(i32::MAX, i32::MIN), max_velocity: 3, max_force: 2 },
    );
    let g = far.seek(steps(i32::MAX, i32::MAX));
    assert!(length(g) <= 2.0);
}

#[test]
fn seek_is_steer_toward_the_offset_of_the_target() {
    let boid = Boid::new(at(10, -10), moving(at(1, 0), 10, 3));
    assert_eq!(boid.seek(at(13, -6)), boid.steer(at(3, 4)));
    assert_eq!(boid.seek(at(10, -10)), at(0, 0));
    assert_eq!(boid.seek(at(-20, -10)), boid.steer(at(-30, 0)));
}

#[test]
fn arrive_slows_down_inside_the_brake_radius() {
    let boid = Boid::new(at(0, 0), moving(at(0, 0), 10, 58));
    assert_eq!(boid.arrive(at(100, 0)), at(10, 0));
    assert_eq!(boid.arrive(at(50, 0)), at(10, 0));
    assert_eq!(boid.arrive(at(25, 0)), at(5, 0));
    assert_eq!(boid.arrive(at(5, 0)), at(1, 0));
    assert_eq!(boid.arrive(at(-30, 40)), at(-6, 8));
    assert_eq!(boid.arrive(at(-15, 20)), at(-3, 4));
    assert_eq!(boid.arrive(steps(5, 0)), steps(1, 0));
    assert_eq!(boid.arrive(steps(4, 0)), steps(0, 0));
}

#[test]
fn arrive_is_clamped_to_the_steering_force() {
    let boid = Boid::new(at(0, 0), moving(at(9, 9), 10, 5));
    assert_eq!(boid.arrive(at(300, 400)), at(3, 4));
    assert_eq!(boid.arrive(at(0, 40)), at(0, 5));
    assert_eq!(boid.arrive(at(0, 20)), at(0, 4));
    // three units from the target the wanted speed is 0.6; the force is
    // limited to one unit and so stays 0.6
    let slow = Boid::new(at(0, 0), moving(at(0, 0), 10, 1));
    assert_eq!(slow.arrive(at(3, 0)), steps(614, 0));
}

#[test]
fn arrive_takes_no_account_of_the_current_velocity() {
    let resting = Boid::new(at(0, 0), moving(at(0, 0), 10, 58));
    let moving_fast = Boid::new(at(0, 0), moving(at(50, -50), 10, 58));
    assert_eq!(resting.arrive(at(30, 40)), moving_fast.arrive(at(30, 40)));
}

#[test]
fn a_lone_agent_only_seeks() {
    let boid = Boid::new(at(100, 100), moving(at(2, 0), 10, 1));
    assert_eq!(boid.sep_count(), 0);
    assert_eq!(boid.align_count(), 0);
    assert_eq!(boid.cohesion_count(), 0);
    assert_eq!(boid.sep_sum(), (0, 0));
    assert_eq!(boid.align_sum(), (0, 0));
    assert_eq!(boid.cohesion_sum(), (0, 0));
    assert_eq!(boid.get_acceleration(), at(0, 0));

    let mut agents = vec![Agent::new(at(100, 100), moving(at(2, 0), 10, 1))];
    let mut index = SpatialIndex::new();
    update_cell_association(&mut agents);
    update_spatial_index(&mut agents, &mut index);
    calc_acceleration(&mut agents, &index, at(200, 100));
    assert_eq!(agents[0].acceleration, boid.steer(at(100, 0)));
    assert_eq!(agents[0].acceleration, at(1, 0));
}

#[test]
fn a_close_neighbour_counts_for_all_three_rules_and_a_distant_one_for_two() {
    let mut boid = Boid::new(at(0, 0), moving(at(0, 0), 10, 1));
    boid.add_other(at(3, 4), at(2, 1));
    boid.add_other(at(0, 15), at(-4, 7));
    assert_eq!(boid.sep_count(), 1);
    assert_eq!(boid.align_count(), 2);
    assert_eq!(boid.cohesion_count(), 2);
    // the push is the offset over the squared distance: (-3, -4) / 25
    // units, times the scale over the steps of a unit
    assert_eq!(boid.sep_sum(), (-125829, -167772));
    assert_eq!(boid.align_sum(), (-2 * U as i128, 8 * U as i128));
    assert_eq!(boid.cohesion_sum(), (3 * U as i128, 19 * U as i128));
}

#[test]
fn two_close_neighbours_and_a_distant_one() {
    let mut boid = Boid::new(at(0, 0), moving(at(0, 0), 10, 1));
    boid.add_other(at(5, 0), at(1, 0));
    boid.add_other(at(-3, -4), at(1, 0));
    boid.add_other(at(9, -12), at(0, 1));
    assert_eq!(boid.sep_count(), 2);
    assert_eq!(boid.align_count(), 3);
    assert_eq!(boid.cohesion_count(), 3);
    assert_eq!(boid.sep_sum(), (-209715 + 125829, 167772));
    assert_eq!(boid.align_sum(), (2 * U as i128, U as i128));
    assert_eq!(boid.cohesion_sum(), (11 * U as i128, -16 * U as i128));
}

#[test]
fn a_push_away_grows_as_the_neighbour_comes_closer() {
    let mut near = Boid::new(at(0, 0), moving(at(0, 0), 10, 1));
    near.add_other(steps(-2, 0), at(0, 0));
    assert_eq!(near.sep_sum(), (1 << 29, 0));
    let mut diagonal = Boid::new(at(0, 0), moving(at(0, 0), 10, 1));
    diagonal.add_other(steps(1, -1), at(0, 0));
    assert_eq!(diagonal.sep_sum(), (-(1 << 29), 1 << 29));
    let mut far = Boid::new(at(0, 0), moving(at(0, 0), 10, 1));
    far.add_other(at(-8, 0), at(0, 0));
    assert_eq!(far.sep_sum(), ((1 << 30) / (8 * U as i128), 0));
    assert_eq!(far.sep_sum(), (131072, 0));
}

#[test]
fn a_neighbour_nearer_than_a_thousandth_of_a_unit_is_skipped() {
    let mut boid = Boid::new(at(3, -7), moving(at(0, 0), 10, 1));
    let here = at(3, -7);
    for (dx, dz) in [(0, 0), (1, 0), (-1, 0), (0, 1), (0, -1)] {
        boid.add_other(steps(here.x + dx, here.z + dz), at(5, 5));
    }
    assert_eq!(boid.sep_count(), 0);
    assert_eq!(boid.align_count(), 0);
    assert_eq!(boid.cohesion_count(), 0);
    assert_eq!(boid.sep_sum(), (0, 0));
    assert_eq!(boid.align_sum(), (0, 0));
    assert_eq!(boid.cohesion_sum(), (0, 0));
    assert_eq!(boid.get_acceleration(), at(0, 0));
    // the next nearest places count
    for (dx, dz) in [(1, 1), (-1, 1), (2, 0), (0, -2)] {
        let mut other = Boid::new(here, moving(at(0, 0), 10, 1));
        other.add_other(steps(here.x + dx, here.z + dz), at(5, 5));
        assert_eq!(other.sep_count(), 1);
        assert_eq!(other.align_count(), 1);
        assert_eq!(other.cohesion_count(), 1);
    }
}

#[test]
fn neighbours_beyond_the_radius_or_at_the_same_place_are_skipped() {
    let mut boid = Boid::new(at(0, 0), moving(at(0, 0), 10, 1));
    boid.add_other(at(0, 0), at(5, 5));
    boid.add_other(steps(0, 1), at(5, 5));
    boid.add_other(at(21, 0), at(5, 5));
    boid.add_other(steps(20 * U + 1, 0), at(5, 5));
    boid.add_other(at(15, 15), at(5, 5));
    boid.add_other(steps(i32::MAX, i32::MIN), at(5, 5));
    assert_eq!(boid.sep_count(), 0);
    assert_eq!(boid.align_count(), 0);
    assert_eq!(boid.cohesion_count(), 0);
}

#[test]
fn thresholds_are_strict() {
    let mut boid = Boid::new(at(0, 0), moving(at(0, 0), 10, 1));
    boid.add_other(at(10, 0), at(1, 1));
    assert_eq!(boid.sep_count(), 0);
    assert_eq!(boid.align_count(), 1);
    boid.add_other(at(0, 20), at(1, 1));
    assert_eq!(boid.align_count(), 1);
    assert_eq!(boid.cohesion_count(), 1);
    boid.add_other(at(12, 16), at(1, 1));
    assert_eq!(boid.cohesion_count(), 1);
    boid.add_other(steps(10 * U - 1, 0), at(1, 1));
    assert_eq!(boid.sep_count(), 1);
    boid.add_other(steps(0, 20 * U - 1), at(1, 1));
    assert_eq!(boid.sep_count(), 1);
    assert_eq!(boid.align_count(), 3);
    assert_eq!(boid.cohesion_count(), 3);
}

#[test]
fn flocking_force_adds_the_three_steers() {
    let mut boid = Boid::new(at(0, 0), moving(at(0, 0), 10, 58));
    boid.add_other(at(0, 5), at(6, 8));
    assert_eq!(boid.sep_sum(), (0, -209715));
    // apart: along (0, -1); along: the neighbour's heading; toward: the neighbour
    assert_eq!(boid.steer(steps(0, -209715)), at(0, -10));
    assert_eq!(boid.steer(at(6, 8)), at(6, 8));
    assert_eq!(boid.seek(at(0, 5)), at(0, 10));
    assert_eq!(boid.get_acceleration(), at(6, 8));
}

#[test]
fn means_round_toward_zero_by_less_than_a_step() {
    let mut boid = Boid::new(at(0, 0), moving(at(0, 0), 10, 58));
    boid.add_other(at(12, 0), steps(-3, 0));
    boid.add_other(at(0, 12), at(0, 0));
    assert_eq!(boid.align_sum(), (-3, 0));
    assert_eq!(boid.cohesion_sum(), (12 * U as i128, 12 * U as i128));
    // mean heading (-1, 0) steps, mean position (6, 6) units
    assert_eq!(boid.get_acceleration(), steps(-10240 + 7240, 7240));
}

#[test]
fn fold_neighbours_skips_the_agent_itself() {
    let others = vec![
        (7u64, at(0, 0), at(9, 9)),
        (3u64, at(3, 4), at(2, 1)),
        (7u64, at(1, 1), at(9, 9)),
        (12u64, at(0, 15), at(-4, 7)),
        (u64::MAX, at(100, 100), at(1, 1)),
    ];
    let boid = fold_neighbours(7, at(0, 0), moving(at(0, 0), 10, 1), &others);
    assert_eq!(boid.sep_count(), 1);
    assert_eq!(boid.align_count(), 2);
    assert_eq!(boid.cohesion_count(), 2);
    assert_eq!(boid.sep_sum(), (-125829, -167772));
    assert_eq!(boid.align_sum(), (-2 * U as i128, 8 * U as i128));
    assert_eq!(boid.cohesion_sum(), (3 * U as i128, 19 * U as i128));

    let mut by_hand = Boid::new(at(0, 0), moving(at(0, 0), 10, 1));
    by_hand.add_other(at(3, 4), at(2, 1));
    by_hand.add_other(at(0, 15), at(-4, 7));
    assert_eq!(boid.get_acceleration(), by_hand.get_acceleration());

    let nobody = fold_neighbours(7, at(0, 0), moving(at(0, 0), 10, 1), &Vec::new());
    assert_eq!(nobody.cohesion_count(), 0);
    let other_self = fold_neighbours(3, at(0, 0), moving(at(0, 0), 10, 1), &others);
    assert_eq!(other_self.align_count(), 2);
    assert_eq!(other_self.sep_count(), 1);
}

#[test]
fn neighbourhood_skips_the_agent_itself_and_unknown_handles() {
    let mut agents = vec![
        Agent::new(at(0, 0), moving(at(0, 0), 10, 1)),
        Agent::new(at(3, 4), moving(at(1, 2), 10, 1)),
        Agent::new(at(0, 15), moving(at(3, 4), 10, 1)),
        Agent::new(at(200, 200), moving(at(9, 9), 10, 1)),
    ];
    let mut index = SpatialIndex::new();
    update_cell_association(&mut agents);
    update_spatial_index(&mut agents, &mut index);
    index.insert((0, 0), 77);
    let boid = neighbourhood(&agents, &index, 0).unwrap();
    assert_eq!(boid.sep_count(), 1);
    assert_eq!(boid.align_count(), 2);
    assert_eq!(boid.cohesion_count(), 2);
    assert_eq!(boid.align_sum(), (4 * U as i128, 6 * U as i128));
    assert_eq!(boid.cohesion_sum(), (3 * U as i128, 19 * U as i128));
    assert!(neighbourhood(&agents, &index, 4).is_none());
    let lonely = neighbourhood(&agents, &index, 3).unwrap();
    assert_eq!(lonely.cohesion_count(), 0);
}

#[test]
fn neighbourhood_sees_a_neighbour_just_across_a_corner() {
    let mut agents = vec![
        Agent::new(at(34, 34), moving(at(0, 0), 10, 1)),
        Agent::new(steps(20 * U - 1, 20 * U - 1), moving(at(1, 0), 10, 1)),
    ];
    let mut index = SpatialIndex::new();
    update_cell_association(&mut agents);
    update_spatial_index(&mut agents, &mut index);
    let boid = neighbourhood(&agents, &index, 0).unwrap();
    assert_eq!(boid.align_count(), 1);
    assert_eq!(boid.cohesion_count(), 1);
    assert_eq!(boid.sep_count(), 0);
}

#[test]
fn calc_acceleration_gives_each_agent_its_flocking_force_and_its_seek() {
    let mut agents = vec![
        Agent::new(at(0, 0), moving(at(0, 0), 10, 58)),
        Agent::new(at(0, 5), moving(at(6, 8), 10, 58)),
        Agent::new(at(500, 500), moving(at(0, 0), 10, 2)),
    ];
    let mut index = SpatialIndex::new();
    update_cell_association(&mut agents);
    update_spatial_index(&mut agents, &mut index);
    calc_acceleration(&mut agents, &index, at(0, 100));
    assert_eq!(agents[0].acceleration, at(6, 8 + 10));
    // two units toward the target, along (-5, -4)
    assert_eq!(agents[2].acceleration, steps(-1599, -1279));
    assert_eq!(agents[1].acceleration, at(-12 - 6, -16 + 2));
    let mut second = Boid::new(at(0, 5), moving(at(6, 8), 10, 58));
    second.add_other(at(0, 0), at(0, 0));
    let expected = second.get_acceleration();
    let goal = second.seek(at(0, 100));
    assert_eq!(agents[1].acceleration, steps(expected.x + goal.x, expected.z + goal.z));
    assert_eq!(agents[0].position, at(0, 0));
    assert_eq!(agents[1].velocity.velocity, at(6, 8));
}

#[test]
fn acceleration_is_at_most_four_steering_forces_long_along_each_axis() {
    let mut agents = Vec::new();
    for i in 0..12 {
        agents.push(Agent::new(at(i * 3, (i * 7) % 11), moving(at(i - 6, 5 - i), 10, 3)));
    }
    let mut index = SpatialIndex::new();
    update_cell_association(&mut agents);
    update_spatial_index(&mut agents, &mut index);
    calc_acceleration(&mut agents, &index, at(-40, 90));
    for agent in &agents {
        assert!(agent.acceleration.x.abs() <= 12 * U);
        assert!(agent.acceleration.z.abs() <= 12 * U);
        assert!(agent.acceleration != at(0, 0));
    }
}
