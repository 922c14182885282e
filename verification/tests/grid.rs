use flocking::disc::{covering_cells, within_reach};
use flocking::plane::{calc_cell, cell_coord, Cell, Vec2, CELL_DIM, STEPS_PER_UNIT};
use flocking::root::isqrt_u128;
use flocking::spatial_index::SpatialIndex;

const U: i32 = STEPS_PER_UNIT;

/// The point at `(x, z)` world units.
fn at(x: i32, z: i32) -> Vec2 {
    Vec2 { x: x * U, z: z * U }
}

/// The point at `(x, z)` lattice steps.
fn steps(x: i32, z: i32) -> Vec2 {
    Vec2 { x, z }
}

/// The distance along one axis from `c` to the span of cell `k`, edges
/// included.
fn gap(c: i64, k: i64) -> i64 {
    let lo = k * CELL_DIM as i64;
    let end = lo + CELL_DIM as i64;
    if c < lo {
        lo - c
    } else if c > end {
        c - end
    } else {
        0
    }
}

/// Every cell whose square comes nearer to `centre` than `r`, found by
/// looking at each cell of a box around the disc.
fn cells_by_search(centre: Vec2, r: i32) -> Vec<Cell> {
    let mut cells: Vec<Cell> = Vec::new();
    if r < 0 {
        return cells;
    }
    let home = calc_cell(centre);
    let span = r / CELL_DIM + 2;
    for z in (home.1 - span)..=(home.1 + span) {
        for x in (home.0 - span)..=(home.0 + span) {
            let gx = gap(centre.x as i64, x as i64);
            let gz = gap(centre.z as i64, z as i64);
            if (x, z) == home || gx * gx + gz * gz < (r as i64) * (r as i64) {
                cells.push((x, z));
            }
        }
    }
    cells
}

#[test]
fn cell_size_is_twenty_units() {
    assert_eq!(STEPS_PER_UNIT, 1024);
    assert_eq!(CELL_DIM, 20 * STEPS_PER_UNIT);
}

#[test]
fn cell_coord_rounds_toward_negative_infinity() {
    assert_eq!(cell_coord(0), 0);
    assert_eq!(cell_coord(20479), 0);
    assert_eq!(cell_coord(20480), 1);
    assert_eq!(cell_coord(-1), -1);
    assert_eq!(cell_coord(-20480), -1);
    assert_eq!(cell_coord(-20481), -2);
    assert_eq!(cell_coord(i32::MAX), 104857);
    assert_eq!(cell_coord(i32::MIN), -104858);
}

#[test]
fn calc_cell_takes_each_axis_by_itself() {
    assert_eq!(calc_cell(at(5, 5)), (0, 0));
    assert_eq!(calc_cell(at(25, 5)), (1, 0));
    assert_eq!(calc_cell(at(-5, 45)), (-1, 2));
}

#[test]
fn isqrt_of_small_and_large_values() {
    assert_eq!(isqrt_u128(0), 0);
    assert_eq!(isqrt_u128(1), 1);
    assert_eq!(isqrt_u128(3), 1);
    assert_eq!(isqrt_u128(4), 2);
    assert_eq!(isqrt_u128(143), 11);
    assert_eq!(isqrt_u128(144), 12);
    assert_eq!(isqrt_u128(u128::MAX), u64::MAX);
    assert_eq!(isqrt_u128(1u128 << 126), 1u64 << 63);
}

#[test]
fn query_cells_of_radius_zero_is_the_cell_of_the_centre() {
    let index = SpatialIndex::new();
    assert_eq!(index.query_cells(at(5, 5), 0), vec![(0, 0)]);
    assert_eq!(index.query_cells(at(-1, 40), 0), vec![(-1, 2)]);
    assert_eq!(index.query_cells(at(20, 20), 0), vec![(1, 1)]);
}

#[test]
fn query_cells_of_negative_radius_is_empty() {
    let index = SpatialIndex::new();
    assert_eq!(index.query_cells(at(5, 5), -1), Vec::<Cell>::new());
    assert_eq!(index.query_cells(at(5, 5), -U), Vec::<Cell>::new());
    assert_eq!(index.query_cells(at(5, 5), i32::MIN), Vec::<Cell>::new());
}

#[test]
fn query_cells_around_the_origin() {
    let index = SpatialIndex::new();
    assert_eq!(
        index.query_cells(at(0, 0), 12 * U),
        vec![(-1, -1), (0, -1), (-1, 0), (0, 0)]
    );
}

#[test]
fn query_cells_leaves_out_the_corners_of_the_bounding_square() {
    let index = SpatialIndex::new();
    assert_eq!(
        index.query_cells(at(10, 10), 12 * U),
        vec![(0, -1), (-1, 0), (0, 0), (1, 0), (0, 1)]
    );
}

#[test]
fn query_cells_of_radius_zero_on_a_corner_is_still_one_cell() {
    let index = SpatialIndex::new();
    assert_eq!(index.query_cells(at(0, 0), 0), vec![(0, 0)]);
    assert_eq!(index.query_cells(at(-20, 40), 0), vec![(-1, 2)]);
}

#[test]
fn query_cells_reaches_a_cell_whose_corner_is_nearer_than_the_radius() {
    let index = SpatialIndex::new();
    // the corner (20, 20) of cell (0, 0) is five units from (23, 24)
    assert_eq!(
        index.query_cells(at(23, 24), 6 * U),
        vec![(0, 0), (1, 0), (0, 1), (1, 1)]
    );
    assert_eq!(
        index.query_cells(at(23, 24), 5 * U + 1),
        vec![(0, 0), (1, 0), (0, 1), (1, 1)]
    );
    assert_eq!(index.query_cells(at(23, 24), 5 * U), vec![(1, 0), (0, 1), (1, 1)]);
    // the same corner is less than twenty units from (34, 34)
    assert!(index.query_cells(at(34, 34), 20 * U).contains(&(0, 0)));
    assert!(!index.query_cells(at(35, 35), 20 * U).contains(&(0, 0)));
}

#[test]
fn query_cells_reaches_a_cell_that_ends_just_before_the_disc() {
    let index = SpatialIndex::new();
    // cell (0, 0) ends at x = 20 units; its points come as near as one
    // likes to that edge
    assert_eq!(index.query_cells(steps(20 * U + 1, 10 * U), 2), vec![(0, 0), (1, 0)]);
    assert_eq!(index.query_cells(steps(20 * U + 1, 10 * U), 1), vec![(1, 0)]);
}

#[test]
fn query_cells_leaves_out_a_cell_that_the_disc_only_touches() {
    let index = SpatialIndex::new();
    assert_eq!(index.query_cells(at(30, 10), 10 * U), vec![(1, 0)]);
    assert_eq!(
        index.query_cells(at(30, 10), 10 * U + 1),
        vec![(1, -1), (0, 0), (1, 0), (2, 0), (1, 1)]
    );
    assert_eq!(index.query_cells(at(10, 10), 10 * U), vec![(0, 0)]);
}

#[test]
fn query_cells_agrees_with_a_search_of_every_cell() {
    let centres = [
        at(0, 0),
        at(5, 5),
        at(19, 0),
        at(23, 24),
        at(34, 34),
        steps(-1, -1),
        steps(20479, 20480),
        steps(-37 * U + 13, 64 * U - 7),
        at(100, -100),
        at(10, 30),
    ];
    let radii = [
        0,
        1,
        2,
        U,
        5 * U,
        6 * U,
        10 * U,
        12 * U,
        20 * U - 1,
        20 * U,
        20 * U + 1,
        45 * U,
        60 * U + 5,
    ];
    for centre in centres {
        for r in radii {
            assert_eq!(
                covering_cells(centre, r),
                cells_by_search(centre, r),
                "centre {:?}, radius {}",
                centre,
                r
            );
        }
    }
}

#[test]
fn query_cells_misses_no_point_nearer_than_the_radius() {
    // points at quarter steps, each in the cell that holds it
    let centres = [steps(23 * U, 24 * U), steps(-3, 20479), steps(40961, -20481)];
    let radii = [1, 3, 50, 333];
    for centre in centres {
        for r in radii {
            let cells = covering_cells(centre, r);
            let reach = 4 * (r as i64) + 4;
            for qz in -reach..=reach {
                for qx in -reach..=reach {
                    if qx * qx + qz * qz < 16 * (r as i64) * (r as i64) {
                        let x = (4 * centre.x as i64 + qx).div_euclid(4 * CELL_DIM as i64);
                        let z = (4 * centre.z as i64 + qz).div_euclid(4 * CELL_DIM as i64);
                        assert!(cells.contains(&(x as i32, z as i32)));
                    }
                }
            }
        }
    }
    // and on a coarser mesh for the radii of the flocking rules
    for centre in [at(23, 24), at(34, 34), steps(20 * U - 1, 40 * U)] {
        for r in [6 * U, 20 * U] {
            let cells = covering_cells(centre, r);
            let mesh: i64 = 64;
            let n = r as i64 / mesh + 1;
            for i in -n..=n {
                for j in -n..=n {
                    let (dx, dz) = (i * mesh, j * mesh);
                    if dx * dx + dz * dz < (r as i64) * (r as i64) {
                        let x = (centre.x as i64 + dx).div_euclid(CELL_DIM as i64);
                        let z = (centre.z as i64 + dz).div_euclid(CELL_DIM as i64);
                        assert!(cells.contains(&(x as i32, z as i32)));
                    }
                }
            }
        }
    }
}

#[test]
fn query_cells_has_no_cell_twice() {
    let cells = covering_cells(at(7, -13), 75 * U);
    for i in 0..cells.len() {
        for j in (i + 1)..cells.len() {
            assert_ne!(cells[i], cells[j]);
        }
    }
}

#[test]
fn query_cells_at_the_edge_of_the_plane() {
    let cells = covering_cells(steps(i32::MAX, i32::MIN), 20 * U);
    assert!(cells.contains(&(104857, -104858)));
    assert!(cells.contains(&(104858, -104859)));
}

#[test]
fn new_index_is_empty() {
    let index = SpatialIndex::new();
    assert_eq!(index.bucket((0, 0)), Vec::<u64>::new());
    assert_eq!(index.query(at(0, 0), 1000 * U), Vec::<u64>::new());
}

#[test]
fn insert_appends_to_the_bucket() {
    let mut index = SpatialIndex::new();
    index.insert((0, 0), 7);
    index.insert((0, 0), 3);
    index.insert((1, 0), 9);
    assert_eq!(index.bucket((0, 0)), vec![7, 3]);
    assert_eq!(index.bucket((1, 0)), vec![9]);
    assert_eq!(index.bucket((0, 1)), Vec::<u64>::new());
}

#[test]
fn cells_that_differ_in_one_coordinate_have_their_own_buckets() {
    let mut index = SpatialIndex::new();
    index.insert((1, 2), 1);
    index.insert((2, 1), 2);
    index.insert((-1, 2), 3);
    index.insert((1, -2), 4);
    index.insert((i32::MIN, i32::MAX), 5);
    index.insert((i32::MAX, i32::MIN), 6);
    assert_eq!(index.bucket((1, 2)), vec![1]);
    assert_eq!(index.bucket((2, 1)), vec![2]);
    assert_eq!(index.bucket((-1, 2)), vec![3]);
    assert_eq!(index.bucket((1, -2)), vec![4]);
    assert_eq!(index.bucket((i32::MIN, i32::MAX)), vec![5]);
    assert_eq!(index.bucket((i32::MAX, i32::MIN)), vec![6]);
}

#[test]
fn remove_takes_the_agent_out_and_keeps_the_rest_in_order() {
    let mut index = SpatialIndex::new();
    index.insert((0, 0), 1);
    index.insert((0, 0), 2);
    index.insert((0, 0), 3);
    index.remove((0, 0), 2);
    assert_eq!(index.bucket((0, 0)), vec![1, 3]);
}

#[test]
fn remove_takes_out_every_occurrence() {
    let mut index = SpatialIndex::new();
    index.insert((0, 0), 1);
    index.insert((0, 0), 2);
    index.insert((0, 0), 1);
    index.remove((0, 0), 1);
    assert_eq!(index.bucket((0, 0)), vec![2]);
}

#[test]
fn remove_of_an_agent_that_is_not_there_does_nothing() {
    let mut index = SpatialIndex::new();
    index.remove((0, 0), 1);
    assert_eq!(index.bucket((0, 0)), Vec::<u64>::new());
    index.insert((0, 0), 2);
    index.remove((0, 0), 1);
    index.remove((3, 3), 2);
    assert_eq!(index.bucket((0, 0)), vec![2]);
}

#[test]
fn insert_then_remove_restores_the_index() {
    let mut index = SpatialIndex::new();
    index.insert((4, 4), 10);
    index.insert((2, 2), 5);
    index.remove((2, 2), 5);
    assert_eq!(index.bucket((2, 2)), Vec::<u64>::new());
    assert_eq!(index.bucket((4, 4)), vec![10]);
    index.insert((4, 4), 11);
    index.remove((4, 4), 11);
    assert_eq!(index.bucket((4, 4)), vec![10]);
    assert_eq!(index.query(at(0, 0), 200 * U), vec![10]);
}

#[test]
fn query_returns_the_near_agent_and_not_the_far_one() {
    let mut index = SpatialIndex::new();
    index.insert(calc_cell(at(5, 5)), 1);
    index.insert(calc_cell(at(25, 5)), 2);
    let found = index.query(at(0, 0), 12 * U);
    assert!(found.contains(&1));
    assert!(!found.contains(&2));
    assert_eq!(found, vec![1]);
}

#[test]
fn query_walks_the_cells_row_by_row() {
    let mut index = SpatialIndex::new();
    index.insert((0, 0), 1);
    index.insert((-1, 0), 2);
    index.insert((0, -1), 3);
    index.insert((0, 0), 4);
    index.insert((5, 5), 5);
    assert_eq!(index.query(at(0, 0), 12 * U), vec![3, 2, 1, 4]);
}

#[test]
fn query_finds_an_agent_just_across_a_corner() {
    let mut index = SpatialIndex::new();
    index.insert(calc_cell(steps(20 * U - 1, 20 * U - 1)), 1);
    assert_eq!(index.query(at(34, 34), 20 * U), vec![1]);
    assert_eq!(index.query(at(23, 24), 6 * U), vec![1]);
}

#[test]
fn query_may_return_agents_beyond_the_radius() {
    let mut index = SpatialIndex::new();
    index.insert(calc_cell(at(19, 19)), 1);
    assert_eq!(index.query(at(0, 0), 3 * U), vec![1]);
}

#[test]
fn within_reach_is_strictly_nearer_than_the_radius() {
    assert!(within_reach(at(0, 0), 5 * U, at(3, 3)));
    assert!(within_reach(at(0, 0), 5 * U + 1, at(3, 4)));
    assert!(!within_reach(at(0, 0), 5 * U, at(3, 4)));
    assert!(!within_reach(at(0, 0), 5 * U, at(5, 0)));
    assert!(within_reach(at(0, 0), 5 * U, steps(5 * U - 1, 0)));
    assert!(!within_reach(at(7, 7), 0, at(7, 7)));
    assert!(within_reach(at(7, 7), 1, at(7, 7)));
    assert!(!within_reach(at(7, 7), -1, at(7, 7)));
    assert!(!within_reach(at(7, 7), i32::MIN, at(7, 7)));
    assert!(!within_reach(steps(i32::MIN, i32::MIN), i32::MAX, steps(i32::MAX, i32::MAX)));
    assert!(within_reach(steps(i32::MIN, 0), i32::MAX, steps(-2, 0)));
    assert!(!within_reach(steps(i32::MIN, 0), i32::MAX, steps(-1, 0)));
}
