//! One tick of the simulation core, and a probe of the index for
//! inspection.
//!
//! Within a tick the order is fixed: detection, then commit, then the
//! acceleration of every agent. A query therefore never meets an index
//! that lags behind the positions of the tick.

use vstd::prelude::*;
use crate::agent::{memberships, same_motion, Agent};
use crate::boid::{
    acceleration, calc_acceleration, lemma_tally_reads_motion, neighbourhood_of, candidates_of,
};
use crate::disc::{disc_cells, within_reach};
use crate::membership::{
    commit_all, in_sync, lemma_cell_at_assigned, lemma_observe_keeps_sync, observe, observe_all,
    settle, settle_all, update_cell_association, update_spatial_index, Membership,
};
use crate::plane::{cell_at, Cell, Vec2};
use crate::spatial_index::{gather, SpatialIndex};
use crate::steering::norm2;

verus! {

/// How far the probe looks: five world units.
pub const PROBE_RADIUS: i32 = 5120;

/// The positions of a registry, by handle.
pub open spec fn positions(agents: Seq<Agent>) -> Seq<Vec2> {
    Seq::new(agents.len(), |i: int| agents[i].position)
}

/// A record that was clean before a tick is clean after it and names the
/// cell of the agent's position.
pub proof fn lemma_tick_files_under_position(m: Membership, pos: Vec2)
    requires
        !m.dirty,
    ensures
        settle(observe(m, pos)).current == cell_at(pos),
        settle(observe(m, pos)).pending == cell_at(pos),
        !settle(observe(m, pos)).dirty,
{
    lemma_cell_at_assigned(pos);
}

/// One tick: detection, commit, and the acceleration of every agent
/// toward `target`. Positions and velocities stay as they are: moving the
/// agents is left to the caller.
pub fn tick(agents: &mut Vec<Agent>, index: &mut SpatialIndex, target: Vec2)
    ensures
        final(agents)@.len() == old(agents)@.len(),
        old(index).wf() ==> final(index).wf(),
        final(index)@ == commit_all(
            old(index)@,
            observe_all(memberships(old(agents)@), positions(old(agents)@)),
            old(agents)@.len() as int,
        ),
        memberships(final(agents)@) == settle_all(
            observe_all(memberships(old(agents)@), positions(old(agents)@)),
        ),
        forall|i: int|
            0 <= i < old(agents)@.len() ==> {
                &&& same_motion(#[trigger] final(agents)@[i], old(agents)@[i])
                &&& final(agents)@[i].acceleration@ == acceleration(
                    neighbourhood_of(old(agents)@, final(index)@, i),
                    target,
                )
            },
        in_sync(old(index)@, memberships(old(agents)@)) ==> in_sync(
            final(index)@,
            memberships(final(agents)@),
        ),
{
    let ghost before = agents@;
    update_cell_association(agents);
    let ghost observed = agents@;
    proof {
        assert(memberships(observed) =~= observe_all(memberships(before), positions(before)));
        if in_sync(index@, memberships(before)) {
            lemma_observe_keeps_sync(index@, memberships(before), positions(before));
        }
    }
    update_spatial_index(agents, index);
    let ghost committed = agents@;
    calc_acceleration(agents, index, target);
    proof {
        assert(memberships(agents@) =~= memberships(committed));
        assert forall|i: int| 0 <= i < before.len() implies {
            &&& same_motion(#[trigger] agents@[i], before[i])
            &&& agents@[i].acceleration@ == acceleration(
                neighbourhood_of(before, index@, i),
                target,
            )
        } by {
            assert forall|k: int| 0 <= k < before.len() implies same_motion(
                #[trigger] committed[k],
                before[k],
            ) by {
                assert(same_motion(observed[k], before[k]));
            }
            let candidates = candidates_of(committed, index@, i);
            lemma_tally_reads_motion(committed, before, i, candidates, candidates.len() as int);
        }
    }
}

/// The handles among the first `n` of `candidates` whose agents the
/// registry knows and that lie closer than `r` to `centre`.
pub open spec fn hits(agents: Seq<Agent>, candidates: Seq<u64>, centre: Vec2, r: int, n: int)
    -> Seq<u64>
    decreases n,
{
    if n <= 0 {
        Seq::empty()
    } else {
        let earlier = hits(agents, candidates, centre, r, n - 1);
        let handle = candidates[n - 1];
        if handle < agents.len() && norm2(
            agents[handle as int].position.x - centre.x,
            agents[handle as int].position.z - centre.z,
        ) < r * r {
            earlier.push(handle)
        } else {
            earlier
        }
    }
}

/// What the index reports around `cursor`, for showing it: the cells
/// that a disc of the probe radius reaches, and the agents found there
/// that lie closer to `cursor` than the probe radius.
pub fn test_spatial_index(agents: &Vec<Agent>, index: &SpatialIndex, cursor: Vec2) -> (shown: (
    Vec<Cell>,
    Vec<u64>,
))
    ensures
        shown.0@ == disc_cells(cursor, PROBE_RADIUS as int),
        shown.1@ == hits(
            agents@,
            gather(index@, disc_cells(cursor, PROBE_RADIUS as int)),
            cursor,
            PROBE_RADIUS as int,
            gather(index@, disc_cells(cursor, PROBE_RADIUS as int)).len() as int,
        ),
{
    let cells = index.query_cells(cursor, PROBE_RADIUS);
    let found = index.query(cursor, PROBE_RADIUS);
    let mut near: Vec<u64> = Vec::new();
    let mut j: usize = 0;
    while j < found.len()
        invariant
            j <= found.len(),
            near@ == hits(agents@, found@, cursor, PROBE_RADIUS as int, j as int),
        decreases found.len() - j,
    {
        let handle = found[j];
        if handle < agents.len() as u64 {
            if within_reach(cursor, PROBE_RADIUS, agents[handle as usize].position) {
                near.push(handle);
            }
        }
        j = j + 1;
    }
    (cells, near)
}

} // verus!
