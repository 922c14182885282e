//! Cell membership: which cell each agent is filed under, which cell its
//! position calls for, and the two phases that bring the index up to date.
//!
//! Detection recomputes the pending cell of every agent that is not
//! already marked dirty, and marks the agent dirty when the pending cell
//! differs from the committed one. Commit moves every dirty agent from
//! its committed cell to its pending cell in the index and clears the
//! mark. An agent's handle is its position in the registry.

use vstd::prelude::*;
use crate::agent::{memberships, same_body, Agent};
use crate::plane::{calc_cell, cell_at, Cell, Vec2};
use crate::spatial_index::{
    bucket_of, inserted, lemma_sparse_preserved, lemma_without_contains,
    lemma_without_no_duplicates, removed, sparse, without, Buckets, SpatialIndex,
};

verus! {

/// The cell of an agent that has not been filed yet. No position lies in it.
pub const UNASSIGNED: Cell = (i32::MIN, i32::MIN);

/// No position lies in the unassigned cell.
pub proof fn lemma_cell_at_assigned(pos: Vec2)
    ensures
        cell_at(pos) != UNASSIGNED,
{
}

/// What a membership record says.
pub struct Membership {
    /// The cell under which the index files the agent.
    pub current: Cell,
    /// The cell that the agent's position called for when last looked at.
    pub pending: Cell,
    /// Whether the index still has to catch up with the pending cell.
    pub dirty: bool,
}

/// A dirty record has a pending cell to move to.
pub open spec fn valid(m: Membership) -> bool {
    m.dirty ==> m.pending != UNASSIGNED
}

/// The record after detection has looked at the agent's position.
pub open spec fn observe(m: Membership, pos: Vec2) -> Membership {
    if m.dirty {
        m
    } else {
        Membership { current: m.current, pending: cell_at(pos), dirty: cell_at(pos) != m.current }
    }
}

/// The record after commit.
pub open spec fn settle(m: Membership) -> Membership {
    if m.dirty {
        Membership { current: m.pending, pending: m.pending, dirty: false }
    } else {
        m
    }
}

/// The buckets after commit has dealt with the record of `agent`.
pub open spec fn commit_buckets(b: Buckets, m: Membership, agent: u64) -> Buckets {
    if !m.dirty {
        b
    } else if m.current == UNASSIGNED {
        inserted(b, m.pending, agent)
    } else {
        inserted(removed(b, m.current, agent), m.pending, agent)
    }
}

/// The membership record of one agent.
#[derive(Clone, Copy, Debug)]
pub struct CellAssociation {
    cell: Cell,
    new_cell: Cell,
    dirty: bool,
}

impl View for CellAssociation {
    type V = Membership;

    closed spec fn view(&self) -> Membership {
        Membership { current: self.cell, pending: self.new_cell, dirty: self.dirty }
    }
}

impl CellAssociation {
    #[verifier::type_invariant]
    spec fn dirty_has_target(&self) -> bool {
        self.dirty ==> self.new_cell != UNASSIGNED
    }

    /// The record of an agent that has not been filed yet.
    pub fn new() -> (record: Self)
        ensures
            record@ == (Membership { current: UNASSIGNED, pending: UNASSIGNED, dirty: false }),
    {
        CellAssociation { cell: UNASSIGNED, new_cell: UNASSIGNED, dirty: false }
    }

    /// The cell under which the index files the agent.
    pub fn cell(&self) -> (cell: Cell)
        ensures
            cell == self@.current,
    {
        self.cell
    }

    /// The cell that the agent's position called for when last looked at.
    pub fn new_cell(&self) -> (cell: Cell)
        ensures
            cell == self@.pending,
    {
        self.new_cell
    }

    /// Whether the index still has to catch up with this record. A dirty
    /// record always has a pending cell to move to.
    pub fn is_dirty(&self) -> (dirty: bool)
        ensures
            dirty == self@.dirty,
            valid(self@),
    {
        proof {
            use_type_invariant(self);
        }
        self.dirty
    }

    /// Detection for one agent: looks at the position unless the record is
    /// already dirty, and says whether the record is dirty afterwards.
    pub fn refresh(&mut self, pos: Vec2) -> (dirty: bool)
        ensures
            final(self)@ == observe(old(self)@, pos),
            dirty == final(self)@.dirty,
            valid(final(self)@),
    {
        proof {
            use_type_invariant(&*self);
        }
        if !self.dirty {
            let cell = calc_cell(pos);
            proof {
                lemma_cell_at_assigned(pos);
            }
            self.new_cell = cell;
            self.dirty = cell.0 != self.cell.0 || cell.1 != self.cell.1;
        }
        self.dirty
    }

    /// Commit for one agent: moves `agent` from the committed cell to the
    /// pending cell in `index` if the record is dirty, and clears the mark.
    pub fn commit(&mut self, index: &mut SpatialIndex, agent: u64)
        ensures
            old(index).wf() ==> final(index).wf(),
            final(index)@ == commit_buckets(old(index)@, old(self)@, agent),
            final(self)@ == settle(old(self)@),
            valid(final(self)@),
    {
        if self.dirty {
            if self.cell.0 != UNASSIGNED.0 || self.cell.1 != UNASSIGNED.1 {
                index.remove(self.cell, agent);
            }
            index.insert(self.new_cell, agent);
            self.dirty = false;
            self.cell = self.new_cell;
        }
    }
}

/// The buckets after commit has dealt with the first `n` records, each
/// under its position as handle.
pub open spec fn commit_all(b: Buckets, ms: Seq<Membership>, n: int) -> Buckets
    decreases n,
{
    if n <= 0 {
        b
    } else {
        commit_buckets(commit_all(b, ms, n - 1), ms[n - 1], (n - 1) as u64)
    }
}

/// The records after commit has dealt with all of them.
pub open spec fn settle_all(ms: Seq<Membership>) -> Seq<Membership> {
    Seq::new(ms.len(), |i: int| settle(ms[i]))
}

/// The records after detection has looked at all positions.
pub open spec fn observe_all(ms: Seq<Membership>, positions: Seq<Vec2>) -> Seq<Membership> {
    Seq::new(ms.len(), |i: int| observe(ms[i], positions[i]))
}

/// The record of `agent` says that the index files it under `cell`.
pub open spec fn filed_under(ms: Seq<Membership>, agent: u64, cell: Cell) -> bool {
    &&& agent < ms.len()
    &&& cell != UNASSIGNED
    &&& ms[agent as int].current == cell
}

/// The index and the records agree: a bucket holds a handle exactly when
/// the record of that handle names the bucket's cell as its committed
/// cell, no bucket holds a handle twice, and no entry is empty.
pub open spec fn in_sync(b: Buckets, ms: Seq<Membership>) -> bool {
    &&& sparse(b)
    &&& forall|c: Cell, h: u64| #[trigger] bucket_of(b, c).contains(h) <==> filed_under(ms, h, c)
    &&& forall|c: Cell| (#[trigger] bucket_of(b, c)).no_duplicates()
}

/// Where index and records agree, no handle is in two buckets.
pub proof fn lemma_one_bucket(b: Buckets, ms: Seq<Membership>, agent: u64, c1: Cell, c2: Cell)
    requires
        in_sync(b, ms),
        bucket_of(b, c1).contains(agent),
        bucket_of(b, c2).contains(agent),
    ensures
        c1 == c2,
        agent < ms.len(),
        ms[agent as int].current == c1,
{
}

/// An empty index agrees with records that are all unassigned.
pub proof fn lemma_fresh_in_sync(ms: Seq<Membership>)
    requires
        forall|i: int| 0 <= i < ms.len() ==> (#[trigger] ms[i]).current == UNASSIGNED,
    ensures
        in_sync(Map::empty(), ms),
{
    let b: Buckets = Map::empty();
    assert forall|c: Cell, h: u64| #[trigger]
        bucket_of(b, c).contains(h) <==> filed_under(ms, h, c) by {
        assert(bucket_of(b, c) =~= Seq::<u64>::empty());
    }
}

/// Detection leaves the agreement of index and records as it is.
pub proof fn lemma_observe_keeps_sync(b: Buckets, ms: Seq<Membership>, positions: Seq<Vec2>)
    requires
        in_sync(b, ms),
    ensures
        in_sync(b, observe_all(ms, positions)),
{
    let after = observe_all(ms, positions);
    assert forall|c: Cell, h: u64| #[trigger]
        bucket_of(b, c).contains(h) <==> filed_under(after, h, c) by {
        assert(bucket_of(b, c).contains(h) <==> filed_under(ms, h, c));
    }
}

/// What the bucket of `c` holds after `agent` was taken out of `cell`.
proof fn lemma_removed_contains(b: Buckets, cell: Cell, agent: u64, c: Cell, e: u64)
    ensures
        bucket_of(removed(b, cell, agent), c).contains(e) <==> bucket_of(b, c).contains(e) && !(c
            == cell && e == agent),
        bucket_of(b, c).no_duplicates() ==> bucket_of(removed(b, cell, agent), c).no_duplicates(),
{
    if c == cell && b.contains_key(cell) {
        lemma_without_contains(b[cell], agent, e);
        if bucket_of(b, c).no_duplicates() {
            lemma_without_no_duplicates(b[cell], agent);
        }
        if without(b[cell], agent).len() == 0 {
            assert(bucket_of(removed(b, cell, agent), c) =~= without(b[cell], agent));
        }
    }
}

/// What the bucket of `c` holds after `agent` was appended to `cell`.
proof fn lemma_inserted_contains(b: Buckets, cell: Cell, agent: u64, c: Cell, e: u64)
    ensures
        bucket_of(inserted(b, cell, agent), c).contains(e) <==> bucket_of(b, c).contains(e) || (c
            == cell && e == agent),
        bucket_of(b, c).no_duplicates() && !bucket_of(b, cell).contains(agent) ==> bucket_of(
            inserted(b, cell, agent),
            c,
        ).no_duplicates(),
{
    if c == cell {
        let old_bucket = bucket_of(b, cell);
        let new_bucket = old_bucket.push(agent);
        assert(new_bucket[old_bucket.len() as int] == agent);
        if old_bucket.contains(e) {
            let i = choose|i: int| 0 <= i < old_bucket.len() && old_bucket[i] == e;
            assert(new_bucket[i] == e);
        }
        if new_bucket.contains(e) {
            let i = choose|i: int| 0 <= i < new_bucket.len() && new_bucket[i] == e;
            if i < old_bucket.len() {
                assert(old_bucket[i] == e);
            }
        }
        if old_bucket.no_duplicates() && !old_bucket.contains(agent) {
            assert forall|i: int, j: int|
                0 <= i < new_bucket.len() && 0 <= j < new_bucket.len() && i
                    != j implies new_bucket[i] != new_bucket[j] by {
                if i < old_bucket.len() {
                    assert(old_bucket.contains(old_bucket[i]));
                }
                if j < old_bucket.len() {
                    assert(old_bucket.contains(old_bucket[j]));
                }
            }
        }
    }
}

/// Commit for one agent keeps index and records in agreement.
pub proof fn lemma_commit_keeps_sync(b: Buckets, ms: Seq<Membership>, h: int)
    requires
        in_sync(b, ms),
        0 <= h < ms.len(),
        h <= u64::MAX,
        valid(ms[h]),
    ensures
        in_sync(commit_buckets(b, ms[h], h as u64), ms.update(h, settle(ms[h]))),
{
    let m = ms[h];
    let agent = h as u64;
    let after = ms.update(h, settle(m));
    if m.dirty {
        let b1 = if m.current == UNASSIGNED {
            b
        } else {
            removed(b, m.current, agent)
        };
        let b2 = inserted(b1, m.pending, agent);
        assert(b2 == commit_buckets(b, m, agent));
        lemma_sparse_preserved(b, m.current, agent);
        lemma_sparse_preserved(b1, m.pending, agent);
        assert forall|c: Cell, e: u64|
            bucket_of(b1, c).contains(e) <==> bucket_of(b, c).contains(e) && e != agent by {
            lemma_removed_contains(b, m.current, agent, c, e);
            assert(bucket_of(b, c).contains(e) <==> filed_under(ms, e, c));
        }
        assert forall|c: Cell| (#[trigger] bucket_of(b1, c)).no_duplicates() by {
            lemma_removed_contains(b, m.current, agent, c, agent);
            assert(bucket_of(b, c).no_duplicates());
        }
        assert forall|c: Cell, e: u64| #[trigger]
            bucket_of(b2, c).contains(e) <==> filed_under(after, e, c) by {
            lemma_inserted_contains(b1, m.pending, agent, c, e);
            assert(bucket_of(b, c).contains(e) <==> filed_under(ms, e, c));
        }
        assert forall|c: Cell| (#[trigger] bucket_of(b2, c)).no_duplicates() by {
            lemma_inserted_contains(b1, m.pending, agent, c, agent);
            assert(bucket_of(b1, c).no_duplicates());
        }
    } else {
        assert(after =~= ms);
    }
}

/// The records after commit has dealt with the first `n` of them.
pub open spec fn settle_first(ms: Seq<Membership>, n: int) -> Seq<Membership> {
    Seq::new(
        ms.len(),
        |i: int|
            if i < n {
                settle(ms[i])
            } else {
                ms[i]
            },
    )
}

/// Commit keeps index and records in agreement, agent after agent.
pub proof fn lemma_commit_all_keeps_sync(b: Buckets, ms: Seq<Membership>, n: int)
    requires
        in_sync(b, ms),
        0 <= n <= ms.len(),
        ms.len() <= u64::MAX,
        forall|i: int| 0 <= i < ms.len() ==> valid(#[trigger] ms[i]),
    ensures
        in_sync(commit_all(b, ms, n), settle_first(ms, n)),
    decreases n,
{
    if n == 0 {
        assert(settle_first(ms, 0) =~= ms);
    } else {
        lemma_commit_all_keeps_sync(b, ms, n - 1);
        lemma_commit_keeps_sync(commit_all(b, ms, n - 1), settle_first(ms, n - 1), n - 1);
        assert(settle_first(ms, n - 1).update(n - 1, settle(ms[n - 1])) =~= settle_first(ms, n));
    }
}

/// The commit phase keeps index and records in agreement.
pub proof fn lemma_commit_phase_keeps_sync(b: Buckets, ms: Seq<Membership>)
    requires
        in_sync(b, ms),
        ms.len() <= u64::MAX,
        forall|i: int| 0 <= i < ms.len() ==> valid(#[trigger] ms[i]),
    ensures
        in_sync(commit_all(b, ms, ms.len() as int), settle_all(ms)),
{
    lemma_commit_all_keeps_sync(b, ms, ms.len() as int);
    assert(settle_first(ms, ms.len() as int) =~= settle_all(ms));
}

/// Commit changes no bucket where no record is dirty.
pub proof fn lemma_commit_all_clean(b: Buckets, ms: Seq<Membership>, n: int)
    requires
        0 <= n <= ms.len(),
        forall|i: int| 0 <= i < ms.len() ==> !(#[trigger] ms[i]).dirty,
    ensures
        commit_all(b, ms, n) == b,
    decreases n,
{
    if n > 0 {
        lemma_commit_all_clean(b, ms, n - 1);
    }
}

/// Committing twice in a row is the same as committing once: the second
/// commit finds no dirty record and changes neither buckets nor records.
pub proof fn lemma_commit_idempotent(b: Buckets, ms: Seq<Membership>)
    ensures
        settle_all(settle_all(ms)) == settle_all(ms),
        commit_all(commit_all(b, ms, ms.len() as int), settle_all(ms), ms.len() as int)
            == commit_all(b, ms, ms.len() as int),
{
    assert(settle_all(settle_all(ms)) =~= settle_all(ms));
    lemma_commit_all_clean(commit_all(b, ms, ms.len() as int), settle_all(ms), ms.len() as int);
}

/// The detection phase: looks at the position of every agent that is not
/// already dirty and marks the agent dirty if its cell has changed.
pub fn update_cell_association(agents: &mut Vec<Agent>)
    ensures
        final(agents)@.len() == old(agents)@.len(),
        forall|i: int|
            0 <= i < old(agents)@.len() ==> {
                &&& same_body(#[trigger] final(agents)@[i], old(agents)@[i])
                &&& final(agents)@[i].association@ == observe(
                    old(agents)@[i].association@,
                    old(agents)@[i].position,
                )
                &&& valid(final(agents)@[i].association@)
            },
{
    let mut i: usize = 0;
    while i < agents.len()
        invariant
            i <= agents.len(),
            agents@.len() == old(agents)@.len(),
            forall|j: int| i <= j < agents@.len() ==> agents@[j] == old(agents)@[j],
            forall|j: int|
                0 <= j < i ==> {
                    &&& same_body(#[trigger] agents@[j], old(agents)@[j])
                    &&& agents@[j].association@ == observe(
                        old(agents)@[j].association@,
                        old(agents)@[j].position,
                    )
                    &&& valid(agents@[j].association@)
                },
        decreases agents.len() - i,
    {
        let mut agent = agents[i];
        agent.association.refresh(agent.position);
        agents.set(i, agent);
        i = i + 1;
    }
}

/// The commit phase: moves every dirty agent from its committed cell to
/// its pending cell in the index and clears the mark. Index and records
/// that agreed before still agree afterwards.
pub fn update_spatial_index(agents: &mut Vec<Agent>, index: &mut SpatialIndex)
    ensures
        old(index).wf() ==> final(index).wf(),
        final(agents)@.len() == old(agents)@.len(),
        final(index)@ == commit_all(
            old(index)@,
            memberships(old(agents)@),
            old(agents)@.len() as int,
        ),
        memberships(final(agents)@) == settle_all(memberships(old(agents)@)),
        forall|i: int|
            0 <= i < old(agents)@.len() ==> {
                &&& same_body(#[trigger] final(agents)@[i], old(agents)@[i])
                &&& final(agents)@[i].association@ == settle(old(agents)@[i].association@)
                &&& !final(agents)@[i].association@.dirty
            },
        in_sync(old(index)@, memberships(old(agents)@)) ==> in_sync(
            final(index)@,
            memberships(final(agents)@),
        ),
{
    let ghost before = memberships(agents@);
    let ghost start = index@;
    let mut i: usize = 0;
    while i < agents.len()
        invariant
            i <= agents.len(),
            old(index).wf() ==> index.wf(),
            agents@.len() == old(agents)@.len(),
            before == memberships(old(agents)@),
            start == old(index)@,
            forall|j: int| i <= j < agents@.len() ==> agents@[j] == old(agents)@[j],
            forall|j: int|
                0 <= j < i ==> {
                    &&& same_body(#[trigger] agents@[j], old(agents)@[j])
                    &&& agents@[j].association@ == settle(old(agents)@[j].association@)
                },
            index@ == commit_all(start, before, i as int),
            in_sync(start, before) ==> in_sync(index@, memberships(agents@)),
        decreases agents.len() - i,
    {
        let ghost records = memberships(agents@);
        let ghost buckets = index@;
        let mut agent = agents[i];
        let dirty = agent.association.is_dirty();
        agent.association.commit(index, i as u64);
        agents.set(i, agent);
        proof {
            assert(records[i as int] == before[i as int]);
            assert(memberships(agents@) =~= records.update(i as int, settle(records[i as int])));
            if in_sync(start, before) {
                lemma_commit_keeps_sync(buckets, records, i as int);
            }
        }
        i = i + 1;
    }
    assert(memberships(agents@) =~= settle_all(before));
}

} // verus!
