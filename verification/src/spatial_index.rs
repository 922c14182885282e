//! The grid index: for each cell, the handles of the agents filed there.
//!
//! The index holds handles only; the agents themselves live elsewhere.
//! A cell without agents has no entry at all, so the index stays as small
//! as the occupied part of the plane.

use std::collections::HashMap;
use vstd::prelude::*;
use vstd::std_specs::hash::*;
use crate::disc::{
    cell_meets_disc, covering_cells, disc_cells, lemma_disc_cells_hold_near_points, nearer_than,
};
use crate::plane::{cell_of, Cell, Vec2};

verus! {

broadcast use vstd::std_specs::hash::group_hash_axioms;

/// What an index holds, as a map from occupied cells to their buckets.
pub type Buckets = Map<Cell, Seq<u64>>;

/// The bucket of `cell`: empty where the cell has no entry.
pub open spec fn bucket_of(m: Buckets, cell: Cell) -> Seq<u64> {
    if m.contains_key(cell) {
        m[cell]
    } else {
        Seq::empty()
    }
}

/// Every entry holds at least one handle.
pub open spec fn sparse(m: Buckets) -> bool {
    forall|c: Cell| m.contains_key(c) ==> (#[trigger] m[c]).len() > 0
}

/// `s` with every occurrence of `agent` taken out, the rest in order.
pub open spec fn without(s: Seq<u64>, agent: u64) -> Seq<u64> {
    s.filter(|e: u64| e != agent)
}

/// The buckets after `agent` is appended to the bucket of `cell`.
pub open spec fn inserted(m: Buckets, cell: Cell, agent: u64) -> Buckets {
    m.insert(cell, bucket_of(m, cell).push(agent))
}

/// The buckets after `agent` is taken out of the bucket of `cell`; the
/// entry goes when nothing is left in it.
pub open spec fn removed(m: Buckets, cell: Cell, agent: u64) -> Buckets {
    if !m.contains_key(cell) {
        m
    } else if without(m[cell], agent).len() == 0 {
        m.remove(cell)
    } else {
        m.insert(cell, without(m[cell], agent))
    }
}

/// The buckets of `cells`, one after the other.
pub open spec fn gather(m: Buckets, cells: Seq<Cell>) -> Seq<u64>
    decreases cells.len(),
{
    if cells.len() == 0 {
        Seq::empty()
    } else {
        gather(m, cells.drop_last()) + bucket_of(m, cells.last())
    }
}

/// Taking `agent` out of a sequence that ends in `last`.
pub proof fn lemma_without_push(s: Seq<u64>, last: u64, agent: u64)
    ensures
        without(s.push(last), agent) == if last == agent {
            without(s, agent)
        } else {
            without(s, agent).push(last)
        },
{
    reveal(Seq::filter);
    assert(s.push(last).drop_last() =~= s);
}

/// What is left after taking `agent` out: every other element of `s`.
pub proof fn lemma_without_contains(s: Seq<u64>, agent: u64, e: u64)
    ensures
        without(s, agent).contains(e) <==> s.contains(e) && e != agent,
    decreases s.len(),
{
    reveal(Seq::filter);
    if s.len() > 0 {
        let head = s.drop_last();
        lemma_without_contains(head, agent, e);
        lemma_without_push(head, s.last(), agent);
        assert(head.push(s.last()) =~= s);
        let kept = without(head, agent);
        if head.contains(e) {
            let i = choose|i: int| 0 <= i < head.len() && head[i] == e;
            assert(s[i] == e);
        }
        if s.contains(e) {
            let i = choose|i: int| 0 <= i < s.len() && s[i] == e;
            if i < head.len() {
                assert(head[i] == e);
            }
        }
        if s.last() != agent {
            assert(kept.push(s.last())[kept.len() as int] == s.last());
            if kept.contains(e) {
                let i = choose|i: int| 0 <= i < kept.len() && kept[i] == e;
                assert(kept.push(s.last())[i] == e);
            }
            if kept.push(s.last()).contains(e) {
                let i = choose|i: int|
                    0 <= i < kept.push(s.last()).len() && kept.push(s.last())[i] == e;
                if i < kept.len() {
                    assert(kept[i] == e);
                }
            }
        }
    }
}

/// Taking out an agent that is not there changes nothing.
pub proof fn lemma_without_absent(s: Seq<u64>, agent: u64)
    requires
        !s.contains(agent),
    ensures
        without(s, agent) == s,
    decreases s.len(),
{
    reveal(Seq::filter);
    if s.len() > 0 {
        let head = s.drop_last();
        assert(s[s.len() - 1] == s.last());
        assert forall|i: int| 0 <= i < head.len() implies head[i] != agent by {
            assert(s[i] == head[i]);
        }
        lemma_without_absent(head, agent);
        lemma_without_push(head, s.last(), agent);
        assert(head.push(s.last()) =~= s);
    }
}

/// Taking an agent out keeps a duplicate-free sequence duplicate-free.
pub proof fn lemma_without_no_duplicates(s: Seq<u64>, agent: u64)
    requires
        s.no_duplicates(),
    ensures
        without(s, agent).no_duplicates(),
    decreases s.len(),
{
    reveal(Seq::filter);
    if s.len() > 0 {
        let head = s.drop_last();
        lemma_without_no_duplicates(head, agent);
        lemma_without_push(head, s.last(), agent);
        assert(head.push(s.last()) =~= s);
        let kept = without(head, agent);
        if s.last() != agent {
            lemma_without_contains(head, agent, s.last());
            if head.contains(s.last()) {
                let i = choose|i: int| 0 <= i < head.len() && head[i] == s.last();
                assert(s[i] == s[s.len() - 1]);
            }
            assert forall|i: int, j: int|
                0 <= i < kept.push(s.last()).len() && 0 <= j < kept.push(s.last()).len() && i
                    != j implies kept.push(s.last())[i] != kept.push(s.last())[j] by {
                if i < kept.len() && j < kept.len() {
                } else if i < kept.len() {
                    assert(kept.contains(kept[i]));
                } else {
                    assert(kept.contains(kept[j]));
                }
            }
        }
    }
}

/// A handle is gathered exactly when the bucket of one of the cells holds it.
pub proof fn lemma_gather_contains(m: Buckets, cells: Seq<Cell>, agent: u64)
    ensures
        gather(m, cells).contains(agent) <==> exists|i: int|
            0 <= i < cells.len() && #[trigger] bucket_of(m, cells[i]).contains(agent),
    decreases cells.len(),
{
    if cells.len() > 0 {
        let head = cells.drop_last();
        let front = gather(m, head);
        let back = bucket_of(m, cells.last());
        lemma_gather_contains(m, head, agent);
        if gather(m, cells).contains(agent) {
            let k = choose|k: int| 0 <= k < (front + back).len() && (front + back)[k] == agent;
            if k < front.len() {
                assert(front[k] == agent);
                let i = choose|i: int|
                    0 <= i < head.len() && #[trigger] bucket_of(m, head[i]).contains(agent);
                assert(bucket_of(m, cells[i]).contains(agent));
            } else {
                assert(back[k - front.len()] == agent);
                assert(bucket_of(m, cells[cells.len() - 1]).contains(agent));
            }
        }
        if exists|i: int|
            0 <= i < cells.len() && #[trigger] bucket_of(m, cells[i]).contains(agent) {
            let i = choose|i: int|
                0 <= i < cells.len() && #[trigger] bucket_of(m, cells[i]).contains(agent);
            if i < head.len() {
                assert(bucket_of(m, head[i]).contains(agent));
                let k = choose|k: int| 0 <= k < front.len() && front[k] == agent;
                assert((front + back)[k] == agent);
            } else {
                let k = choose|k: int| 0 <= k < back.len() && back[k] == agent;
                assert((front + back)[front.len() + k] == agent);
            }
        }
    }
}

/// A radius query has no false negatives: a handle filed under the cell
/// of a lattice point that is nearer to the centre than the radius is
/// among those gathered from the cells that the disc reaches.
pub proof fn lemma_query_complete(
    m: Buckets,
    centre: Vec2,
    radius: i32,
    px: int,
    pz: int,
    agent: u64,
)
    requires
        nearer_than(centre, radius as int, px, pz),
        bucket_of(m, (cell_of(px) as i32, cell_of(pz) as i32)).contains(agent),
    ensures
        gather(m, disc_cells(centre, radius as int)).contains(agent),
{
    let cells = disc_cells(centre, radius as int);
    let cell = (cell_of(px) as i32, cell_of(pz) as i32);
    lemma_disc_cells_hold_near_points(centre, radius, px, pz);
    let i = choose|i: int| 0 <= i < cells.len() && cells[i] == cell;
    assert(bucket_of(m, cells[i]).contains(agent));
    lemma_gather_contains(m, cells, agent);
}

/// Inserting an agent into a cell that does not hold it, then removing
/// it from that cell, leaves the buckets as they were: the entry is gone
/// again if there was none before.
pub proof fn lemma_insert_remove_round_trip(m: Buckets, cell: Cell, agent: u64)
    requires
        sparse(m),
        !bucket_of(m, cell).contains(agent),
    ensures
        removed(inserted(m, cell, agent), cell, agent) == m,
{
    let before = bucket_of(m, cell);
    lemma_without_push(before, agent, agent);
    lemma_without_absent(before, agent);
    assert(removed(inserted(m, cell, agent), cell, agent) =~= m);
}

/// Insertion and removal keep every entry non-empty.
pub proof fn lemma_sparse_preserved(m: Buckets, cell: Cell, agent: u64)
    requires
        sparse(m),
    ensures
        sparse(inserted(m, cell, agent)),
        sparse(removed(m, cell, agent)),
{
    assert forall|c: Cell| inserted(m, cell, agent).contains_key(c) implies (
    #[trigger] inserted(m, cell, agent)[c]).len() > 0 by {
        if c != cell {
            assert(m[c].len() > 0);
        }
    }
    assert forall|c: Cell| removed(m, cell, agent).contains_key(c) implies (#[trigger] removed(
        m,
        cell,
        agent,
    )[c]).len() > 0 by {
        if c != cell {
            assert(m[c].len() > 0);
        }
    }
}

/// The key under which the buckets of a cell are stored: column and row,
/// each shifted to be non-negative, side by side in one word.
spec fn key_of(cell: Cell) -> u64 {
    ((cell.0 - i32::MIN) * 0x1_0000_0000 + (cell.1 - i32::MIN)) as u64
}

proof fn lemma_key_injective(a: Cell, b: Cell)
    requires
        key_of(a) == key_of(b),
    ensures
        a == b,
{
}

fn cell_key(cell: Cell) -> (key: u64)
    ensures
        key == key_of(cell),
{
    let column: u64 = (cell.0 as i64 - i32::MIN as i64) as u64;
    let row: u64 = (cell.1 as i64 - i32::MIN as i64) as u64;
    column * 0x1_0000_0000 + row
}

/// A uniform grid over the plane that files agent handles under cells.
pub struct SpatialIndex {
    cells: HashMap<u64, Vec<u64>>,
}

impl View for SpatialIndex {
    type V = Buckets;

    closed spec fn view(&self) -> Buckets {
        Map::new(
            |c: Cell| self.cells@.contains_key(key_of(c)),
            |c: Cell| self.cells@[key_of(c)]@,
        )
    }
}

impl SpatialIndex {
    /// Well-formedness: no bucket is stored empty.
    pub closed spec fn wf(&self) -> bool {
        forall|k: u64| self.cells@.contains_key(k) ==> (#[trigger] self.cells@[k])@.len() > 0
    }

    /// A well-formed index has no entry without handles.
    pub proof fn lemma_wf_sparse(&self)
        requires
            self.wf(),
        ensures
            sparse(self@),
    {
        assert forall|c: Cell| self@.contains_key(c) implies (#[trigger] self@[c]).len() > 0 by {
            assert(self.cells@[key_of(c)]@.len() > 0);
        }
    }

    /// An index with no agent in it.
    pub fn new() -> (index: Self)
        ensures
            index.wf(),
            index@ == Map::<Cell, Seq<u64>>::empty(),
    {
        let index = SpatialIndex { cells: HashMap::new() };
        assert(index@ =~= Map::<Cell, Seq<u64>>::empty());
        index
    }

    /// The handles filed under `cell`, oldest first.
    pub fn bucket(&self, cell: Cell) -> (handles: Vec<u64>)
        ensures
            handles@ == bucket_of(self@, cell),
    {
        let key = cell_key(cell);
        let mut out: Vec<u64> = Vec::new();
        match self.cells.get(&key) {
            Some(bucket) => {
                let mut j: usize = 0;
                while j < bucket.len()
                    invariant
                        j <= bucket.len(),
                        out@ == bucket@.take(j as int),
                    decreases bucket.len() - j,
                {
                    out.push(bucket[j]);
                    assert(bucket@.take(j + 1) =~= bucket@.take(j as int).push(bucket@[j as int]));
                    j = j + 1;
                }
                assert(bucket@.take(j as int) =~= bucket@);
            },
            None => {},
        }
        out
    }

    /// Files `agent` under `cell`, behind the agents already there.
    pub fn insert(&mut self, cell: Cell, agent: u64)
        ensures
            old(self).wf() ==> final(self).wf(),
            final(self)@ == inserted(old(self)@, cell, agent),
    {
        let key = cell_key(cell);
        let mut bucket = match self.cells.remove(&key) {
            Some(bucket) => bucket,
            None => Vec::new(),
        };
        bucket.push(agent);
        self.cells.insert(key, bucket);
        proof {
            assert forall|c: Cell| c != cell implies key_of(c) != key by {
                if key_of(c) == key {
                    lemma_key_injective(c, cell);
                }
            }
            assert(self@ =~= inserted(old(self)@, cell, agent));
        }
    }

    /// Takes `agent` out of the bucket of `cell`. Nothing happens when the
    /// agent is not filed there.
    pub fn remove(&mut self, cell: Cell, agent: u64)
        ensures
            old(self).wf() ==> final(self).wf(),
            final(self)@ == removed(old(self)@, cell, agent),
    {
        let key = cell_key(cell);
        proof {
            assert forall|c: Cell| c != cell implies key_of(c) != key by {
                if key_of(c) == key {
                    lemma_key_injective(c, cell);
                }
            }
        }
        match self.cells.remove(&key) {
            Some(bucket) => {
                let mut kept: Vec<u64> = Vec::new();
                let mut j: usize = 0;
                while j < bucket.len()
                    invariant
                        j <= bucket.len(),
                        kept@ == without(bucket@.take(j as int), agent),
                    decreases bucket.len() - j,
                {
                    proof {
                        lemma_without_push(bucket@.take(j as int), bucket@[j as int], agent);
                        assert(bucket@.take(j + 1) =~= bucket@.take(j as int).push(
                            bucket@[j as int],
                        ));
                    }
                    if bucket[j] != agent {
                        kept.push(bucket[j]);
                    }
                    j = j + 1;
                }
                assert(bucket@.take(j as int) =~= bucket@);
                if kept.len() > 0 {
                    self.cells.insert(key, kept);
                }
                assert(self@ =~= removed(old(self)@, cell, agent));
            },
            None => {
                assert(self@ =~= removed(old(self)@, cell, agent));
            },
        }
    }

    /// The cells that a disc of radius `radius` around `pos` reaches, row
    /// by row.
    pub fn query_cells(&self, pos: Vec2, radius: i32) -> (cells: Vec<Cell>)
        ensures
            cells@ == disc_cells(pos, radius as int),
            forall|cell: Cell| #[trigger]
                cells@.contains(cell) <==> cell_meets_disc(pos, radius as int, cell),
            cells@.no_duplicates(),
    {
        covering_cells(pos, radius)
    }

    /// The handles filed under the cells that a disc of radius `radius`
    /// around `pos` reaches: cell by cell in the order of `query_cells`,
    /// each bucket oldest first.
    pub fn query(&self, pos: Vec2, radius: i32) -> (found: Vec<u64>)
        ensures
            found@ == gather(self@, disc_cells(pos, radius as int)),
            forall|px: int, pz: int, agent: u64|
                nearer_than(pos, radius as int, px, pz) && #[trigger] bucket_of(
                    self@,
                    (cell_of(px) as i32, cell_of(pz) as i32),
                ).contains(agent) ==> found@.contains(agent),
    {
        proof {
            assert forall|px: int, pz: int, agent: u64|
                nearer_than(pos, radius as int, px, pz) && #[trigger] bucket_of(
                    self@,
                    (cell_of(px) as i32, cell_of(pz) as i32),
                ).contains(agent) implies gather(self@, disc_cells(pos, radius as int)).contains(
                agent,
            ) by {
                lemma_query_complete(self@, pos, radius, px, pz, agent);
            }
        }
        let cells = covering_cells(pos, radius);
        let mut out: Vec<u64> = Vec::new();
        let mut i: usize = 0;
        while i < cells.len()
            invariant
                i <= cells.len(),
                out@ == gather(self@, cells@.take(i as int)),
            decreases cells.len() - i,
        {
            let key = cell_key(cells[i]);
            let ghost before = out@;
            match self.cells.get(&key) {
                Some(bucket) => {
                    let mut j: usize = 0;
                    while j < bucket.len()
                        invariant
                            j <= bucket.len(),
                            out@ == before + bucket@.take(j as int),
                        decreases bucket.len() - j,
                    {
                        out.push(bucket[j]);
                        assert(bucket@.take(j + 1) =~= bucket@.take(j as int).push(
                            bucket@[j as int],
                        ));
                        j = j + 1;
                    }
                    assert(bucket@.take(j as int) =~= bucket@);
                },
                None => {
                    assert(out@ =~= before + Seq::<u64>::empty());
                },
            }
            proof {
                assert(cells@.take(i + 1).drop_last() =~= cells@.take(i as int));
                assert(cells@.take(i + 1).last() == cells@[i as int]);
            }
            i = i + 1;
        }
        assert(cells@.take(i as int) =~= cells@);
        out
    }
}

} // verus!
