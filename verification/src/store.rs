//! The particle store: position and owner of every particle, by id.
//!
//! Ids are the places in the store, handed out in order and never reused.
//! Positions are kept in whole world units.

use crate::grid::Point;
use vstd::prelude::*;

verus! {

/// Mathematical model of the store: what it holds for each id.
pub struct StoreSpec {
    pub positions: Seq<Point>,
    pub owners: Seq<usize>,
}

impl StoreSpec {
    pub open spec fn wf(self) -> bool {
        self.positions.len() == self.owners.len()
    }

    pub open spec fn len(self) -> nat {
        self.positions.len()
    }

    /// The store after particles at `positions`, all of `owner`, have been
    /// added behind those already held.
    pub open spec fn with_bulk(self, positions: Seq<Point>, owner: usize) -> StoreSpec {
        StoreSpec {
            positions: self.positions + positions,
            owners: self.owners + Seq::new(positions.len(), |i: int| owner),
        }
    }
}

/// The ids `first`, `first + 1`, ... handed out to `count` new particles.
pub open spec fn consecutive_ids(first: nat, count: nat) -> Seq<usize> {
    Seq::new(count, |i: int| (first + i) as usize)
}

/// Owner of the particle arrays.
pub struct ParticleStore {
    positions: Vec<Point>,
    owners: Vec<usize>,
}

impl View for ParticleStore {
    type V = StoreSpec;

    closed spec fn view(&self) -> StoreSpec {
        StoreSpec { positions: self.positions@, owners: self.owners@ }
    }
}

impl ParticleStore {
    pub closed spec fn wf(&self) -> bool {
        self@.wf()
    }

    /// A well-formed store has a well-formed model.
    pub proof fn lemma_wf(&self)
        requires
            self.wf(),
        ensures
            self@.wf(),
    {
    }

    /// A store without particles.
    pub fn new() -> (s: ParticleStore)
        ensures
            s.wf(),
            s@.positions == Seq::<Point>::empty(),
            s@.owners == Seq::<usize>::empty(),
    {
        ParticleStore { positions: Vec::new(), owners: Vec::new() }
    }

    /// Number of particles held.
    pub fn len(&self) -> (n: usize)
        requires
            self.wf(),
        ensures
            n == self@.len(),
    {
        self.positions.len()
    }

    /// Adds one particle of `owner` at each of `positions` and returns their
    /// ids: the next free ones, in order.
    pub fn create_bulk(&mut self, positions: &Vec<Point>, owner: usize) -> (ids: Vec<usize>)
        requires
            old(self).wf(),
        ensures
            final(self).wf(),
            final(self)@ == old(self)@.with_bulk(positions@, owner),
            ids@ == consecutive_ids(old(self)@.len(), positions@.len()),
    {
        let mut ids: Vec<usize> = Vec::new();
        let mut k: usize = 0;
        while k < positions.len()
            invariant
                k <= positions@.len(),
                self.wf(),
                self@ == old(self)@.with_bulk(positions@.subrange(0, k as int), owner),
                ids@ == consecutive_ids(old(self)@.len(), k as nat),
            decreases positions@.len() - k,
        {
            let id = self.positions.len();
            self.positions.push(positions[k]);
            self.owners.push(owner);
            ids.push(id);
            k += 1;
            proof {
                let grown = old(self)@.with_bulk(positions@.subrange(0, k as int), owner);
                assert(self@.positions =~= grown.positions);
                assert(self@.owners =~= grown.owners);
                assert(ids@ =~= consecutive_ids(old(self)@.len(), k as nat));
            }
        }
        assert(positions@.subrange(0, k as int) =~= positions@);
        ids
    }

    /// Position of the particle `id`.
    pub fn get_position(&self, id: usize) -> (p: Point)
        requires
            self.wf(),
            id < self@.len(),
        ensures
            p == self@.positions[id as int],
    {
        self.positions[id]
    }

    /// Puts the particle `id` at `p`.
    pub fn set_position(&mut self, id: usize, p: Point)
        requires
            old(self).wf(),
            id < old(self)@.len(),
        ensures
            final(self).wf(),
            final(self)@.positions == old(self)@.positions.update(id as int, p),
            final(self)@.owners == old(self)@.owners,
    {
        self.positions.set(id, p);
    }

    /// Owner of the particle `id`.
    pub fn get_owner(&self, id: usize) -> (owner: usize)
        requires
            self.wf(),
            id < self@.len(),
        ensures
            owner == self@.owners[id as int],
    {
        self.owners[id]
    }
}

} // verus!
