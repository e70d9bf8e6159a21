//! The driver: it owns the particle store and the spatial index, starts
//! them from the layout, and keeps them in step while particles move.

use crate::config::{Config, ConfigurationError};
use crate::grid::{GridSpec, Point};
use crate::index::{crowded, IndexSpec, SpatialIndex};
use crate::layout::{
    block_layout, cursor_point, cursor_start, layout_owners, layout_point, layout_positions,
    lemma_layout_in_bounds,
};
use crate::store::ParticleStore;
use vstd::prelude::*;

verus! {

/// Whether the index holds exactly the first `n` particles, each in the
/// bucket of the cell that its position lies in and nowhere else.
pub open spec fn indexed_upto(ix: IndexSpec, positions: Seq<Point>, n: int) -> bool {
    &&& ix.wf()
    &&& forall|i: int|
        0 <= i < n ==> ix.holds(ix.grid.slot_of(#[trigger] positions[i]), i as usize)
    &&& forall|slot: int, k: int|
        0 <= slot < ix.buckets.len() && 0 <= k < ix.buckets[slot].len() ==> {
            &&& (#[trigger] ix.buckets[slot][k]) < n
            &&& slot == ix.grid.slot_of(positions[ix.buckets[slot][k] as int])
        }
}

/// Mathematical model of a running simulation.
pub struct SimSpec {
    pub config: Config,
    pub positions: Seq<Point>,
    pub owners: Seq<usize>,
    pub buckets: Seq<Seq<usize>>,
}

impl SimSpec {
    pub open spec fn grid(self) -> GridSpec {
        self.config.grid()
    }

    pub open spec fn index(self) -> IndexSpec {
        IndexSpec { grid: self.grid(), buckets: self.buckets }
    }

    /// Number of particles.
    pub open spec fn len(self) -> nat {
        self.positions.len()
    }

    /// Every particle's id is held exactly once: in the bucket of the cell
    /// that its position lies in.
    pub open spec fn buckets_match(self) -> bool {
        indexed_upto(self.index(), self.positions, self.positions.len() as int)
    }

    pub open spec fn wf(self) -> bool {
        &&& self.config.valid()
        &&& self.positions.len() == self.config.particle_count()
        &&& self.owners.len() == self.positions.len()
        &&& forall|i: int|
            0 <= i < self.positions.len() ==> self.grid().in_bounds(#[trigger] self.positions[i])
        &&& forall|i: int|
            0 <= i < self.owners.len() ==> (#[trigger] self.owners[i]) < self.config.player_count
        &&& self.buckets_match()
    }

    /// The model after particle `id` has moved to `target`, a position
    /// inside the world.
    pub open spec fn moved(self, id: int, target: Point) -> SimSpec {
        SimSpec {
            config: self.config,
            positions: self.positions.update(id, target),
            owners: self.owners,
            buckets: self.index().relocated(id as usize, self.positions[id], target).buckets,
        }
    }

    /// Positions after every particle has been offered the target with its
    /// id: a target inside the world is taken, any other is dropped.
    pub open spec fn integrated(self, targets: Seq<Point>) -> Seq<Point> {
        Seq::new(
            self.positions.len(),
            |i: int|
                if self.grid().in_bounds(targets[i]) {
                    targets[i]
                } else {
                    self.positions[i]
                },
        )
    }

    /// For each particle, whether the target with its id lies inside the
    /// world.
    pub open spec fn accepted(self, targets: Seq<Point>) -> Seq<bool> {
        Seq::new(self.positions.len(), |i: int| self.grid().in_bounds(targets[i]))
    }

    /// Whether particle `b` is another particle than `a` whose cell is the
    /// cell of `a` or touches it: the particles that can be within one cell
    /// side of `a`.
    pub open spec fn adjacent(self, a: int, b: int) -> bool {
        &&& 0 <= b < self.positions.len()
        &&& a != b
        &&& self.grid().in_block(
            self.positions[a],
            self.grid().cell,
            self.grid().column_of(self.positions[b].x as int),
            self.grid().row_of(self.positions[b].y as int),
        )
    }

    /// How particles `a` and `b` stand to each other.
    pub open spec fn relation(self, a: int, b: int) -> Relation {
        if self.owners[a] != self.owners[b] {
            Relation::Enemy
        } else {
            Relation::Friendly
        }
    }

    /// Whether `c` names a particle and one of its candidates, with the
    /// relation in which the two stand.
    pub open spec fn is_contact(self, c: Contact) -> bool {
        &&& c.a < self.positions.len()
        &&& self.adjacent(c.a as int, c.b as int)
        &&& c.relation == self.relation(c.a as int, c.b as int)
    }

    /// What a renderer needs to know of particle `i`.
    pub open spec fn record(self, i: int) -> ParticleRecord {
        ParticleRecord { id: i as usize, position: self.positions[i], owner: self.owners[i] }
    }

    /// Whether every particle stands where the layout puts it.
    pub open spec fn at_start(self) -> bool {
        &&& self.positions == layout_positions(self.config)
        &&& self.owners == layout_owners(self.config)
    }
}

/// How two particles stand to each other, which decides how hard they push
/// each other away.
#[derive(Clone, Copy, Debug, PartialEq, Eq, Structural)]
pub enum Relation {
    /// Both belong to one player.
    Friendly,
    /// They belong to different players.
    Enemy,
}

/// Two particles that may be near enough to push each other away, seen from
/// the first of them.
#[derive(Clone, Copy, Debug, PartialEq, Eq, Structural)]
pub struct Contact {
    pub a: usize,
    pub b: usize,
    pub relation: Relation,
}

/// What a renderer needs to know of one particle.
#[derive(Clone, Copy, Debug, PartialEq, Eq, Structural)]
pub struct ParticleRecord {
    pub id: usize,
    pub position: Point,
    pub owner: usize,
}

/// A running simulation.
pub struct Simulation {
    config: Config,
    store: ParticleStore,
    index: SpatialIndex,
}

impl View for Simulation {
    type V = SimSpec;

    closed spec fn view(&self) -> SimSpec {
        SimSpec {
            config: self.config,
            positions: self.store@.positions,
            owners: self.store@.owners,
            buckets: self.index@.buckets,
        }
    }
}

/// The store filled from the layout: one block of particles per player.
fn populate(config: &Config) -> (store: ParticleStore)
    requires
        config.valid(),
    ensures
        store.wf(),
        store@.positions == layout_positions(*config),
        store@.owners == layout_owners(*config),
{
    let mut store = ParticleStore::new();
    let mut player: usize = 0;
    let ghost per = config.particles_per_player as int;
    while player < config.player_count
        invariant
            config.valid(),
            per == config.particles_per_player,
            player <= config.player_count,
            store.wf(),
            store@.positions == Seq::new(
                (player * per) as nat,
                |i: int| layout_point(*config, i / per, i % per),
            ),
            store@.owners == Seq::new((player * per) as nat, |i: int| (i / per) as usize),
        decreases config.player_count - player,
    {
        let block = block_layout(config, player);
        let ghost before = store@;
        let _ = store.create_bulk(&block, player);
        proof {
            let p = player as int;
            assert(p * per >= 0 && (p + 1) * per == p * per + per) by (nonlinear_arith)
                requires
                    p >= 0,
                    per >= 0,
            ;
            let grown_positions = Seq::new(
                ((p + 1) * per) as nat,
                |i: int| layout_point(*config, i / per, i % per),
            );
            let grown_owners = Seq::new(((p + 1) * per) as nat, |i: int| (i / per) as usize);
            assert forall|i: int| 0 <= i < (p + 1) * per implies #[trigger] store@.positions[i]
                == grown_positions[i] by {
                if i >= p * per {
                    vstd::arithmetic::div_mod::lemma_fundamental_div_mod_converse(
                        i,
                        per,
                        p,
                        i - p * per,
                    );
                    assert(store@.positions[i] == block@[i - p * per]);
                }
            }
            assert forall|i: int| 0 <= i < (p + 1) * per implies #[trigger] store@.owners[i]
                == grown_owners[i] by {
                if i >= p * per {
                    vstd::arithmetic::div_mod::lemma_fundamental_div_mod_converse(
                        i,
                        per,
                        p,
                        i - p * per,
                    );
                }
            }
            assert(store@.positions =~= grown_positions);
            assert(store@.owners =~= grown_owners);
        }
        player += 1;
    }
    store
}

/// An index that holds the first `n` particles does not hold particle `n`.
proof fn lemma_next_is_absent(ix: IndexSpec, positions: Seq<Point>, n: int)
    requires
        indexed_upto(ix, positions, n),
        0 <= n <= usize::MAX,
    ensures
        !ix.contains(n as usize),
{
    let id = n as usize;
    if ix.contains(id) {
        let slot = choose|slot: int| ix.holds(slot, id);
        let k = ix.buckets[slot].index_of(id);
        assert(ix.buckets[slot][k] == id);
    }
}

/// Once particle `n` has been put into the bucket of its cell, the index
/// holds the first `n + 1` particles.
proof fn lemma_next_is_indexed(ix: IndexSpec, positions: Seq<Point>, n: int)
    requires
        indexed_upto(ix, positions, n),
        0 <= n < positions.len(),
        n <= usize::MAX,
        ix.grid.in_bounds(positions[n]),
        ix.with_id(ix.grid.slot_of(positions[n]), n as usize).wf(),
    ensures
        indexed_upto(ix.with_id(ix.grid.slot_of(positions[n]), n as usize), positions, n + 1),
{
    let slot = ix.grid.slot_of(positions[n]);
    let grown = ix.with_id(slot, n as usize);
    crate::grid::lemma_cell_in_grid(ix.grid, positions[n]);
    assert forall|i: int| 0 <= i < n + 1 implies grown.holds(
        grown.grid.slot_of(#[trigger] positions[i]),
        i as usize,
    ) by {
        let s = ix.grid.slot_of(positions[i]);
        if i < n {
            assert(ix.holds(s, i as usize));
            let k = ix.buckets[s].index_of(i as usize);
            assert(grown.buckets[s][k] == i as usize);
        } else {
            assert(grown.buckets[slot][ix.buckets[slot].len() as int] == n as usize);
        }
    }
    assert forall|s: int, k: int|
        0 <= s < grown.buckets.len() && 0 <= k < grown.buckets[s].len() implies (
    #[trigger] grown.buckets[s][k]) < n + 1 && s == grown.grid.slot_of(
        positions[grown.buckets[s][k] as int],
    ) by {
        if s == slot && k == ix.buckets[slot].len() {
        } else {
            assert(grown.buckets[s][k] == ix.buckets[s][k]);
        }
    }
}

/// Puts every particle of the store into the bucket of its cell.
fn fill_index(store: &ParticleStore, index: &mut SpatialIndex)
    requires
        store.wf(),
        old(index).wf(),
        forall|slot: int|
            0 <= slot < old(index)@.buckets.len() ==> #[trigger] old(index)@.buckets[slot]
                == Seq::<usize>::empty(),
        forall|i: int|
            0 <= i < store@.positions.len() ==> old(index)@.grid.in_bounds(
                #[trigger] store@.positions[i],
            ),
    ensures
        final(index).wf(),
        final(index)@.grid == old(index)@.grid,
        indexed_upto(final(index)@, store@.positions, store@.positions.len() as int),
{
    let n = store.len();
    let mut id: usize = 0;
    proof {
        index.lemma_wf();
    }
    while id < n
        invariant
            store.wf(),
            n == store@.positions.len(),
            id <= n,
            index.wf(),
            index@.grid == old(index)@.grid,
            indexed_upto(index@, store@.positions, id as int),
            forall|i: int|
                0 <= i < store@.positions.len() ==> old(index)@.grid.in_bounds(
                    #[trigger] store@.positions[i],
                ),
        decreases n - id,
    {
        let p = store.get_position(id);
        let ghost before = index@;
        proof {
            lemma_next_is_absent(before, store@.positions, id as int);
        }
        let r = index.insert(id, p);
        proof {
            assert(r is Ok);
            index.lemma_wf();
            lemma_next_is_indexed(before, store@.positions, id as int);
        }
        id += 1;
    }
}

/// The ids of `ids` other than `id`, in the same order.
fn without_id(ids: &Vec<usize>, id: usize) -> (rest: Vec<usize>)
    requires
        ids@.no_duplicates(),
    ensures
        rest@.no_duplicates(),
        forall|x: usize| rest@.contains(x) <==> ids@.contains(x) && x != id,
{
    let mut rest: Vec<usize> = Vec::new();
    let mut k: usize = 0;
    while k < ids.len()
        invariant
            k <= ids@.len(),
            ids@.no_duplicates(),
            rest@.no_duplicates(),
            forall|x: usize|
                rest@.contains(x) <==> ids@.subrange(0, k as int).contains(x) && x != id,
        decreases ids@.len() - k,
    {
        let x = ids[k];
        let ghost seen = ids@.subrange(0, k as int);
        let ghost kept = rest@;
        assert(ids@.subrange(0, k + 1) =~= seen.push(x));
        proof {
            if seen.contains(x) {
                let j = seen.index_of(x);
                assert(ids@[j] == ids@[k as int]);
            }
        }
        if x != id {
            rest.push(x);
            assert forall|i: int, j: int|
                0 <= i < rest@.len() && 0 <= j < rest@.len() && i != j implies rest@[i]
                != rest@[j] by {
                if i < kept.len() && j < kept.len() {
                    assert(kept[i] == rest@[i] && kept[j] == rest@[j]);
                } else if i < kept.len() {
                    assert(kept.contains(kept[i]));
                } else {
                    assert(kept.contains(kept[j]));
                }
            }
        }
        assert forall|y: usize|
            rest@.contains(y) <==> seen.push(x).contains(y) && y != id by {
            if rest@.contains(y) {
                let j = rest@.index_of(y);
                if j < kept.len() {
                    assert(kept[j] == y);
                    assert(kept.contains(y));
                    let i = seen.index_of(y);
                    assert(seen.push(x)[i] == y);
                } else {
                    assert(seen.push(x)[k as int] == y);
                }
            }
            if seen.push(x).contains(y) && y != id {
                let i = seen.push(x).index_of(y);
                if i < k {
                    assert(seen[i] == y);
                    assert(seen.contains(y));
                    assert(kept.contains(y));
                    let j = kept.index_of(y);
                    assert(rest@[j] == y);
                } else {
                    assert(rest@[kept.len() as int] == y);
                }
            }
        }
        k += 1;
    }
    assert(ids@.subrange(0, k as int) =~= ids@);
    rest
}

impl Simulation {
    pub closed spec fn wf(&self) -> bool {
        &&& self.store.wf()
        &&& self.index.wf()
        &&& self.index@.grid == self.config.grid()
        &&& self@.wf()
    }

    /// A well-formed simulation has a well-formed model: in particular every
    /// particle is held by the bucket of its cell and by no other.
    pub proof fn lemma_wf(&self)
        requires
            self.wf(),
        ensures
            self@.wf(),
    {
    }

    /// Starts a run: tests the parameters, lays the particles out and puts
    /// each into the bucket of its cell.
    pub fn start(config: Config) -> (r: Result<Simulation, ConfigurationError>)
        ensures
            match r {
                Ok(sim) => {
                    &&& config.fault() is None
                    &&& sim.wf()
                    &&& sim@.config == config
                    &&& sim@.at_start()
                },
                Err(e) => config.fault() == Some(e),
            },
    {
        match config.validate() {
            Ok(_) => {},
            Err(e) => {
                return Err(e);
            },
        }
        let mut index = match SpatialIndex::new(
            config.world_width,
            config.world_height,
            config.cell_size,
        ) {
            Ok(index) => index,
            Err(_) => {
                return Err(ConfigurationError::TooManyCells);
            },
        };
        let store = populate(&config);
        proof {
            let per = config.particles_per_player as int;
            assert forall|i: int| 0 <= i < store@.positions.len() implies index@.grid.in_bounds(
                #[trigger] store@.positions[i],
            ) by {
                lemma_id_split(config, i);
                lemma_layout_in_bounds(config, i / per, i % per);
            }
            assert forall|i: int| 0 <= i < store@.owners.len() implies (
            #[trigger] store@.owners[i]) < config.player_count by {
                lemma_id_split(config, i);
            }
        }
        fill_index(&store, &mut index);
        Ok(Simulation { config, store, index })
    }

    /// Number of particles.
    pub fn len(&self) -> (n: usize)
        requires
            self.wf(),
        ensures
            n == self@.len(),
    {
        self.store.len()
    }

    /// Moves particle `id` to `target` if that lies inside the world, and
    /// says whether it did. A move that would leave the world is dropped:
    /// the particle stays where it was.
    pub fn try_move(&mut self, id: usize, target: Point) -> (committed: bool)
        requires
            old(self).wf(),
            id < old(self)@.len(),
        ensures
            final(self).wf(),
            committed == old(self)@.grid().in_bounds(target),
            committed ==> final(self)@ == old(self)@.moved(id as int, target),
            !committed ==> final(self)@ == old(self)@,
    {
        let from = self.store.get_position(id);
        proof {
            self.index.lemma_wf();
            assert(self@.grid().in_bounds(self@.positions[id as int]));
            assert(self@.index().holds(
                self@.grid().slot_of(self@.positions[id as int]),
                id,
            ));
            assert(self@.index() == self.index@);
        }
        match self.index.relocate(id, from, target) {
            Ok(_) => {
                self.store.set_position(id, target);
                proof {
                    lemma_moved_is_wf(old(self)@, id as int, target);
                    assert(self@ == old(self)@.moved(id as int, target));
                }
                true
            },
            Err(_) => false,
        }
    }

    /// Offers every particle the target with its id, in the order of the
    /// ids, and says for each whether it moved there. A target outside the
    /// world is dropped and the particle stays where it was.
    pub fn integrate(&mut self, targets: &Vec<Point>) -> (committed: Vec<bool>)
        requires
            old(self).wf(),
            targets@.len() == old(self)@.len(),
        ensures
            final(self).wf(),
            final(self)@.config == old(self)@.config,
            final(self)@.owners == old(self)@.owners,
            final(self)@.positions == old(self)@.integrated(targets@),
            committed@ == old(self)@.accepted(targets@),
    {
        let n = self.store.len();
        let ghost start = self@;
        let mut committed: Vec<bool> = Vec::new();
        let mut id: usize = 0;
        while id < n
            invariant
                self.wf(),
                start.wf(),
                n == start.len(),
                targets@.len() == n,
                id <= n,
                self@.config == start.config,
                self@.owners == start.owners,
                self@.positions.len() == n,
                forall|i: int|
                    0 <= i < n ==> #[trigger] self@.positions[i] == if i < id {
                        start.integrated(targets@)[i]
                    } else {
                        start.positions[i]
                    },
                committed@.len() == id,
                forall|i: int|
                    0 <= i < id ==> #[trigger] committed@[i] == start.grid().in_bounds(
                        targets@[i],
                    ),
            decreases n - id,
        {
            let moved = self.try_move(id, targets[id]);
            committed.push(moved);
            id += 1;
        }
        assert(self@.positions =~= start.integrated(targets@));
        assert(committed@ =~= start.accepted(targets@));
        committed
    }

    /// How particles `a` and `b` stand to each other.
    pub fn relation(&self, a: usize, b: usize) -> (r: Relation)
        requires
            self.wf(),
            a < self@.len(),
            b < self@.len(),
        ensures
            r == self@.relation(a as int, b as int),
    {
        if self.store.get_owner(a) != self.store.get_owner(b) {
            Relation::Enemy
        } else {
            Relation::Friendly
        }
    }

    /// Every pair of a particle and one of its candidates, the pairs of the
    /// first particle first: what one pass over all particles has to look
    /// at. A pair of candidates comes twice, once from each side.
    pub fn contacts(&self) -> (found: Vec<Contact>)
        requires
            self.wf(),
        ensures
            found@.no_duplicates(),
            forall|c: Contact| found@.contains(c) <==> self@.is_contact(c),
            forall|i: int, j: int|
                0 <= i <= j < found@.len() ==> (#[trigger] found@[i]).a <= (#[trigger] found@[j]).a,
    {
        let n = self.store.len();
        let mut found: Vec<Contact> = Vec::new();
        let mut a: usize = 0;
        while a < n
            invariant
                self.wf(),
                n == self@.len(),
                a <= n,
                found@.no_duplicates(),
                forall|c: Contact| found@.contains(c) <==> self@.is_contact(c) && c.a < a,
                forall|i: int, j: int|
                    0 <= i <= j < found@.len() ==> (#[trigger] found@[i]).a <= (
                    #[trigger] found@[j]).a,
            decreases n - a,
        {
            let near = self.neighbors(a);
            let ghost before = found@;
            proof {
                assert forall|j: int| 0 <= j < near@.len() implies (#[trigger] near@[j])
                    < self@.len() by {
                    assert(near@.contains(near@[j]));
                }
            }
            let mut k: usize = 0;
            while k < near.len()
                invariant
                    self.wf(),
                    a < self@.len(),
                    k <= near@.len(),
                    forall|j: int| 0 <= j < near@.len() ==> (#[trigger] near@[j]) < self@.len(),
                    found@.len() == before.len() + k,
                    forall|j: int| 0 <= j < before.len() ==> #[trigger] found@[j] == before[j],
                    forall|j: int|
                        0 <= j < k ==> #[trigger] found@[before.len() + j] == (Contact {
                            a,
                            b: near@[j],
                            relation: self@.relation(a as int, near@[j] as int),
                        }),
                decreases near@.len() - k,
            {
                let b = near[k];
                proof {
                    assert(near@.contains(b));
                }
                found.push(Contact { a, b, relation: self.relation(a, b) });
                k += 1;
            }
            proof {
                let m = self@;
                let grown = found@;
                let base = before.len() as int;
                assert forall|c: Contact| grown.contains(c) <==> m.is_contact(c) && c.a < a
                    + 1 by {
                    if grown.contains(c) {
                        let i = grown.index_of(c);
                        if i < base {
                            assert(before[i] == c);
                            assert(before.contains(c));
                        } else {
                            assert(grown[base + (i - base)] == c);
                            assert(near@.contains(near@[i - base]));
                        }
                    }
                    if m.is_contact(c) && c.a < a + 1 {
                        if c.a < a {
                            assert(before.contains(c));
                            let i = before.index_of(c);
                            assert(grown[i] == c);
                        } else {
                            assert(near@.contains(c.b));
                            let j = near@.index_of(c.b);
                            assert(grown[base + j] == c);
                        }
                    }
                }
                assert forall|i: int, j: int|
                    0 <= i < grown.len() && 0 <= j < grown.len() && i != j implies grown[i]
                    != grown[j] by {
                    if i < base && j < base {
                        assert(grown[i] == before[i] && grown[j] == before[j]);
                    } else if i >= base && j >= base {
                        assert(grown[base + (i - base)].b == near@[i - base]);
                        assert(grown[base + (j - base)].b == near@[j - base]);
                    } else if i < base {
                        assert(before.contains(before[i]));
                        assert(grown[base + (j - base)].a == a);
                    } else {
                        assert(before.contains(before[j]));
                        assert(grown[base + (i - base)].a == a);
                    }
                }
                assert forall|i: int, j: int| 0 <= i <= j < grown.len() implies (
                #[trigger] grown[i]).a <= (#[trigger] grown[j]).a by {
                    if j < base {
                        assert(grown[i] == before[i] && grown[j] == before[j]);
                    } else {
                        assert(grown[base + (j - base)].a == a);
                        if i < base {
                            assert(before.contains(before[i]));
                        } else {
                            assert(grown[base + (i - base)].a == a);
                        }
                    }
                }
            }
            a += 1;
        }
        found
    }

    /// Position and owner of every particle, in the order of the ids.
    pub fn snapshot(&self) -> (records: Vec<ParticleRecord>)
        requires
            self.wf(),
        ensures
            records@ == Seq::new(self@.len(), |i: int| self@.record(i)),
    {
        let n = self.store.len();
        let mut records: Vec<ParticleRecord> = Vec::new();
        let mut id: usize = 0;
        while id < n
            invariant
                self.wf(),
                n == self@.len(),
                id <= n,
                records@ == Seq::new(id as nat, |i: int| self@.record(i)),
            decreases n - id,
        {
            records.push(
                ParticleRecord {
                    id,
                    position: self.store.get_position(id),
                    owner: self.store.get_owner(id),
                },
            );
            id += 1;
            assert(records@ =~= Seq::new(id as nat, |i: int| self@.record(i)));
        }
        records
    }

    /// Discards the run and starts it again with the same parameters.
    pub fn restart(&mut self)
        requires
            old(self).wf(),
        ensures
            final(self).wf(),
            final(self)@.config == old(self)@.config,
            final(self)@.at_start(),
    {
        match Simulation::start(self.config) {
            Ok(fresh) => {
                *self = fresh;
            },
            Err(_) => {},
        }
    }

    /// Number of buckets whose ids have moved to the heap: at least the
    /// buckets that hold more ids than fit in place.
    pub fn spilled_count(&self) -> (n: usize)
        requires
            self.wf(),
        ensures
            crowded(self@.buckets, self@.buckets.len() as int) <= n <= self@.buckets.len(),
    {
        self.index.spilled_count()
    }

    /// Where the cursor of `player` stands when the run starts, or `None`
    /// for a player that the run does not have.
    pub fn cursor_start(&self, player: usize) -> (at: Option<(i64, i64)>)
        requires
            self.wf(),
        ensures
            at is Some <==> player < self@.config.player_count,
            at matches Some(xy) ==> xy.0 == cursor_point(self@.config, player as int).0 && xy.1
                == cursor_point(self@.config, player as int).1,
    {
        if player < self.config.player_count {
            Some(cursor_start(&self.config, player))
        } else {
            None
        }
    }

    /// Moves every particle to the target with its id where that lies
    /// inside the world, and returns position and owner of every particle
    /// as they then are.
    pub fn tick(&mut self, targets: &Vec<Point>) -> (records: Vec<ParticleRecord>)
        requires
            old(self).wf(),
            targets@.len() == old(self)@.len(),
        ensures
            final(self).wf(),
            final(self)@.config == old(self)@.config,
            final(self)@.owners == old(self)@.owners,
            final(self)@.positions == old(self)@.integrated(targets@),
            records@ == Seq::new(final(self)@.len(), |i: int| final(self)@.record(i)),
    {
        let _ = self.integrate(targets);
        self.snapshot()
    }

    /// The ids held by the bucket at `slot`, first put in first, or `None`
    /// where the grid has no such slot.
    pub fn ids_in_bucket(&self, slot: usize) -> (ids: Option<Vec<usize>>)
        requires
            self.wf(),
        ensures
            ids is Some <==> slot < self@.buckets.len(),
            ids matches Some(v) ==> v@ == self@.buckets[slot as int],
    {
        self.index.ids_in_bucket(slot)
    }

    /// The parameters that the run was started with.
    pub fn config(&self) -> (c: Config)
        ensures
            c == self@.config,
    {
        self.config
    }

    /// Position of particle `id`.
    pub fn position(&self, id: usize) -> (p: Point)
        requires
            self.wf(),
            id < self@.len(),
        ensures
            p == self@.positions[id as int],
    {
        self.store.get_position(id)
    }

    /// Owner of particle `id`.
    pub fn owner(&self, id: usize) -> (owner: usize)
        requires
            self.wf(),
            id < self@.len(),
        ensures
            owner == self@.owners[id as int],
            owner < self@.config.player_count,
    {
        self.store.get_owner(id)
    }

    /// The particles that may be within one cell side of particle `id`:
    /// every other particle in its cell or in a cell that touches it. The
    /// caller settles by the true distance which of them are near enough.
    pub fn neighbors(&self, id: usize) -> (found: Vec<usize>)
        requires
            self.wf(),
            id < self@.len(),
        ensures
            found@.no_duplicates(),
            forall|b: usize| found@.contains(b) <==> self@.adjacent(id as int, b as int),
    {
        let p = self.store.get_position(id);
        proof {
            self.index.lemma_wf();
            assert(self@.grid().in_bounds(self@.positions[id as int]));
            assert(self@.index() == self.index@);
        }
        let all = match self.index.query_neighbors(p, self.config.cell_size) {
            Ok(all) => all,
            Err(_) => Vec::new(),
        };
        let found = without_id(&all, id);
        proof {
            let m = self@;
            let g = m.grid();
            let side = g.cell;
            assert forall|b: usize| found@.contains(b) <==> m.adjacent(id as int, b as int) by {
                if found@.contains(b) {
                    assert(m.index().near(p, side, b));
                    let (c, r) = choose|c: int, r: int| #[trigger]
                        g.in_block(p, side, c, r) && m.index().holds(g.slot(c, r), b);
                    let k = m.buckets[g.slot(c, r)].index_of(b);
                    assert(m.buckets[g.slot(c, r)][k] == b);
                    let q = m.positions[b as int];
                    crate::grid::lemma_cell_in_grid(g, q);
                    crate::grid::lemma_slot_injective(
                        g,
                        c,
                        r,
                        g.column_of(q.x as int),
                        g.row_of(q.y as int),
                    );
                }
                if m.adjacent(id as int, b as int) {
                    let q = m.positions[b as int];
                    assert(m.index().holds(g.slot_of(q), b));
                    assert(g.in_block(p, side, g.column_of(q.x as int), g.row_of(q.y as int)));
                    assert(m.index().near(p, side, b));
                }
            }
        }
        found
    }
}

/// Moving a particle inside the world keeps every particle in the bucket of
/// its cell and in no other.
pub proof fn lemma_moved_is_wf(a: SimSpec, id: int, target: Point)
    requires
        a.wf(),
        0 <= id < a.len(),
        a.grid().in_bounds(target),
    ensures
        a.moved(id, target).wf(),
{
    let b = a.moved(id, target);
    let g = a.grid();
    let me = id as usize;
    let from = a.positions[id];
    let sf = g.slot_of(from);
    let st = g.slot_of(target);
    crate::grid::lemma_cell_in_grid(g, from);
    crate::grid::lemma_cell_in_grid(g, target);
    assert(a.index().holds(sf, me));
    if sf == st {
        assert(b.buckets == a.buckets);
        assert forall|i: int| 0 <= i < b.positions.len() implies b.index().holds(
            g.slot_of(#[trigger] b.positions[i]),
            i as usize,
        ) by {
            assert(a.index().holds(g.slot_of(a.positions[i]), i as usize));
        }
        assert forall|slot: int, k: int|
            0 <= slot < b.buckets.len() && 0 <= k < b.buckets[slot].len() implies (
        #[trigger] b.buckets[slot][k]) < b.positions.len() && slot == g.slot_of(
            b.positions[b.buckets[slot][k] as int],
        ) by {
            assert(a.buckets[slot][k] < a.positions.len());
        }
    } else {
        let k0 = a.buckets[sf].index_of(me);
        assert(a.buckets[sf][k0] == me);
        let mid = a.index().without_entry(sf, k0);
        crate::index::lemma_without_entry(a.index(), sf, k0);
        crate::index::lemma_with_id(mid, st, me);
        assert(b.index() == mid.with_id(st, me));
        let shift = |slot: int, k: int|
            if slot == sf && k >= k0 {
                k + 1
            } else {
                k
            };
        assert forall|slot: int, k: int|
            0 <= slot < b.buckets.len() && 0 <= k < b.buckets[slot].len() implies (
        #[trigger] b.buckets[slot][k]) < b.positions.len() && slot == g.slot_of(
            b.positions[b.buckets[slot][k] as int],
        ) by {
            if slot == st && k == a.buckets[st].len() {
                assert(b.buckets[slot][k] == me);
            } else {
                let j = shift(slot, k);
                assert(b.buckets[slot][k] == a.buckets[slot][j]);
                assert(a.buckets[slot][j] < a.positions.len());
                if a.buckets[slot][j] == me {
                    assert(a.buckets[slot][j] == a.buckets[sf][k0]);
                    assert(false);
                }
            }
        }
        assert forall|i: int| 0 <= i < b.positions.len() implies b.index().holds(
            g.slot_of(#[trigger] b.positions[i]),
            i as usize,
        ) by {
            if i == id {
                assert(b.buckets[st][a.buckets[st].len() as int] == me);
            } else {
                let s = g.slot_of(a.positions[i]);
                assert(a.index().holds(s, i as usize));
                let j = a.buckets[s].index_of(i as usize);
                assert(a.buckets[s][j] == i as usize);
                if s == sf {
                    assert(j != k0);
                    let k = if j > k0 {
                        j - 1
                    } else {
                        j
                    };
                    assert(b.buckets[s][k] == i as usize);
                } else {
                    assert(b.buckets[s][j] == i as usize);
                }
            }
        }
    }
}

/// Every particle is held exactly once: by the bucket of the cell that its
/// position lies in, at one place, and by no other bucket.
pub proof fn lemma_held_exactly_once(m: SimSpec, id: usize)
    requires
        m.wf(),
        id < m.len(),
    ensures
        m.index().holds(m.grid().slot_of(m.positions[id as int]), id),
        forall|slot: int| #[trigger]
            m.index().holds(slot, id) ==> slot == m.grid().slot_of(m.positions[id as int]),
        forall|slot: int, k1: int, k2: int|
            0 <= slot < m.buckets.len() && 0 <= k1 < m.buckets[slot].len() && 0 <= k2
                < m.buckets[slot].len() && #[trigger] m.buckets[slot][k1] == id
                && #[trigger] m.buckets[slot][k2] == id ==> k1 == k2,
{
    assert(m.index().holds(m.grid().slot_of(m.positions[id as int]), id));
    assert forall|slot: int| #[trigger] m.index().holds(slot, id) implies slot
        == m.grid().slot_of(m.positions[id as int]) by {
        let k = m.buckets[slot].index_of(id);
        assert(m.buckets[slot][k] == id);
    }
}

/// Two particles are candidates for each other or neither is: each pair
/// that the driver reports is reported from both sides.
pub proof fn lemma_adjacent_symmetric(m: SimSpec, a: int, b: int)
    requires
        m.wf(),
        0 <= a < m.len(),
        0 <= b < m.len(),
    ensures
        m.adjacent(a, b) == m.adjacent(b, a),
{
    let g = m.grid();
    let p = m.positions[a];
    let q = m.positions[b];
    crate::grid::lemma_cell_in_grid(g, p);
    crate::grid::lemma_cell_in_grid(g, q);
    crate::grid::lemma_block_of_one_cell(g, p, g.column_of(q.x as int), g.row_of(q.y as int));
    crate::grid::lemma_block_of_one_cell(g, q, g.column_of(p.x as int), g.row_of(p.y as int));
}

/// A pair of candidates is seen from both sides, and in the same relation.
pub proof fn lemma_contacts_come_in_pairs(m: SimSpec, c: Contact)
    requires
        m.wf(),
        m.is_contact(c),
    ensures
        m.is_contact(Contact { a: c.b, b: c.a, relation: c.relation }),
{
    lemma_adjacent_symmetric(m, c.a as int, c.b as int);
}

/// No particle within one cell side of another, along both axes, is missed.
pub proof fn lemma_adjacent_covers(m: SimSpec, a: int, b: int)
    requires
        m.wf(),
        0 <= a < m.len(),
        0 <= b < m.len(),
        a != b,
        -m.grid().cell <= m.positions[b].x - m.positions[a].x <= m.grid().cell,
        -m.grid().cell <= m.positions[b].y - m.positions[a].y <= m.grid().cell,
    ensures
        m.adjacent(a, b),
{
    crate::grid::lemma_block_covers(m.grid(), m.positions[a], m.grid().cell, m.positions[b]);
}

/// Two runs started with the same parameters begin alike: the same
/// particles, at the same positions, with the same owners.
pub proof fn lemma_start_is_deterministic(a: SimSpec, b: SimSpec)
    requires
        a.at_start(),
        b.at_start(),
        a.config == b.config,
    ensures
        a.positions == b.positions,
        a.owners == b.owners,
        a.len() == b.len(),
{
}

/// An id splits into the player that owns the particle and the particle's
/// place in that player's block.
pub proof fn lemma_id_split(c: Config, i: int)
    requires
        c.valid(),
        0 <= i < c.particle_count(),
    ensures
        0 <= i / (c.particles_per_player as int) < c.player_count,
        0 <= i % (c.particles_per_player as int) < c.particles_per_player,
{
    let per = c.particles_per_player as int;
    let players = c.player_count as int;
    vstd::arithmetic::div_mod::lemma_fundamental_div_mod(i, per);
    let q = i / per;
    assert(0 <= q < players) by (nonlinear_arith)
        requires
            i == per * q + i % per,
            0 <= i % per < per,
            0 <= i < players * per,
    ;
}

} // verus!
