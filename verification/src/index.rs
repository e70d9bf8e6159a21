//! The spatial index: one bucket of particle ids per grid cell.

use crate::bucket::{
    bucket_as_slice, bucket_ids, bucket_new, bucket_push, bucket_remove, bucket_spilled, Bucket,
    INLINE_IDS,
};
use crate::grid::{
    grid_outcome, lemma_slot_injective, lemma_slot_in_range, Grid, GridError, GridSpec, Point,
};
use vstd::prelude::*;

verus! {

/// Mathematical model of the index: the grid and, for each slot of the
/// row-major bucket array, the ids held there.
pub struct IndexSpec {
    pub grid: GridSpec,
    pub buckets: Seq<Seq<usize>>,
}

impl IndexSpec {
    /// No id is held twice, neither in one bucket nor in two.
    pub open spec fn unique(self) -> bool {
        forall|b1: int, k1: int, b2: int, k2: int|
            #![trigger self.buckets[b1][k1], self.buckets[b2][k2]]
            0 <= b1 < self.buckets.len() && 0 <= k1 < self.buckets[b1].len() && 0 <= b2
                < self.buckets.len() && 0 <= k2 < self.buckets[b2].len() && self.buckets[b1][k1]
                == self.buckets[b2][k2] ==> b1 == b2 && k1 == k2
    }

    pub open spec fn wf(self) -> bool {
        &&& self.grid.wf()
        &&& self.buckets.len() == self.grid.bucket_count()
        &&& self.unique()
    }

    /// Whether the bucket at `slot` holds `id`.
    pub open spec fn holds(self, slot: int, id: usize) -> bool {
        0 <= slot < self.buckets.len() && self.buckets[slot].contains(id)
    }

    /// Whether any bucket holds `id`.
    pub open spec fn contains(self, id: usize) -> bool {
        exists|slot: int| self.holds(slot, id)
    }

    /// The index with `id` appended to the bucket at `slot`.
    pub open spec fn with_id(self, slot: int, id: usize) -> IndexSpec {
        IndexSpec { grid: self.grid, buckets: self.buckets.update(slot, self.buckets[slot].push(id)) }
    }

    /// The index with the entry at place `k` of the bucket at `slot` taken out.
    pub open spec fn without_entry(self, slot: int, k: int) -> IndexSpec {
        IndexSpec { grid: self.grid, buckets: self.buckets.update(slot, self.buckets[slot].remove(k)) }
    }

    /// The index with `id` taken out of the bucket at `slot`.
    pub open spec fn without_id(self, slot: int, id: usize) -> IndexSpec {
        self.without_entry(slot, self.buckets[slot].index_of(id))
    }

    /// The index after `id` has moved from the cell of `from` to the cell of
    /// `to`: unchanged where both lie in one cell.
    pub open spec fn relocated(self, id: usize, from: Point, to: Point) -> IndexSpec {
        if self.grid.slot_of(from) == self.grid.slot_of(to) {
            self
        } else {
            self.without_id(self.grid.slot_of(from), id).with_id(self.grid.slot_of(to), id)
        }
    }

    /// Whether `id` is held by a bucket whose cell meets the square reaching
    /// `radius` units from `p`.
    pub open spec fn near(self, p: Point, radius: int, id: usize) -> bool {
        exists|column: int, row: int|
            #[trigger] self.grid.in_block(p, radius, column, row) && self.holds(
                self.grid.slot(column, row),
                id,
            )
    }
}

/// Why an operation of the index fails.
#[derive(Clone, Copy, Debug, PartialEq, Eq, Structural)]
pub enum IndexError {
    /// A position lies outside the world.
    OutOfBounds,
    /// An id is missing from the bucket that should hold it.
    InvariantViolation,
}

/// Uniform grid of buckets that finds the particles near a position.
pub struct SpatialIndex {
    grid: Grid,
    buckets: Vec<Bucket>,
}

/// Number of buckets among the first `n` that hold more ids than fit in
/// place.
pub open spec fn crowded(buckets: Seq<Seq<usize>>, n: int) -> int
    decreases n,
{
    if n <= 0 {
        0
    } else if buckets[n - 1].len() > INLINE_IDS {
        crowded(buckets, n - 1) + 1
    } else {
        crowded(buckets, n - 1)
    }
}

/// Whether the scan of the block around `p`, column by column and row by
/// row within each column, has passed the cell at `c`, `r` when it stands at
/// `column`, `row`.
spec fn scanned(
    g: GridSpec,
    p: Point,
    radius: int,
    column: int,
    row: int,
    c: int,
    r: int,
) -> bool {
    g.in_block(p, radius, c, r) && (c < column || (c == column && r < row))
}

/// Whether `id` is held by a bucket whose cell the scan has passed.
spec fn gathered(
    ix: IndexSpec,
    p: Point,
    radius: int,
    column: int,
    row: int,
    id: usize,
) -> bool {
    exists|c: int, r: int| #[trigger]
        scanned(ix.grid, p, radius, column, row, c, r) && ix.holds(ix.grid.slot(c, r), id)
}

/// Appends the ids of a bucket to `found`.
fn append_ids(found: &mut Vec<usize>, bucket: &Bucket)
    ensures
        final(found)@ == old(found)@ + bucket_ids(*bucket),
{
    let ids = bucket_as_slice(bucket);
    let mut k: usize = 0;
    while k < ids.len()
        invariant
            k <= ids@.len(),
            ids@ == bucket_ids(*bucket),
            found@ == old(found)@ + ids@.subrange(0, k as int),
        decreases ids@.len() - k,
    {
        found.push(ids[k]);
        k += 1;
        assert(found@ =~= old(found)@ + ids@.subrange(0, k as int));
    }
    assert(ids@.subrange(0, k as int) =~= ids@);
}

/// Place of the first occurrence of `id` in the bucket, if it holds it.
fn position_in(bucket: &Bucket, id: usize) -> (r: Option<usize>)
    ensures
        match r {
            Some(k) => k < bucket_ids(*bucket).len() && bucket_ids(*bucket)[k as int] == id,
            None => !bucket_ids(*bucket).contains(id),
        },
{
    let ids = bucket_as_slice(bucket);
    let mut k: usize = 0;
    while k < ids.len()
        invariant
            k <= ids@.len(),
            ids@ == bucket_ids(*bucket),
            forall|j: int| 0 <= j < k ==> ids@[j] != id,
        decreases ids@.len() - k,
    {
        if ids[k] == id {
            return Some(k);
        }
        k += 1;
    }
    None
}

impl View for SpatialIndex {
    type V = IndexSpec;

    closed spec fn view(&self) -> IndexSpec {
        IndexSpec {
            grid: self.grid@,
            buckets: Seq::new(self.buckets@.len(), |i: int| bucket_ids(self.buckets@[i])),
        }
    }
}

impl SpatialIndex {
    pub closed spec fn wf(&self) -> bool {
        &&& self.grid.wf()
        &&& self@.wf()
    }

    /// A well-formed index has a well-formed model.
    pub proof fn lemma_wf(&self)
        requires
            self.wf(),
        ensures
            self@.wf(),
    {
    }

    /// An index over a world of `width` by `height` units, with cells of side
    /// `cell` and every bucket empty.
    pub fn new(width: i32, height: i32, cell: i32) -> (r: Result<SpatialIndex, GridError>)
        ensures
            match r {
                Ok(ix) => {
                    &&& ix.wf()
                    &&& grid_outcome(width as int, height as int, cell as int) == Ok::<
                        GridSpec,
                        GridError,
                    >(ix@.grid)
                    &&& forall|slot: int|
                        0 <= slot < ix@.buckets.len() ==> #[trigger] ix@.buckets[slot]
                            == Seq::<usize>::empty()
                },
                Err(e) => grid_outcome(width as int, height as int, cell as int) == Err::<
                    GridSpec,
                    GridError,
                >(e),
            },
    {
        let grid = match Grid::new(width, height, cell) {
            Ok(grid) => grid,
            Err(e) => {
                return Err(e);
            },
        };
        let count = grid.bucket_count();
        let mut buckets: Vec<Bucket> = Vec::new();
        while buckets.len() < count
            invariant
                buckets.len() <= count,
                forall|i: int|
                    0 <= i < buckets.len() ==> bucket_ids(#[trigger] buckets@[i]) == Seq::<
                        usize,
                    >::empty(),
            decreases count - buckets.len(),
        {
            buckets.push(bucket_new());
        }
        proof {
            grid.lemma_wf();
        }
        Ok(SpatialIndex { grid, buckets })
    }

    /// The grid that the index is laid over.
    pub fn grid(&self) -> (g: &Grid)
        requires
            self.wf(),
        ensures
            g.wf(),
            g@ == self@.grid,
    {
        &self.grid
    }

    /// The ids held by the bucket at `slot`, first put in first, or `None`
    /// where the grid has no such slot.
    pub fn ids_in_bucket(&self, slot: usize) -> (ids: Option<Vec<usize>>)
        requires
            self.wf(),
        ensures
            ids is Some <==> slot < self@.buckets.len(),
            ids matches Some(v) ==> v@ == self@.buckets[slot as int],
    {
        if slot >= self.buckets.len() {
            return None;
        }
        let mut ids: Vec<usize> = Vec::new();
        append_ids(&mut ids, &self.buckets[slot]);
        assert(ids@ =~= self@.buckets[slot as int]);
        Some(ids)
    }

    /// Adds `id` to the bucket of the cell that holds `p`.
    pub fn insert(&mut self, id: usize, p: Point) -> (r: Result<(), IndexError>)
        requires
            old(self).wf(),
            !old(self)@.contains(id),
        ensures
            final(self).wf(),
            match r {
                Ok(_) => {
                    &&& old(self)@.grid.in_bounds(p)
                    &&& final(self)@ == old(self)@.with_id(old(self)@.grid.slot_of(p), id)
                },
                Err(e) => {
                    &&& e == IndexError::OutOfBounds
                    &&& !old(self)@.grid.in_bounds(p)
                    &&& final(self)@ == old(self)@
                },
            },
    {
        let cell = match self.grid.cell_of(p) {
            Some(cell) => cell,
            None => {
                return Err(IndexError::OutOfBounds);
            },
        };
        let slot = self.grid.get_bucket_index(cell.0, cell.1);
        bucket_push(&mut self.buckets[slot], id);
        proof {
            let a = old(self)@;
            let b = self@;
            assert(b.buckets =~= a.with_id(slot as int, id).buckets);
            lemma_with_id(a, slot as int, id);
        }
        Ok(())
    }

    /// Takes `id` out of the bucket of the cell that holds `p`.
    pub fn remove(&mut self, id: usize, p: Point) -> (r: Result<(), IndexError>)
        requires
            old(self).wf(),
        ensures
            final(self).wf(),
            match r {
                Ok(_) => {
                    &&& old(self)@.grid.in_bounds(p)
                    &&& old(self)@.holds(old(self)@.grid.slot_of(p), id)
                    &&& final(self)@ == old(self)@.without_id(old(self)@.grid.slot_of(p), id)
                    &&& !final(self)@.contains(id)
                },
                Err(IndexError::OutOfBounds) => {
                    &&& !old(self)@.grid.in_bounds(p)
                    &&& final(self)@ == old(self)@
                },
                Err(IndexError::InvariantViolation) => {
                    &&& old(self)@.grid.in_bounds(p)
                    &&& !old(self)@.holds(old(self)@.grid.slot_of(p), id)
                    &&& final(self)@ == old(self)@
                },
            },
    {
        let cell = match self.grid.cell_of(p) {
            Some(cell) => cell,
            None => {
                return Err(IndexError::OutOfBounds);
            },
        };
        let slot = self.grid.get_bucket_index(cell.0, cell.1);
        let k = match position_in(&self.buckets[slot], id) {
            Some(k) => k,
            None => {
                return Err(IndexError::InvariantViolation);
            },
        };
        let _ = bucket_remove(&mut self.buckets[slot], k);
        proof {
            let a = old(self)@;
            let b = self@;
            let held = a.buckets[slot as int];
            assert(held.contains(id));
            assert(a.buckets[slot as int][held.index_of(id)] == a.buckets[slot as int][k as int]);
            assert(held.index_of(id) == k);
            assert(b.buckets =~= a.without_entry(slot as int, k as int).buckets);
            lemma_without_entry(a, slot as int, k as int);
        }
        Ok(())
    }

    /// Moves `id` from the bucket of `from` to the bucket of `to`. Where both
    /// positions lie in one cell, nothing changes.
    pub fn relocate(&mut self, id: usize, from: Point, to: Point) -> (r: Result<(), IndexError>)
        requires
            old(self).wf(),
        ensures
            final(self).wf(),
            match r {
                Ok(_) => {
                    &&& old(self)@.grid.in_bounds(from)
                    &&& old(self)@.grid.in_bounds(to)
                    &&& old(self)@.grid.slot_of(from) != old(self)@.grid.slot_of(to)
                        ==> old(self)@.holds(old(self)@.grid.slot_of(from), id)
                    &&& final(self)@ == old(self)@.relocated(id, from, to)
                },
                Err(IndexError::OutOfBounds) => {
                    &&& !(old(self)@.grid.in_bounds(from) && old(self)@.grid.in_bounds(to))
                    &&& final(self)@ == old(self)@
                },
                Err(IndexError::InvariantViolation) => {
                    &&& old(self)@.grid.in_bounds(from)
                    &&& old(self)@.grid.in_bounds(to)
                    &&& old(self)@.grid.slot_of(from) != old(self)@.grid.slot_of(to)
                    &&& !old(self)@.holds(old(self)@.grid.slot_of(from), id)
                    &&& final(self)@ == old(self)@
                },
            },
    {
        let old_cell = match self.grid.cell_of(from) {
            Some(cell) => cell,
            None => {
                return Err(IndexError::OutOfBounds);
            },
        };
        let new_cell = match self.grid.cell_of(to) {
            Some(cell) => cell,
            None => {
                return Err(IndexError::OutOfBounds);
            },
        };
        if old_cell.0 == new_cell.0 && old_cell.1 == new_cell.1 {
            return Ok(());
        }
        proof {
            let g = self@.grid;
            if g.slot_of(from) == g.slot_of(to) {
                lemma_slot_injective(
                    g,
                    old_cell.0 as int,
                    old_cell.1 as int,
                    new_cell.0 as int,
                    new_cell.1 as int,
                );
            }
        }
        match self.remove(id, from) {
            Ok(_) => {},
            Err(e) => {
                return Err(e);
            },
        }
        self.insert(id, to)
    }

    /// Number of buckets whose ids have moved to the heap: at least the
    /// buckets that hold more ids than fit in place.
    pub fn spilled_count(&self) -> (n: usize)
        requires
            self.wf(),
        ensures
            crowded(self@.buckets, self@.buckets.len() as int) <= n <= self@.buckets.len(),
    {
        let mut n: usize = 0;
        let mut slot: usize = 0;
        while slot < self.buckets.len()
            invariant
                slot <= self.buckets@.len(),
                self@.buckets.len() == self.buckets@.len(),
                crowded(self@.buckets, slot as int) <= n <= slot,
            decreases self.buckets@.len() - slot,
        {
            if bucket_spilled(&self.buckets[slot]) {
                n += 1;
            }
            slot += 1;
        }
        n
    }

    /// The ids held by the buckets whose cells meet the square reaching
    /// `radius` units from `p` in each direction: every particle within
    /// `radius` of `p` is among them, and so may others be that lie farther
    /// away. With a radius of one cell side these are the cell of `p` and the
    /// cells that touch it.
    pub fn query_neighbors(&self, p: Point, radius: i32) -> (r: Result<Vec<usize>, IndexError>)
        requires
            self.wf(),
        ensures
            match r {
                Ok(found) => {
                    &&& self@.grid.in_bounds(p)
                    &&& found@.no_duplicates()
                    &&& forall|id: usize|
                        found@.contains(id) <==> self@.near(p, radius as int, id)
                },
                Err(e) => e == IndexError::OutOfBounds && !self@.grid.in_bounds(p),
            },
    {
        if !self.grid.in_bounds(p) {
            return Err(IndexError::OutOfBounds);
        }
        let mut found: Vec<usize> = Vec::new();
        let block = match self.grid.block_around(p, radius) {
            Some(block) => block,
            None => {
                return Ok(found);
            },
        };
        let ghost ix = self@;
        let ghost rad = radius as int;
        let mut column: i32 = block.first_column;
        while column <= block.last_column
            invariant
                self.wf(),
                ix == self@,
                rad == radius as int,
                rad >= 0,
                ix.grid.in_bounds(p),
                block.first_column == ix.grid.column_of(GridSpec::reach_low(p.x as int, rad)),
                block.last_column == ix.grid.column_of(
                    GridSpec::reach_high(p.x as int, rad, ix.grid.width),
                ),
                block.first_row == ix.grid.row_of(GridSpec::reach_low(p.y as int, rad)),
                block.last_row == ix.grid.row_of(
                    GridSpec::reach_high(p.y as int, rad, ix.grid.height),
                ),
                0 <= block.first_column <= block.last_column < ix.grid.per_row(),
                0 <= block.first_row <= block.last_row < ix.grid.per_column(),
                block.first_column <= column <= block.last_column + 1,
                found@.no_duplicates(),
                forall|id: usize|
                    found@.contains(id) <==> gathered(
                        ix,
                        p,
                        rad,
                        column as int,
                        block.first_row as int,
                        id,
                    ),
            decreases block.last_column + 1 - column,
        {
            let mut row: i32 = block.first_row;
            while row <= block.last_row
                invariant
                    self.wf(),
                    ix == self@,
                    rad == radius as int,
                    rad >= 0,
                    ix.grid.in_bounds(p),
                    block.first_column == ix.grid.column_of(GridSpec::reach_low(p.x as int, rad)),
                    block.last_column == ix.grid.column_of(
                        GridSpec::reach_high(p.x as int, rad, ix.grid.width),
                    ),
                    block.first_row == ix.grid.row_of(GridSpec::reach_low(p.y as int, rad)),
                    block.last_row == ix.grid.row_of(
                        GridSpec::reach_high(p.y as int, rad, ix.grid.height),
                    ),
                    0 <= block.first_column <= block.last_column < ix.grid.per_row(),
                    0 <= block.first_row <= block.last_row < ix.grid.per_column(),
                    block.first_column <= column <= block.last_column,
                    block.first_row <= row <= block.last_row + 1,
                    found@.no_duplicates(),
                    forall|id: usize|
                        found@.contains(id) <==> gathered(ix, p, rad, column as int, row as int, id),
                decreases block.last_row + 1 - row,
            {
                let slot = self.grid.get_bucket_index(column, row);
                let ghost before = found@;
                append_ids(&mut found, &self.buckets[slot]);
                proof {
                    lemma_scan_step(ix, p, rad, column as int, row as int, before, found@);
                }
                row += 1;
            }
            proof {
                assert forall|c: int, r: int| #[trigger]
                    scanned(ix.grid, p, rad, column as int, row as int, c, r) <==> scanned(
                        ix.grid,
                        p,
                        rad,
                        column + 1,
                        block.first_row as int,
                        c,
                        r,
                    ) by {}
                lemma_same_scan(
                    ix,
                    p,
                    rad,
                    column as int,
                    row as int,
                    column + 1,
                    block.first_row as int,
                );
            }
            column += 1;
        }
        proof {
            assert forall|id: usize|
                gathered(ix, p, rad, column as int, block.first_row as int, id) <==> ix.near(
                    p,
                    rad,
                    id,
                ) by {
                assert forall|c: int, r: int|
                    #[trigger] scanned(ix.grid, p, rad, column as int, block.first_row as int, c, r)
                        <==> ix.grid.in_block(p, rad, c, r) by {}
                if gathered(ix, p, rad, column as int, block.first_row as int, id) {
                    let (c, r) = choose|c: int, r: int| #[trigger]
                        scanned(ix.grid, p, rad, column as int, block.first_row as int, c, r)
                            && ix.holds(ix.grid.slot(c, r), id);
                    assert(ix.grid.in_block(p, rad, c, r));
                }
                if ix.near(p, rad, id) {
                    let (c, r) = choose|c: int, r: int| #[trigger]
                        ix.grid.in_block(p, rad, c, r) && ix.holds(ix.grid.slot(c, r), id);
                    assert(scanned(ix.grid, p, rad, column as int, block.first_row as int, c, r));
                }
            }
        }
        Ok(found)
    }
}

/// Two stages of the scan that have passed the same cells have gathered the
/// same ids.
proof fn lemma_same_scan(
    ix: IndexSpec,
    p: Point,
    radius: int,
    column1: int,
    row1: int,
    column2: int,
    row2: int,
)
    requires
        forall|c: int, r: int| #[trigger]
            scanned(ix.grid, p, radius, column1, row1, c, r) <==> scanned(
                ix.grid,
                p,
                radius,
                column2,
                row2,
                c,
                r,
            ),
    ensures
        forall|id: usize|
            gathered(ix, p, radius, column1, row1, id) <==> gathered(
                ix,
                p,
                radius,
                column2,
                row2,
                id,
            ),
{
    assert forall|id: usize|
        gathered(ix, p, radius, column1, row1, id) <==> gathered(
            ix,
            p,
            radius,
            column2,
            row2,
            id,
        ) by {
        if gathered(ix, p, radius, column1, row1, id) {
            let (c, r) = choose|c: int, r: int| #[trigger]
                scanned(ix.grid, p, radius, column1, row1, c, r) && ix.holds(
                    ix.grid.slot(c, r),
                    id,
                );
            assert(scanned(ix.grid, p, radius, column2, row2, c, r));
        }
        if gathered(ix, p, radius, column2, row2, id) {
            let (c, r) = choose|c: int, r: int| #[trigger]
                scanned(ix.grid, p, radius, column2, row2, c, r) && ix.holds(
                    ix.grid.slot(c, r),
                    id,
                );
            assert(scanned(ix.grid, p, radius, column1, row1, c, r));
        }
    }
}

/// One step of the scan: after the ids of the bucket at `column`, `row` have
/// been appended, the ids found are those of the cells passed so far, and
/// still none occurs twice.
proof fn lemma_scan_step(
    ix: IndexSpec,
    p: Point,
    radius: int,
    column: int,
    row: int,
    before: Seq<usize>,
    after: Seq<usize>,
)
    requires
        ix.wf(),
        ix.grid.in_block(p, radius, column, row),
        before.no_duplicates(),
        forall|id: usize| before.contains(id) <==> gathered(ix, p, radius, column, row, id),
        after == before + ix.buckets[ix.grid.slot(column, row)],
    ensures
        after.no_duplicates(),
        forall|id: usize| after.contains(id) <==> gathered(ix, p, radius, column, row + 1, id),
{
    let g = ix.grid;
    let slot = g.slot(column, row);
    let held = ix.buckets[slot];
    lemma_slot_in_range(g, column, row);
    assert forall|id: usize| after.contains(id) <==> gathered(
        ix,
        p,
        radius,
        column,
        row + 1,
        id,
    ) by {
        if after.contains(id) {
            let i = after.index_of(id);
            if i < before.len() {
                assert(before[i] == id);
                assert(before.contains(id));
                let (c, r) = choose|c: int, r: int| #[trigger]
                    scanned(g, p, radius, column, row, c, r) && ix.holds(g.slot(c, r), id);
                assert(scanned(g, p, radius, column, row + 1, c, r));
            } else {
                assert(held[i - before.len()] == id);
                assert(ix.holds(slot, id));
                assert(scanned(g, p, radius, column, row + 1, column, row));
            }
        }
        if gathered(ix, p, radius, column, row + 1, id) {
            let (c, r) = choose|c: int, r: int| #[trigger]
                scanned(g, p, radius, column, row + 1, c, r) && ix.holds(g.slot(c, r), id);
            if c == column && r == row {
                let k = held.index_of(id);
                assert(after[before.len() + k] == id);
            } else {
                assert(scanned(g, p, radius, column, row, c, r));
                assert(before.contains(id));
                let i = before.index_of(id);
                assert(after[i] == id);
            }
        }
    }
    assert forall|i: int, j: int| 0 <= i < after.len() && 0 <= j < after.len() && i != j implies after[i]
        != after[j] by {
        if i < before.len() && j < before.len() {
            assert(before[i] == after[i] && before[j] == after[j]);
        } else if i >= before.len() && j >= before.len() {
            assert(after[i] == ix.buckets[slot][i - before.len()]);
            assert(after[j] == ix.buckets[slot][j - before.len()]);
        } else {
            let (a, b) = if i < j {
                (i, j)
            } else {
                (j, i)
            };
            let id = after[a];
            assert(before[a] == id);
            assert(before.contains(id));
            let (c, r) = choose|c: int, r: int| #[trigger]
                scanned(g, p, radius, column, row, c, r) && ix.holds(g.slot(c, r), id);
            lemma_slot_in_range(g, c, r);
            if g.slot(c, r) == slot {
                lemma_slot_injective(g, c, r, column, row);
            }
            let k = ix.buckets[g.slot(c, r)].index_of(id);
            assert(ix.buckets[g.slot(c, r)][k] == id);
            assert(after[b] == ix.buckets[slot][b - before.len()]);
        }
    }
}

/// Appending an id that no bucket holds keeps the index well formed.
pub proof fn lemma_with_id(a: IndexSpec, slot: int, id: usize)
    requires
        a.wf(),
        0 <= slot < a.buckets.len(),
        !a.contains(id),
    ensures
        a.with_id(slot, id).wf(),
{
    let b = a.with_id(slot, id);
    assert forall|b1: int, k1: int, b2: int, k2: int|
        0 <= b1 < b.buckets.len() && 0 <= k1 < b.buckets[b1].len() && 0 <= b2 < b.buckets.len()
            && 0 <= k2 < b.buckets[b2].len() && #[trigger] b.buckets[b1][k1]
            == #[trigger] b.buckets[b2][k2] implies b1 == b2 && k1 == k2 by {
        if b.buckets[b1][k1] == id {
            if !(b1 == slot && k1 == a.buckets[slot].len()) {
                assert(a.buckets[b1][k1] == id);
                assert(a.holds(b1, id));
            }
            if !(b2 == slot && k2 == a.buckets[slot].len()) {
                assert(a.buckets[b2][k2] == id);
                assert(a.holds(b2, id));
            }
        } else {
            assert(a.buckets[b1][k1] == a.buckets[b2][k2]);
        }
    }
}

/// Taking one entry out of a bucket keeps the index well formed, and the id
/// that was taken out is held nowhere afterwards.
pub proof fn lemma_without_entry(a: IndexSpec, slot: int, k: int)
    requires
        a.wf(),
        0 <= slot < a.buckets.len(),
        0 <= k < a.buckets[slot].len(),
    ensures
        a.without_entry(slot, k).wf(),
        !a.without_entry(slot, k).contains(a.buckets[slot][k]),
{
    let b = a.without_entry(slot, k);
    let id = a.buckets[slot][k];
    let shift = |b1: int, k1: int| if b1 == slot && k1 >= k { k1 + 1 } else { k1 };
    assert forall|b1: int, k1: int|
        0 <= b1 < b.buckets.len() && 0 <= k1 < b.buckets[b1].len() implies #[trigger] b.buckets[b1][k1]
        == a.buckets[b1][shift(b1, k1)] && 0 <= shift(b1, k1) < a.buckets[b1].len() by {}
    assert forall|b1: int, k1: int, b2: int, k2: int|
        0 <= b1 < b.buckets.len() && 0 <= k1 < b.buckets[b1].len() && 0 <= b2 < b.buckets.len()
            && 0 <= k2 < b.buckets[b2].len() && #[trigger] b.buckets[b1][k1]
            == #[trigger] b.buckets[b2][k2] implies b1 == b2 && k1 == k2 by {
        assert(a.buckets[b1][shift(b1, k1)] == a.buckets[b2][shift(b2, k2)]);
    }
    if b.contains(id) {
        let s = choose|s: int| b.holds(s, id);
        let j = b.buckets[s].index_of(id);
        assert(b.buckets[s][j] == a.buckets[s][shift(s, j)]);
        assert(a.buckets[s][shift(s, j)] == a.buckets[slot][k]);
        assert(false);
    }
}

} // verus!
