//! Geometry of the uniform grid: world bounds, the cell that holds a point,
//! and the slot of a cell in the row-major bucket array.

use vstd::prelude::*;

verus! {

/// A position in whole world units.
#[derive(Clone, Copy, Debug, PartialEq, Eq, Structural)]
pub struct Point {
    pub x: i32,
    pub y: i32,
}

/// Mathematical model of a grid: a world of `width` by `height` units cut
/// into square cells with side `cell`.
pub struct GridSpec {
    pub width: int,
    pub height: int,
    pub cell: int,
}

/// Quotient rounded toward zero, for a positive divisor.
pub open spec fn div_toward_zero(a: int, d: int) -> int {
    if a >= 0 {
        a / d
    } else {
        -((-a) / d)
    }
}

impl GridSpec {
    /// Number of cells in one row: the width divided by the cell side,
    /// rounded up.
    pub open spec fn per_row(self) -> int {
        (self.width + self.cell - 1) / self.cell
    }

    /// Number of cells in one column.
    pub open spec fn per_column(self) -> int {
        (self.height + self.cell - 1) / self.cell
    }

    pub open spec fn bucket_count(self) -> int {
        self.per_row() * self.per_column()
    }

    pub open spec fn wf(self) -> bool {
        &&& 0 < self.width <= i32::MAX
        &&& 0 < self.height <= i32::MAX
        &&& 0 < self.cell <= i32::MAX
        &&& self.bucket_count() <= i32::MAX
    }

    pub open spec fn in_bounds(self, p: Point) -> bool {
        &&& 0 <= p.x < self.width
        &&& 0 <= p.y < self.height
    }

    /// Column of the cell that holds a point with this `x`.
    pub open spec fn column_of(self, x: int) -> int {
        x / self.cell
    }

    /// Row of the cell that holds a point with this `y`.
    pub open spec fn row_of(self, y: int) -> int {
        y / self.cell
    }

    pub open spec fn cell_in_grid(self, column: int, row: int) -> bool {
        &&& 0 <= column < self.per_row()
        &&& 0 <= row < self.per_column()
    }

    /// Slot of a cell in the row-major bucket array.
    pub open spec fn slot(self, column: int, row: int) -> int {
        column + row * self.per_row()
    }

    /// Lowest coordinate within `radius` of `v` that is still in the world.
    pub open spec fn reach_low(v: int, radius: int) -> int {
        if v - radius >= 0 {
            v - radius
        } else {
            0
        }
    }

    /// Highest coordinate within `radius` of `v` that is still below `extent`.
    pub open spec fn reach_high(v: int, radius: int, extent: int) -> int {
        if v + radius <= extent - 1 {
            v + radius
        } else {
            extent - 1
        }
    }

    /// Whether the cell at `column`, `row` meets the square that reaches
    /// `radius` units from `p` in each direction.
    pub open spec fn in_block(self, p: Point, radius: int, column: int, row: int) -> bool {
        &&& radius >= 0
        &&& self.cell_in_grid(column, row)
        &&& self.column_of(Self::reach_low(p.x as int, radius)) <= column <= self.column_of(
            Self::reach_high(p.x as int, radius, self.width),
        )
        &&& self.row_of(Self::reach_low(p.y as int, radius)) <= row <= self.row_of(
            Self::reach_high(p.y as int, radius, self.height),
        )
    }

    /// Slot of the bucket that holds a point.
    pub open spec fn slot_of(self, p: Point) -> int {
        self.slot(self.column_of(p.x as int), self.row_of(p.y as int))
    }
}

/// `glam::IVec2` divided by an `i32`: each component is divided on its own,
/// rounding toward zero. The outside operator panics on a zero divisor and
/// on `i32::MIN / -1`; a positive divisor rules both out.
#[verifier::external_body]
pub(crate) fn ivec2_div(x: i32, y: i32, d: i32) -> (q: (i32, i32))
    requires
        d > 0,
    ensures
        q.0 == div_toward_zero(x as int, d as int),
        q.1 == div_toward_zero(y as int, d as int),
{
    let v = glam::IVec2::new(x, y) / d;
    (v.x, v.y)
}

/// Along one axis: a coordinate inside the world falls into one of the
/// cells that cover the world.
pub proof fn lemma_div_bounds(x: int, w: int, c: int)
    requires
        0 <= x < w,
        0 < c,
    ensures
        0 <= x / c < (w + c - 1) / c,
        x / c <= x,
{
    vstd::arithmetic::div_mod::lemma_fundamental_div_mod(x, c);
    vstd::arithmetic::div_mod::lemma_fundamental_div_mod(w + c - 1, c);
    let q = x / c;
    let r = (w + c - 1) / c;
    assert(0 <= q) by (nonlinear_arith)
        requires
            q == x / c,
            0 <= x,
            0 < c,
    ;
    assert(q < r) by (nonlinear_arith)
        requires
            x == c * q + x % c,
            w + c - 1 == c * r + (w + c - 1) % c,
            0 <= x % c < c,
            0 <= (w + c - 1) % c < c,
            x < w,
            0 < c,
    ;
    assert(q <= x) by (nonlinear_arith)
        requires
            x == c * q + x % c,
            0 <= x % c,
            0 <= q,
            0 < c,
    ;
}

/// The cell of a point in bounds lies in the grid.
pub proof fn lemma_cell_in_grid(g: GridSpec, p: Point)
    requires
        g.wf(),
        g.in_bounds(p),
    ensures
        g.cell_in_grid(g.column_of(p.x as int), g.row_of(p.y as int)),
        0 <= g.slot_of(p) < g.bucket_count(),
{
    lemma_div_bounds(p.x as int, g.width, g.cell);
    lemma_div_bounds(p.y as int, g.height, g.cell);
    lemma_slot_in_range(g, g.column_of(p.x as int), g.row_of(p.y as int));
}

/// A cell of the grid has a slot in the bucket array.
pub proof fn lemma_slot_in_range(g: GridSpec, column: int, row: int)
    requires
        g.cell_in_grid(column, row),
    ensures
        0 <= g.slot(column, row) < g.bucket_count(),
        0 <= row * g.per_row() <= g.slot(column, row),
{
    let n = g.per_row();
    let m = g.per_column();
    assert(0 <= row * n && column + row * n < n * m) by (nonlinear_arith)
        requires
            0 <= column < n,
            0 <= row < m,
    ;
}

/// Two cells of the grid with the same slot are the same cell.
pub proof fn lemma_slot_injective(g: GridSpec, c1: int, r1: int, c2: int, r2: int)
    requires
        g.cell_in_grid(c1, r1),
        g.cell_in_grid(c2, r2),
        g.slot(c1, r1) == g.slot(c2, r2),
    ensures
        c1 == c2,
        r1 == r2,
{
    let n = g.per_row();
    assert(r1 == r2) by (nonlinear_arith)
        requires
            0 <= c1 < n,
            0 <= c2 < n,
            c1 + r1 * n == c2 + r2 * n,
    ;
}

/// The block around a point takes in the cell of every point of the world
/// that lies within `radius` of it along both axes.
pub proof fn lemma_block_covers(g: GridSpec, p: Point, radius: int, q: Point)
    requires
        g.wf(),
        g.in_bounds(p),
        g.in_bounds(q),
        -radius <= q.x - p.x <= radius,
        -radius <= q.y - p.y <= radius,
    ensures
        g.in_block(p, radius, g.column_of(q.x as int), g.row_of(q.y as int)),
{
    lemma_cell_in_grid(g, q);
    let c = g.cell;
    vstd::arithmetic::div_mod::lemma_div_is_ordered(
        GridSpec::reach_low(p.x as int, radius),
        q.x as int,
        c,
    );
    vstd::arithmetic::div_mod::lemma_div_is_ordered(
        q.x as int,
        GridSpec::reach_high(p.x as int, radius, g.width),
        c,
    );
    vstd::arithmetic::div_mod::lemma_div_is_ordered(
        GridSpec::reach_low(p.y as int, radius),
        q.y as int,
        c,
    );
    vstd::arithmetic::div_mod::lemma_div_is_ordered(
        q.y as int,
        GridSpec::reach_high(p.y as int, radius, g.height),
        c,
    );
}

/// With a radius of one cell side, the block is the cell of the point and
/// the cells that touch it.
pub proof fn lemma_block_of_one_cell(g: GridSpec, p: Point, column: int, row: int)
    requires
        g.wf(),
        g.in_bounds(p),
    ensures
        g.in_block(p, g.cell, column, row) <==> {
            &&& g.cell_in_grid(column, row)
            &&& g.column_of(p.x as int) - 1 <= column <= g.column_of(p.x as int) + 1
            &&& g.row_of(p.y as int) - 1 <= row <= g.row_of(p.y as int) + 1
        },
{
    lemma_reach_of_one_cell(p.x as int, g.width, g.cell);
    lemma_reach_of_one_cell(p.y as int, g.height, g.cell);
}

/// Along one axis: a reach of one cell side ends one cell away, or at the
/// edge of the world.
pub proof fn lemma_reach_of_one_cell(v: int, extent: int, c: int)
    requires
        0 <= v < extent,
        0 < c,
    ensures
        GridSpec::reach_low(v, c) / c == if v / c >= 1 {
            v / c - 1
        } else {
            0
        },
        GridSpec::reach_high(v, c, extent) / c == if v / c + 1 <= (extent - 1) / c {
            v / c + 1
        } else {
            (extent - 1) / c
        },
        v / c <= (extent - 1) / c,
        (extent - 1) / c + 1 == (extent + c - 1) / c,
{
    vstd::arithmetic::div_mod::lemma_fundamental_div_mod(extent + c - 1, c);
    vstd::arithmetic::div_mod::lemma_fundamental_div_mod(extent - 1, c);
    assert((extent - 1) / c + 1 == (extent + c - 1) / c) by (nonlinear_arith)
        requires
            extent - 1 == c * ((extent - 1) / c) + (extent - 1) % c,
            extent + c - 1 == c * ((extent + c - 1) / c) + (extent + c - 1) % c,
            0 <= (extent - 1) % c < c,
            0 <= (extent + c - 1) % c < c,
            0 < c,
    ;
    lemma_div_bounds(v, extent, c);
    lemma_div_bounds(extent - 1, extent, c);
    vstd::arithmetic::div_mod::lemma_div_is_ordered(v, extent - 1, c);
    vstd::arithmetic::div_mod::lemma_fundamental_div_mod(v, c);
    let q = v / c;
    let e = (extent - 1) / c;
    if v - c >= 0 {
        vstd::arithmetic::div_mod::lemma_fundamental_div_mod(v - c, c);
        let a = (v - c) / c;
        assert(a == q - 1) by (nonlinear_arith)
            requires
                v == c * q + v % c,
                v - c == c * a + (v - c) % c,
                0 <= v % c < c,
                0 <= (v - c) % c < c,
                0 < c,
        ;
    } else {
        assert(q == 0) by (nonlinear_arith)
            requires
                v == c * q + v % c,
                0 <= v % c,
                v < c,
                0 <= q,
                0 < c,
        ;
    }
    if v + c <= extent - 1 {
        vstd::arithmetic::div_mod::lemma_fundamental_div_mod(v + c, c);
        vstd::arithmetic::div_mod::lemma_div_is_ordered(v + c, extent - 1, c);
        let b = (v + c) / c;
        assert(b == q + 1) by (nonlinear_arith)
            requires
                v == c * q + v % c,
                v + c == c * b + (v + c) % c,
                0 <= v % c < c,
                0 <= (v + c) % c < c,
                0 < c,
        ;
    } else {
        assert(e <= q + 1) by (nonlinear_arith)
            requires
                v == c * q + v % c,
                extent - 1 == c * e + (extent - 1) % c,
                0 <= v % c < c,
                0 <= (extent - 1) % c < c,
                extent - 1 < v + c,
                0 < c,
        ;
    }
}

/// Why a grid cannot be built.
#[derive(Clone, Copy, Debug, PartialEq, Eq, Structural)]
pub enum GridError {
    /// The world's width or height is zero or negative.
    NonPositiveWorld,
    /// The cell side is zero or negative.
    NonPositiveCell,
    /// The grid would have more than `i32::MAX` cells.
    TooManyCells,
}

/// What `Grid::new` owes for these dimensions.
pub open spec fn grid_outcome(width: int, height: int, cell: int) -> Result<GridSpec, GridError> {
    let g = GridSpec { width, height, cell };
    if width <= 0 || height <= 0 {
        Err(GridError::NonPositiveWorld)
    } else if cell <= 0 {
        Err(GridError::NonPositiveCell)
    } else if g.bucket_count() > i32::MAX {
        Err(GridError::TooManyCells)
    } else {
        Ok(g)
    }
}

/// A rectangle of cells, by its first and last column and row.
#[derive(Clone, Copy, Debug, PartialEq, Eq, Structural)]
pub struct Block {
    pub first_column: i32,
    pub last_column: i32,
    pub first_row: i32,
    pub last_row: i32,
}

/// World bounds and cell side of a uniform grid.
#[derive(Clone, Copy, Debug)]
pub struct Grid {
    width: i32,
    height: i32,
    cell: i32,
    per_row: i32,
    per_column: i32,
}

impl View for Grid {
    type V = GridSpec;

    closed spec fn view(&self) -> GridSpec {
        GridSpec { width: self.width as int, height: self.height as int, cell: self.cell as int }
    }
}

/// Number of cells of side `cell` needed to cover `extent` units.
fn cells_to_cover(extent: i32, cell: i32) -> (n: i32)
    requires
        0 < extent,
        0 < cell,
    ensures
        n == (extent + cell - 1) / (cell as int),
        0 < n <= extent,
{
    let whole: i32 = extent / cell;
    let rest: i32 = extent % cell;
    proof {
        let e = extent as int;
        let c = cell as int;
        vstd::arithmetic::div_mod::lemma_fundamental_div_mod(e, c);
        vstd::arithmetic::div_mod::lemma_fundamental_div_mod(e + c - 1, c);
        let q = e / c;
        let r = (e + c - 1) / c;
        assert(0 <= q <= e) by (nonlinear_arith)
            requires
                e == c * q + e % c,
                0 <= e % c < c,
                0 < e,
                0 < c,
        ;
        assert(e % c == 0 ==> r == q) by (nonlinear_arith)
            requires
                e == c * q + e % c,
                e + c - 1 == c * r + (e + c - 1) % c,
                0 <= (e + c - 1) % c < c,
                0 < c,
        ;
        assert(e % c != 0 ==> r == q + 1) by (nonlinear_arith)
            requires
                e == c * q + e % c,
                e + c - 1 == c * r + (e + c - 1) % c,
                0 <= e % c < c,
                0 <= (e + c - 1) % c < c,
                0 < c,
        ;
        assert(e % c != 0 ==> q + 1 <= e) by (nonlinear_arith)
            requires
                e == c * q + e % c,
                0 <= e % c < c,
                0 <= q,
                0 < c,
        ;
        assert(e % c == 0 ==> q >= 1) by (nonlinear_arith)
            requires
                e == c * q + e % c,
                0 < e,
                0 < c,
        ;
    }
    if rest == 0 {
        whole
    } else {
        whole + 1
    }
}

impl Grid {
    pub closed spec fn wf(&self) -> bool {
        &&& self@.wf()
        &&& self.per_row == self@.per_row()
        &&& self.per_column == self@.per_column()
    }

    /// A well-formed grid has a well-formed model.
    pub proof fn lemma_wf(&self)
        requires
            self.wf(),
        ensures
            self@.wf(),
    {
    }

    /// Builds the grid for a world of `width` by `height` units with cells of
    /// side `cell`. The last column and row may reach past the world's edge.
    pub fn new(width: i32, height: i32, cell: i32) -> (r: Result<Grid, GridError>)
        ensures
            match r {
                Ok(g) => g.wf() && grid_outcome(width as int, height as int, cell as int) == Ok::<
                    GridSpec,
                    GridError,
                >(g@),
                Err(e) => grid_outcome(width as int, height as int, cell as int) == Err::<
                    GridSpec,
                    GridError,
                >(e),
            },
    {
        if width <= 0 || height <= 0 {
            return Err(GridError::NonPositiveWorld);
        }
        if cell <= 0 {
            return Err(GridError::NonPositiveCell);
        }
        let per_row: i32 = cells_to_cover(width, cell);
        let per_column: i32 = cells_to_cover(height, cell);
        assert(0 <= per_row * per_column <= 0x7fff_ffff * 0x7fff_ffff) by (nonlinear_arith)
            requires
                0 < per_row <= 0x7fff_ffff,
                0 < per_column <= 0x7fff_ffff,
        ;
        let count: i64 = (per_row as i64) * (per_column as i64);
        if count > 0x7fff_ffff {
            return Err(GridError::TooManyCells);
        }
        Ok(Grid { width, height, cell, per_row, per_column })
    }

    /// Width of the world.
    pub fn width(&self) -> (w: i32)
        ensures
            w == self@.width,
    {
        self.width
    }

    /// Height of the world.
    pub fn height(&self) -> (h: i32)
        ensures
            h == self@.height,
    {
        self.height
    }

    /// Side of a cell.
    pub fn cell_size(&self) -> (c: i32)
        ensures
            c == self@.cell,
    {
        self.cell
    }

    /// Number of cells in one row.
    pub fn buckets_per_row(&self) -> (n: i32)
        requires
            self.wf(),
        ensures
            n == self@.per_row(),
    {
        self.per_row
    }

    /// Number of cells in one column.
    pub fn buckets_per_column(&self) -> (n: i32)
        requires
            self.wf(),
        ensures
            n == self@.per_column(),
    {
        self.per_column
    }

    /// Number of buckets that the grid needs: one per cell.
    pub fn bucket_count(&self) -> (n: usize)
        requires
            self.wf(),
        ensures
            n == self@.bucket_count(),
    {
        assert(0 <= self.per_row * self.per_column) by (nonlinear_arith)
            requires
                0 <= self.per_row,
                0 <= self.per_column,
        ;
        (self.per_row * self.per_column) as usize
    }

    /// Whether the point lies inside the world.
    pub fn in_bounds(&self, p: Point) -> (b: bool)
        ensures
            b == self@.in_bounds(p),
    {
        0 <= p.x && p.x < self.width && 0 <= p.y && p.y < self.height
    }

    /// Column and row of the cell that holds `p`, or `None` for a point
    /// outside the world.
    pub fn cell_of(&self, p: Point) -> (c: Option<(i32, i32)>)
        requires
            self.wf(),
        ensures
            c is Some <==> self@.in_bounds(p),
            c matches Some(cell) ==> {
                &&& cell.0 == self@.column_of(p.x as int)
                &&& cell.1 == self@.row_of(p.y as int)
                &&& self@.cell_in_grid(cell.0 as int, cell.1 as int)
            },
    {
        if !self.in_bounds(p) {
            return None;
        }
        proof {
            lemma_cell_in_grid(self@, p);
        }
        Some(ivec2_div(p.x, p.y, self.cell))
    }

    /// The cells that meet the square reaching `radius` units from `p` in
    /// each direction, cut off at the world's edge; `None` for a point
    /// outside the world or a negative radius.
    pub fn block_around(&self, p: Point, radius: i32) -> (r: Option<Block>)
        requires
            self.wf(),
        ensures
            r is Some <==> self@.in_bounds(p) && radius >= 0,
            r matches Some(b) ==> {
                &&& b.first_column == self@.column_of(
                    GridSpec::reach_low(p.x as int, radius as int),
                )
                &&& b.last_column == self@.column_of(
                    GridSpec::reach_high(p.x as int, radius as int, self@.width),
                )
                &&& b.first_row == self@.row_of(GridSpec::reach_low(p.y as int, radius as int))
                &&& b.last_row == self@.row_of(
                    GridSpec::reach_high(p.y as int, radius as int, self@.height),
                )
                &&& 0 <= b.first_column <= b.last_column < self@.per_row()
                &&& 0 <= b.first_row <= b.last_row < self@.per_column()
            },
    {
        if !self.in_bounds(p) || radius < 0 {
            return None;
        }
        let low_x: i32 = if p.x >= radius {
            p.x - radius
        } else {
            0
        };
        let low_y: i32 = if p.y >= radius {
            p.y - radius
        } else {
            0
        };
        let high_x: i32 = if radius <= self.width - 1 - p.x {
            p.x + radius
        } else {
            self.width - 1
        };
        let high_y: i32 = if radius <= self.height - 1 - p.y {
            p.y + radius
        } else {
            self.height - 1
        };
        let first = ivec2_div(low_x, low_y, self.cell);
        let last = ivec2_div(high_x, high_y, self.cell);
        proof {
            let c = self.cell as int;
            lemma_div_bounds(low_x as int, self@.width, c);
            lemma_div_bounds(low_y as int, self@.height, c);
            lemma_div_bounds(high_x as int, self@.width, c);
            lemma_div_bounds(high_y as int, self@.height, c);
            vstd::arithmetic::div_mod::lemma_div_is_ordered(low_x as int, high_x as int, c);
            vstd::arithmetic::div_mod::lemma_div_is_ordered(low_y as int, high_y as int, c);
        }
        Some(
            Block {
                first_column: first.0,
                last_column: last.0,
                first_row: first.1,
                last_row: last.1,
            },
        )
    }

    /// Slot of the cell at `column`, `row` in the row-major bucket array.
    pub fn get_bucket_index(&self, column: i32, row: i32) -> (slot: usize)
        requires
            self.wf(),
            self@.cell_in_grid(column as int, row as int),
        ensures
            slot == self@.slot(column as int, row as int),
            slot < self@.bucket_count(),
    {
        proof {
            lemma_slot_in_range(self@, column as int, row as int);
        }
        (column + row * self.per_row) as usize
    }
}

} // verus!
