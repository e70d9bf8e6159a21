//! Where the particles and cursors stand when a run starts.
//!
//! The world is cut into four columns and two rows of blocks, one block per
//! player. A player's particles fill its block from the block's corner,
//! column by column, with a fixed spacing.

use crate::config::{Config, SPACING};
use crate::grid::Point;
use vstd::prelude::*;

verus! {

/// How far a player's cursor starts from its first particle, along each axis.
pub const CURSOR_OFFSET: i64 = 200;

/// Start of the `k`-th particle of `player`.
pub open spec fn layout_point(c: Config, player: int, k: int) -> Point {
    Point {
        x: ((player % 4) * (c.world_width / 4) + (k / c.rows()) * SPACING) as i32,
        y: ((player / 4) * (c.world_height / 2) + (k % c.rows()) * SPACING) as i32,
    }
}

/// Starts of the particles of `player`, in the order of their ids.
pub open spec fn block_positions(c: Config, player: int) -> Seq<Point> {
    Seq::new(c.particles_per_player as nat, |k: int| layout_point(c, player, k))
}

/// Start of every particle, by id: the particles of the first player come
/// first, then those of the second, and so on.
pub open spec fn layout_positions(c: Config) -> Seq<Point> {
    Seq::new(
        c.particle_count() as nat,
        |i: int|
            layout_point(
                c,
                i / (c.particles_per_player as int),
                i % (c.particles_per_player as int),
            ),
    )
}

/// Owner of every particle, by id.
pub open spec fn layout_owners(c: Config) -> Seq<usize> {
    Seq::new(c.particle_count() as nat, |i: int| (i / (c.particles_per_player as int)) as usize)
}

/// Start of the cursor of `player`.
pub open spec fn cursor_point(c: Config, player: int) -> (int, int) {
    (
        layout_point(c, player, 0).x + CURSOR_OFFSET,
        layout_point(c, player, 0).y + CURSOR_OFFSET,
    )
}

/// Every start position lies inside the world, at the coordinates that the
/// layout's formula gives.
pub proof fn lemma_layout_in_bounds(c: Config, player: int, k: int)
    requires
        c.valid(),
        0 <= player < c.player_count,
        0 <= k < c.particles_per_player,
    ensures
        c.grid().in_bounds(layout_point(c, player, k)),
        layout_point(c, player, k).x == (player % 4) * (c.world_width / 4) + (k / c.rows())
            * SPACING,
        layout_point(c, player, k).y == (player / 4) * (c.world_height / 2) + (k % c.rows())
            * SPACING,
        0 < c.rows(),
        0 <= k / c.rows() < c.columns(),
        0 <= k % c.rows() < c.rows(),
{
    let w = c.world_width as int;
    let h = c.world_height as int;
    let rows = c.rows();
    let columns = c.columns();
    assert(0 <= columns && 0 <= rows);
    assert(k < columns * rows);
    assert(rows > 0) by (nonlinear_arith)
        requires
            0 <= k < columns * rows,
            0 <= columns,
            0 <= rows,
    ;
    vstd::arithmetic::div_mod::lemma_fundamental_div_mod(k, rows);
    let col = k / rows;
    let row = k % rows;
    assert(0 <= col < columns) by (nonlinear_arith)
        requires
            k == rows * col + row,
            0 <= row < rows,
            0 <= k < columns * rows,
    ;
    assert(col * 10 <= (columns - 1) * 10);
    assert(row * 10 <= (rows - 1) * 10);
    assert(0 <= player % 4 <= 3);
    assert(0 <= player / 4 <= 1);
    let bx = (player % 4) * (w / 4);
    let by = (player / 4) * (h / 2);
    assert(0 <= bx <= 3 * (w / 4)) by (nonlinear_arith)
        requires
            bx == (player % 4) * (w / 4),
            0 <= player % 4 <= 3,
            0 <= w / 4,
    ;
    assert(0 <= by <= h / 2) by (nonlinear_arith)
        requires
            by == (player / 4) * (h / 2),
            0 <= player / 4 <= 1,
            0 <= h / 2,
    ;
}

/// Corner of the block of `player`, from which its particles are laid out.
fn block_origin(c: &Config, player: usize) -> (origin: (i32, i32))
    requires
        c.valid(),
        player < c.player_count,
    ensures
        origin.0 == (player % 4) * (c.world_width / 4),
        origin.1 == (player / 4) * (c.world_height / 2),
{
    let across: i32 = (player % 4) as i32;
    let down: i32 = (player / 4) as i32;
    let wide: i32 = c.world_width / 4;
    let high: i32 = c.world_height / 2;
    assert(0 <= across * wide <= 3 * wide) by (nonlinear_arith)
        requires
            0 <= across <= 3,
            0 <= wide,
    ;
    assert(0 <= down * high <= high) by (nonlinear_arith)
        requires
            0 <= down <= 1,
            0 <= high,
    ;
    (across * wide, down * high)
}

/// Starts of the particles of `player`, in the order of their ids.
pub fn block_layout(c: &Config, player: usize) -> (block: Vec<Point>)
    requires
        c.valid(),
        player < c.player_count,
    ensures
        block@ == block_positions(*c, player as int),
{
    let rows: usize = c.layout_rows() as usize;
    let (origin_x, origin_y) = block_origin(c, player);
    let mut block: Vec<Point> = Vec::new();
    let mut k: usize = 0;
    while k < c.particles_per_player
        invariant
            c.valid(),
            player < c.player_count,
            k <= c.particles_per_player,
            rows == c.rows(),
            origin_x == (player % 4) * (c.world_width / 4),
            origin_y == (player / 4) * (c.world_height / 2),
            block@ == Seq::new(k as nat, |j: int| layout_point(*c, player as int, j)),
        decreases c.particles_per_player - k,
    {
        proof {
            lemma_layout_in_bounds(*c, player as int, k as int);
        }
        let column: i32 = (k / rows) as i32;
        let row: i32 = (k % rows) as i32;
        let p = Point { x: origin_x + column * SPACING, y: origin_y + row * SPACING };
        block.push(p);
        k += 1;
        assert(block@ =~= Seq::new(k as nat, |j: int| layout_point(*c, player as int, j)));
    }
    block
}

/// Start of the cursor of `player`: a fixed offset from its first particle.
pub fn cursor_start(c: &Config, player: usize) -> (at: (i64, i64))
    requires
        c.valid(),
        player < c.player_count,
    ensures
        at.0 == cursor_point(*c, player as int).0,
        at.1 == cursor_point(*c, player as int).1,
{
    proof {
        lemma_layout_in_bounds(*c, player as int, 0);
    }
    let (origin_x, origin_y) = block_origin(c, player);
    (origin_x as i64 + CURSOR_OFFSET, origin_y as i64 + CURSOR_OFFSET)
}

} // verus!
