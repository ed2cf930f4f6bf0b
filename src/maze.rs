//! The maze: a rectangular grid of cells, each either open (`' '`) or a wall
//! (any other character), with square cells `block_size` world units wide.
//!
//! Positions in the world are fixed-point: `SUBUNITS` of them make one world
//! unit, so a cell spans `block_size * SUBUNITS` of them.
use vstd::prelude::*;

verus! {

/// Fixed-point subdivisions of one world unit.
pub const SUBUNITS: i64 = 256;

/// The largest extent, in subunits, that a maze may have along either axis,
/// so that positions within it and a march across it fit the integer types.
pub const MAX_EXTENT: i64 = 0x0100_0000_0000_0000;

/// At least one row and one column, and every row as long as the first.
pub open spec fn maze_wf(maze: Seq<Vec<char>>) -> bool {
    &&& maze.len() >= 1
    &&& maze[0]@.len() >= 1
    &&& forall|j: int| 0 <= j < maze.len() ==> #[trigger] maze[j]@.len() == maze[0]@.len()
}

pub open spec fn cols(maze: Seq<Vec<char>>) -> int {
    maze[0]@.len() as int
}

pub open spec fn rows(maze: Seq<Vec<char>>) -> int {
    maze.len() as int
}

/// A well-formed maze whose cells are `block_size` world units wide, and whose
/// extent in subunits stays within `MAX_EXTENT`.
pub open spec fn maze_fits(maze: Seq<Vec<char>>, block_size: int) -> bool {
    &&& maze_wf(maze)
    &&& block_size > 0
    &&& cols(maze) * block_size * SUBUNITS <= MAX_EXTENT
    &&& rows(maze) * block_size * SUBUNITS <= MAX_EXTENT
}

/// The index of the cell, along one axis, that holds the fixed-point
/// coordinate `p`: floor division, so a coordinate on a cell boundary belongs
/// to the cell that starts there, and a negative one to a negative index.
pub open spec fn cell_of(p: int, block_size: int) -> int {
    p / (block_size * SUBUNITS)
}

pub open spec fn in_grid(maze: Seq<Vec<char>>, i: int, j: int) -> bool {
    0 <= i < cols(maze) && 0 <= j < rows(maze)
}

pub open spec fn is_wall(maze: Seq<Vec<char>>, i: int, j: int) -> bool {
    maze[j]@[i] != ' '
}

/// The point (`x`, `y`) lies in the grid, in an open cell.
pub open spec fn is_open_at(maze: Seq<Vec<char>>, block_size: int, x: int, y: int) -> bool {
    let i = cell_of(x, block_size);
    let j = cell_of(y, block_size);
    in_grid(maze, i, j) && !is_wall(maze, i, j)
}

/// A coordinate that is an exact multiple of the cell width lies in exactly
/// the cell that starts there, and the point just before it in the cell
/// before.
pub proof fn lemma_boundary_cell(k: int, block_size: int)
    requires
        block_size > 0,
    ensures
        cell_of(k * (block_size * SUBUNITS), block_size) == k,
        cell_of(k * (block_size * SUBUNITS) - 1, block_size) == k - 1,
{
    let d = block_size * SUBUNITS;
    assert(d > 0) by (nonlinear_arith)
        requires
            d == block_size * SUBUNITS,
            SUBUNITS == 256,
            block_size > 0,
    ;
    vstd::arithmetic::div_mod::lemma_fundamental_div_mod_converse(k * d, d, k, 0);
    assert(k * d - 1 == (k - 1) * d + (d - 1)) by (nonlinear_arith);
    vstd::arithmetic::div_mod::lemma_fundamental_div_mod_converse(k * d - 1, d, k - 1, d - 1);
}

/// A negative coordinate lies at a negative cell index.
pub proof fn lemma_negative_cell(p: int, d: int)
    requires
        p < 0,
        d > 0,
    ensures
        p / d < 0,
{
    vstd::arithmetic::div_mod::lemma_fundamental_div_mod(p, d);
    vstd::arithmetic::div_mod::lemma_mod_bound(p, d);
    let q = p / d;
    assert(q < 0) by (nonlinear_arith)
        requires
            p == d * q + p % d,
            0 <= p % d,
            p < 0,
            d > 0,
    ;
}

/// The cell that holds the point (`x`, `y`), as (column, row), or `None` where
/// the point lies outside the grid.
pub fn cell_at(maze: &Vec<Vec<char>>, block_size: usize, x: i64, y: i64) -> (r: Option<
    (usize, usize),
>)
    requires
        maze_fits(maze@, block_size as int),
    ensures
        r is Some <==> in_grid(maze@, cell_of(x as int, block_size as int), cell_of(y as int, block_size as int)),
        r matches Some((i, j)) ==> i == cell_of(x as int, block_size as int) && j == cell_of(
            y as int,
            block_size as int,
        ),
{
    let ghost d = block_size * SUBUNITS;
    assert(0 < d <= MAX_EXTENT) by (nonlinear_arith)
        requires
            d == block_size * SUBUNITS,
            SUBUNITS == 256,
            block_size > 0,
            cols(maze@) >= 1,
            cols(maze@) * block_size * SUBUNITS <= MAX_EXTENT,
    ;
    let cell = (block_size as i64) * SUBUNITS;
    if x < 0 || y < 0 {
        proof {
            if x < 0 {
                lemma_negative_cell(x as int, d);
            } else {
                lemma_negative_cell(y as int, d);
            }
        }
        return None;
    }
    let i = x / cell;
    let j = y / cell;
    let ncols = maze[0].len();
    if (i as u64) < (ncols as u64) && (j as u64) < (maze.len() as u64) {
        Some((i as usize, j as usize))
    } else {
        None
    }
}

/// Whether `maze` is a well-formed grid whose cells, `block_size` world units
/// wide, keep it within `MAX_EXTENT` along both axes.
pub fn maze_fits_check(maze: &Vec<Vec<char>>, block_size: usize) -> (r: bool)
    ensures
        r == maze_fits(maze@, block_size as int),
{
    if maze.len() == 0 || maze[0].len() == 0 || block_size == 0 {
        return false;
    }
    let ncols = maze[0].len();
    let mut j: usize = 0;
    while j < maze.len()
        invariant
            maze@.len() >= 1,
            ncols == maze@[0]@.len(),
            j <= maze@.len(),
            forall|m: int| 0 <= m < j ==> #[trigger] maze@[m]@.len() == ncols,
        decreases maze@.len() - j,
    {
        if maze[j].len() != ncols {
            return false;
        }
        j += 1;
    }
    // MAX_EXTENT is a multiple of SUBUNITS, so the products can be compared
    // with MAX_EXTENT / SUBUNITS without overflow.
    let limit: u128 = (MAX_EXTENT / SUBUNITS) as u128;
    assert(ncols * block_size <= 0xFFFF_FFFF_FFFF_FFFF * 0xFFFF_FFFF_FFFF_FFFFu128)
        by (nonlinear_arith)
        requires
            ncols <= 0xFFFF_FFFF_FFFF_FFFFu64,
            block_size <= 0xFFFF_FFFF_FFFF_FFFFu64,
    ;
    assert(maze@.len() * block_size <= 0xFFFF_FFFF_FFFF_FFFF * 0xFFFF_FFFF_FFFF_FFFFu128)
        by (nonlinear_arith)
        requires
            maze@.len() <= 0xFFFF_FFFF_FFFF_FFFFu64,
            block_size <= 0xFFFF_FFFF_FFFF_FFFFu64,
    ;
    let wide = (ncols as u128) * (block_size as u128);
    let tall = (maze.len() as u128) * (block_size as u128);
    assert(wide <= limit <==> wide * SUBUNITS <= MAX_EXTENT) by (nonlinear_arith)
        requires
            limit * SUBUNITS == MAX_EXTENT,
            SUBUNITS == 256,
    ;
    assert(tall <= limit <==> tall * SUBUNITS <= MAX_EXTENT) by (nonlinear_arith)
        requires
            limit * SUBUNITS == MAX_EXTENT,
            SUBUNITS == 256,
    ;
    wide <= limit && tall <= limit
}

} // verus!
