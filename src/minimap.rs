//! A top-down map of the maze, drawn in the corner of the screen, with the
//! player's position marked.
use crate::caster::world_units;
use crate::framebuffer::{lemma_pixel_index, paint, Block, Framebuffer};
use crate::maze::{cols, is_wall, maze_fits, rows, MAX_EXTENT, SUBUNITS};
use crate::player::Player;
use vstd::prelude::*;

verus! {

/// Pixels between the map and the top left corner of the screen.
pub const MINIMAP_MARGIN: i64 = 10;

pub const MINIMAP_WALL: u32 = 0x808080;

pub const MINIMAP_OPEN: u32 = 0x000000;

pub const MINIMAP_PLAYER: u32 = 0xFF0000;

/// The square that stands for cell `n`, in row-major order, of the maze, drawn
/// at `1 / shrink` of its size in the world.
pub open spec fn minimap_cell(maze: Seq<Vec<char>>, block_size: int, shrink: int, n: int) -> Block {
    let i = n % cols(maze);
    let j = n / cols(maze);
    Block {
        x: MINIMAP_MARGIN + i * block_size / shrink,
        y: MINIMAP_MARGIN + j * block_size / shrink,
        w: block_size / shrink,
        h: block_size / shrink,
        color: if is_wall(maze, i, j) {
            MINIMAP_WALL
        } else {
            MINIMAP_OPEN
        },
    }
}

/// The square, half a cell wide, that marks the player.
pub open spec fn minimap_marker(player: Player, block_size: int, shrink: int) -> Block {
    Block {
        x: MINIMAP_MARGIN + world_units(player.x as int) / shrink,
        y: MINIMAP_MARGIN + world_units(player.y as int) / shrink,
        w: block_size / shrink / 2,
        h: block_size / shrink / 2,
        color: MINIMAP_PLAYER,
    }
}

/// Every cell of the maze, row by row, then the player's marker.
pub open spec fn minimap_blocks(maze: Seq<Vec<char>>, block_size: int, shrink: int, player: Player) -> Seq<Block> {
    Seq::new((rows(maze) * cols(maze)) as nat, |n: int| minimap_cell(maze, block_size, shrink, n)).push(
        minimap_marker(player, block_size, shrink),
    )
}

/// Draws the map of the maze at `1 / shrink` of its size in the world.
pub fn draw_minimap(
    framebuffer: &mut Framebuffer,
    player: &Player,
    maze: &Vec<Vec<char>>,
    block_size: usize,
    shrink: usize,
)
    requires
        old(framebuffer).wf(),
        maze_fits(maze@, block_size as int),
        shrink > 0,
    ensures
        final(framebuffer).wf(),
        final(framebuffer).width == old(framebuffer).width,
        final(framebuffer).height == old(framebuffer).height,
        final(framebuffer).background_color == old(framebuffer).background_color,
        final(framebuffer).current_color == old(framebuffer).current_color,
        final(framebuffer).buffer@ == paint(
            old(framebuffer).buffer@,
            old(framebuffer).width as int,
            minimap_blocks(maze@, block_size as int, shrink as int, *player),
        ),
{
    let ghost w = framebuffer.width as int;
    let ghost bs = block_size as int;
    let ghost sh = shrink as int;
    let ghost cells = |n: int| minimap_cell(maze@, bs, sh, n);
    let ncols = maze[0].len();
    let nrows = maze.len();
    assert(ncols * bs * SUBUNITS <= MAX_EXTENT);
    assert(nrows * bs * SUBUNITS <= MAX_EXTENT);
    assert(ncols * bs <= ncols * bs * SUBUNITS && nrows * bs <= nrows * bs * SUBUNITS)
        by (nonlinear_arith)
        requires
            ncols >= 1,
            nrows >= 1,
            bs >= 1,
            SUBUNITS == 256,
    ;
    assert(bs <= ncols * bs) by (nonlinear_arith)
        requires
            ncols >= 1,
            bs >= 1,
    ;
    proof {
        vstd::arithmetic::div_mod::lemma_div_is_ordered_by_denominator(bs, 1, sh);
    }
    let size: i64 = (block_size / shrink) as i64;
    let mut j: usize = 0;
    proof {
        assert(framebuffer.buffer@ =~= paint(old(framebuffer).buffer@, w, Seq::new(0, cells)));
    }
    while j < nrows
        invariant
            framebuffer.wf(),
            framebuffer.width == old(framebuffer).width,
            framebuffer.height == old(framebuffer).height,
            framebuffer.background_color == old(framebuffer).background_color,
            framebuffer.current_color == old(framebuffer).current_color,
            maze_fits(maze@, bs),
            bs == block_size,
            sh == shrink,
            shrink > 0,
            w == framebuffer.width,
            ncols == cols(maze@),
            nrows == rows(maze@),
            ncols * bs <= MAX_EXTENT,
            nrows * bs <= MAX_EXTENT,
            size == bs / sh,
            cells == (|n: int| minimap_cell(maze@, bs, sh, n)),
            j <= nrows,
            framebuffer.buffer@ == paint(old(framebuffer).buffer@, w, Seq::new((j * ncols) as nat, cells)),
        decreases nrows - j,
    {
        let mut i: usize = 0;
        assert(j * ncols + 0 == j * ncols);
        while i < ncols
            invariant
                framebuffer.wf(),
                framebuffer.width == old(framebuffer).width,
                framebuffer.height == old(framebuffer).height,
                framebuffer.background_color == old(framebuffer).background_color,
                framebuffer.current_color == old(framebuffer).current_color,
                maze_fits(maze@, bs),
                bs == block_size,
                sh == shrink,
                shrink > 0,
                w == framebuffer.width,
                ncols == cols(maze@),
                nrows == rows(maze@),
                ncols * bs <= MAX_EXTENT,
                nrows * bs <= MAX_EXTENT,
                size == bs / sh,
                cells == (|n: int| minimap_cell(maze@, bs, sh, n)),
                j < nrows,
                i <= ncols,
                framebuffer.buffer@ == paint(
                    old(framebuffer).buffer@,
                    w,
                    Seq::new((j * ncols + i) as nat, cells),
                ),
            decreases ncols - i,
        {
            proof {
                lemma_pixel_index(i as int, j as int, ncols as int, nrows as int);
            }
            assert(i * bs <= ncols * bs && j * bs <= nrows * bs) by (nonlinear_arith)
                requires
                    i < ncols,
                    j < nrows,
                    bs >= 1,
            ;
            assert(0 <= i * bs && 0 <= j * bs) by (nonlinear_arith)
                requires
                    bs >= 1,
            ;
            proof {
                vstd::arithmetic::div_mod::lemma_div_is_ordered_by_denominator(i * bs, 1, sh);
                vstd::arithmetic::div_mod::lemma_div_is_ordered_by_denominator(j * bs, 1, sh);
            }
            let x = MINIMAP_MARGIN + (((i as u64) * (block_size as u64)) / (shrink as u64)) as i64;
            let y = MINIMAP_MARGIN + (((j as u64) * (block_size as u64)) / (shrink as u64)) as i64;
            let color = if maze[j][i] != ' ' { MINIMAP_WALL } else { MINIMAP_OPEN };
            framebuffer.fill_block(x, y, size, size, color);
            proof {
                let n = j * ncols + i;
                assert(Seq::new((n + 1) as nat, cells).drop_last() =~= Seq::new(n as nat, cells));
                assert(Seq::new((n + 1) as nat, cells).last() == minimap_cell(maze@, bs, sh, n));
            }
            i += 1;
        }
        assert(j * ncols + ncols == (j + 1) * ncols) by (nonlinear_arith);
        j += 1;
    }
    let px: i64 = if player.x < 0 { 0 } else { player.x / SUBUNITS };
    let py: i64 = if player.y < 0 { 0 } else { player.y / SUBUNITS };
    let marker: i64 = size / 2;
    proof {
        let all = Seq::new((nrows * ncols) as nat, cells);
        assert(all.push(minimap_marker(*player, bs, sh)).drop_last() =~= all);
        assert((nrows * ncols) as nat == (j * ncols) as nat);
    }
    let mx = ((px as u64) / (shrink as u64)) as i64;
    let my = ((py as u64) / (shrink as u64)) as i64;
    framebuffer.fill_block(
        MINIMAP_MARGIN + mx,
        MINIMAP_MARGIN + my,
        marker,
        marker,
        MINIMAP_PLAYER,
    );
}

} // verus!
