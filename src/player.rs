//! The player: a fixed-point position in the maze, and a heading and field of
//! view measured in binary angle units (`FULL_TURN` of them make a turn).
use crate::maze::{cell_at, is_open_at, maze_fits};
use vstd::prelude::*;

verus! {

/// Angle units in one full turn.
pub const FULL_TURN: i64 = 65536;

pub struct Player {
    /// Position, in subunits.
    pub x: i64,
    pub y: i64,
    /// Heading, in angle units.
    pub a: i64,
    /// Field of view, in angle units.
    pub fov: i64,
    /// World units covered by one step forward or back.
    pub move_speed: i64,
    /// Angle units turned at a time.
    pub rot_speed: i64,
}

/// The remainder of `v` divided by `m`, with the sign of `v`, as Rust's `%`
/// gives it.
pub open spec fn trunc_rem(v: int, m: int) -> int {
    if v >= 0 {
        v % m
    } else {
        -((-v) % m)
    }
}

/// `v` wrapped into one turn, keeping its sign.
fn wrap_angle(v: i128) -> (r: i64)
    requires
        v > i128::MIN,
    ensures
        r == trunc_rem(v as int, FULL_TURN as int),
{
    if v >= 0 {
        (v % (FULL_TURN as i128)) as i64
    } else {
        let m = (-v) % (FULL_TURN as i128);
        -(m as i64)
    }
}

impl Player {
    /// Moves by (`dx`, `dy`) subunits where that lands in an open cell of the
    /// maze; stays put otherwise.
    fn step_by(&mut self, dx: i128, dy: i128, maze: &Vec<Vec<char>>, block_size: usize)
        requires
            maze_fits(maze@, block_size as int),
            -0x1_0000_0000_0000_0000 <= dx <= 0x1_0000_0000_0000_0000,
            -0x1_0000_0000_0000_0000 <= dy <= 0x1_0000_0000_0000_0000,
        ensures
            ({
                let nx = old(self).x + dx;
                let ny = old(self).y + dy;
                *final(self) == if is_open_at(maze@, block_size as int, nx, ny) {
                    Player { x: nx as i64, y: ny as i64, ..*old(self) }
                } else {
                    *old(self)
                }
            }),
    {
        let nx = self.x as i128 + dx;
        let ny = self.y as i128 + dy;
        if nx < i64::MIN as i128 || nx > i64::MAX as i128 || ny < i64::MIN as i128 || ny
            > i64::MAX as i128 {
            proof {
                lemma_far_point_outside(maze@, block_size as int, nx as int, ny as int);
            }
            return;
        }
        match cell_at(maze, block_size, nx as i64, ny as i64) {
            Some((i, j)) => {
                if maze[j][i] == ' ' {
                    self.x = nx as i64;
                    self.y = ny as i64;
                }
            },
            None => {},
        }
    }

    /// Moves forward by the displacement (`dx`, `dy`), in subunits, of one
    /// step along the heading, unless that would leave the open cells.
    pub fn move_forward(&mut self, dx: i64, dy: i64, maze: &Vec<Vec<char>>, block_size: usize)
        requires
            maze_fits(maze@, block_size as int),
        ensures
            ({
                let nx = old(self).x + dx;
                let ny = old(self).y + dy;
                *final(self) == if is_open_at(maze@, block_size as int, nx, ny) {
                    Player { x: nx as i64, y: ny as i64, ..*old(self) }
                } else {
                    *old(self)
                }
            }),
    {
        self.step_by(dx as i128, dy as i128, maze, block_size);
    }

    /// Moves back by the displacement (`dx`, `dy`), in subunits, of one step
    /// along the heading, unless that would leave the open cells.
    pub fn move_backward(&mut self, dx: i64, dy: i64, maze: &Vec<Vec<char>>, block_size: usize)
        requires
            maze_fits(maze@, block_size as int),
        ensures
            ({
                let nx = old(self).x - dx;
                let ny = old(self).y - dy;
                *final(self) == if is_open_at(maze@, block_size as int, nx, ny) {
                    Player { x: nx as i64, y: ny as i64, ..*old(self) }
                } else {
                    *old(self)
                }
            }),
    {
        self.step_by(-(dx as i128), -(dy as i128), maze, block_size);
    }

    pub fn rotate_left(&mut self, angle: i64)
        ensures
            *final(self) == (Player {
                a: trunc_rem(old(self).a - angle, FULL_TURN as int) as i64,
                ..*old(self)
            }),
    {
        self.a = wrap_angle(self.a as i128 - angle as i128);
    }

    pub fn rotate_right(&mut self, angle: i64)
        ensures
            *final(self) == (Player {
                a: trunc_rem(old(self).a + angle, FULL_TURN as int) as i64,
                ..*old(self)
            }),
    {
        self.a = wrap_angle(self.a as i128 + angle as i128);
    }
}

/// A point whose coordinates do not fit an `i64` lies outside any maze that
/// fits.
proof fn lemma_far_point_outside(maze: Seq<Vec<char>>, block_size: int, x: int, y: int)
    requires
        maze_fits(maze, block_size),
        x < i64::MIN || x > i64::MAX || y < i64::MIN || y > i64::MAX,
    ensures
        !is_open_at(maze, block_size, x, y),
{
    let d = block_size * crate::maze::SUBUNITS;
    assert(d > 0) by (nonlinear_arith)
        requires
            d == block_size * crate::maze::SUBUNITS,
            crate::maze::SUBUNITS == 256,
            block_size > 0,
    ;
    if x < 0 {
        crate::maze::lemma_negative_cell(x, d);
    } else if y < 0 {
        crate::maze::lemma_negative_cell(y, d);
    } else {
        let n = if x > i64::MAX { crate::maze::cols(maze) } else { crate::maze::rows(maze) };
        let p = if x > i64::MAX { x } else { y };
        assert(n * d <= crate::maze::MAX_EXTENT) by (nonlinear_arith)
            requires
                n == crate::maze::cols(maze) || n == crate::maze::rows(maze),
                crate::maze::cols(maze) * block_size * crate::maze::SUBUNITS <= crate::maze::MAX_EXTENT,
                crate::maze::rows(maze) * block_size * crate::maze::SUBUNITS <= crate::maze::MAX_EXTENT,
                d == block_size * crate::maze::SUBUNITS,
        ;
        vstd::arithmetic::div_mod::lemma_div_is_ordered(n * d, p, d);
        vstd::arithmetic::div_mod::lemma_div_multiples_vanish(n, d);
        assert(d * n == n * d) by (nonlinear_arith);
    }
}

} // verus!
