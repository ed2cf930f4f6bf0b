//! The ray marcher: steps a point outward from the player along a ray, a
//! fixed distance at a time, until it enters a wall or leaves the grid.
use crate::maze::{cell_at, cell_of, in_grid, is_wall, maze_fits, MAX_EXTENT, SUBUNITS};
use vstd::prelude::*;

verus! {

/// World units that the marching point advances at each step.
pub const STEP: u64 = 10;

/// The largest step vector component, in subunits, that a ray may have.
pub const MAX_STEP: i64 = 0x1_0000_0000;

/// Subunits in one step: `STEP` world units.
pub const STEP_SUBUNITS: i64 = 2560;

/// The step vector (`sx`, `sy`) is `STEP` world units long, to within two
/// subunits, so that steps times `STEP` is the distance marched.
pub open spec fn step_length_ok(sx: int, sy: int) -> bool {
    (STEP_SUBUNITS - 2) * (STEP_SUBUNITS - 2) <= sx * sx + sy * sy <= (STEP_SUBUNITS + 2) * (
    STEP_SUBUNITS + 2)
}

/// What one ray found.
pub struct RayHit {
    /// World units travelled, a multiple of `STEP`.
    pub distance: u64,
    /// Where the march ended, in whole world units: the point inside the wall
    /// that was hit, or the start of the ray where it left the grid.
    pub x: u64,
    pub y: u64,
    /// Whether the ray ended in a wall rather than leaving the grid.
    pub wall: bool,
}

/// The fixed-point coordinate, along one axis, of the marching point after
/// `k` steps.
pub open spec fn ray_point(p0: int, s: int, k: int) -> int {
    p0 + k * s
}

/// The march ends at step `k`: the point has left the grid or entered a wall.
pub open spec fn ray_stops(
    maze: Seq<Vec<char>>,
    block_size: int,
    x0: int,
    y0: int,
    sx: int,
    sy: int,
    k: int,
) -> bool {
    let i = cell_of(ray_point(x0, sx, k), block_size);
    let j = cell_of(ray_point(y0, sy, k), block_size);
    !in_grid(maze, i, j) || is_wall(maze, i, j)
}

/// The march ends at step `k` and at no step before it.
pub open spec fn is_first_stop(
    maze: Seq<Vec<char>>,
    block_size: int,
    x0: int,
    y0: int,
    sx: int,
    sy: int,
    k: int,
) -> bool {
    &&& 0 <= k
    &&& ray_stops(maze, block_size, x0, y0, sx, sy, k)
    &&& forall|m: int|
        0 <= m < k ==> !#[trigger] ray_stops(maze, block_size, x0, y0, sx, sy, m)
}

/// The step at which the march ends.
pub open spec fn first_stop(
    maze: Seq<Vec<char>>,
    block_size: int,
    x0: int,
    y0: int,
    sx: int,
    sy: int,
) -> int {
    choose|k: int| is_first_stop(maze, block_size, x0, y0, sx, sy, k)
}

/// What the ray from (`x0`, `y0`) with step (`sx`, `sy`) finds.
pub open spec fn ray_hit(
    maze: Seq<Vec<char>>,
    block_size: int,
    x0: int,
    y0: int,
    sx: int,
    sy: int,
) -> RayHit {
    let k = first_stop(maze, block_size, x0, y0, sx, sy);
    let wall = in_grid(
        maze,
        cell_of(ray_point(x0, sx, k), block_size),
        cell_of(ray_point(y0, sy, k), block_size),
    );
    RayHit {
        distance: (k * STEP) as u64,
        x: (if wall {
            world_units(ray_point(x0, sx, k))
        } else {
            world_units(x0)
        }) as u64,
        y: (if wall {
            world_units(ray_point(y0, sy, k))
        } else {
            world_units(y0)
        }) as u64,
        wall,
    }
}

/// At most one step is the first at which the march ends.
pub proof fn lemma_first_stop_unique(
    maze: Seq<Vec<char>>,
    block_size: int,
    x0: int,
    y0: int,
    sx: int,
    sy: int,
    k: int,
)
    requires
        is_first_stop(maze, block_size, x0, y0, sx, sy, k),
    ensures
        first_stop(maze, block_size, x0, y0, sx, sy) == k,
{
    let c = first_stop(maze, block_size, x0, y0, sx, sy);
    assert(is_first_stop(maze, block_size, x0, y0, sx, sy, c));
    if c < k {
        assert(!ray_stops(maze, block_size, x0, y0, sx, sy, c));
    } else if c > k {
        assert(!ray_stops(maze, block_size, x0, y0, sx, sy, k));
    }
}

/// A ray that leaves the grid before it meets a wall ends at the step where
/// it leaves, with the distance marched so far, and reports the start of the
/// ray as its end point.
pub proof fn lemma_ray_leaving_grid(
    maze: Seq<Vec<char>>,
    block_size: int,
    x0: int,
    y0: int,
    sx: int,
    sy: int,
    k: int,
)
    requires
        0 <= k,
        !in_grid(
            maze,
            cell_of(ray_point(x0, sx, k), block_size),
            cell_of(ray_point(y0, sy, k), block_size),
        ),
        forall|m: int| 0 <= m < k ==> !#[trigger] ray_stops(maze, block_size, x0, y0, sx, sy, m),
    ensures
        ray_hit(maze, block_size, x0, y0, sx, sy) == (RayHit {
            distance: (k * STEP) as u64,
            x: world_units(x0) as u64,
            y: world_units(y0) as u64,
            wall: false,
        }),
{
    assert(is_first_stop(maze, block_size, x0, y0, sx, sy, k));
    lemma_first_stop_unique(maze, block_size, x0, y0, sx, sy, k);
}

/// A fixed-point coordinate in whole world units; a negative one counts as 0.
pub open spec fn world_units(p: int) -> int {
    if p < 0 {
        0
    } else {
        p / (SUBUNITS as int)
    }
}

/// Casts a ray from (`x0`, `y0`) that advances by (`sx`, `sy`) subunits, a
/// vector `STEP` world units long, at each step.
pub fn cast_ray(maze: &Vec<Vec<char>>, x0: i64, y0: i64, sx: i64, sy: i64, block_size: usize) -> (r:
    RayHit)
    requires
        maze_fits(maze@, block_size as int),
        step_length_ok(sx as int, sy as int),
        -MAX_STEP <= sx <= MAX_STEP,
        -MAX_STEP <= sy <= MAX_STEP,
    ensures
        r == ray_hit(maze@, block_size as int, x0 as int, y0 as int, sx as int, sy as int),
        r.distance % STEP == 0,
        ({
            let k = (r.distance / STEP) as int;
            let i = cell_of(ray_point(x0 as int, sx as int, k), block_size as int);
            let j = cell_of(ray_point(y0 as int, sy as int, k), block_size as int);
            &&& ray_stops(maze@, block_size as int, x0 as int, y0 as int, sx as int, sy as int, k)
            &&& forall|m: int|
                0 <= m < k ==> !#[trigger] ray_stops(
                    maze@,
                    block_size as int,
                    x0 as int,
                    y0 as int,
                    sx as int,
                    sy as int,
                    m,
                )
            &&& r.wall == in_grid(maze@, i, j)
            &&& r.x == if r.wall {
                world_units(ray_point(x0 as int, sx as int, k))
            } else {
                world_units(x0 as int)
            }
            &&& r.y == if r.wall {
                world_units(ray_point(y0 as int, sy as int, k))
            } else {
                world_units(y0 as int)
            }
        }),
        !ray_stops(maze@, block_size as int, x0 as int, y0 as int, sx as int, sy as int, 0)
            ==> r.distance >= STEP,
{
    let ghost bs = block_size as int;
    let ghost extent_x = maze@[0]@.len() * bs * SUBUNITS;
    let ghost extent_y = maze@.len() * bs * SUBUNITS;
    assert(sx != 0 || sy != 0) by (nonlinear_arith)
        requires
            step_length_ok(sx as int, sy as int),
            STEP_SUBUNITS == 2560,
    ;
    let mut x = x0;
    let mut y = y0;
    let mut k: u64 = 0;
    loop
        invariant
            maze_fits(maze@, bs),
            bs == block_size,
            sx != 0 || sy != 0,
            -MAX_STEP <= sx <= MAX_STEP,
            -MAX_STEP <= sy <= MAX_STEP,
            extent_x == maze@[0]@.len() * bs * SUBUNITS,
            extent_y == maze@.len() * bs * SUBUNITS,
            x == ray_point(x0 as int, sx as int, k as int),
            y == ray_point(y0 as int, sy as int, k as int),
            k > 0 ==> 0 <= x0 < extent_x && 0 <= y0 < extent_y,
            sx > 0 ==> x - x0 >= k,
            sx < 0 ==> x0 - x >= k,
            sx == 0 && sy > 0 ==> y - y0 >= k,
            sx == 0 && sy < 0 ==> y0 - y >= k,
            k > 0 ==> -MAX_STEP <= x <= MAX_EXTENT + MAX_STEP,
            k > 0 ==> -MAX_STEP <= y <= MAX_EXTENT + MAX_STEP,
            k <= MAX_EXTENT,
            forall|m: int|
                0 <= m < k ==> !#[trigger] ray_stops(
                    maze@,
                    bs,
                    x0 as int,
                    y0 as int,
                    sx as int,
                    sy as int,
                    m,
                ),
        decreases march_measure(x as int, y as int, sx as int, sy as int, extent_x, extent_y),
    {
        proof {
            vstd::arithmetic::div_mod::lemma_fundamental_div_mod_converse(
                k * STEP,
                STEP as int,
                k as int,
                0,
            );
        }
        let ghost is_stop = ray_stops(
            maze@,
            bs,
            x0 as int,
            y0 as int,
            sx as int,
            sy as int,
            k as int,
        );
        proof {
            if is_stop {
                assert(is_first_stop(maze@, bs, x0 as int, y0 as int, sx as int, sy as int, k as int));
                lemma_first_stop_unique(maze@, bs, x0 as int, y0 as int, sx as int, sy as int, k as int);
            }
        }
        match cell_at(maze, block_size, x, y) {
            None => {
                let px: u64 = if x0 < 0 { 0 } else { (x0 / SUBUNITS) as u64 };
                let py: u64 = if y0 < 0 { 0 } else { (y0 / SUBUNITS) as u64 };
                return RayHit { distance: k * STEP, x: px, y: py, wall: false };
            },
            Some((i, j)) => {
                proof {
                    lemma_cell_in_extent(x as int, bs, maze@[0]@.len() as int);
                    lemma_cell_in_extent(y as int, bs, maze@.len() as int);
                }
                if maze[j][i] != ' ' {
                    return RayHit {
                        distance: k * STEP,
                        x: (x / SUBUNITS) as u64,
                        y: (y / SUBUNITS) as u64,
                        wall: true,
                    };
                }
            },
        }
        assert(ray_point(x0 as int, sx as int, k + 1) == x + sx) by (nonlinear_arith)
            requires
                x == ray_point(x0 as int, sx as int, k as int),
        ;
        assert(ray_point(y0 as int, sy as int, k + 1) == y + sy) by (nonlinear_arith)
            requires
                y == ray_point(y0 as int, sy as int, k as int),
        ;
        x = x + sx;
        y = y + sy;
        k = k + 1;

    }
}

/// How far the marching point still is from leaving the grid, along an axis
/// on which it moves.
spec fn march_measure(x: int, y: int, sx: int, sy: int, extent_x: int, extent_y: int) -> int {
    if sx > 0 {
        extent_x + MAX_STEP - x
    } else if sx < 0 {
        x + MAX_STEP
    } else if sy > 0 {
        extent_y + MAX_STEP - y
    } else {
        y + MAX_STEP
    }
}

/// A coordinate whose cell index lies in `0..n` lies in the first `n` cells.
proof fn lemma_cell_in_extent(p: int, block_size: int, n: int)
    requires
        block_size > 0,
        0 <= cell_of(p, block_size) < n,
    ensures
        0 <= p < n * block_size * SUBUNITS,
{
    let d = block_size * SUBUNITS;
    assert(d > 0) by (nonlinear_arith)
        requires
            d == block_size * SUBUNITS,
            SUBUNITS == 256,
            block_size > 0,
    ;
    vstd::arithmetic::div_mod::lemma_fundamental_div_mod(p, d);
    vstd::arithmetic::div_mod::lemma_mod_bound(p, d);
    let q = p / d;
    assert(0 <= p < n * d) by (nonlinear_arith)
        requires
            p == d * q + p % d,
            0 <= p % d < d,
            0 <= q < n,
            d > 0,
    ;
    assert(n * d == n * block_size * SUBUNITS) by (nonlinear_arith)
        requires
            d == block_size * SUBUNITS,
    ;
}

} // verus!
